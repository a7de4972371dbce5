//! What the cache promises: floors only ever fall, its text keeps them, and texts can
//! be put together.

use crate::cache::{
    by_id, cache_lines, cache_of_lines, cache_text, empty_cache, floor_line, floor_of,
    lemma_floor_of_with_floor, lemma_with_floor_in_order, lowered, lowered_by, time_line, usable,
    with_floor, with_line, with_words, CacheView, CachedPing, FloorView,
};
use crate::double::Double;
use crate::probe::{
    lemma_method_name_round_trip, method_name, method_named, MeasurementView, ProbeMethod,
};
use crate::text::{
    is_line, is_word, lemma_decimal_round_trip, lemma_lines_of_rows, lemma_lines_of_two,
    lemma_precedes_irreflexive, lemma_precedes_transitive, lemma_split_has_pieces,
    lemma_trim_drop_last, lemma_trim_nothing, lemma_words_first, lemma_words_one, lines, precedes,
    separates, split, trim, unbroken, white, without_return, words, Boundary,
};
use vstd::prelude::*;

verus! {

/// What is read of a time that was written.
pub open spec fn reread(
    time: Double,
    written: spec_fn(Double, u8) -> Seq<char>,
    meaning: spec_fn(Seq<char>) -> Option<Double>,
) -> Option<Double> {
    meaning(written(time, 6))
}

/// What is read of a time that was written, where there is one.
pub open spec fn reread_time(
    time: Option<Double>,
    written: spec_fn(Double, u8) -> Seq<char>,
    meaning: spec_fn(Seq<char>) -> Option<Double>,
) -> Option<Double> {
    match time {
        Some(value) => reread(value, written, meaning),
        None => None,
    }
}

/// What is read of floors that were written: those whose time is still usable.
pub open spec fn reread_floors(
    floors: Seq<FloorView>,
    written: spec_fn(Double, u8) -> Seq<char>,
    meaning: spec_fn(Seq<char>) -> Option<Double>,
) -> Seq<FloorView>
    decreases floors.len(),
{
    if floors.len() == 0 {
        floors
    } else {
        let before = reread_floors(floors.drop_last(), written, meaning);
        let last = floors.last();
        match reread(last.ping.min_ms, written, meaning) {
            Some(min_ms) => if usable(min_ms) {
                before.push(
                    FloorView {
                        id: last.id,
                        ping: CachedPing { method: last.ping.method, min_ms },
                    },
                )
            } else {
                before
            },
            None => before,
        }
    }
}

/// Tells whether each time of the cache is written as one word.
pub open spec fn written_as_words(
    cache: CacheView,
    written: spec_fn(Double, u8) -> Seq<char>,
) -> bool {
    &&& cache.local_rtt_floor_ms matches Some(x) ==> is_word(written(x, 6))
    &&& cache.tcp_bias_ms matches Some(x) ==> is_word(written(x, 6))
    &&& forall|i: int|
        0 <= i < cache.floors.len() ==> is_word(
            written((#[trigger] cache.floors[i]).ping.min_ms, 6),
        )
}

/// Tells whether each id of the cache is one word.
pub open spec fn ids_are_words(cache: CacheView) -> bool {
    forall|i: int| 0 <= i < cache.floors.len() ==> is_word((#[trigger] cache.floors[i]).id)
}

proof fn lemma_tcp_digits(port: u16)
    ensures
        unbroken(crate::probe::tcp_name(port), Boundary::White),
{
    reveal_strlit("tcp/");
    lemma_decimal_round_trip(port as nat);
    let digits = crate::text::decimal(port as nat);
    let name = crate::probe::tcp_name(port);
    assert forall|i: int| 0 <= i < name.len() implies !separates(
        Boundary::White,
        #[trigger] name[i],
    ) by {
        if i >= 4 {
            assert(name[i] == digits[i - 4]);
            assert(crate::text::digit(digits[i - 4]));
        } else {
            assert(name[i] == "tcp/"@[i]);
        }
    }
}

proof fn lemma_method_is_word(method: ProbeMethod)
    ensures
        is_word(method_name(method)),
{
    reveal_strlit("icmp");
    reveal_strlit("tcp/");
    match method {
        ProbeMethod::Icmp => {},
        ProbeMethod::Tcp { port } => {
            lemma_tcp_digits(port);
        },
    }
}

/// A row made of words and single blanks is a line, and needs no trimming.
proof fn lemma_row(row: Seq<char>)
    requires
        row.len() > 0,
        !white(row[0]),
        !white(row.last()),
        forall|i: int| 0 <= i < row.len() ==> white(#[trigger] row[i]) ==> row[i] == ' ',
    ensures
        is_line(row),
        trim(row) == row,
{
    assert forall|i: int| 0 <= i < row.len() implies !separates(
        Boundary::Exactly('\n'),
        #[trigger] row[i],
    ) by {
        assert(white('\n'));
    }
    lemma_trim_nothing(row);
}

proof fn lemma_version_row()
    ensures
        is_line("version 1"@),
        forall|cache: CacheView, meaning: spec_fn(Seq<char>) -> Option<Double>| #[trigger]
            with_line(cache, "version 1"@, meaning) == cache,
{
    reveal_strlit("version 1");
    reveal_strlit("local_rtt_floor_ms");
    reveal_strlit("tcp_bias_ms");
    let row = "version 1"@;
    let first = seq!['v', 'e', 'r', 's', 'i', 'o', 'n'];
    lemma_row(row);
    assert(row =~= first + seq![' '] + seq!['1']);
    lemma_words_first(first, seq!['1']);
    lemma_words_one(seq!['1']);
    assert(words(row) =~= seq![first, seq!['1']]);
    assert(first.len() != "local_rtt_floor_ms"@.len());
    assert(first.len() != "tcp_bias_ms"@.len());
}

proof fn lemma_time_row(key: Seq<char>, number: Seq<char>)
    requires
        is_word(key),
        is_word(number),
    ensures
        is_line(key + seq![' '] + number),
        trim(key + seq![' '] + number) == key + seq![' '] + number,
        words(key + seq![' '] + number) == seq![key, number],
{
    let row = key + seq![' '] + number;
    assert(row[0] == key[0]);
    assert(row.last() == number.last());
    assert forall|i: int| 0 <= i < row.len() && white(#[trigger] row[i]) implies row[i]
        == ' ' by {
        if i < key.len() {
            assert(row[i] == key[i]);
        } else if i > key.len() {
            assert(row[i] == number[i - key.len() - 1]);
        }
    }
    lemma_row(row);
    lemma_words_first(key, number);
    lemma_words_one(number);
    assert(words(row) =~= seq![key, number]);
}

proof fn lemma_floor_row(floor: FloorView, written: spec_fn(Double, u8) -> Seq<char>)
    requires
        is_word(floor.id),
        is_word(written(floor.ping.min_ms, 6)),
    ensures
        is_line(floor_line(floor, written)),
        trim(floor_line(floor, written)) == floor_line(floor, written),
        floor_line(floor, written)[0] == 'a',
        words(floor_line(floor, written)) == seq![
            "anchor"@,
            floor.id,
            method_name(floor.ping.method),
            written(floor.ping.min_ms, 6),
        ],
{
    reveal_strlit("anchor ");
    reveal_strlit("anchor");
    reveal_strlit(" ");
    let key = "anchor"@;
    let name = method_name(floor.ping.method);
    let number = written(floor.ping.min_ms, 6);
    lemma_method_is_word(floor.ping.method);
    let row = floor_line(floor, written);
    let tail = name + seq![' '] + number;
    let most = floor.id + seq![' '] + tail;
    assert(row =~= key + seq![' '] + most);
    lemma_time_row(name, number);
    lemma_words_first(floor.id, tail);
    lemma_words_first(key, most);
    assert(words(row) =~= seq![key, floor.id, name, number]);
    assert(row[0] == key[0]);
    assert(row.last() == number.last());
    assert forall|i: int| 0 <= i < row.len() && white(#[trigger] row[i]) implies row[i]
        == ' ' by {
        let a = key.len() as int;
        let b = a + 1 + floor.id.len();
        let c = b + 1 + name.len();
        if i < a {
            assert(row[i] == key[i]);
        } else if a < i < b {
            assert(row[i] == floor.id[i - a - 1]);
        } else if b < i < c {
            assert(row[i] == name[i - b - 1]);
        } else if c < i {
            assert(row[i] == number[i - c - 1]);
        }
    }
    lemma_row(row);
}

/// A floor whose id comes after all others goes to the end.
proof fn lemma_floor_at_end(floors: Seq<FloorView>, id: Seq<char>, ping: CachedPing)
    requires
        forall|i: int| 0 <= i < floors.len() ==> precedes((#[trigger] floors[i]).id, id),
    ensures
        floor_of(floors, id) is None,
        with_floor(floors, id, ping) == floors.push(FloorView { id, ping }),
    decreases floors.len(),
{
    lemma_precedes_irreflexive(id);
    if floors.len() == 0 {
        assert(with_floor(floors, id, ping) =~= floors.push(FloorView { id, ping }));
    } else {
        let rest = floors.skip(1);
        assert forall|i: int| 0 <= i < rest.len() implies precedes((#[trigger] rest[i]).id, id) by {
            assert(rest[i] == floors[i + 1]);
        }
        lemma_floor_at_end(rest, id, ping);
        assert(precedes(floors[0].id, id));
        if precedes(id, floors[0].id) {
            lemma_precedes_transitive(id, floors[0].id, id);
        }
        assert(seq![floors[0]] + rest.push(FloorView { id, ping }) =~= floors.push(
            FloorView { id, ping },
        ));
    }
}

/// Reading back keeps ids before whatever the written ones came before.
proof fn lemma_reread_before(
    floors: Seq<FloorView>,
    id: Seq<char>,
    written: spec_fn(Double, u8) -> Seq<char>,
    meaning: spec_fn(Seq<char>) -> Option<Double>,
)
    requires
        forall|i: int| 0 <= i < floors.len() ==> precedes((#[trigger] floors[i]).id, id),
    ensures
        forall|i: int|
            0 <= i < reread_floors(floors, written, meaning).len() ==> precedes(
                (#[trigger] reread_floors(floors, written, meaning)[i]).id,
                id,
            ),
    decreases floors.len(),
{
    if floors.len() > 0 {
        let shorter = floors.drop_last();
        assert forall|i: int| 0 <= i < shorter.len() implies precedes(
            (#[trigger] shorter[i]).id,
            id,
        ) by {
            assert(shorter[i] == floors[i]);
        }
        lemma_reread_before(shorter, id, written, meaning);
        let before = reread_floors(shorter, written, meaning);
        let all = reread_floors(floors, written, meaning);
        assert(precedes(floors.last().id, id));
        assert forall|i: int| 0 <= i < all.len() implies precedes((#[trigger] all[i]).id, id) by {
            if i < before.len() {
                assert(all[i] == before[i]);
            }
        }
    }
}

/// Reading the rows of floors behind other rows adds the floors.
proof fn lemma_floor_rows(
    head: Seq<Seq<char>>,
    floors: Seq<FloorView>,
    written: spec_fn(Double, u8) -> Seq<char>,
    meaning: spec_fn(Seq<char>) -> Option<Double>,
)
    requires
        by_id(floors),
        cache_of_lines(head, meaning).floors == Seq::<FloorView>::empty(),
        forall|i: int| 0 <= i < floors.len() ==> is_word((#[trigger] floors[i]).id),
        forall|i: int|
            0 <= i < floors.len() ==> is_word(written((#[trigger] floors[i]).ping.min_ms, 6)),
    ensures
        cache_of_lines(
            head + Seq::new(floors.len(), |i: int| floor_line(floors[i], written)),
            meaning,
        ) == (CacheView {
            floors: reread_floors(floors, written, meaning),
            ..cache_of_lines(head, meaning)
        }),
    decreases floors.len(),
{
    let rows = Seq::new(floors.len(), |i: int| floor_line(floors[i], written));
    if floors.len() == 0 {
        assert(head + rows =~= head);
    } else {
        let shorter = floors.drop_last();
        let last = floors.last();
        assert(by_id(shorter)) by {
            assert forall|i: int, j: int| 0 <= i < j < shorter.len() implies precedes(
                (#[trigger] shorter[i]).id,
                (#[trigger] shorter[j]).id,
            ) by {
                assert(shorter[i] == floors[i]);
                assert(shorter[j] == floors[j]);
            }
        }
        assert forall|i: int| 0 <= i < shorter.len() implies is_word((#[trigger] shorter[i]).id)
            && is_word(written(shorter[i].ping.min_ms, 6)) by {
            assert(shorter[i] == floors[i]);
        }
        lemma_floor_rows(head, shorter, written, meaning);
        let shorter_rows = Seq::new(shorter.len(), |i: int| floor_line(shorter[i], written));
        assert((head + rows).drop_last() =~= head + shorter_rows);
        assert((head + rows).last() == floor_line(last, written));
        assert(is_word(last.id) && is_word(written(last.ping.min_ms, 6)));
        lemma_floor_row(last, written);
        lemma_method_name_round_trip(last.ping.method);
        assert forall|i: int| 0 <= i < shorter.len() implies precedes(
            (#[trigger] shorter[i]).id,
            last.id,
        ) by {
            assert(shorter[i] == floors[i]);
        }
        lemma_reread_before(shorter, last.id, written, meaning);
        let before = reread_floors(shorter, written, meaning);
        match reread(last.ping.min_ms, written, meaning) {
            Some(min_ms) => {
                lemma_floor_at_end(
                    before,
                    last.id,
                    CachedPing { method: last.ping.method, min_ms },
                );
            },
            None => {},
        }
        reveal_strlit("anchor");
        reveal_strlit("local_rtt_floor_ms");
        reveal_strlit("tcp_bias_ms");
    }
}

/// Reading the row of a time behind other rows sets that time.
proof fn lemma_time_rows(
    head: Seq<Seq<char>>,
    cache: CacheView,
    written: spec_fn(Double, u8) -> Seq<char>,
    meaning: spec_fn(Seq<char>) -> Option<Double>,
)
    requires
        written_as_words(cache, written),
        cache_of_lines(head, meaning) == empty_cache(),
    ensures
        cache_of_lines(
            head + time_line("local_rtt_floor_ms "@, cache.local_rtt_floor_ms, written)
                + time_line("tcp_bias_ms "@, cache.tcp_bias_ms, written),
            meaning,
        ) == (CacheView {
            floors: Seq::<FloorView>::empty(),
            local_rtt_floor_ms: reread_time(cache.local_rtt_floor_ms, written, meaning),
            tcp_bias_ms: reread_time(cache.tcp_bias_ms, written, meaning),
        }),
{
    reveal_strlit("local_rtt_floor_ms ");
    reveal_strlit("local_rtt_floor_ms");
    reveal_strlit("tcp_bias_ms ");
    reveal_strlit("tcp_bias_ms");
    let local = time_line("local_rtt_floor_ms "@, cache.local_rtt_floor_ms, written);
    let bias = time_line("tcp_bias_ms "@, cache.tcp_bias_ms, written);
    match cache.local_rtt_floor_ms {
        Some(x) => {
            let key = "local_rtt_floor_ms"@;
            assert("local_rtt_floor_ms "@ + written(x, 6) =~= key + seq![' '] + written(x, 6));
            lemma_time_row(key, written(x, 6));
            assert((head + local).drop_last() =~= head);
            let row = key + seq![' '] + written(x, 6);
            assert((head + local).last() == row);
            assert(row[0] == 'l');
            assert(with_line(empty_cache(), row, meaning) == with_words(
                empty_cache(),
                seq![key, written(x, 6)],
                meaning,
            ));
        },
        None => {
            assert(head + local =~= head);
        },
    }
    let before = cache_of_lines(head + local, meaning);
    match cache.tcp_bias_ms {
        Some(x) => {
            let key = "tcp_bias_ms"@;
            assert("tcp_bias_ms "@ + written(x, 6) =~= key + seq![' '] + written(x, 6));
            lemma_time_row(key, written(x, 6));
            assert((head + local + bias).drop_last() =~= head + local);
            let row = key + seq![' '] + written(x, 6);
            assert((head + local + bias).last() == row);
            assert(row[0] == 't');
            assert(with_line(before, row, meaning) == with_words(
                before,
                seq![key, written(x, 6)],
                meaning,
            ));
            assert(key.len() != "local_rtt_floor_ms"@.len());
        },
        None => {
            assert(head + local + bias =~= head + local);
        },
    }
}

/// Reading the text of a cache gives the cache back, with each time as it reads
/// after it was written, and without the floors whose time is then unusable.
pub proof fn lemma_cache_text_reread(
    cache: CacheView,
    written: spec_fn(Double, u8) -> Seq<char>,
    meaning: spec_fn(Seq<char>) -> Option<Double>,
)
    requires
        by_id(cache.floors),
        ids_are_words(cache),
        written_as_words(cache, written),
    ensures
        cache_of_lines(lines(cache_text(cache, written)), meaning) == (CacheView {
            floors: reread_floors(cache.floors, written, meaning),
            local_rtt_floor_ms: reread_time(cache.local_rtt_floor_ms, written, meaning),
            tcp_bias_ms: reread_time(cache.tcp_bias_ms, written, meaning),
        }),
{
    reveal_strlit("\n");
    assert("\n"@ =~= seq!['\n']);
    let first = seq!["version 1"@];
    let local = time_line("local_rtt_floor_ms "@, cache.local_rtt_floor_ms, written);
    let bias = time_line("tcp_bias_ms "@, cache.tcp_bias_ms, written);
    let rows = cache_lines(cache, written);
    lemma_version_row();
    assert(first.drop_last() =~= Seq::<Seq<char>>::empty());
    assert(first.last() == "version 1"@);
    assert(cache_of_lines(first.drop_last(), meaning) == empty_cache());
    assert(with_line(empty_cache(), "version 1"@, meaning) == empty_cache());
    lemma_time_rows(first, cache, written, meaning);
    lemma_floor_rows(first + local + bias, cache.floors, written, meaning);
    assert forall|i: int| 0 <= i < rows.len() implies is_line(#[trigger] rows[i]) by {
        let times = 1 + local.len() + bias.len();
        if i == 0 {
        } else if i < 1 + local.len() {
            let x = cache.local_rtt_floor_ms->0;
            reveal_strlit("local_rtt_floor_ms ");
            reveal_strlit("local_rtt_floor_ms");
            assert(rows[i] =~= "local_rtt_floor_ms"@ + seq![' '] + written(x, 6));
            lemma_time_row("local_rtt_floor_ms"@, written(x, 6));
        } else if i < times {
            let x = cache.tcp_bias_ms->0;
            reveal_strlit("tcp_bias_ms ");
            reveal_strlit("tcp_bias_ms");
            assert(rows[i] =~= "tcp_bias_ms"@ + seq![' '] + written(x, 6));
            lemma_time_row("tcp_bias_ms"@, written(x, 6));
        } else {
            let floor = cache.floors[i - times];
            assert(rows[i] == floor_line(floor, written));
            lemma_floor_row(floor, written);
        }
    }
    lemma_lines_of_rows(rows);
}

proof fn lemma_reread_same(
    floors: Seq<FloorView>,
    written: spec_fn(Double, u8) -> Seq<char>,
    meaning: spec_fn(Seq<char>) -> Option<Double>,
)
    requires
        forall|i: int|
            0 <= i < floors.len() ==> usable((#[trigger] floors[i]).ping.min_ms) && reread(
                floors[i].ping.min_ms,
                written,
                meaning,
            ) == Some(floors[i].ping.min_ms),
    ensures
        reread_floors(floors, written, meaning) == floors,
    decreases floors.len(),
{
    if floors.len() > 0 {
        let shorter = floors.drop_last();
        assert forall|i: int| 0 <= i < shorter.len() implies usable(
            (#[trigger] shorter[i]).ping.min_ms,
        ) && reread(shorter[i].ping.min_ms, written, meaning) == Some(
            shorter[i].ping.min_ms,
        ) by {
            assert(shorter[i] == floors[i]);
        }
        lemma_reread_same(shorter, written, meaning);
        assert(usable(floors[floors.len() - 1].ping.min_ms));
        assert(reread_floors(floors, written, meaning) =~= floors);
    }
}

/// A cache whose times read as they were written is the same after it was
/// written and read.
pub proof fn lemma_cache_text_round_trip(
    cache: CacheView,
    written: spec_fn(Double, u8) -> Seq<char>,
    meaning: spec_fn(Seq<char>) -> Option<Double>,
)
    requires
        by_id(cache.floors),
        ids_are_words(cache),
        written_as_words(cache, written),
        forall|i: int|
            0 <= i < cache.floors.len() ==> usable((#[trigger] cache.floors[i]).ping.min_ms)
                && reread(cache.floors[i].ping.min_ms, written, meaning) == Some(
                cache.floors[i].ping.min_ms,
            ),
        cache.local_rtt_floor_ms matches Some(x) ==> reread(x, written, meaning) == Some(x),
        cache.tcp_bias_ms matches Some(x) ==> reread(x, written, meaning) == Some(x),
    ensures
        cache_of_lines(lines(cache_text(cache, written)), meaning) == cache,
{
    lemma_cache_text_reread(cache, written, meaning);
    lemma_reread_same(cache.floors, written, meaning);
}

/// Tells whether all floors are fit to be floors.
pub open spec fn all_usable(floors: Seq<FloorView>) -> bool {
    forall|i: int| 0 <= i < floors.len() ==> usable((#[trigger] floors[i]).ping.min_ms)
}

proof fn lemma_with_floor_usable(floors: Seq<FloorView>, id: Seq<char>, ping: CachedPing)
    requires
        all_usable(floors),
        usable(ping.min_ms),
    ensures
        all_usable(with_floor(floors, id, ping)),
    decreases floors.len(),
{
    let all = with_floor(floors, id, ping);
    if floors.len() == 0 || precedes(id, floors[0].id) {
        assert forall|i: int| 0 <= i < all.len() implies usable(
            (#[trigger] all[i]).ping.min_ms,
        ) by {
            if i > 0 {
                assert(all[i] == floors[i - 1]);
            }
        }
    } else if floors[0].id == id {
        assert forall|i: int| 0 <= i < all.len() implies usable(
            (#[trigger] all[i]).ping.min_ms,
        ) by {
            if i > 0 {
                assert(all[i] == floors[i]);
            }
        }
    } else {
        let rest = floors.skip(1);
        assert(all_usable(rest)) by {
            assert forall|i: int| 0 <= i < rest.len() implies usable(
                (#[trigger] rest[i]).ping.min_ms,
            ) by {
                assert(rest[i] == floors[i + 1]);
            }
        }
        lemma_with_floor_usable(rest, id, ping);
        assert forall|i: int| 0 <= i < all.len() implies usable(
            (#[trigger] all[i]).ping.min_ms,
        ) by {
            if i > 0 {
                assert(all[i] == with_floor(rest, id, ping)[i - 1]);
            } else {
                assert(all[0] == floors[0]);
            }
        }
    }
}

/// A time only ever lowers a floor. Afterwards the floor of its anchor is not above
/// the time nor above the floor before, the floors of all other anchors are as they
/// were, and the floors are still in order and fit to be floors.
pub proof fn lemma_lowered_keeps_lowest(
    floors: Seq<FloorView>,
    id: Seq<char>,
    method: ProbeMethod,
    min_ms: Double,
    other: Seq<char>,
)
    requires
        by_id(floors),
        all_usable(floors),
    ensures
        by_id(lowered(floors, id, method, min_ms)),
        all_usable(lowered(floors, id, method, min_ms)),
        usable(min_ms) ==> floor_of(lowered(floors, id, method, min_ms), id) is Some && floor_of(
            lowered(floors, id, method, min_ms),
            id,
        )->0.min_ms.at_most(min_ms),
        floor_of(floors, other) is Some ==> floor_of(
            lowered(floors, id, method, min_ms),
            other,
        ) is Some && floor_of(
            lowered(floors, id, method, min_ms),
            other,
        )->0.min_ms.at_most(floor_of(floors, other)->0.min_ms),
        other != id ==> floor_of(lowered(floors, id, method, min_ms), other) == floor_of(
            floors,
            other,
        ),
{
    let ping = CachedPing { method, min_ms };
    lemma_floor_is_usable(floors, other);
    lemma_with_floor_in_order(floors, id, ping);
    lemma_floor_of_with_floor(floors, id, ping, other);
    if usable(min_ms) {
        lemma_with_floor_usable(floors, id, ping);
    }
}

proof fn lemma_floor_is_usable(floors: Seq<FloorView>, id: Seq<char>)
    requires
        all_usable(floors),
    ensures
        floor_of(floors, id) is Some ==> usable(floor_of(floors, id)->0.min_ms),
    decreases floors.len(),
{
    if floors.len() > 0 && floors[0].id != id {
        let rest = floors.skip(1);
        assert forall|i: int| 0 <= i < rest.len() implies usable(
            (#[trigger] rest[i]).ping.min_ms,
        ) by {
            assert(rest[i] == floors[i + 1]);
        }
        lemma_floor_is_usable(rest, id);
    }
}

/// Taking the same time twice is taking it once.
pub proof fn lemma_lowered_twice(
    floors: Seq<FloorView>,
    id: Seq<char>,
    method: ProbeMethod,
    min_ms: Double,
)
    requires
        by_id(floors),
    ensures
        lowered(lowered(floors, id, method, min_ms), id, method, min_ms) == lowered(
            floors,
            id,
            method,
            min_ms,
        ),
{
    lemma_floor_of_with_floor(floors, id, CachedPing { method, min_ms }, id);
}

/// After the times of measurements the floors are the lower envelope of all that was
/// seen: no floor is above the one before, nor above a usable time of its anchor.
pub proof fn lemma_lowered_by_is_lower_envelope(
    floors: Seq<FloorView>,
    list: Seq<MeasurementView>,
    id: Seq<char>,
)
    requires
        by_id(floors),
        all_usable(floors),
    ensures
        by_id(lowered_by(floors, list)),
        all_usable(lowered_by(floors, list)),
        floor_of(floors, id) is Some ==> floor_of(lowered_by(floors, list), id) is Some && floor_of(
            lowered_by(floors, list),
            id,
        )->0.min_ms.at_most(floor_of(floors, id)->0.min_ms),
        forall|i: int|
            0 <= i < list.len() && (#[trigger] list[i]).anchor.id == id && list[i].ping is Some
                && usable(list[i].ping->0.min_ms) ==> floor_of(
                lowered_by(floors, list),
                id,
            ) is Some && floor_of(lowered_by(floors, list), id)->0.min_ms.at_most(
                list[i].ping->0.min_ms,
            ),
    decreases list.len(),
{
    lemma_floor_is_usable(floors, id);
    if list.len() > 0 {
        let shorter = list.drop_last();
        let last = list.last();
        lemma_lowered_by_is_lower_envelope(floors, shorter, id);
        let before = lowered_by(floors, shorter);
        if let Some(ping) = last.ping {
            lemma_lowered_keeps_lowest(before, last.anchor.id, ping.method, ping.min_ms, id);
        }
        assert forall|i: int|
            0 <= i < list.len() && (#[trigger] list[i]).anchor.id == id && list[i].ping is Some
                && usable(list[i].ping->0.min_ms) implies floor_of(
            lowered_by(floors, list),
            id,
        ) is Some && floor_of(lowered_by(floors, list), id)->0.min_ms.at_most(
            list[i].ping->0.min_ms,
        ) by {
            if i < shorter.len() {
                assert(shorter[i] == list[i]);
            }
        }
    }
}

/// Whatever a text says, the cache read from it holds its floors in order, and none
/// that is not fit to be one.
pub proof fn lemma_read_floors_are_usable(
    found: Seq<Seq<char>>,
    meaning: spec_fn(Seq<char>) -> Option<Double>,
)
    ensures
        by_id(cache_of_lines(found, meaning).floors),
        all_usable(cache_of_lines(found, meaning).floors),
    decreases found.len(),
{
    if found.len() > 0 {
        lemma_read_floors_are_usable(found.drop_last(), meaning);
        let before = cache_of_lines(found.drop_last(), meaning);
        let parts = words(trim(found.last()));
        if parts.len() == 4 {
            if let (Some(method), Some(min_ms)) = (method_named(parts[2]), meaning(parts[3])) {
                lemma_lowered_keeps_lowest(before.floors, parts[1], method, min_ms, parts[1]);
            }
        }
    }
}

/// The lower of two floors, where there are two. The first stays if they are equal.
pub open spec fn lower_floor(a: Option<CachedPing>, b: Option<CachedPing>) -> Option<CachedPing> {
    match (a, b) {
        (Some(x), Some(y)) => if x.min_ms.at_most(y.min_ms) {
            a
        } else {
            b
        },
        (Some(_), None) => a,
        (None, _) => b,
    }
}

/// Tells whether a line sets the time of this name.
pub open spec fn sets_time(line: Seq<char>, name: Seq<char>) -> bool {
    let trimmed = trim(line);
    &&& trimmed.len() > 0
    &&& trimmed[0] != '#'
    &&& words(trimmed).len() == 2
    &&& words(trimmed)[0] == name
}

/// Tells whether one of the lines sets the time of this name.
pub open spec fn some_sets_time(found: Seq<Seq<char>>, name: Seq<char>) -> bool {
    exists|i: int| 0 <= i < found.len() && sets_time(#[trigger] found[i], name)
}

/// The later of two times of one name: that of the second text, if it sets one.
pub open spec fn later_time(
    a: Option<Double>,
    b: Option<Double>,
    later: Seq<Seq<char>>,
    name: Seq<char>,
) -> Option<Double> {
    if some_sets_time(later, name) {
        b
    } else {
        a
    }
}

proof fn lemma_last_sets_time(found: Seq<Seq<char>>, name: Seq<char>)
    requires
        found.len() > 0,
    ensures
        some_sets_time(found, name) <==> some_sets_time(found.drop_last(), name) || sets_time(
            found.last(),
            name,
        ),
{
    let shorter = found.drop_last();
    if some_sets_time(shorter, name) {
        let k = choose|k: int| 0 <= k < shorter.len() && sets_time(#[trigger] shorter[k], name);
        assert(sets_time(found[k], name));
    }
    if sets_time(found.last(), name) {
        assert(sets_time(found[found.len() - 1], name));
    }
    if some_sets_time(found, name) {
        let k = choose|k: int| 0 <= k < found.len() && sets_time(#[trigger] found[k], name);
        if k < shorter.len() {
            assert(sets_time(shorter[k], name));
        }
    }
}

proof fn lemma_lowered_floor(
    floors: Seq<FloorView>,
    id: Seq<char>,
    method: ProbeMethod,
    min_ms: Double,
    other: Seq<char>,
)
    requires
        by_id(floors),
    ensures
        floor_of(lowered(floors, id, method, min_ms), other) == (if usable(min_ms) && other
            == id {
            lower_floor(floor_of(floors, id), Some(CachedPing { method, min_ms }))
        } else {
            floor_of(floors, other)
        }),
{
    lemma_floor_of_with_floor(floors, id, CachedPing { method, min_ms }, other);
}

/// The cache of lines that follow others. Each anchor has the lower of the two floors,
/// the first one if they are equal, and the later value of each time counts.
pub proof fn lemma_cache_of_more_lines(
    first: Seq<Seq<char>>,
    second: Seq<Seq<char>>,
    meaning: spec_fn(Seq<char>) -> Option<Double>,
    id: Seq<char>,
)
    ensures
        ({
            let a = cache_of_lines(first, meaning);
            let b = cache_of_lines(second, meaning);
            let all = cache_of_lines(first + second, meaning);
            &&& floor_of(all.floors, id) == lower_floor(
                floor_of(a.floors, id),
                floor_of(b.floors, id),
            )
            &&& all.local_rtt_floor_ms == later_time(
                a.local_rtt_floor_ms,
                b.local_rtt_floor_ms,
                second,
                "local_rtt_floor_ms"@,
            )
            &&& all.tcp_bias_ms == later_time(
                a.tcp_bias_ms,
                b.tcp_bias_ms,
                second,
                "tcp_bias_ms"@,
            )
        }),
    decreases second.len(),
{
    reveal_strlit("local_rtt_floor_ms");
    reveal_strlit("tcp_bias_ms");
    reveal_strlit("anchor");
    let a = cache_of_lines(first, meaning);
    if second.len() == 0 {
        assert(first + second =~= first);
    } else {
        let shorter = second.drop_last();
        let line = second.last();
        lemma_cache_of_more_lines(first, shorter, meaning, id);
        assert((first + second).drop_last() =~= first + shorter);
        assert((first + second).last() == line);
        let before = cache_of_lines(first + shorter, meaning);
        let b = cache_of_lines(shorter, meaning);
        lemma_last_sets_time(second, "local_rtt_floor_ms"@);
        lemma_last_sets_time(second, "tcp_bias_ms"@);
        assert("local_rtt_floor_ms"@.len() != "tcp_bias_ms"@.len());
        lemma_read_floors_are_usable(first, meaning);
        lemma_read_floors_are_usable(shorter, meaning);
        lemma_read_floors_are_usable(first + shorter, meaning);
        lemma_floor_is_usable(a.floors, id);
        lemma_floor_is_usable(b.floors, id);
        let parts = words(trim(line));
        if parts.len() == 4 {
            if let (Some(method), Some(min_ms)) = (method_named(parts[2]), meaning(parts[3])) {
                lemma_lowered_floor(before.floors, parts[1], method, min_ms, id);
                lemma_lowered_floor(b.floors, parts[1], method, min_ms, id);
            }
        }
    }
}

proof fn lemma_cache_of_ended_lines(
    text: Seq<char>,
    meaning: spec_fn(Seq<char>) -> Option<Double>,
)
    ensures
        cache_of_lines(
            split(text, Boundary::Exactly('\n')).map_values(
                |piece: Seq<char>| without_return(piece),
            ),
            meaning,
        ) == cache_of_lines(lines(text), meaning),
{
    let boundary = Boundary::Exactly('\n');
    let pieces = split(text, boundary);
    lemma_split_has_pieces(text, boundary);
    let ended = pieces.map_values(|piece: Seq<char>| without_return(piece));
    let last = pieces.last();
    assert(ended.last() == without_return(last));
    if last.len() > 0 {
        if last.last() == '\r' {
            lemma_trim_drop_last(last);
        }
        assert(trim(without_return(last)) == trim(last));
        assert(lines(text).drop_last() =~= ended.drop_last());
        assert(lines(text).last() == last);
    } else {
        assert(lines(text) =~= ended.drop_last());
        assert(trim(without_return(last)).len() == 0);
    }
}

/// Reading two texts with a line feed between them. The anchors with a floor are those
/// of both texts, each with the lower of its two floors, that of the first text if they
/// are equal, and all floors are numbers above zero. Of each of the two times the value
/// of the second text counts, if that text sets one.
pub proof fn lemma_cache_of_two_texts(
    first: Seq<char>,
    second: Seq<char>,
    meaning: spec_fn(Seq<char>) -> Option<Double>,
)
    ensures
        ({
            let a = cache_of_lines(lines(first), meaning);
            let b = cache_of_lines(lines(second), meaning);
            let all = cache_of_lines(lines(first + seq!['\n'] + second), meaning);
            &&& by_id(all.floors)
            &&& all_usable(all.floors)
            &&& forall|id: Seq<char>| #[trigger]
                floor_of(all.floors, id) == lower_floor(
                    floor_of(a.floors, id),
                    floor_of(b.floors, id),
                )
            &&& all.local_rtt_floor_ms == later_time(
                a.local_rtt_floor_ms,
                b.local_rtt_floor_ms,
                lines(second),
                "local_rtt_floor_ms"@,
            )
            &&& all.tcp_bias_ms == later_time(
                a.tcp_bias_ms,
                b.tcp_bias_ms,
                lines(second),
                "tcp_bias_ms"@,
            )
        }),
{
    let a = cache_of_lines(lines(first), meaning);
    let b = cache_of_lines(lines(second), meaning);
    let text = first + seq!['\n'] + second;
    let all = cache_of_lines(lines(text), meaning);
    let ended = split(first, Boundary::Exactly('\n')).map_values(
        |piece: Seq<char>| without_return(piece),
    );
    lemma_lines_of_two(first, second);
    lemma_cache_of_ended_lines(first, meaning);
    lemma_read_floors_are_usable(lines(text), meaning);
    lemma_cache_of_more_lines(ended, lines(second), meaning, Seq::<char>::empty());
    assert forall|id: Seq<char>| #[trigger] floor_of(all.floors, id) == lower_floor(
        floor_of(a.floors, id),
        floor_of(b.floors, id),
    ) by {
        lemma_cache_of_more_lines(ended, lines(second), meaning, id);
    }
}

/// Tells whether a time that was written is read as one that is written the same.
pub open spec fn rewritten_same(
    time: Double,
    written: spec_fn(Double, u8) -> Seq<char>,
    meaning: spec_fn(Seq<char>) -> Option<Double>,
) -> bool {
    reread(time, written, meaning) matches Some(again) && written(again, 6) == written(time, 6)
}

proof fn lemma_reread_keeps_all(
    floors: Seq<FloorView>,
    written: spec_fn(Double, u8) -> Seq<char>,
    meaning: spec_fn(Seq<char>) -> Option<Double>,
)
    requires
        forall|i: int|
            0 <= i < floors.len() ==> rewritten_same(
                (#[trigger] floors[i]).ping.min_ms,
                written,
                meaning,
            ) && usable(reread(floors[i].ping.min_ms, written, meaning)->0),
    ensures
        reread_floors(floors, written, meaning).len() == floors.len(),
        forall|i: int|
            0 <= i < floors.len() ==> {
                let again = #[trigger] reread_floors(floors, written, meaning)[i];
                &&& again.id == floors[i].id
                &&& again.ping.method == floors[i].ping.method
                &&& Some(again.ping.min_ms) == reread(floors[i].ping.min_ms, written, meaning)
                &&& written(again.ping.min_ms, 6) == written(floors[i].ping.min_ms, 6)
            },
    decreases floors.len(),
{
    if floors.len() > 0 {
        let shorter = floors.drop_last();
        assert forall|i: int| 0 <= i < shorter.len() implies rewritten_same(
            (#[trigger] shorter[i]).ping.min_ms,
            written,
            meaning,
        ) && usable(reread(shorter[i].ping.min_ms, written, meaning)->0) by {
            assert(shorter[i] == floors[i]);
        }
        lemma_reread_keeps_all(shorter, written, meaning);
        let before = reread_floors(shorter, written, meaning);
        let all = reread_floors(floors, written, meaning);
        let last = floors[floors.len() - 1];
        assert(rewritten_same(last.ping.min_ms, written, meaning));
        assert forall|i: int| 0 <= i < floors.len() implies {
            let again = #[trigger] all[i];
            &&& again.id == floors[i].id
            &&& again.ping.method == floors[i].ping.method
            &&& Some(again.ping.min_ms) == reread(floors[i].ping.min_ms, written, meaning)
            &&& written(again.ping.min_ms, 6) == written(floors[i].ping.min_ms, 6)
        } by {
            if i < before.len() {
                assert(all[i] == before[i]);
                assert(shorter[i] == floors[i]);
            }
        }
    }
}

/// A cache that is read from its own text has the same anchors with the same methods, and
/// each time as it is read after it was written: as close to what it was as the writer and
/// the reader of numbers leave it. It is written as that text again, even if its times come
/// back rounded, as long as they come back as times that are written the same, and the
/// floors as usable ones.
pub proof fn lemma_cache_text_again(
    cache: CacheView,
    written: spec_fn(Double, u8) -> Seq<char>,
    meaning: spec_fn(Seq<char>) -> Option<Double>,
)
    requires
        by_id(cache.floors),
        ids_are_words(cache),
        written_as_words(cache, written),
        forall|i: int|
            0 <= i < cache.floors.len() ==> rewritten_same(
                (#[trigger] cache.floors[i]).ping.min_ms,
                written,
                meaning,
            ) && usable(reread(cache.floors[i].ping.min_ms, written, meaning)->0),
        cache.local_rtt_floor_ms matches Some(x) ==> rewritten_same(x, written, meaning),
        cache.tcp_bias_ms matches Some(x) ==> rewritten_same(x, written, meaning),
    ensures
        ({
            let again = cache_of_lines(lines(cache_text(cache, written)), meaning);
            &&& cache_text(again, written) == cache_text(cache, written)
            &&& again.floors.len() == cache.floors.len()
            &&& forall|i: int|
                0 <= i < cache.floors.len() ==> (#[trigger] again.floors[i]).id
                    == cache.floors[i].id && again.floors[i].ping.method
                    == cache.floors[i].ping.method && Some(again.floors[i].ping.min_ms) == reread(
                    cache.floors[i].ping.min_ms,
                    written,
                    meaning,
                )
            &&& again.local_rtt_floor_ms == reread_time(
                cache.local_rtt_floor_ms,
                written,
                meaning,
            )
            &&& again.tcp_bias_ms == reread_time(cache.tcp_bias_ms, written, meaning)
            &&& again.local_rtt_floor_ms is Some <==> cache.local_rtt_floor_ms is Some
            &&& again.tcp_bias_ms is Some <==> cache.tcp_bias_ms is Some
        }),
{
    let again = cache_of_lines(lines(cache_text(cache, written)), meaning);
    lemma_cache_text_reread(cache, written, meaning);
    lemma_reread_keeps_all(cache.floors, written, meaning);
    assert(Seq::new(again.floors.len(), |i: int| floor_line(again.floors[i], written))
        =~= Seq::new(cache.floors.len(), |i: int| floor_line(cache.floors[i], written)));
    assert(cache_lines(again, written) =~= cache_lines(cache, written));
}

} // verus!
