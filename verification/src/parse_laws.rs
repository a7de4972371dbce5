//! What is read from the output of commands: what stands in it, wherever it stands.

use crate::double::Double;
use crate::ping::{or_zero, ping_scan, with_counts, with_times, PingScan};
use crate::probe::{HopView, PingStats, ProbeMethod};
use crate::text::{
    after, decimal, digit, join, lemma_decimal_round_trip, lemma_nonempty_of_parts, lemma_split_at,
    lemma_split_has_pieces, lemma_split_unbroken, lemma_trim_nothing, lemma_words_first, nonempty,
    occurs, occurs_at, separates, split, trim, trim_end, trim_end_matches, trim_start, unbroken,
    unsigned, until, white, without_plus, words, Boundary,
};
use crate::trace::{
    answered, hop_number, hop_of_line, hop_position, lemma_hop_position, time_word, trace_hops,
};
use vstd::prelude::*;

verus! {

/// Tells whether a text is white space throughout.
pub open spec fn all_white(s: Seq<char>) -> bool {
    forall|i: int| 0 <= i < s.len() ==> white(#[trigger] s[i])
}

proof fn lemma_trim_start_lead(lead: Seq<char>, s: Seq<char>)
    requires
        all_white(lead),
        s.len() > 0 ==> !white(s[0]),
    ensures
        trim_start(lead + s) == s,
    decreases lead.len(),
{
    if lead.len() == 0 {
        assert(lead + s =~= s);
    } else {
        let rest = lead.skip(1);
        assert forall|i: int| 0 <= i < rest.len() implies white(#[trigger] rest[i]) by {
            assert(rest[i] == lead[i + 1]);
        }
        lemma_trim_start_lead(rest, s);
        assert((lead + s).skip(1) =~= rest + s);
        assert((lead + s)[0] == lead[0]);
    }
}

proof fn lemma_until(head: Seq<char>, mark: char, rest: Seq<char>)
    requires
        forall|i: int| 0 <= i < head.len() ==> #[trigger] head[i] != mark,
    ensures
        until(head + seq![mark] + rest, mark) == head.len(),
    decreases head.len(),
{
    let s = head + seq![mark] + rest;
    if head.len() == 0 {
        assert(s[0] == mark);
    } else {
        let shorter = head.skip(1);
        assert forall|i: int| 0 <= i < shorter.len() implies #[trigger] shorter[i] != mark by {
            assert(shorter[i] == head[i + 1]);
        }
        lemma_until(shorter, mark, rest);
        assert(s.skip(1) =~= shorter + seq![mark] + rest);
        assert(s[0] == head[0]);
    }
}

proof fn lemma_until_is_first(s: Seq<char>, mark: char)
    ensures
        0 <= until(s, mark) <= s.len(),
        until(s, mark) < s.len() ==> s[until(s, mark)] == mark,
        !s.contains(mark) ==> until(s, mark) == s.len(),
    decreases s.len(),
{
    if s.len() > 0 && s[0] != mark {
        let rest = s.skip(1);
        lemma_until_is_first(rest, mark);
        if rest.contains(mark) {
            let k = choose|k: int| 0 <= k < rest.len() && rest[k] == mark;
            assert(s[k + 1] == mark);
        }
    } else if s.len() > 0 {
        assert(s.contains(s[0]));
    }
}

proof fn lemma_time_word(found: Seq<Seq<char>>)
    ensures
        0 <= time_word(found) <= found.len(),
        time_word(found) < found.len() ==> "ms"@.is_suffix_of(found[time_word(found)]),
        forall|i: int| 0 <= i < time_word(found) ==> !"ms"@.is_suffix_of(#[trigger] found[i]),
    decreases found.len(),
{
    if found.len() > 0 && !"ms"@.is_suffix_of(found[0]) {
        let rest = found.skip(1);
        lemma_time_word(rest);
        assert forall|i: int| 0 <= i < time_word(found) implies !"ms"@.is_suffix_of(
            #[trigger] found[i],
        ) by {
            if i > 0 {
                assert(rest[i - 1] == found[i]);
            }
        }
    }
}

proof fn lemma_without_unit(body: Seq<char>)
    requires
        !"ms"@.is_suffix_of(body),
    ensures
        trim_end_matches(body + "ms"@, "ms"@) == body,
        "ms"@.is_suffix_of(body + "ms"@),
{
    reveal_strlit("ms");
    let s = body + "ms"@;
    assert(s.subrange(s.len() - 2, s.len() as int) =~= "ms"@);
    assert(s.take(s.len() - 2) =~= body);
    reveal_with_fuel(trim_end_matches, 2);
}

/// Tells whether a hop says what the words behind the colon of its line say. Its address is
/// the first word. Its time is what the first word that ends in `ms` reads as without that
/// unit, whatever words stand behind it, and these are the note. Without such a word there
/// is no time and no note.
pub open spec fn says_words(
    hop: HopView,
    found: Seq<Seq<char>>,
    meaning: spec_fn(Seq<char>) -> Option<Double>,
) -> bool {
    &&& hop.hostname is None
    &&& hop.address == (if found.len() == 0 {
        None
    } else {
        Some(found[0])
    })
    &&& forall|k: int, body: Seq<char>|
        0 <= k < found.len() && #[trigger] found[k] == body + "ms"@ && !"ms"@.is_suffix_of(body)
            && (forall|i: int| 0 <= i < k ==> !"ms"@.is_suffix_of(#[trigger] found[i]))
            ==> hop.rtt_ms == #[trigger] meaning(body) && hop.note == (if k + 1 < found.len() {
            Some(join(found.skip(k + 1), " "@))
        } else {
            None
        })
    &&& (forall|i: int| 0 <= i < found.len() ==> !"ms"@.is_suffix_of(#[trigger] found[i]))
        ==> hop.rtt_ms is None && hop.note is None
}

proof fn lemma_answered_says_words(
    hop: u8,
    found: Seq<Seq<char>>,
    meaning: spec_fn(Seq<char>) -> Option<Double>,
)
    ensures
        answered(hop, found, meaning).hop == hop,
        says_words(answered(hop, found, meaning), found, meaning),
{
    let answer = answered(hop, found, meaning);
    let at = time_word(found);
    lemma_time_word(found);
    assert forall|k: int, body: Seq<char>|
        0 <= k < found.len() && #[trigger] found[k] == body + "ms"@ && !"ms"@.is_suffix_of(body)
            && (forall|i: int|
            0 <= i < k ==> !"ms"@.is_suffix_of(#[trigger] found[i])) implies answer.rtt_ms
        == #[trigger] meaning(body) && answer.note == (if k + 1 < found.len() {
        Some(join(found.skip(k + 1), " "@))
    } else {
        None
    }) by {
        lemma_without_unit(body);
        if at < k {
            assert("ms"@.is_suffix_of(found[at]));
        }
        if k < at {
            assert(!"ms"@.is_suffix_of(found[k]));
        }
    }
    if forall|i: int| 0 <= i < found.len() ==> !"ms"@.is_suffix_of(#[trigger] found[i]) {
        if at < found.len() {
            assert("ms"@.is_suffix_of(found[at]));
        }
    }
}

proof fn lemma_digits(n: nat)
    ensures
        decimal(n).len() > 0,
        forall|i: int| 0 <= i < decimal(n).len() ==> digit(#[trigger] decimal(n)[i]),
        without_plus(decimal(n)) == decimal(n),
        trim(decimal(n)) == decimal(n),
{
    lemma_decimal_round_trip(n);
    let s = decimal(n);
    assert forall|i: int| 0 <= i < s.len() implies digit(#[trigger] s[i]) by {}
    assert(digit(s[0]));
    assert(digit(s[s.len() - 1]));
    lemma_trim_nothing(s);
}

/// A line with the number of a hop, a colon and what the hop answered is read as that hop:
/// whatever white space stands before the number, and whatever stands behind the colon.
pub proof fn lemma_hop_line_is_read(
    lead: Seq<char>,
    n: u8,
    rest: Seq<char>,
    meaning: spec_fn(Seq<char>) -> Option<Double>,
)
    requires
        all_white(lead),
    ensures
        hop_of_line(lead + decimal(n as nat) + seq![':'] + rest, meaning) is Some,
        hop_of_line(lead + decimal(n as nat) + seq![':'] + rest, meaning)->0.hop == n,
        "no reply"@.is_prefix_of(trim(rest)) ==> {
            let hop = hop_of_line(lead + decimal(n as nat) + seq![':'] + rest, meaning)->0;
            &&& hop.address is None
            &&& hop.hostname is None
            &&& hop.rtt_ms is None
            &&& hop.note == Some("no reply"@)
        },
        !"no reply"@.is_prefix_of(trim(rest)) ==> says_words(
            hop_of_line(lead + decimal(n as nat) + seq![':'] + rest, meaning)->0,
            words(trim(rest)),
            meaning,
        ),
{
    let number = decimal(n as nat);
    let line = lead + number + seq![':'] + rest;
    lemma_digits(n as nat);
    lemma_decimal_round_trip(n as nat);
    let body = number + seq![':'] + rest;
    assert(line =~= lead + body);
    assert(body[0] == number[0]);
    assert(digit(number[0]));
    lemma_trim_start_lead(lead, body);
    assert forall|i: int| 0 <= i < number.len() implies #[trigger] number[i] != ':' by {
        assert(digit(number[i]));
    }
    lemma_until(number, ':', rest);
    assert(body.take(number.len() as int) =~= number);
    assert(body.skip(number.len() as int + 1) =~= rest);
    assert(!number.contains('?')) by {
        if number.contains('?') {
            let k = choose|k: int| 0 <= k < number.len() && number[k] == '?';
            assert(digit(number[k]));
        }
    }
    assert(hop_number(number) == Some(n));
    lemma_answered_says_words(n, words(trim(rest)), meaning);
}

/// A line without a colon is no hop, nor is one in which no number, or a number that is in
/// doubt, stands before the colon.
pub proof fn lemma_other_lines_are_no_hops(
    line: Seq<char>,
    meaning: spec_fn(Seq<char>) -> Option<Double>,
)
    ensures
        !trim_start(line).contains(':') ==> hop_of_line(line, meaning) is None,
        forall|head: Seq<char>, rest: Seq<char>|
            trim_start(line) == #[trigger] (head + seq![':'] + rest) && !head.contains(':') && (
            head.contains('?') || unsigned(trim(head), 255) is None) ==> hop_of_line(
                line,
                meaning,
            ) is None,
{
    let trimmed = trim_start(line);
    lemma_until_is_first(trimmed, ':');
    assert forall|head: Seq<char>, rest: Seq<char>|
        trimmed == #[trigger] (head + seq![':'] + rest) && !head.contains(':') && (head.contains(
            '?',
        ) || unsigned(trim(head), 255) is None) implies hop_of_line(line, meaning) is None by {
        assert forall|i: int| 0 <= i < head.len() implies #[trigger] head[i] != ':' by {
            assert(head.contains(head[i]));
        }
        lemma_until(head, ':', rest);
        assert(trimmed.take(head.len() as int) =~= head);
    }
}

/// Tells whether one of the lines is on the hop of this number.
pub open spec fn reported(
    found: Seq<Seq<char>>,
    meaning: spec_fn(Seq<char>) -> Option<Double>,
    hop: u8,
) -> bool {
    exists|i: int|
        0 <= i < found.len() && hop_of_line(#[trigger] found[i], meaning) is Some && hop_of_line(
            found[i],
            meaning,
        )->0.hop == hop
}

/// Tells whether a hop says no less than a report on it: it has an address and a time where
/// the report has, and its time is not above that of the report.
pub open spec fn says_no_less(hop: HopView, report: HopView) -> bool {
    &&& hop.hop == report.hop
    &&& report.address is Some ==> hop.address is Some
    &&& report.rtt_ms is Some ==> hop.rtt_ms is Some
    &&& report.rtt_ms matches Some(time) ==> !time.nan() ==> hop.rtt_ms->0.at_most(time)
}

/// Tells whether a hop says nothing that no report on it says.
pub open spec fn says_no_more(
    hop: HopView,
    found: Seq<Seq<char>>,
    meaning: spec_fn(Seq<char>) -> Option<Double>,
) -> bool {
    &&& hop.address is Some ==> exists|i: int|
        0 <= i < found.len() && hop_of_line(#[trigger] found[i], meaning) is Some && hop_of_line(
            found[i],
            meaning,
        )->0.hop == hop.hop && hop_of_line(found[i], meaning)->0.address == hop.address
    &&& hop.rtt_ms is Some ==> exists|i: int|
        0 <= i < found.len() && hop_of_line(#[trigger] found[i], meaning) is Some && hop_of_line(
            found[i],
            meaning,
        )->0.hop == hop.hop && hop_of_line(found[i], meaning)->0.rtt_ms == hop.rtt_ms
    &&& hop.note is Some ==> exists|i: int|
        0 <= i < found.len() && hop_of_line(#[trigger] found[i], meaning) is Some && hop_of_line(
            found[i],
            meaning,
        )->0.hop == hop.hop && hop_of_line(found[i], meaning)->0.note == hop.note
}

proof fn lemma_no_more_with_another(
    hop: HopView,
    found: Seq<Seq<char>>,
    meaning: spec_fn(Seq<char>) -> Option<Double>,
)
    requires
        found.len() > 0,
        says_no_more(hop, found.drop_last(), meaning),
    ensures
        says_no_more(hop, found, meaning),
{
    let shorter = found.drop_last();
    if hop.address is Some {
        let i = choose|i: int|
            0 <= i < shorter.len() && hop_of_line(#[trigger] shorter[i], meaning) is Some
                && hop_of_line(shorter[i], meaning)->0.hop == hop.hop && hop_of_line(
                shorter[i],
                meaning,
            )->0.address == hop.address;
        assert(found[i] == shorter[i]);
    }
    if hop.rtt_ms is Some {
        let i = choose|i: int|
            0 <= i < shorter.len() && hop_of_line(#[trigger] shorter[i], meaning) is Some
                && hop_of_line(shorter[i], meaning)->0.hop == hop.hop && hop_of_line(
                shorter[i],
                meaning,
            )->0.rtt_ms == hop.rtt_ms;
        assert(found[i] == shorter[i]);
    }
    if hop.note is Some {
        let i = choose|i: int|
            0 <= i < shorter.len() && hop_of_line(#[trigger] shorter[i], meaning) is Some
                && hop_of_line(shorter[i], meaning)->0.hop == hop.hop && hop_of_line(
                shorter[i],
                meaning,
            )->0.note == hop.note;
        assert(found[i] == shorter[i]);
    }
}

/// A trace holds what the lines report: of each hop that is reported, an address if one is
/// reported and the lowest time, and nothing that is not reported.
pub proof fn lemma_trace_holds_what_is_reported(
    found: Seq<Seq<char>>,
    meaning: spec_fn(Seq<char>) -> Option<Double>,
)
    ensures
        forall|i: int|
            0 <= i < found.len() && hop_of_line(#[trigger] found[i], meaning) is Some ==> exists|
                k: int,
            |
                0 <= k < trace_hops(found, meaning).len() && says_no_less(
                    #[trigger] trace_hops(found, meaning)[k],
                    hop_of_line(found[i], meaning)->0,
                ),
        forall|k: int|
            0 <= k < trace_hops(found, meaning).len() ==> reported(
                found,
                meaning,
                (#[trigger] trace_hops(found, meaning)[k]).hop,
            ) && says_no_more(trace_hops(found, meaning)[k], found, meaning),
    decreases found.len(),
{
    if found.len() > 0 {
        let shorter = found.drop_last();
        let end = found.len() - 1;
        let last = found[end];
        lemma_trace_holds_what_is_reported(shorter, meaning);
        let before = trace_hops(shorter, meaning);
        let all = trace_hops(found, meaning);
        match hop_of_line(last, meaning) {
            None => {
                assert forall|i: int|
                    0 <= i < found.len() && hop_of_line(
                        #[trigger] found[i],
                        meaning,
                    ) is Some implies exists|k: int|
                    0 <= k < all.len() && says_no_less(
                        #[trigger] all[k],
                        hop_of_line(found[i], meaning)->0,
                    ) by {
                    assert(shorter[i] == found[i]);
                }
                assert forall|k: int| 0 <= k < all.len() implies reported(
                    found,
                    meaning,
                    (#[trigger] all[k]).hop,
                ) && says_no_more(all[k], found, meaning) by {
                    let i = choose|i: int|
                        0 <= i < shorter.len() && hop_of_line(
                            #[trigger] shorter[i],
                            meaning,
                        ) is Some && hop_of_line(shorter[i], meaning)->0.hop == before[k].hop;
                    assert(found[i] == shorter[i]);
                    lemma_no_more_with_another(all[k], found, meaning);
                }
            },
            Some(next) => {
                let at = hop_position(before, next.hop);
                lemma_hop_position(before, next.hop);
                assert(hop_of_line(found[end], meaning) == Some(next));
                assert(says_no_less(all[at], next));
                assert forall|i: int|
                    0 <= i < found.len() && hop_of_line(
                        #[trigger] found[i],
                        meaning,
                    ) is Some implies exists|k: int|
                    0 <= k < all.len() && says_no_less(
                        #[trigger] all[k],
                        hop_of_line(found[i], meaning)->0,
                    ) by {
                    if i < end {
                        assert(shorter[i] == found[i]);
                        let report = hop_of_line(found[i], meaning)->0;
                        let k = choose|k: int|
                            0 <= k < before.len() && says_no_less(#[trigger] before[k], report);
                        assert(says_no_less(all[k], report));
                    } else {
                        assert(says_no_less(all[at], next));
                    }
                }
                assert forall|k: int| 0 <= k < all.len() implies reported(
                    found,
                    meaning,
                    (#[trigger] all[k]).hop,
                ) && says_no_more(all[k], found, meaning) by {
                    if k < before.len() {
                        assert(all[k].hop == before[k].hop);
                        let i = choose|i: int|
                            0 <= i < shorter.len() && hop_of_line(
                                #[trigger] shorter[i],
                                meaning,
                            ) is Some && hop_of_line(shorter[i], meaning)->0.hop == before[k].hop;
                        assert(found[i] == shorter[i]);
                        lemma_no_more_with_another(before[k], found, meaning);
                    } else {
                        assert(hop_of_line(found[end], meaning)->0.hop == all[k].hop);
                    }
                    if k == at {
                        assert(hop_of_line(found[end], meaning) is Some);
                    }
                }
            },
        }
    }
}

proof fn lemma_words_behind_white(c: char, rest: Seq<char>)
    requires
        white(c),
    ensures
        words(seq![c] + rest) == words(rest),
{
    let none = Seq::<char>::empty();
    assert(seq![c] + rest =~= none.push(c) + rest);
    lemma_split_at(none, c, rest, Boundary::White);
    let pieces = split(rest, Boundary::White);
    lemma_nonempty_of_parts(seq![none], pieces);
    assert(seq![none].drop_last() =~= Seq::<Seq<char>>::empty());
    assert(nonempty(seq![none].drop_last()) =~= Seq::<Seq<char>>::empty());
    assert(nonempty(seq![none]) =~= Seq::<Seq<char>>::empty());
    assert(nonempty(seq![none]) + nonempty(pieces) =~= nonempty(pieces));
}

proof fn lemma_words_trim_start(s: Seq<char>)
    ensures
        words(trim_start(s)) == words(s),
    decreases s.len(),
{
    if s.len() > 0 && white(s[0]) {
        lemma_words_trim_start(s.skip(1));
        lemma_words_behind_white(s[0], s.skip(1));
        assert(s =~= seq![s[0]] + s.skip(1));
    }
}

proof fn lemma_words_trim_end(s: Seq<char>)
    ensures
        words(trim_end(s)) == words(s),
    decreases s.len(),
{
    if s.len() > 0 && white(s.last()) {
        lemma_words_trim_end(s.drop_last());
        let before = split(s.drop_last(), Boundary::White);
        let pieces = split(s, Boundary::White);
        assert(pieces == before.push(Seq::<char>::empty()));
        assert(pieces.drop_last() =~= before);
    }
}

/// Trimming a text changes nothing about its words.
pub proof fn lemma_words_of_trimmed(s: Seq<char>)
    ensures
        words(trim(s)) == words(s),
{
    lemma_words_trim_start(s);
    lemma_words_trim_end(trim_start(s));
}

/// The line of `ping` that gives four times.
pub open spec fn times_line(
    min: Seq<char>,
    avg: Seq<char>,
    max: Seq<char>,
    mdev: Seq<char>,
) -> Seq<char> {
    "rtt min/avg/max/mdev = "@ + (min + seq!['/'] + (avg + seq!['/'] + (max + seq!['/'] + mdev)))
        + " ms"@
}

/// Tells whether a text can be one of the times of such a line.
pub open spec fn is_time(s: Seq<char>) -> bool {
    s.len() > 0 && s.last() != 's' && unbroken(s, Boundary::Exactly('/'))
}

/// The statistics of echo requests.
pub open spec fn echoed(
    transmitted: u32,
    received: u32,
    min_ms: Double,
    avg_ms: Double,
    max_ms: Double,
    mdev_ms: Double,
) -> PingStats {
    PingStats {
        method: ProbeMethod::Icmp,
        transmitted,
        received,
        min_ms,
        avg_ms,
        max_ms,
        mdev_ms,
    }
}

proof fn lemma_times_line(
    scan: PingScan,
    min: Seq<char>,
    avg: Seq<char>,
    max: Seq<char>,
    mdev: Seq<char>,
    meaning: spec_fn(Seq<char>) -> Option<Double>,
)
    requires
        is_time(min),
        is_time(avg),
        is_time(max),
        is_time(mdev),
    ensures
        "rtt min/avg/max/mdev = "@.is_prefix_of(times_line(min, avg, max, mdev)),
        with_times(scan, times_line(min, avg, max, mdev), meaning) == (if meaning(min) is Some
            && meaning(avg) is Some && meaning(max) is Some && meaning(mdev) is Some {
            PingScan {
                stats: Some(
                    echoed(
                        or_zero(scan.transmitted),
                        or_zero(scan.received),
                        meaning(min)->0,
                        meaning(avg)->0,
                        meaning(max)->0,
                        meaning(mdev)->0,
                    ),
                ),
                ..scan
            }
        } else {
            scan
        }),
{
    reveal_strlit(" ms");
    let slash = Boundary::Exactly('/');
    let head = "rtt min/avg/max/mdev = "@;
    let last = max + seq!['/'] + mdev;
    let third = avg + seq!['/'] + last;
    let body = min + seq!['/'] + third;
    let line = times_line(min, avg, max, mdev);
    assert(line.subrange(0, head.len() as int) =~= head);
    let rest = body + " ms"@;
    assert(after(line, head) =~= rest);
    assert(!" ms"@.is_suffix_of(body)) by {
        if " ms"@.is_suffix_of(body) {
            assert(body.subrange(body.len() - 3, body.len() as int)[2] == " ms"@[2]);
            assert(body.last() == mdev.last());
        }
    }
    assert(rest.subrange(rest.len() - 3, rest.len() as int) =~= " ms"@);
    assert(rest.take(rest.len() - 3) =~= body);
    reveal_with_fuel(trim_end_matches, 2);
    assert(trim_end_matches(rest, " ms"@) == body);
    lemma_split_unbroken(min, slash);
    lemma_split_unbroken(avg, slash);
    lemma_split_unbroken(max, slash);
    lemma_split_unbroken(mdev, slash);
    lemma_split_at(max, '/', mdev, slash);
    assert(last =~= max.push('/') + mdev);
    lemma_split_at(avg, '/', last, slash);
    assert(third =~= avg.push('/') + last);
    lemma_split_at(min, '/', third, slash);
    assert(body =~= min.push('/') + third);
    assert(split(body, slash) =~= seq![min, avg, max, mdev]);
}

/// The line of `ping` that gives the counts.
pub open spec fn counts_line(transmitted: u32, received: u32, tail: Seq<char>) -> Seq<char> {
    decimal(transmitted as nat) + " packets transmitted"@ + seq![','] + (seq![' '] + decimal(
        received as nat,
    ) + " received"@) + tail
}

proof fn lemma_word_is_digits(n: nat)
    ensures
        crate::text::is_word(decimal(n)),
        unbroken(decimal(n), Boundary::Exactly(',')),
        unsigned(decimal(n), u32::MAX as nat) == (if n <= u32::MAX {
            Some(n)
        } else {
            None
        }),
{
    lemma_digits(n);
    lemma_decimal_round_trip(n);
    let s = decimal(n);
    assert forall|i: int| 0 <= i < s.len() implies !separates(Boundary::White, #[trigger] s[i]) by {
        assert(digit(s[i]));
    }
    assert forall|i: int| 0 <= i < s.len() implies !separates(
        Boundary::Exactly(','),
        #[trigger] s[i],
    ) by {
        assert(digit(s[i]));
    }
}

proof fn lemma_counts_line(scan: PingScan, transmitted: u32, received: u32, tail: Seq<char>)
    requires
        tail.len() > 0 ==> tail[0] == ',',
    ensures
        with_counts(scan, counts_line(transmitted, received, tail)) == (PingScan {
            transmitted: Some(transmitted),
            received: Some(received),
            stats: scan.stats,
        }),
{
    reveal_strlit(" packets transmitted");
    reveal_strlit("packets transmitted");
    reveal_strlit(" received");
    let comma = Boundary::Exactly(',');
    let n = decimal(transmitted as nat);
    let m = decimal(received as nat);
    let line = counts_line(transmitted, received, tail);
    let first = n + " packets transmitted"@;
    let second = seq![' '] + m + " received"@;
    lemma_word_is_digits(transmitted as nat);
    lemma_word_is_digits(received as nat);
    let at = n.len() as int + 1;
    assert(line.subrange(at, at + "packets transmitted"@.len()) =~= "packets transmitted"@);
    assert(occurs_at("packets transmitted"@, line, at));
    assert forall|i: int| 0 <= i < first.len() implies !separates(comma, #[trigger] first[i]) by {
        if i < n.len() {
            assert(first[i] == n[i]);
        } else {
            assert(first[i] == " packets transmitted"@[i - n.len()]);
        }
    }
    assert forall|i: int| 0 <= i < second.len() implies !separates(comma, #[trigger] second[i]) by {
        if 0 < i < m.len() + 1 {
            assert(second[i] == m[i - 1]);
        } else if i > 0 {
            assert(second[i] == " received"@[i - m.len() - 1]);
        }
    }
    lemma_split_unbroken(first, comma);
    lemma_split_unbroken(second, comma);
    let rest = second + tail;
    assert(line =~= first.push(',') + rest);
    lemma_split_at(first, ',', rest, comma);
    let parts = split(line, comma);
    lemma_split_has_pieces(rest, comma);
    assert(parts[0] == first);
    assert(parts[1] == split(rest, comma)[0]);
    if tail.len() == 0 {
        assert(rest =~= second);
    } else {
        let more = tail.skip(1);
        assert(rest =~= second.push(',') + more);
        lemma_split_at(second, ',', more, comma);
    }
    assert(parts[1] == second);
    let what = "packets transmitted"@;
    assert(first =~= n + seq![' '] + what);
    lemma_words_first(n, what);
    lemma_words_of_trimmed(first);
    let got = "received"@;
    reveal_strlit("received");
    assert(second =~= seq![' '] + (m + seq![' '] + got));
    lemma_words_behind_white(' ', m + seq![' '] + got);
    lemma_words_first(m, got);
    lemma_words_of_trimmed(second);
    assert(words(trim(first))[0] == n);
    assert(words(trim(second))[0] == m);
}

/// Tells whether a line of `ping` says nothing of counts nor of times.
pub open spec fn says_neither(line: Seq<char>) -> bool {
    !occurs("packets transmitted"@, trim(line)) && !"rtt min/avg/max/mdev = "@.is_prefix_of(
        trim(line),
    )
}

proof fn lemma_scan_passes(
    before: Seq<Seq<char>>,
    more: Seq<Seq<char>>,
    meaning: spec_fn(Seq<char>) -> Option<Double>,
)
    requires
        forall|i: int| 0 <= i < more.len() ==> says_neither(#[trigger] more[i]),
    ensures
        ping_scan(before + more, meaning) == ping_scan(before, meaning),
    decreases more.len(),
{
    if more.len() == 0 {
        assert(before + more =~= before);
    } else {
        let shorter = more.drop_last();
        assert forall|i: int| 0 <= i < shorter.len() implies says_neither(
            #[trigger] shorter[i],
        ) by {
            assert(shorter[i] == more[i]);
        }
        lemma_scan_passes(before, shorter, meaning);
        assert((before + more).drop_last() =~= before + shorter);
        assert((before + more).last() == more[more.len() - 1]);
        assert(says_neither(more[more.len() - 1]));
    }
}

proof fn lemma_stats_stay(
    before: Seq<Seq<char>>,
    more: Seq<Seq<char>>,
    meaning: spec_fn(Seq<char>) -> Option<Double>,
)
    requires
        forall|i: int|
            0 <= i < more.len() ==> !"rtt min/avg/max/mdev = "@.is_prefix_of(
                trim(#[trigger] more[i]),
            ),
    ensures
        ping_scan(before + more, meaning).stats == ping_scan(before, meaning).stats,
    decreases more.len(),
{
    if more.len() == 0 {
        assert(before + more =~= before);
    } else {
        let shorter = more.drop_last();
        assert forall|i: int|
            0 <= i < shorter.len() implies !"rtt min/avg/max/mdev = "@.is_prefix_of(
            trim(#[trigger] shorter[i]),
        ) by {
            assert(shorter[i] == more[i]);
        }
        lemma_stats_stay(before, shorter, meaning);
        assert((before + more).drop_last() =~= before + shorter);
        assert((before + more).last() == more[more.len() - 1]);
        assert(!"rtt min/avg/max/mdev = "@.is_prefix_of(trim(more[more.len() - 1])));
    }
}

/// What `ping` prints is read: the counts of the line that gives counts and, in their order,
/// the four times of the line that gives times, whatever lines stand before, between and
/// behind them.
pub proof fn lemma_ping_is_read(
    before: Seq<Seq<char>>,
    counts: Seq<char>,
    between: Seq<Seq<char>>,
    times: Seq<char>,
    behind: Seq<Seq<char>>,
    transmitted: u32,
    received: u32,
    tail: Seq<char>,
    min: Seq<char>,
    avg: Seq<char>,
    max: Seq<char>,
    mdev: Seq<char>,
    meaning: spec_fn(Seq<char>) -> Option<Double>,
)
    requires
        trim(counts) == counts_line(transmitted, received, tail),
        tail.len() > 0 ==> tail[0] == ',',
        trim(times) == times_line(min, avg, max, mdev),
        !occurs("packets transmitted"@, trim(times)),
        is_time(min),
        is_time(avg),
        is_time(max),
        is_time(mdev),
        meaning(min) is Some,
        meaning(avg) is Some,
        meaning(max) is Some,
        meaning(mdev) is Some,
        forall|i: int| 0 <= i < between.len() ==> says_neither(#[trigger] between[i]),
        forall|i: int|
            0 <= i < behind.len() ==> !"rtt min/avg/max/mdev = "@.is_prefix_of(
                trim(#[trigger] behind[i]),
            ),
    ensures
        ping_scan(before + seq![counts] + between + seq![times] + behind, meaning).stats == Some(
            echoed(
                transmitted,
                received,
                meaning(min)->0,
                meaning(avg)->0,
                meaning(max)->0,
                meaning(mdev)->0,
            ),
        ),
{
    let counted = before + seq![counts];
    let scan = ping_scan(before, meaning);
    assert(counted.drop_last() =~= before);
    assert(counted.last() == counts);
    lemma_counts_line(scan, transmitted, received, tail);
    lemma_digits(transmitted as nat);
    reveal_strlit("rtt min/avg/max/mdev = ");
    assert(!"rtt min/avg/max/mdev = "@.is_prefix_of(trim(counts))) by {
        assert(trim(counts)[0] == decimal(transmitted as nat)[0]);
        assert(digit(decimal(transmitted as nat)[0]));
        if "rtt min/avg/max/mdev = "@.is_prefix_of(trim(counts)) {
            assert("rtt min/avg/max/mdev = "@[0] == trim(counts)[0]);
        }
    }
    assert(ping_scan(counted, meaning) == with_counts(scan, trim(counts)));
    lemma_scan_passes(counted, between, meaning);
    let timed = counted + between + seq![times];
    assert(timed.drop_last() =~= counted + between);
    assert(timed.last() == times);
    lemma_times_line(ping_scan(counted, meaning), min, avg, max, mdev, meaning);
    lemma_stats_stay(timed, behind, meaning);
}

} // verus!
