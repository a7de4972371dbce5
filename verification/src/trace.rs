//! What `tracepath` prints.

use crate::double::{reads_all, reads_as, Double};
use crate::ping::{error_notes, notes_of_errors};
use crate::probe::{hop_views, HopView, TraceHop, TraceSummary};
use crate::text::{
    contains_char, ends_with, join, join_texts, lines, lines_of, read_unsigned, same, split_first,
    starts_with, strings, strip_end_copies, texts, trim, trim_end_matches, trim_of, trim_start,
    trim_start_of, unsigned, until, words, words_of,
};
use vstd::prelude::*;
use vstd::string::*;

verus! {

/// What the output of `tracepath` says.
#[derive(Debug)]
pub struct ParsedTrace {
    pub summary: Option<TraceSummary>,
    pub notes: Vec<String>,
}

/// The first word of `found` that ends in `ms`, or one behind the last.
pub open spec fn time_word(found: Seq<Seq<char>>) -> int
    decreases found.len(),
{
    if found.len() == 0 || "ms"@.is_suffix_of(found[0]) {
        0
    } else {
        1 + time_word(found.skip(1))
    }
}

/// The hop that answered: its address, its time and the words behind the time.
pub open spec fn answered(
    hop: u8,
    found: Seq<Seq<char>>,
    meaning: spec_fn(Seq<char>) -> Option<Double>,
) -> HopView {
    let at = time_word(found);
    HopView {
        hop,
        address: if found.len() > 0 {
            Some(found[0])
        } else {
            None
        },
        hostname: None,
        rtt_ms: if at < found.len() {
            meaning(trim_end_matches(found[at], "ms"@))
        } else {
            None
        },
        note: if at + 1 < found.len() {
            Some(join(found.skip(at + 1), " "@))
        } else {
            None
        },
    }
}

/// The hop that did not answer.
pub open spec fn silent(hop: u8) -> HopView {
    HopView { hop, address: None, hostname: None, rtt_ms: None, note: Some("no reply"@) }
}

/// The number of the hop that a line is about, from what stands before the colon.
pub open spec fn hop_number(token: Seq<char>) -> Option<u8> {
    if token.contains('?') {
        None
    } else {
        match unsigned(trim(token), u8::MAX as nat) {
            Some(hop) => Some(hop as u8),
            None => None,
        }
    }
}

/// The hop that a line describes, if it describes one.
pub open spec fn hop_of_line(
    line: Seq<char>,
    meaning: spec_fn(Seq<char>) -> Option<Double>,
) -> Option<HopView> {
    let trimmed = trim_start(line);
    let colon = until(trimmed, ':');
    if colon >= trimmed.len() {
        None
    } else {
        match hop_number(trimmed.take(colon)) {
            None => None,
            Some(hop) => {
                let remainder = trim(trimmed.skip(colon + 1));
                if "no reply"@.is_prefix_of(remainder) {
                    Some(silent(hop))
                } else {
                    Some(answered(hop, words(remainder), meaning))
                }
            },
        }
    }
}

/// The lower of two times, as far as there are times.
pub open spec fn lower_time(left: Option<Double>, right: Option<Double>) -> Option<Double> {
    match (left, right) {
        (Some(a), Some(b)) => Some(a.lesser(b)),
        (None, Some(b)) => Some(b),
        (_, None) => left,
    }
}

/// What two reports on one hop say together.
pub open spec fn merged(existing: HopView, next: HopView) -> HopView {
    HopView {
        hop: existing.hop,
        address: if existing.address is None {
            next.address
        } else {
            existing.address
        },
        hostname: if existing.hostname is None {
            next.hostname
        } else {
            existing.hostname
        },
        rtt_ms: lower_time(existing.rtt_ms, next.rtt_ms),
        note: if existing.note is None || existing.note == Some("no reply"@) {
            next.note
        } else {
            existing.note
        },
    }
}

/// The position of the first hop of this number, or one behind the last.
pub open spec fn hop_position(hops: Seq<HopView>, hop: u8) -> int
    decreases hops.len(),
{
    if hops.len() == 0 || hops[0].hop == hop {
        0
    } else {
        1 + hop_position(hops.skip(1), hop)
    }
}

/// The hops with one report more: merged into the hop of its number, or behind all.
pub open spec fn with_hop(hops: Seq<HopView>, next: HopView) -> Seq<HopView> {
    let at = hop_position(hops, next.hop);
    if at < hops.len() {
        hops.update(at, merged(hops[at], next))
    } else {
        hops.push(next)
    }
}

/// The hops that the lines of the output of `tracepath` describe.
pub open spec fn trace_hops(
    found: Seq<Seq<char>>,
    meaning: spec_fn(Seq<char>) -> Option<Double>,
) -> Seq<HopView>
    decreases found.len(),
{
    if found.len() == 0 {
        Seq::<HopView>::empty()
    } else {
        let before = trace_hops(found.drop_last(), meaning);
        match hop_of_line(found.last(), meaning) {
            Some(hop) => with_hop(before, hop),
            None => before,
        }
    }
}

/// The hops of a summary, which is missing where there is none.
pub open spec fn summary_hops(summary: Option<TraceSummary>) -> Seq<HopView> {
    match summary {
        Some(route) => hop_views(route.hops@),
        None => Seq::<HopView>::empty(),
    }
}

fn merge_hop(existing: &mut TraceHop, next: TraceHop)
    ensures
        final(existing)@ == merged(old(existing)@, next@),
{
    if existing.address.is_none() {
        existing.address = next.address;
    }
    if existing.hostname.is_none() {
        existing.hostname = next.hostname;
    }
    existing.rtt_ms = match (existing.rtt_ms, next.rtt_ms) {
        (Some(left), Some(right)) => Some(left.min(right)),
        (None, Some(right)) => Some(right),
        (left, None) => left,
    };
    let replace = match &existing.note {
        None => true,
        Some(note) => same(note.as_str(), "no reply"),
    };
    if replace {
        existing.note = next.note;
    }
}

/// Adds a report to the hops.
pub fn push_or_merge_hop(hops: &mut Vec<TraceHop>, next: TraceHop)
    ensures
        hop_views(final(hops)@) == with_hop(hop_views(old(hops)@), next@),
{
    let ghost before = hop_views(hops@);
    let mut i: usize = 0;
    assert(before.skip(0) =~= before);
    while i < hops.len() && hops[i].hop != next.hop
        invariant
            hops@ == old(hops)@,
            before == hop_views(hops@),
            i <= hops@.len(),
            hop_position(before, next.hop) == i + hop_position(before.skip(i as int), next.hop),
        decreases hops@.len() - i,
    {
        assert(before.skip(i as int).skip(1) =~= before.skip(i + 1));
        i = i + 1;
    }
    if i < hops.len() {
        merge_hop(&mut hops[i], next);
        assert(hop_views(hops@) =~= before.update(i as int, merged(before[i as int], next@)));
    } else {
        hops.push(next);
        assert(hop_views(hops@) =~= before.push(next@));
    }
}

fn find_time(found: &Vec<&str>) -> (at: usize)
    ensures
        at == time_word(texts(found@)),
        at <= found@.len(),
{
    let ghost all = texts(found@);
    let mut i: usize = 0;
    assert(all.skip(0) =~= all);
    while i < found.len() && !ends_with(found[i], "ms")
        invariant
            all == texts(found@),
            i <= found@.len(),
            time_word(all) == i + time_word(all.skip(i as int)),
        decreases found@.len() - i,
    {
        assert(all.skip(i as int)[0] == found@[i as int]@);
        assert(all.skip(i as int).skip(1) =~= all.skip(i + 1));
        i = i + 1;
    }
    if i < found.len() {
        assert(all.skip(i as int)[0] == found@[i as int]@);
    }
    i
}

fn words_behind<'a>(found: &Vec<&'a str>, at: usize) -> (rest: Vec<&'a str>)
    requires
        at < found@.len(),
    ensures
        texts(rest@) == texts(found@).skip(at + 1),
{
    let n: usize = found.len();
    let mut rest: Vec<&'a str> = Vec::new();
    let mut i: usize = at + 1;
    while i < n
        invariant
            n == found@.len(),
            at < i <= found@.len(),
            rest@ == found@.subrange(at + 1, i as int),
        decreases found@.len() - i,
    {
        rest.push(found[i]);
        i = i + 1;
        assert(rest@ =~= found@.subrange(at + 1, i as int));
    }
    assert(texts(rest@) =~= texts(found@).skip(at + 1));
    rest
}

fn answered_hop<R: Fn(&str) -> Option<Double>>(
    hop: u8,
    found: &Vec<&str>,
    read: &R,
) -> (result: TraceHop)
    requires
        reads_all(*read),
    ensures
        forall|meaning: spec_fn(Seq<char>) -> Option<Double>| #[trigger]
            reads_as(*read, meaning) ==> result@ == answered(hop, texts(found@), meaning),
{
    let at = find_time(found);
    let address = if found.len() > 0 {
        Some(found[0].to_owned())
    } else {
        None
    };
    let rtt_ms = if at < found.len() {
        read(strip_end_copies(found[at], "ms"))
    } else {
        None
    };
    let note = if at < found.len() && at + 1 < found.len() {
        let rest = words_behind(found, at);
        Some(join_texts(&rest, " "))
    } else {
        None
    };
    TraceHop { hop, address, hostname: None, rtt_ms, note }
}

fn silent_hop(hop: u8) -> (result: TraceHop)
    ensures
        result@ == silent(hop),
{
    TraceHop {
        hop,
        address: None,
        hostname: None,
        rtt_ms: None,
        note: Some("no reply".to_owned()),
    }
}

fn read_hop_number(token: &str) -> (hop: Option<u8>)
    ensures
        hop == hop_number(token@),
{
    if contains_char(token, '?') {
        return None;
    }
    match read_unsigned(trim_of(token), u8::MAX as u32) {
        Some(hop) => Some(hop as u8),
        None => None,
    }
}

fn read_hop<R: Fn(&str) -> Option<Double>>(line: &str, read: &R) -> (hop: Option<TraceHop>)
    requires
        reads_all(*read),
    ensures
        forall|meaning: spec_fn(Seq<char>) -> Option<Double>| #[trigger]
            reads_as(*read, meaning) ==> match hop {
                Some(h) => hop_of_line(line@, meaning) == Some(h@),
                None => hop_of_line(line@, meaning) is None,
            },
{
    let trimmed = trim_start_of(line);
    match split_first(trimmed, ':') {
        None => None,
        Some((token, remainder)) => match read_hop_number(token) {
            None => None,
            Some(hop) => {
                let remainder = trim_of(remainder);
                if starts_with(remainder, "no reply") {
                    Some(silent_hop(hop))
                } else {
                    let found = words_of(remainder);
                    Some(answered_hop(hop, &found, read))
                }
            },
        },
    }
}

/// Reads the output of `tracepath`. The function `read` reads the times in it.
pub fn parse_tracepath_output<R: Fn(&str) -> Option<Double>>(
    stdout: &str,
    stderr: &str,
    read: &R,
) -> (parsed: ParsedTrace)
    requires
        reads_all(*read),
    ensures
        forall|meaning: spec_fn(Seq<char>) -> Option<Double>| #[trigger]
            reads_as(*read, meaning) ==> {
                &&& summary_hops(parsed.summary) == trace_hops(lines(stdout@), meaning)
                &&& parsed.summary is None <==> trace_hops(lines(stdout@), meaning).len() == 0
            },
        strings(parsed.notes@) == error_notes(stderr@),
{
    let notes = notes_of_errors(stderr);
    let found = lines_of(stdout);
    let mut hops: Vec<TraceHop> = Vec::new();
    let mut i: usize = 0;
    assert(texts(found@).take(0) =~= Seq::<Seq<char>>::empty());
    assert(hop_views(hops@) =~= Seq::<HopView>::empty());
    while i < found.len()
        invariant
            i <= found@.len(),
            reads_all(*read),
            forall|meaning: spec_fn(Seq<char>) -> Option<Double>| #[trigger]
                reads_as(*read, meaning) ==> hop_views(hops@) == trace_hops(
                    texts(found@).take(i as int),
                    meaning,
                ),
        decreases found@.len() - i,
    {
        assert(texts(found@).take(i + 1).drop_last() =~= texts(found@).take(i as int));
        assert(texts(found@).take(i + 1).last() == found@[i as int]@);
        match read_hop(found[i], read) {
            Some(hop) => {
                push_or_merge_hop(&mut hops, hop);
            },
            None => {},
        }
        i = i + 1;
    }
    assert(texts(found@).take(found@.len() as int) =~= texts(found@));
    let summary = if hops.len() == 0 {
        assert(hop_views(hops@) =~= Seq::<HopView>::empty());
        None
    } else {
        Some(TraceSummary { hops })
    };
    ParsedTrace { summary, notes }
}

/// Tells whether no two hops share a number.
pub open spec fn distinct_hops(hops: Seq<HopView>) -> bool {
    forall|i: int, j: int|
        0 <= i < j < hops.len() ==> (#[trigger] hops[i]).hop != (#[trigger] hops[j]).hop
}

/// The position of a hop is that of the first of its number.
pub proof fn lemma_hop_position(hops: Seq<HopView>, hop: u8)
    ensures
        0 <= hop_position(hops, hop) <= hops.len(),
        hop_position(hops, hop) < hops.len() ==> hops[hop_position(hops, hop)].hop == hop,
        forall|i: int| 0 <= i < hop_position(hops, hop) ==> (#[trigger] hops[i]).hop != hop,
    decreases hops.len(),
{
    if hops.len() > 0 && hops[0].hop != hop {
        let rest = hops.skip(1);
        lemma_hop_position(rest, hop);
        assert forall|i: int| 0 <= i < hop_position(hops, hop) implies (#[trigger] hops[i]).hop
            != hop by {
            if i > 0 {
                assert(hops[i] == rest[i - 1]);
            }
        }
    }
}

/// Adding a report keeps the numbers of the hops apart.
pub proof fn lemma_with_hop_distinct(hops: Seq<HopView>, next: HopView)
    requires
        distinct_hops(hops),
    ensures
        distinct_hops(with_hop(hops, next)),
{
    lemma_hop_position(hops, next.hop);
}

/// However often `tracepath` reports on a hop, the trace holds the hop once.
pub proof fn lemma_trace_hops_distinct(
    found: Seq<Seq<char>>,
    meaning: spec_fn(Seq<char>) -> Option<Double>,
)
    ensures
        distinct_hops(trace_hops(found, meaning)),
    decreases found.len(),
{
    if found.len() > 0 {
        lemma_trace_hops_distinct(found.drop_last(), meaning);
        match hop_of_line(found.last(), meaning) {
            Some(hop) => {
                lemma_with_hop_distinct(trace_hops(found.drop_last(), meaning), hop);
            },
            None => {},
        }
    }
}

/// A merged hop never has a higher time than either report gave, as far as the
/// times are numbers.
pub proof fn lemma_merged_time_is_lowest(existing: HopView, next: HopView)
    ensures
        existing.rtt_ms matches Some(a) ==> !a.nan() ==> merged(existing, next).rtt_ms->0.at_most(
            a,
        ),
        next.rtt_ms matches Some(b) ==> !b.nan() ==> merged(existing, next).rtt_ms->0.at_most(b),
        merged(existing, next).rtt_ms is None <==> existing.rtt_ms is None && next.rtt_ms is None,
{
}

} // verus!
