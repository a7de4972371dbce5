//! What `ping` prints.

use crate::double::{reads_all, reads_as, Double};
use crate::probe::{PingStats, ProbeMethod};
use crate::text::{
    after, contains_text, lines, lines_of, occurs, read_unsigned, split, split_text, strings,
    strip_end_copies, strip_start, texts, trim, trim_end_matches, trim_of, unsigned, words,
    words_of, Boundary,
};
use vstd::prelude::*;
use vstd::string::*;

verus! {

/// What the output of `ping` says.
#[derive(Debug)]
pub struct ParsedPing {
    pub stats: Option<PingStats>,
    pub notes: Vec<String>,
}

/// What a scan of the output of `ping` has found so far.
pub struct PingScan {
    pub transmitted: Option<u32>,
    pub received: Option<u32>,
    pub stats: Option<PingStats>,
}

/// The count that the first word of `part` writes.
pub open spec fn leading_count(part: Seq<char>) -> Option<u32> {
    let found = words(part);
    if found.len() == 0 {
        None
    } else {
        match unsigned(found[0], u32::MAX as nat) {
            Some(count) => Some(count as u32),
            None => None,
        }
    }
}

/// The scan after the packet counts of a line, which commas part.
pub open spec fn with_counts(scan: PingScan, line: Seq<char>) -> PingScan {
    if occurs("packets transmitted"@, line) {
        let parts = split(line, Boundary::Exactly(','));
        PingScan {
            transmitted: leading_count(trim(parts[0])),
            received: if parts.len() > 1 {
                leading_count(trim(parts[1]))
            } else {
                scan.received
            },
            stats: scan.stats,
        }
    } else {
        scan
    }
}

/// The count, or zero where there is none.
pub open spec fn or_zero(count: Option<u32>) -> u32 {
    match count {
        Some(n) => n,
        None => 0,
    }
}

/// The scan after the round-trip times of a line, if it gives all four of them.
pub open spec fn with_times(
    scan: PingScan,
    line: Seq<char>,
    meaning: spec_fn(Seq<char>) -> Option<Double>,
) -> PingScan {
    let head = "rtt min/avg/max/mdev = "@;
    let values = split(
        trim_end_matches(after(line, head), " ms"@),
        Boundary::Exactly('/'),
    );
    if head.is_prefix_of(line) && values.len() == 4 && meaning(values[0]) is Some && meaning(
        values[1],
    ) is Some && meaning(values[2]) is Some && meaning(values[3]) is Some {
        PingScan {
            transmitted: scan.transmitted,
            received: scan.received,
            stats: Some(
                PingStats {
                    method: ProbeMethod::Icmp,
                    transmitted: or_zero(scan.transmitted),
                    received: or_zero(scan.received),
                    min_ms: meaning(values[0])->0,
                    avg_ms: meaning(values[1])->0,
                    max_ms: meaning(values[2])->0,
                    mdev_ms: meaning(values[3])->0,
                },
            ),
        }
    } else {
        scan
    }
}

/// What the lines of the output of `ping` say.
pub open spec fn ping_scan(
    found: Seq<Seq<char>>,
    meaning: spec_fn(Seq<char>) -> Option<Double>,
) -> PingScan
    decreases found.len(),
{
    if found.len() == 0 {
        PingScan { transmitted: None, received: None, stats: None }
    } else {
        let line = trim(found.last());
        with_times(with_counts(ping_scan(found.drop_last(), meaning), line), line, meaning)
    }
}

/// What was printed on the error stream, as notes.
pub open spec fn error_notes(stderr: Seq<char>) -> Seq<Seq<char>> {
    if trim(stderr).len() == 0 {
        Seq::<Seq<char>>::empty()
    } else {
        seq![trim(stderr)]
    }
}

/// The statistics that the output of `ping` gives.
pub open spec fn ping_stats(
    stdout: Seq<char>,
    meaning: spec_fn(Seq<char>) -> Option<Double>,
) -> Option<PingStats> {
    ping_scan(lines(stdout), meaning).stats
}

/// The notes to the output of `ping`.
pub open spec fn ping_notes(
    stdout: Seq<char>,
    stderr: Seq<char>,
    meaning: spec_fn(Seq<char>) -> Option<Double>,
) -> Seq<Seq<char>> {
    let scan = ping_scan(lines(stdout), meaning);
    if scan.stats is None && or_zero(scan.received) == 0 {
        error_notes(stderr).push("no ICMP replies"@)
    } else {
        error_notes(stderr)
    }
}

fn first_count(part: &str) -> (count: Option<u32>)
    ensures
        count == leading_count(part@),
{
    let found = words_of(part);
    if found.len() == 0 {
        None
    } else {
        assert(texts(found@)[0] == found@[0]@);
        read_unsigned(found[0], u32::MAX)
    }
}

/// What was printed on the error stream, as notes.
pub fn notes_of_errors(stderr: &str) -> (notes: Vec<String>)
    ensures
        strings(notes@) == error_notes(stderr@),
{
    let mut notes: Vec<String> = Vec::new();
    let trimmed = trim_of(stderr);
    if !trimmed.is_empty() {
        notes.push(trimmed.to_owned());
    }
    assert(strings(notes@) =~= error_notes(stderr@));
    notes
}

fn scan_counts(scan: PingScan, line: &str) -> (next: PingScan)
    ensures
        next == with_counts(scan, line@),
{
    if contains_text(line, "packets transmitted") {
        let parts = split_text(line, Boundary::Exactly(','));
        assert(texts(parts@)[0] == parts@[0]@);
        let transmitted = first_count(trim_of(parts[0]));
        let received = if parts.len() > 1 {
            assert(texts(parts@)[1] == parts@[1]@);
            first_count(trim_of(parts[1]))
        } else {
            scan.received
        };
        PingScan { transmitted, received, stats: scan.stats }
    } else {
        scan
    }
}

fn count_or_zero(count: Option<u32>) -> (n: u32)
    ensures
        n == or_zero(count),
{
    match count {
        Some(n) => n,
        None => 0,
    }
}

fn scan_times<R: Fn(&str) -> Option<Double>>(
    scan: PingScan,
    line: &str,
    read: &R,
) -> (next: PingScan)
    requires
        reads_all(*read),
    ensures
        forall|meaning: spec_fn(Seq<char>) -> Option<Double>| #[trigger]
            reads_as(*read, meaning) ==> next == with_times(scan, line@, meaning),
{
    match strip_start(line, "rtt min/avg/max/mdev = ") {
        None => scan,
        Some(rest) => {
            let values = split_text(strip_end_copies(rest, " ms"), Boundary::Exactly('/'));
            if values.len() != 4 {
                return scan;
            }
            proof {
                assert(texts(values@)[0] == values@[0]@);
                assert(texts(values@)[1] == values@[1]@);
                assert(texts(values@)[2] == values@[2]@);
                assert(texts(values@)[3] == values@[3]@);
            }
            let min_ms = read(values[0]);
            let avg_ms = read(values[1]);
            let max_ms = read(values[2]);
            let mdev_ms = read(values[3]);
            match (min_ms, avg_ms, max_ms, mdev_ms) {
                (Some(min_ms), Some(avg_ms), Some(max_ms), Some(mdev_ms)) => PingScan {
                    transmitted: scan.transmitted,
                    received: scan.received,
                    stats: Some(
                        PingStats {
                            method: ProbeMethod::Icmp,
                            transmitted: count_or_zero(scan.transmitted),
                            received: count_or_zero(scan.received),
                            min_ms,
                            avg_ms,
                            max_ms,
                            mdev_ms,
                        },
                    ),
                },
                _ => scan,
            }
        },
    }
}

/// Reads the output of `ping`. The function `read` reads the times in it.
pub fn parse_ping_output<R: Fn(&str) -> Option<Double>>(
    stdout: &str,
    stderr: &str,
    read: &R,
) -> (parsed: ParsedPing)
    requires
        reads_all(*read),
    ensures
        forall|meaning: spec_fn(Seq<char>) -> Option<Double>| #[trigger]
            reads_as(*read, meaning) ==> {
                &&& parsed.stats == ping_stats(stdout@, meaning)
                &&& strings(parsed.notes@) == ping_notes(stdout@, stderr@, meaning)
            },
{
    let mut notes = notes_of_errors(stderr);
    let found = lines_of(stdout);
    let mut scan = PingScan { transmitted: None, received: None, stats: None };
    let mut i: usize = 0;
    assert(texts(found@).take(0) =~= Seq::<Seq<char>>::empty());
    while i < found.len()
        invariant
            i <= found@.len(),
            reads_all(*read),
            forall|meaning: spec_fn(Seq<char>) -> Option<Double>| #[trigger]
                reads_as(*read, meaning) ==> scan == ping_scan(
                    texts(found@).take(i as int),
                    meaning,
                ),
        decreases found@.len() - i,
    {
        assert(texts(found@).take(i + 1).drop_last() =~= texts(found@).take(i as int));
        assert(texts(found@).take(i + 1).last() == found@[i as int]@);
        let line = trim_of(found[i]);
        scan = scan_times(scan_counts(scan, line), line, read);
        i = i + 1;
    }
    assert(texts(found@).take(found@.len() as int) =~= texts(found@));
    if scan.stats.is_none() && count_or_zero(scan.received) == 0 {
        let ghost before = strings(notes@);
        notes.push("no ICMP replies".to_owned());
        assert(strings(notes@) =~= before.push("no ICMP replies"@));
    }
    ParsedPing { stats: scan.stats, notes }
}

} // verus!
