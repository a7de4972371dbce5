//! The rounds of a probe: what to measure, and what the samples amount to.

use crate::anchors::Anchor;
use crate::commands::{candidate_views, CandidateView, LocalCandidate};
use crate::double::{reads_all, reads_as, zero, Double};
use crate::ping::{error_notes, parse_ping_output, ping_notes, ping_stats};
use crate::probe::{
    hop_views, method_name, CommandOutput, HopView, LocalFloorView, LocalRttFloor, Measurement,
    MeasurementView, PingStats, ProbeConfig, TraceHop, TraceSummary,
};
use crate::text::{
    decimal, decimal_text, lines, maybe_text, push_string, push_strings, same, strings,
};
use crate::trace::{parse_tracepath_output, trace_hops};
use vstd::prelude::*;
use vstd::string::*;

verus! {

/// What measuring one target gave.
#[derive(Debug)]
pub struct Sample {
    pub stats: Option<PingStats>,
    pub notes: Vec<String>,
}

/// What a `Sample` stands for.
#[verifier::ext_equal]
pub struct SampleView {
    pub stats: Option<PingStats>,
    pub notes: Seq<Seq<char>>,
}

impl View for Sample {
    type V = SampleView;

    open spec fn view(&self) -> SampleView {
        SampleView { stats: self.stats, notes: strings(self.notes@) }
    }
}

/// What a list of samples stands for.
pub open spec fn sample_views(list: Seq<Sample>) -> Seq<SampleView> {
    Seq::new(list.len(), |i: int| list[i]@)
}

/// What follows a ping: it may be enough, or a TCP handshake has to be tried.
#[derive(Debug)]
pub enum PingStep {
    Done(Sample),
    TryTcp(Vec<String>),
}

/// Decides what follows a ping, which printed something or failed with an error.
pub fn after_ping<R: Fn(&str) -> Option<Double>>(
    outcome: &Result<CommandOutput, String>,
    read: &R,
) -> (step: PingStep)
    requires
        reads_all(*read),
    ensures
        forall|meaning: spec_fn(Seq<char>) -> Option<Double>| #[trigger]
            reads_as(*read, meaning) ==> match *outcome {
                Ok(output) => match step {
                    PingStep::Done(sample) => {
                        &&& ping_stats(output.stdout@, meaning) is Some
                        &&& sample@ == (SampleView {
                            stats: ping_stats(output.stdout@, meaning),
                            notes: ping_notes(output.stdout@, output.stderr@, meaning),
                        })
                    },
                    PingStep::TryTcp(notes) => {
                        &&& ping_stats(output.stdout@, meaning) is None
                        &&& strings(notes@) == ping_notes(
                            output.stdout@,
                            output.stderr@,
                            meaning,
                        )
                    },
                },
                Err(error) => {
                    &&& step is TryTcp
                    &&& strings(step->TryTcp_0@) == seq!["ping failed: "@ + error@]
                },
            },
{
    match outcome {
        Ok(output) => {
            let parsed = parse_ping_output(output.stdout.as_str(), output.stderr.as_str(), read);
            if parsed.stats.is_some() {
                PingStep::Done(Sample { stats: parsed.stats, notes: parsed.notes })
            } else {
                PingStep::TryTcp(parsed.notes)
            }
        },
        Err(error) => {
            let mut note = "ping failed: ".to_owned();
            note.append(error.as_str());
            let ghost text = note@;
            let mut notes: Vec<String> = Vec::new();
            notes.push(note);
            assert(strings(notes@) =~= seq![text]);
            PingStep::TryTcp(notes)
        },
    }
}

/// The sample after a TCP handshake, which succeeded or not or could not be tried.
pub open spec fn tcp_sample(
    notes: Seq<Seq<char>>,
    outcome: Result<Option<PingStats>, String>,
) -> SampleView {
    match outcome {
        Ok(Some(stats)) => SampleView {
            stats: Some(stats),
            notes: notes.push("used "@ + method_name(stats.method) + " fallback"@),
        },
        Ok(None) => SampleView { stats: None, notes },
        Err(error) => SampleView { stats: None, notes: notes.push("tcp probe failed: "@ + error@) },
    }
}

/// The sample after a TCP handshake.
pub fn after_tcp(
    notes: Vec<String>,
    outcome: &Result<Option<PingStats>, String>,
) -> (sample: Sample)
    ensures
        sample@ == tcp_sample(strings(notes@), *outcome),
{
    let ghost before = strings(notes@);
    let mut notes = notes;
    match outcome {
        Ok(Some(stats)) => {
            let mut note = "used ".to_owned();
            let method = stats.method.label();
            note.append(method.as_str());
            note.append(" fallback");
            let ghost text = note@;
            notes.push(note);
            assert(strings(notes@) =~= before.push(text));
            Sample { stats: Some(*stats), notes }
        },
        Ok(None) => Sample { stats: None, notes },
        Err(error) => {
            let mut note = "tcp probe failed: ".to_owned();
            note.append(error.as_str());
            let ghost text = note@;
            notes.push(note);
            assert(strings(notes@) =~= before.push(text));
            Sample { stats: None, notes }
        },
    }
}

/// The number of addresses that a round measures.
pub open spec fn address_count(ips: Seq<Seq<char>>) -> int {
    if ips.len() > 3 {
        3
    } else {
        ips.len() as int
    }
}

/// The targets of a round: the first addresses, or the host where there are none.
pub open spec fn targets_of(ips: Seq<Seq<char>>, host: Seq<char>) -> Seq<Seq<char>> {
    if ips.len() == 0 {
        seq![host]
    } else {
        ips.take(address_count(ips))
    }
}

/// The targets of a round.
pub fn round_targets(ips: &Vec<String>, host: &str) -> (targets: Vec<String>)
    ensures
        strings(targets@) == targets_of(strings(ips@), host@),
{
    let mut targets: Vec<String> = Vec::new();
    if ips.len() == 0 {
        targets.push(host.to_owned());
        assert(strings(targets@) =~= seq![host@]);
        return targets;
    }
    let n: usize = if ips.len() > 3 {
        3
    } else {
        ips.len()
    };
    let mut i: usize = 0;
    while i < n
        invariant
            n <= ips@.len(),
            i <= n,
            targets@.len() == i,
            forall|j: int| 0 <= j < i ==> (#[trigger] targets@[j])@ == ips@[j]@,
        decreases n - i,
    {
        targets.push(ips[i].clone());
        i = i + 1;
    }
    assert(strings(targets@) =~= strings(ips@).take(n as int));
    targets
}

/// The best sample so far, and the address that it was measured at.
#[verifier::ext_equal]
pub struct BestView {
    pub ip: Option<Seq<char>>,
    pub stats: PingStats,
}

/// The address of a target of a round: none where the host itself is the target.
pub open spec fn target_ip(ips: Seq<Seq<char>>, i: int) -> Option<Seq<char>> {
    if ips.len() == 0 {
        None
    } else {
        Some(ips[i])
    }
}

/// The best sample of a round: the first of those with the lowest time.
pub open spec fn round_best(ips: Seq<Seq<char>>, samples: Seq<SampleView>) -> Option<BestView>
    decreases samples.len(),
{
    if samples.len() == 0 {
        None
    } else {
        let before = round_best(ips, samples.drop_last());
        match samples.last().stats {
            Some(stats) => if before is None || stats.min_ms.below(before->0.stats.min_ms) {
                Some(BestView { ip: target_ip(ips, samples.len() - 1), stats })
            } else {
                before
            },
            None => before,
        }
    }
}

/// The number of samples without a time.
pub open spec fn failures(samples: Seq<SampleView>) -> nat
    decreases samples.len(),
{
    if samples.len() == 0 {
        0
    } else if samples.last().stats is None {
        failures(samples.drop_last()) + 1
    } else {
        failures(samples.drop_last())
    }
}

/// How a note on a round starts.
pub open spec fn round_head(round: nat) -> Seq<char> {
    "round "@ + decimal(round) + ": "@
}

/// The notes of a sample that are kept: the first two, with their round and target.
pub open spec fn kept_notes(
    round: nat,
    target: Seq<char>,
    notes: Seq<Seq<char>>,
) -> Seq<Seq<char>> {
    Seq::new(
        if notes.len() > 2 {
            2
        } else {
            notes.len()
        },
        |i: int| round_head(round) + target + ": "@ + notes[i],
    )
}

/// The notes of the samples without a time.
pub open spec fn failure_notes(
    round: nat,
    targets: Seq<Seq<char>>,
    samples: Seq<SampleView>,
) -> Seq<Seq<char>>
    decreases samples.len(),
{
    if samples.len() == 0 {
        Seq::<Seq<char>>::empty()
    } else {
        let before = failure_notes(round, targets, samples.drop_last());
        if samples.last().stats is None {
            before + kept_notes(round, targets[samples.len() - 1], samples.last().notes)
        } else {
            before
        }
    }
}

/// What one round gave: the addresses that the host had, and a sample for each target.
#[derive(Debug)]
pub struct RoundSamples {
    pub ips: Vec<String>,
    pub samples: Vec<Sample>,
}

/// What a `RoundSamples` stands for.
#[verifier::ext_equal]
pub struct RoundView {
    pub ips: Seq<Seq<char>>,
    pub samples: Seq<SampleView>,
}

impl View for RoundSamples {
    type V = RoundView;

    open spec fn view(&self) -> RoundView {
        RoundView { ips: strings(self.ips@), samples: sample_views(self.samples@) }
    }
}

/// What a list of rounds stands for.
pub open spec fn round_views(list: Seq<RoundSamples>) -> Seq<RoundView> {
    Seq::new(list.len(), |i: int| list[i]@)
}

/// What the rounds so far amount to.
#[verifier::ext_equal]
pub struct ProbeView {
    pub best: Option<BestView>,
    pub successes: nat,
    pub notes: Seq<Seq<char>>,
}

/// The note that a round had no address, where it had none.
pub open spec fn dns_notes(round: nat, ips: Seq<Seq<char>>) -> Seq<Seq<char>> {
    if ips.len() == 0 {
        seq![round_head(round) + "DNS resolution failed"@]
    } else {
        Seq::<Seq<char>>::empty()
    }
}

/// The notes on a round without any time.
pub open spec fn lost_notes(round: nat, host: Seq<char>, samples: RoundView) -> Seq<Seq<char>> {
    if round_best(samples.ips, samples.samples) is None && failures(samples.samples) > 0 {
        seq![
            round_head(round) + "no usable RTT sample across "@ + decimal(
                failures(samples.samples),
            ) + " target(s)"@,
        ] + failure_notes(round, targets_of(samples.ips, host), samples.samples)
    } else {
        Seq::<Seq<char>>::empty()
    }
}

/// The note that a round had a choice of addresses, where it had one.
pub open spec fn choice_notes(round: nat, ips: Seq<Seq<char>>) -> Seq<Seq<char>> {
    if ips.len() > 1 {
        seq![
            round_head(round) + "selected best RTT from "@ + decimal(address_count(ips) as nat)
                + " resolved IPs"@,
        ]
    } else {
        Seq::<Seq<char>>::empty()
    }
}

/// What the rounds amount to after one more.
pub open spec fn after_round(
    probe: ProbeView,
    round: nat,
    host: Seq<char>,
    samples: RoundView,
) -> ProbeView {
    let best = round_best(samples.ips, samples.samples);
    ProbeView {
        best: match best {
            Some(found) => if probe.best is None || found.stats.min_ms.below(
                probe.best->0.stats.min_ms,
            ) {
                best
            } else {
                probe.best
            },
            None => probe.best,
        },
        successes: if best is Some {
            probe.successes + 1
        } else {
            probe.successes
        },
        notes: probe.notes + dns_notes(round, samples.ips) + lost_notes(round, host, samples)
            + choice_notes(round, samples.ips),
    }
}

/// What these rounds amount to.
pub open spec fn after_rounds(host: Seq<char>, rounds: Seq<RoundView>) -> ProbeView
    decreases rounds.len(),
{
    if rounds.len() == 0 {
        ProbeView { best: None, successes: 0, notes: Seq::<Seq<char>>::empty() }
    } else {
        after_round(
            after_rounds(host, rounds.drop_last()),
            rounds.len(),
            host,
            rounds.last(),
        )
    }
}

/// The notes on all rounds together.
pub open spec fn closing_notes(probe: ProbeView, rounds: nat) -> Seq<Seq<char>> {
    if rounds == 1 {
        if probe.best is None && probe.notes.len() == 0 {
            seq!["ping returned no usable RTT sample"@]
        } else {
            Seq::<Seq<char>>::empty()
        }
    } else if probe.successes != rounds {
        seq![
            "successful probe rounds: "@ + decimal(probe.successes) + "/"@ + decimal(rounds),
        ]
    } else {
        Seq::<Seq<char>>::empty()
    }
}

/// The number of rounds: as many as the settings say, and one at least.
pub open spec fn round_count(config: ProbeConfig) -> int {
    if config.rounds == 0 {
        1
    } else {
        config.rounds as int
    }
}

/// The number of rounds.
pub fn rounds_of(config: &ProbeConfig) -> (rounds: u8)
    ensures
        rounds == round_count(*config),
{
    if config.rounds == 0 {
        1
    } else {
        config.rounds
    }
}

/// The measurement that rounds amount to, without a trace.
pub open spec fn measured(anchor: Anchor, rounds: Seq<RoundView>) -> MeasurementView {
    let probe = after_rounds(anchor@.host, rounds);
    MeasurementView {
        anchor: anchor@,
        resolved_ip: match probe.best {
            Some(best) => best.ip,
            None => None,
        },
        ping: match probe.best {
            Some(best) => Some(best.stats),
            None => None,
        },
        trace: None,
        cache_age_days: None,
        cache_uncertainty_ms: zero(),
        notes: probe.notes + closing_notes(probe, rounds.len()),
    }
}

/// Tells whether a round has a sample for each of its targets.
pub open spec fn complete(round: RoundView, host: Seq<char>) -> bool {
    round.samples.len() == targets_of(round.ips, host).len()
}

fn head_of_round(round: u8) -> (head: String)
    ensures
        head@ == round_head(round as nat),
{
    let mut head = "round ".to_owned();
    let number = decimal_text(round as u64);
    head.append(number.as_str());
    head.append(": ");
    head
}

fn push_kept(notes: &mut Vec<String>, round: u8, target: &str, sample: &Sample)
    ensures
        strings(final(notes)@) == strings(old(notes)@) + kept_notes(
            round as nat,
            target@,
            sample@.notes,
        ),
{
    let ghost before = strings(notes@);
    let ghost kept = kept_notes(round as nat, target@, sample@.notes);
    let n: usize = if sample.notes.len() > 2 {
        2
    } else {
        sample.notes.len()
    };
    let mut i: usize = 0;
    assert(before + kept.take(0) =~= before);
    while i < n
        invariant
            n == kept.len(),
            n <= sample.notes@.len(),
            kept == kept_notes(round as nat, target@, sample@.notes),
            i <= n,
            strings(notes@) == before + kept.take(i as int),
        decreases n - i,
    {
        let mut note = head_of_round(round);
        note.append(target);
        note.append(": ");
        note.append(sample.notes[i].as_str());
        assert(note@ == kept[i as int]);
        push_string(notes, note);
        assert((before + kept.take(i as int)).push(kept[i as int]) =~= before + kept.take(i + 1));
        i = i + 1;
    }
    assert(kept.take(n as int) =~= kept);
}

fn best_of_round(round: &RoundSamples) -> (best: Option<(usize, PingStats)>)
    requires
        round@.ips.len() == 0 || round@.samples.len() <= round@.ips.len(),
    ensures
        match best {
            Some((at, stats)) => {
                &&& at < round@.samples.len()
                &&& round_best(round@.ips, round@.samples) == Some(
                    BestView { ip: target_ip(round@.ips, at as int), stats },
                )
            },
            None => round_best(round@.ips, round@.samples) is None,
        },
{
    let ghost all = round@.samples;
    let mut best: Option<(usize, PingStats)> = None;
    let mut i: usize = 0;
    assert(all.take(0) =~= Seq::<SampleView>::empty());
    while i < round.samples.len()
        invariant
            all == round@.samples,
            i <= round.samples@.len(),
            match best {
                Some((at, stats)) => {
                    &&& at < i
                    &&& round_best(round@.ips, all.take(i as int)) == Some(
                        BestView { ip: target_ip(round@.ips, at as int), stats },
                    )
                },
                None => round_best(round@.ips, all.take(i as int)) is None,
            },
        decreases round.samples@.len() - i,
    {
        assert(all.take(i + 1).drop_last() =~= all.take(i as int));
        assert(all.take(i + 1).last() == round.samples@[i as int]@);
        match &round.samples[i].stats {
            Some(stats) => {
                let replace = match &best {
                    Some((_, current)) => stats.min_ms.is_below(&current.min_ms),
                    None => true,
                };
                if replace {
                    best = Some((i, *stats));
                }
            },
            None => {},
        }
        i = i + 1;
    }
    assert(all.take(round.samples@.len() as int) =~= all);
    best
}

fn count_failures(samples: &Vec<Sample>) -> (n: usize)
    ensures
        n == failures(sample_views(samples@)),
{
    let ghost all = sample_views(samples@);
    let mut n: usize = 0;
    let mut i: usize = 0;
    assert(all.take(0) =~= Seq::<SampleView>::empty());
    while i < samples.len()
        invariant
            all == sample_views(samples@),
            i <= samples@.len(),
            n <= i,
            n == failures(all.take(i as int)),
        decreases samples@.len() - i,
    {
        assert(all.take(i + 1).drop_last() =~= all.take(i as int));
        assert(all.take(i + 1).last() == samples@[i as int]@);
        if samples[i].stats.is_none() {
            n = n + 1;
        }
        i = i + 1;
    }
    assert(all.take(samples@.len() as int) =~= all);
    n
}

fn push_failures(notes: &mut Vec<String>, round: u8, targets: &Vec<String>, samples: &Vec<Sample>)
    requires
        samples@.len() <= targets@.len(),
    ensures
        strings(final(notes)@) == strings(old(notes)@) + failure_notes(
            round as nat,
            strings(targets@),
            sample_views(samples@),
        ),
{
    let ghost before = strings(notes@);
    let ghost all = sample_views(samples@);
    let ghost texts = strings(targets@);
    let mut i: usize = 0;
    assert(all.take(0) =~= Seq::<SampleView>::empty());
    assert(before + Seq::<Seq<char>>::empty() =~= before);
    while i < samples.len()
        invariant
            all == sample_views(samples@),
            texts == strings(targets@),
            samples@.len() <= targets@.len(),
            i <= samples@.len(),
            strings(notes@) == before + failure_notes(round as nat, texts, all.take(i as int)),
        decreases samples@.len() - i,
    {
        assert(all.take(i + 1).drop_last() =~= all.take(i as int));
        assert(all.take(i + 1).last() == samples@[i as int]@);
        if samples[i].stats.is_none() {
            push_kept(notes, round, targets[i].as_str(), &samples[i]);
            assert(strings(notes@) =~= before + failure_notes(
                round as nat,
                texts,
                all.take(i + 1),
            ));
        }
        i = i + 1;
    }
    assert(all.take(samples@.len() as int) =~= all);
}

fn push_lost(notes: &mut Vec<String>, round: u8, host: &str, samples: &RoundSamples)
    requires
        complete(samples@, host@),
        round_best(samples@.ips, samples@.samples) is None,
    ensures
        strings(final(notes)@) == strings(old(notes)@) + lost_notes(round as nat, host@, samples@),
{
    let ghost before = strings(notes@);
    let lost = count_failures(&samples.samples);
    if lost > 0 {
        let mut note = head_of_round(round);
        let number = decimal_text(lost as u64);
        note.append("no usable RTT sample across ");
        note.append(number.as_str());
        note.append(" target(s)");
        let ghost first = note@;
        push_string(notes, note);
        let targets = round_targets(&samples.ips, host);
        assert(targets@.len() == strings(targets@).len());
        push_failures(notes, round, &targets, &samples.samples);
        assert(strings(notes@) =~= before + lost_notes(round as nat, host@, samples@));
    } else {
        assert(before + Seq::<Seq<char>>::empty() =~= before);
    }
}

fn push_dns(notes: &mut Vec<String>, round: u8, ips: &Vec<String>)
    ensures
        strings(final(notes)@) == strings(old(notes)@) + dns_notes(round as nat, strings(ips@)),
{
    let ghost before = strings(notes@);
    if ips.len() == 0 {
        let mut note = head_of_round(round);
        note.append("DNS resolution failed");
        push_string(notes, note);
        assert(strings(notes@) =~= before + dns_notes(round as nat, strings(ips@)));
    } else {
        assert(before + Seq::<Seq<char>>::empty() =~= before);
    }
}

fn push_choice(notes: &mut Vec<String>, round: u8, ips: &Vec<String>)
    ensures
        strings(final(notes)@) == strings(old(notes)@) + choice_notes(round as nat, strings(ips@)),
{
    let ghost before = strings(notes@);
    if ips.len() > 1 {
        let mut note = head_of_round(round);
        let count: u64 = if ips.len() > 3 {
            3
        } else {
            ips.len() as u64
        };
        let number = decimal_text(count);
        note.append("selected best RTT from ");
        note.append(number.as_str());
        note.append(" resolved IPs");
        push_string(notes, note);
        assert(strings(notes@) =~= before + choice_notes(round as nat, strings(ips@)));
    } else {
        assert(before + Seq::<Seq<char>>::empty() =~= before);
    }
}

/// Puts together what the rounds of a probe of `anchor` gave. The measurement has
/// no trace yet.
pub fn probe_anchor(
    anchor: Anchor,
    config: &ProbeConfig,
    rounds: &Vec<RoundSamples>,
) -> (measurement: Measurement)
    requires
        rounds@.len() == round_count(*config),
        forall|i: int| 0 <= i < rounds@.len() ==> complete((#[trigger] rounds@[i])@, anchor@.host),
    ensures
        measurement@ == measured(anchor, round_views(rounds@)),
{
    let ghost all = round_views(rounds@);
    let ghost host = anchor@.host;
    let count: u8 = rounds_of(config);
    let mut notes: Vec<String> = Vec::new();
    let mut resolved_ip: Option<String> = None;
    let mut ping: Option<PingStats> = None;
    let mut successes: u8 = 0;
    let mut i: u8 = 0;
    assert(all.take(0) =~= Seq::<RoundView>::empty());
    assert(strings(notes@) =~= Seq::<Seq<char>>::empty());
    while i < count
        invariant
            all == round_views(rounds@),
            host == anchor@.host,
            host == anchor.host@,
            count == rounds@.len(),
            forall|k: int|
                0 <= k < rounds@.len() ==> complete((#[trigger] rounds@[k])@, anchor@.host),
            i <= count,
            successes <= i,
            ({
                let probe = after_rounds(host, all.take(i as int));
                &&& successes == probe.successes
                &&& strings(notes@) == probe.notes
                &&& match ping {
                    Some(stats) => probe.best == Some(
                        BestView { ip: maybe_text(resolved_ip), stats },
                    ),
                    None => probe.best is None && resolved_ip is None,
                }
            }),
        decreases count - i,
    {
        assert(all.take(i + 1).drop_last() =~= all.take(i as int));
        assert(all.take(i + 1).last() == rounds@[i as int]@);
        let ghost before = after_rounds(host, all.take(i as int));
        let samples = &rounds[i as usize];
        assert(complete(samples@, host));
        let round: u8 = i + 1;
        push_dns(&mut notes, round, &samples.ips);
        match best_of_round(samples) {
            Some((at, stats)) => {
                successes = successes + 1;
                let replace = match &ping {
                    Some(current) => stats.min_ms.is_below(&current.min_ms),
                    None => true,
                };
                if replace {
                    resolved_ip = if samples.ips.len() == 0 {
                        None
                    } else {
                        Some(samples.ips[at].clone())
                    };
                    ping = Some(stats);
                }
                assert(strings(notes@) + lost_notes(round as nat, host, samples@) =~= strings(
                    notes@,
                ));
            },
            None => {
                push_lost(&mut notes, round, anchor.host, samples);
            },
        }
        push_choice(&mut notes, round, &samples.ips);
        i = round;
    }
    assert(all.take(count as int) =~= all);
    let ghost probe = after_rounds(host, all);
    if ping.is_none() && count == 1 && notes.len() == 0 {
        assert(strings(notes@).len() == 0);
        push_string(&mut notes, "ping returned no usable RTT sample".to_owned());
    } else if count > 1 && successes != count {
        let mut note = "successful probe rounds: ".to_owned();
        let some = decimal_text(successes as u64);
        let total = decimal_text(count as u64);
        note.append(some.as_str());
        note.append("/");
        note.append(total.as_str());
        push_string(&mut notes, note);
    }
    assert(strings(notes@) =~= probe.notes + closing_notes(probe, all.len()));
    Measurement {
        anchor,
        resolved_ip,
        ping,
        trace: None,
        cache_age_days: None,
        cache_uncertainty_ms: Double { bits: 0 },
        notes,
    }
}

/// The target of a trace: the address that answered best, or the host where none did.
pub open spec fn traced_target(measurement: MeasurementView) -> Seq<char> {
    match measurement.resolved_ip {
        Some(ip) => ip,
        None => measurement.anchor.host,
    }
}

/// The target to reach the anchor of a measurement at: the address that answered
/// best, or the host where none did.
pub fn target_of(measurement: &Measurement) -> (target: String)
    ensures
        target@ == traced_target(measurement@),
{
    match &measurement.resolved_ip {
        Some(ip) => ip.clone(),
        None => measurement.anchor.host.to_owned(),
    }
}

/// A hop with the name that its address was found to have. A name that only
/// repeats the address is none.
pub open spec fn named_hop(hop: HopView, name: Option<Seq<char>>) -> HopView {
    HopView {
        hostname: if hop.address is Some && name != hop.address {
            name
        } else {
            None
        },
        ..hop
    }
}

/// The hops with the names that their addresses were found to have.
pub open spec fn named_hops(hops: Seq<HopView>, names: Seq<Option<String>>) -> Seq<HopView> {
    Seq::new(hops.len(), |i: int| named_hop(hops[i], maybe_text(names[i])))
}

fn name_of_hop(hop: &TraceHop, name: &Option<String>) -> (kept: Option<String>)
    ensures
        maybe_text(kept) == named_hop(hop@, maybe_text(*name)).hostname,
{
    match (&hop.address, name) {
        (Some(address), Some(found)) => if same(address.as_str(), found.as_str()) {
            None
        } else {
            Some(found.clone())
        },
        _ => None,
    }
}

/// Gives the hops of a trace the names that their addresses were found to have.
pub fn enrich_trace_hostnames(
    summary: TraceSummary,
    names: &Vec<Option<String>>,
) -> (enriched: TraceSummary)
    requires
        names@.len() == summary.hops@.len(),
    ensures
        hop_views(enriched.hops@) == named_hops(hop_views(summary.hops@), names@),
{
    let ghost before = hop_views(summary.hops@);
    let mut hops = summary.hops;
    let mut i: usize = 0;
    while i < hops.len()
        invariant
            i <= hops@.len(),
            hops@.len() == before.len(),
            names@.len() == before.len(),
            forall|j: int|
                0 <= j < i ==> (#[trigger] hops@[j])@ == named_hop(
                    before[j],
                    maybe_text(names@[j]),
                ),
            forall|j: int| i <= j < before.len() ==> (#[trigger] hops@[j])@ == before[j],
        decreases hops@.len() - i,
    {
        assert(hops@[i as int]@ == before[i as int]);
        let hostname = name_of_hop(&hops[i], &names[i]);
        hops[i].hostname = hostname;
        i = i + 1;
    }
    assert(hop_views(hops@) =~= named_hops(before, names@));
    TraceSummary { hops }
}

/// A measurement with what tracing its target gave: a route and the notes on it,
/// or the error.
pub open spec fn with_trace(
    measurement: MeasurementView,
    outcome: Result<CommandOutput, String>,
    meaning: spec_fn(Seq<char>) -> Option<Double>,
) -> MeasurementView {
    match outcome {
        Ok(output) => {
            let hops = trace_hops(lines(output.stdout@), meaning);
            MeasurementView {
                trace: if hops.len() == 0 {
                    None
                } else {
                    Some(hops)
                },
                notes: measurement.notes + error_notes(output.stderr@),
                ..measurement
            }
        },
        Err(error) => MeasurementView {
            trace: None,
            notes: measurement.notes.push("tracepath failed: "@ + error@),
            ..measurement
        },
    }
}

/// Adds to a measurement what tracing its target gave.
pub fn record_trace<R: Fn(&str) -> Option<Double>>(
    measurement: Measurement,
    outcome: &Result<CommandOutput, String>,
    read: &R,
) -> (traced: Measurement)
    requires
        reads_all(*read),
    ensures
        forall|meaning: spec_fn(Seq<char>) -> Option<Double>| #[trigger]
            reads_as(*read, meaning) ==> traced@ == with_trace(measurement@, *outcome, meaning),
{
    let mut traced = measurement;
    let ghost before = traced@;
    match outcome {
        Ok(output) => {
            let parsed = parse_tracepath_output(
                output.stdout.as_str(),
                output.stderr.as_str(),
                read,
            );
            let mut notes = traced.notes;
            push_strings(&mut notes, &parsed.notes);
            traced.notes = notes;
            traced.trace = parsed.summary;
        },
        Err(error) => {
            let mut note = "tracepath failed: ".to_owned();
            note.append(error.as_str());
            let mut notes = traced.notes;
            push_string(&mut notes, note);
            traced.notes = notes;
            traced.trace = None;
        },
    }
    traced
}

/// The settings for measuring the way to the edge of the local network.
pub fn local_ping_config(config: &ProbeConfig) -> (local: ProbeConfig)
    ensures
        local == (ProbeConfig {
            ping_count: if config.ping_count < 5 {
                5
            } else {
                config.ping_count
            },
            ..*config
        }),
{
    let ping_count: u8 = if config.ping_count < 5 {
        5
    } else {
        config.ping_count
    };
    ProbeConfig { ping_count, ..*config }
}

/// How often each target near the local host is measured.
pub fn local_attempts(config: &ProbeConfig) -> (attempts: u8)
    ensures
        attempts == (if config.rounds < 2 {
            2
        } else {
            config.rounds as int
        }),
{
    if config.rounds < 2 {
        2
    } else {
        config.rounds
    }
}

/// The default gateway as a target, if it is known.
pub open spec fn gateway_candidates(gateway: Option<Seq<char>>) -> Seq<CandidateView> {
    match gateway {
        Some(ip) => seq![CandidateView { target: ip, source: "default gateway"@ }],
        None => Seq::<CandidateView>::empty(),
    }
}

/// The targets near the local host: the default gateway, if it is known, and those
/// that a trace gave.
pub fn local_targets(
    gateway: Option<String>,
    traced: &Vec<LocalCandidate>,
) -> (targets: Vec<LocalCandidate>)
    ensures
        candidate_views(targets@) == gateway_candidates(maybe_text(gateway)) + candidate_views(
            traced@,
        ),
{
    let ghost head = gateway_candidates(maybe_text(gateway));
    let ghost all = candidate_views(traced@);
    let mut targets: Vec<LocalCandidate> = Vec::new();
    match gateway {
        Some(ip) => {
            targets.push(LocalCandidate { target: ip, source: "default gateway".to_owned() });
        },
        None => {},
    }
    assert(candidate_views(targets@) =~= head + all.take(0));
    let mut i: usize = 0;
    while i < traced.len()
        invariant
            all == candidate_views(traced@),
            i <= traced@.len(),
            candidate_views(targets@) == head + all.take(i as int),
        decreases traced@.len() - i,
    {
        let ghost before = candidate_views(targets@);
        let next = LocalCandidate {
            target: traced[i].target.clone(),
            source: traced[i].source.clone(),
        };
        targets.push(next);
        assert(candidate_views(targets@) =~= before.push(all[i as int]));
        i = i + 1;
        assert(candidate_views(targets@) =~= head + all.take(i as int));
    }
    assert(all.take(traced@.len() as int) =~= all);
    targets
}

/// The lowest time among those that these pings give.
pub open spec fn lowest_time(
    outputs: Seq<CommandOutput>,
    meaning: spec_fn(Seq<char>) -> Option<Double>,
) -> Option<Double>
    decreases outputs.len(),
{
    if outputs.len() == 0 {
        None
    } else {
        let before = lowest_time(outputs.drop_last(), meaning);
        match (before, ping_stats(outputs.last().stdout@, meaning)) {
            (Some(time), Some(stats)) => Some(time.lesser(stats.min_ms)),
            (None, Some(stats)) => Some(stats.min_ms),
            (_, None) => before,
        }
    }
}

fn lowest_ping<R: Fn(&str) -> Option<Double>>(
    outputs: &Vec<CommandOutput>,
    read: &R,
) -> (lowest: Option<Double>)
    requires
        reads_all(*read),
    ensures
        forall|meaning: spec_fn(Seq<char>) -> Option<Double>| #[trigger]
            reads_as(*read, meaning) ==> lowest == lowest_time(outputs@, meaning),
{
    let mut lowest: Option<Double> = None;
    let mut i: usize = 0;
    assert(outputs@.take(0) =~= Seq::<CommandOutput>::empty());
    while i < outputs.len()
        invariant
            i <= outputs@.len(),
            reads_all(*read),
            forall|meaning: spec_fn(Seq<char>) -> Option<Double>| #[trigger]
                reads_as(*read, meaning) ==> lowest == lowest_time(
                    outputs@.take(i as int),
                    meaning,
                ),
        decreases outputs@.len() - i,
    {
        assert(outputs@.take(i + 1).drop_last() =~= outputs@.take(i as int));
        assert(outputs@.take(i + 1).last() == outputs@[i as int]);
        let output = &outputs[i];
        let parsed = parse_ping_output(output.stdout.as_str(), output.stderr.as_str(), read);
        lowest = match (lowest, parsed.stats) {
            (Some(time), Some(stats)) => Some(time.min(stats.min_ms)),
            (None, Some(stats)) => Some(stats.min_ms),
            (before, None) => before,
        };
        i = i + 1;
    }
    assert(outputs@.take(outputs@.len() as int) =~= outputs@);
    lowest
}

/// The floor that the pings of the targets near the local host give: the first of
/// those with the lowest time.
pub open spec fn local_floor(
    candidates: Seq<CandidateView>,
    outputs: Seq<Vec<CommandOutput>>,
    meaning: spec_fn(Seq<char>) -> Option<Double>,
) -> Option<LocalFloorView>
    decreases candidates.len(),
{
    if candidates.len() == 0 {
        None
    } else {
        let before = local_floor(candidates.drop_last(), outputs.drop_last(), meaning);
        match lowest_time(outputs.last()@, meaning) {
            Some(min_ms) => if before is Some && before->0.min_ms.at_most(min_ms) {
                before
            } else {
                Some(
                    LocalFloorView {
                        target: candidates.last().target,
                        source: candidates.last().source,
                        min_ms,
                    },
                )
            },
            None => before,
        }
    }
}

/// What a floor stands for, if there is one.
pub open spec fn maybe_floor(floor: Option<LocalRttFloor>) -> Option<LocalFloorView> {
    match floor {
        Some(found) => Some(found@),
        None => None,
    }
}

/// The lowest round-trip time to the edge of the local network, from what the pings
/// of each target near the local host printed.
pub fn measure_local_rtt_floor<R: Fn(&str) -> Option<Double>>(
    candidates: &Vec<LocalCandidate>,
    outputs: &Vec<Vec<CommandOutput>>,
    read: &R,
) -> (floor: Option<LocalRttFloor>)
    requires
        reads_all(*read),
        outputs@.len() == candidates@.len(),
    ensures
        forall|meaning: spec_fn(Seq<char>) -> Option<Double>| #[trigger]
            reads_as(*read, meaning) ==> maybe_floor(floor) == local_floor(
                candidate_views(candidates@),
                outputs@,
                meaning,
            ),
{
    let ghost all = candidate_views(candidates@);
    let mut best: Option<LocalRttFloor> = None;
    let mut i: usize = 0;
    assert(all.take(0) =~= Seq::<CandidateView>::empty());
    while i < candidates.len()
        invariant
            all == candidate_views(candidates@),
            outputs@.len() == candidates@.len(),
            i <= candidates@.len(),
            reads_all(*read),
            forall|meaning: spec_fn(Seq<char>) -> Option<Double>| #[trigger]
                reads_as(*read, meaning) ==> maybe_floor(best) == local_floor(
                    all.take(i as int),
                    outputs@.take(i as int),
                    meaning,
                ),
        decreases candidates@.len() - i,
    {
        assert(all.take(i + 1).drop_last() =~= all.take(i as int));
        assert(all.take(i + 1).last() == all[i as int]);
        assert(outputs@.take(i + 1).drop_last() =~= outputs@.take(i as int));
        assert(outputs@.take(i + 1).last() == outputs@[i as int]);
        match lowest_ping(&outputs[i], read) {
            Some(min_ms) => {
                let keep = match &best {
                    Some(current) => current.min_ms.is_at_most(&min_ms),
                    None => false,
                };
                if !keep {
                    best = Some(
                        LocalRttFloor {
                            target: candidates[i].target.clone(),
                            source: candidates[i].source.clone(),
                            min_ms,
                        },
                    );
                }
            },
            None => {},
        }
        i = i + 1;
    }
    assert(all.take(candidates@.len() as int) =~= all);
    assert(outputs@.take(candidates@.len() as int) =~= outputs@);
    best
}

/// The settings for timing a single TCP handshake.
pub fn handshake_config(timeout_ms: u64) -> (config: ProbeConfig)
    ensures
        config == (ProbeConfig { ping_count: 1, timeout_ms, trace_hops: 1, rounds: 1 }),
{
    ProbeConfig { ping_count: 1, timeout_ms, trace_hops: 1, rounds: 1 }
}

} // verus!
