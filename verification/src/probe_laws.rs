//! What the rounds of a probe amount to, which measurements are refined and corrected, and
//! what names at hops weigh.

use crate::anchors::Anchor;
use crate::calc::Rules;
use crate::calc_laws::{capped, lemma_sizes, orderly};
use crate::calibrate::{
    leading, of_echo, ranked_within, refine_limit, unbiased, without_bias, worth_refining,
};
use crate::double::{zero, Double};
use crate::hints::hop_weight;
use crate::probe::{CommandOutput, HopView, MeasurementView, PingStats};
use crate::rounds::{
    after_rounds, measured, named_hop, round_best, target_ip, targets_of, with_trace, BestView,
    RoundView,
};
use crate::run_laws::{
    lemma_probe_keeps_lowest, lemma_round_best_is_lowest, sample_times_are_numbers,
};
use crate::text::{decimal, lines, trim};
use crate::trace::trace_hops;
use vstd::prelude::*;

verus! {

/// A round measures the first three addresses of a host, or all where there are fewer, and
/// the host itself only where there is none.
pub proof fn lemma_round_targets(ips: Seq<Seq<char>>, host: Seq<char>)
    ensures
        1 <= targets_of(ips, host).len() <= 3,
        ips.len() == 0 ==> targets_of(ips, host) == seq![host],
        forall|i: int|
            0 <= i < ips.len() && i < 3 ==> i < targets_of(ips, host).len() && targets_of(
                ips,
                host,
            )[i] == #[trigger] ips[i],
        ips.len() > 0 ==> targets_of(ips, host).len() <= ips.len(),
{
}

/// Tells whether a sample of a round gave this time at this address.
pub open spec fn sampled(
    round: RoundView,
    i: int,
    ip: Option<Seq<char>>,
    stats: PingStats,
) -> bool {
    0 <= i < round.samples.len() && round.samples[i].stats == Some(stats) && target_ip(
        round.ips,
        i,
    ) == ip
}

proof fn lemma_best_was_sampled(host: Seq<char>, rounds: Seq<RoundView>)
    requires
        forall|k: int|
            0 <= k < rounds.len() ==> sample_times_are_numbers((#[trigger] rounds[k]).samples),
    ensures
        after_rounds(host, rounds).best matches Some(best) ==> exists|r: int, i: int|
            0 <= r < rounds.len() && #[trigger] sampled(rounds[r], i, best.ip, best.stats),
    decreases rounds.len(),
{
    if rounds.len() > 0 {
        let shorter = rounds.drop_last();
        let last = rounds[rounds.len() - 1];
        assert forall|k: int| 0 <= k < shorter.len() implies sample_times_are_numbers(
            (#[trigger] shorter[k]).samples,
        ) by {
            assert(shorter[k] == rounds[k]);
        }
        assert(sample_times_are_numbers(last.samples));
        lemma_best_was_sampled(host, shorter);
        lemma_round_best_is_lowest(last.ips, last.samples);
        let own = round_best(last.ips, last.samples);
        if let Some(best) = after_rounds(host, rounds).best {
            if own == Some(best) {
                let i = choose|i: int|
                    0 <= i < last.samples.len() && (#[trigger] last.samples[i]).stats is Some
                        && own == Some(
                        BestView { ip: target_ip(last.ips, i), stats: last.samples[i].stats->0 },
                    );
                assert(sampled(rounds[rounds.len() - 1], i, best.ip, best.stats));
            } else {
                let (r, i) = choose|r: int, i: int|
                    0 <= r < shorter.len() && #[trigger] sampled(
                        shorter[r],
                        i,
                        best.ip,
                        best.stats,
                    );
                assert(sampled(rounds[r], i, best.ip, best.stats));
            }
        }
    }
}

/// A measurement is of its anchor, and has the time and the address of one of the samples of
/// its rounds, none of which has a lower time. It has no time only where no sample has one.
pub proof fn lemma_measured(anchor: Anchor, rounds: Seq<RoundView>)
    requires
        forall|k: int|
            0 <= k < rounds.len() ==> sample_times_are_numbers((#[trigger] rounds[k]).samples),
    ensures
        measured(anchor, rounds).anchor == anchor@,
        measured(anchor, rounds).trace is None,
        measured(anchor, rounds).ping matches Some(ping) ==> exists|r: int, i: int|
            0 <= r < rounds.len() && #[trigger] sampled(
                rounds[r],
                i,
                measured(anchor, rounds).resolved_ip,
                ping,
            ),
        forall|r: int, i: int, ip: Option<Seq<char>>, stats: PingStats|
            0 <= r < rounds.len() && #[trigger] sampled(rounds[r], i, ip, stats) ==> (measured(
                anchor,
                rounds,
            ).ping matches Some(ping) && ping.min_ms.at_most(stats.min_ms)),
        measured(anchor, rounds).ping is None ==> measured(anchor, rounds).resolved_ip is None,
{
    let host = anchor@.host;
    lemma_best_was_sampled(host, rounds);
    assert forall|r: int, i: int, ip: Option<Seq<char>>, stats: PingStats|
        0 <= r < rounds.len() && #[trigger] sampled(rounds[r], i, ip, stats) implies (measured(
        anchor,
        rounds,
    ).ping matches Some(ping) && ping.min_ms.at_most(stats.min_ms)) by {
        lemma_probe_keeps_lowest(host, rounds, r, i);
    }
}

/// A hop gets the name that its address was found to have, unless that is the address over
/// again. A hop without an address gets none. Nothing else of a hop changes.
pub proof fn lemma_named_hop(hop: HopView, name: Seq<char>)
    ensures
        hop.address matches Some(address) ==> {
            &&& address != name ==> named_hop(hop, Some(name)).hostname == Some(name)
            &&& address == name ==> named_hop(hop, Some(name)).hostname is None
        },
        hop.address is None ==> named_hop(hop, Some(name)).hostname is None,
        named_hop(hop, None).hostname is None,
        named_hop(hop, Some(name)).hop == hop.hop,
        named_hop(hop, Some(name)).address == hop.address,
        named_hop(hop, Some(name)).rtt_ms == hop.rtt_ms,
        named_hop(hop, Some(name)).note == hop.note,
{
}

/// The bias is taken out of handshakes only. A measurement by echo stays as it is, and so
/// does one without a time. Of one by handshake only the times change, and a note says so.
pub proof fn lemma_only_handshakes_are_corrected(
    rules: Rules,
    measurement: MeasurementView,
    bias_ms: Double,
    written: spec_fn(Double, u8) -> Seq<char>,
)
    ensures
        ({
            let after = without_bias(rules, measurement, bias_ms, written);
            &&& measurement.ping is None ==> after == measurement
            &&& measurement.ping matches Some(ping) ==> {
                &&& of_echo(ping) ==> after == measurement
                &&& ping.method is Tcp ==> after.ping == Some(unbiased(rules, ping, bias_ms))
                    && after.notes.len() == measurement.notes.len() + 1
            }
            &&& after.anchor == measurement.anchor
            &&& after.resolved_ip == measurement.resolved_ip
            &&& after.trace == measurement.trace
            &&& after.cache_age_days == measurement.cache_age_days
            &&& after.cache_uncertainty_ms == measurement.cache_uncertainty_ms
            &&& measurement.notes.is_prefix_of(after.notes)
        }),
{
}

proof fn lemma_ranked_within(ranked: Seq<(usize, Double)>, limit: Double, k: int) -> (p: int)
    requires
        0 <= k < ranked.len(),
        ranked[k].1.at_most(limit),
    ensures
        0 <= p <= k,
        p < ranked_within(ranked, limit).len(),
        ranked_within(ranked, limit)[p] == ranked[k],
    decreases ranked.len(),
{
    let shorter = ranked.drop_last();
    lemma_ranked_within_shrinks(shorter, limit);
    if k < shorter.len() {
        assert(shorter[k] == ranked[k]);
        lemma_ranked_within(shorter, limit, k)
    } else {
        ranked_within(shorter, limit).len() as int
    }
}

proof fn lemma_ranked_within_shrinks(ranked: Seq<(usize, Double)>, limit: Double)
    ensures
        ranked_within(ranked, limit).len() <= ranked.len(),
        forall|p: int|
            0 <= p < ranked_within(ranked, limit).len() ==> ranked.contains(
                #[trigger] ranked_within(ranked, limit)[p],
            ) && ranked_within(ranked, limit)[p].1.at_most(limit),
    decreases ranked.len(),
{
    if ranked.len() > 0 {
        let shorter = ranked.drop_last();
        lemma_ranked_within_shrinks(shorter, limit);
        let before = ranked_within(shorter, limit);
        let after = ranked_within(ranked, limit);
        assert forall|p: int| 0 <= p < after.len() implies ranked.contains(#[trigger] after[p])
            && after[p].1.at_most(limit) by {
            if p < before.len() {
                assert(after[p] == before[p]);
                let i = choose|i: int| 0 <= i < shorter.len() && shorter[i] == before[p];
                assert(ranked[i] == before[p]);
            } else {
                assert(ranked[ranked.len() - 1] == after[p]);
            }
        }
    }
}

/// Of the six fastest measurements, one is worth refining where it takes at most twenty-five
/// milliseconds, or at most four times as long as the fastest. None is where it takes longer
/// than both.
pub proof fn lemma_what_is_worth_refining(rules: Rules, ranked: Seq<(usize, Double)>, k: int)
    requires
        orderly(rules),
        0 <= k < ranked.len(),
        capped(ranked[0].1, 20),
    ensures
        k < 6 && (ranked[k].1.at_most(rules.count(25)) || ranked[k].1.at_most(
            rules.mul(ranked[0].1, rules.count(4)),
        )) ==> worth_refining(rules, ranked).contains(ranked[k].0),
        forall|p: int|
            0 <= p < worth_refining(rules, ranked).len() ==> exists|i: int|
                0 <= i < ranked.len() && (#[trigger] ranked[i]).0 == (
                #[trigger] worth_refining(rules, ranked)[p]) && (ranked[i].1.at_most(
                    rules.count(25),
                ) || ranked[i].1.at_most(rules.mul(ranked[0].1, rules.count(4)))),
{
    reveal(orderly);
    let four = rules.mul(ranked[0].1, rules.count(4));
    lemma_sizes(rules.count(4), 14);
    lemma_sizes(rules.count(25), 14);
    assert(capped(four, 34));
    lemma_sizes(four, 34);
    assert(rules.add(four, zero()).equals(four));
    let limit = refine_limit(rules, ranked[0].1);
    let kept = ranked_within(ranked, limit);
    let chosen = worth_refining(rules, ranked);
    assert(chosen == leading(kept, 6));
    lemma_ranked_within_shrinks(ranked, limit);
    if k < 6 && (ranked[k].1.at_most(rules.count(25)) || ranked[k].1.at_most(four)) {
        let p = lemma_ranked_within(ranked, limit, k);
        assert(chosen[p] == ranked[k].0);
    }
    assert forall|p: int| 0 <= p < chosen.len() implies exists|i: int|
        0 <= i < ranked.len() && (#[trigger] ranked[i]).0 == (#[trigger] chosen[p]) && (
        ranked[i].1.at_most(rules.count(25)) || ranked[i].1.at_most(four)) by {
        let i = choose|i: int| 0 <= i < ranked.len() && ranked[i] == kept[p];
        assert(ranked[i].0 == chosen[p]);
    }
}

/// A name weighs the most at the first hop and less at each of the next ones up to the
/// fifth. The seventh and eighth weigh as much as the fourth, and what is farther away
/// weighs the least.
pub proof fn lemma_near_names_weigh_more(hop: u8)
    ensures
        hop_weight(1) > hop_weight(2) > hop_weight(3) > hop_weight(4) > hop_weight(5),
        hop_weight(6) == hop_weight(5),
        hop_weight(7) == hop_weight(4),
        hop_weight(8) == hop_weight(4),
        hop > 8 ==> 0 < hop_weight(hop) < hop_weight(5),
        hop_weight(1) == 5 * hop_weight(9),
        hop_weight(2) == 2 * hop_weight(4),
        hop_weight(3) == 2 * hop_weight(5),
{
}

/// Tells whether a round has a sample with a time.
pub open spec fn has_time(round: RoundView) -> bool {
    exists|i: int| 0 <= i < round.samples.len() && (#[trigger] round.samples[i]).stats is Some
}

/// The number of rounds that have a sample with a time.
pub open spec fn rounds_with_time(rounds: Seq<RoundView>) -> nat
    decreases rounds.len(),
{
    if rounds.len() == 0 {
        0
    } else if has_time(rounds.last()) {
        rounds_with_time(rounds.drop_last()) + 1
    } else {
        rounds_with_time(rounds.drop_last())
    }
}

/// A round succeeds if and only if a sample of it has a time. Where one of several rounds
/// does not, the notes end with how many did, and of how many.
pub proof fn lemma_failed_rounds_are_told(anchor: Anchor, rounds: Seq<RoundView>)
    requires
        forall|k: int|
            0 <= k < rounds.len() ==> sample_times_are_numbers((#[trigger] rounds[k]).samples),
    ensures
        after_rounds(anchor@.host, rounds).successes == rounds_with_time(rounds),
        rounds.len() > 1 && rounds_with_time(rounds) < rounds.len() ==> measured(
            anchor,
            rounds,
        ).notes.len() > 0 && measured(anchor, rounds).notes.last() == "successful probe rounds: "@
            + decimal(rounds_with_time(rounds)) + "/"@ + decimal(rounds.len()),
        rounds.len() > 1 && rounds_with_time(rounds) == rounds.len() ==> measured(
            anchor,
            rounds,
        ).notes == after_rounds(anchor@.host, rounds).notes,
{
    lemma_successes(anchor@.host, rounds);
}

proof fn lemma_successes(host: Seq<char>, rounds: Seq<RoundView>)
    requires
        forall|k: int|
            0 <= k < rounds.len() ==> sample_times_are_numbers((#[trigger] rounds[k]).samples),
    ensures
        after_rounds(host, rounds).successes == rounds_with_time(rounds),
        rounds_with_time(rounds) <= rounds.len(),
    decreases rounds.len(),
{
    if rounds.len() > 0 {
        let shorter = rounds.drop_last();
        let last = rounds[rounds.len() - 1];
        assert forall|k: int| 0 <= k < shorter.len() implies sample_times_are_numbers(
            (#[trigger] shorter[k]).samples,
        ) by {
            assert(shorter[k] == rounds[k]);
        }
        assert(sample_times_are_numbers(last.samples));
        lemma_successes(host, shorter);
        lemma_round_best_is_lowest(last.ips, last.samples);
    }
}

/// A trace that was printed is recorded as it reads, unless it has no hop, and one that
/// failed is noted. Nothing else of a measurement changes, and no note is lost.
pub proof fn lemma_trace_is_recorded(
    measurement: MeasurementView,
    outcome: Result<CommandOutput, String>,
    meaning: spec_fn(Seq<char>) -> Option<Double>,
)
    ensures
        ({
            let after = with_trace(measurement, outcome, meaning);
            &&& outcome matches Ok(output) ==> {
                let hops = trace_hops(lines(output.stdout@), meaning);
                &&& hops.len() > 0 ==> after.trace == Some(hops)
                &&& hops.len() == 0 ==> after.trace is None
                &&& trim(output.stderr@).len() == 0 ==> after.notes == measurement.notes
                &&& trim(output.stderr@).len() > 0 ==> after.notes.last() == trim(output.stderr@)
            }
            &&& outcome matches Err(error) ==> after.trace is None && after.notes.last()
                == "tracepath failed: "@ + error@
            &&& after.anchor == measurement.anchor
            &&& after.ping == measurement.ping
            &&& after.resolved_ip == measurement.resolved_ip
            &&& measurement.notes.is_prefix_of(after.notes)
        }),
{
}

} // verus!
