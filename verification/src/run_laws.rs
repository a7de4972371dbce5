//! What a run promises: the lowest time wins, corrections keep times in order, earlier
//! runs only ever lower a time, and what they left grows less certain with age.

use crate::anchors::AnchorView;
use crate::cache::{floor_of, CacheView};
use crate::calc::Rules;
use crate::calibrate::{
    better, decay, fastest, merged_bias, merged_floor, refined_numbers, shared_floor, timed,
    to_refine, unbiased, with_all_better, with_cached_floor, worth_refining,
};
use crate::double::{zero, Double};
use crate::geometry::{distance_to, Place};
use crate::probe::{LocalFloorView, MeasurementView, PingStats};
use crate::ranking::ascending;
use crate::report::{anchor_distances, lowest, nearest_to};
use crate::rounds::{after_rounds, round_best, target_ip, BestView, RoundView, SampleView};
use vstd::prelude::*;

verus! {

/// Tells whether the times of samples are numbers.
pub open spec fn sample_times_are_numbers(samples: Seq<SampleView>) -> bool {
    forall|i: int|
        0 <= i < samples.len() && (#[trigger] samples[i]).stats is Some
            ==> !samples[i].stats->0.min_ms.nan()
}

/// The best sample of a round is one of its samples, with its own address, and no
/// sample has a lower time. There is one if and only if a sample has a time.
pub proof fn lemma_round_best_is_lowest(ips: Seq<Seq<char>>, samples: Seq<SampleView>)
    requires
        sample_times_are_numbers(samples),
    ensures
        round_best(ips, samples) is Some <==> exists|i: int|
            0 <= i < samples.len() && (#[trigger] samples[i]).stats is Some,
        round_best(ips, samples) is Some ==> exists|i: int|
            0 <= i < samples.len() && (#[trigger] samples[i]).stats is Some && round_best(
                ips,
                samples,
            ) == Some(BestView { ip: target_ip(ips, i), stats: samples[i].stats->0 }),
        forall|i: int|
            0 <= i < samples.len() && (#[trigger] samples[i]).stats is Some ==> round_best(
                ips,
                samples,
            )->0.stats.min_ms.at_most(samples[i].stats->0.min_ms),
    decreases samples.len(),
{
    if samples.len() > 0 {
        let shorter = samples.drop_last();
        assert(sample_times_are_numbers(shorter)) by {
            assert forall|i: int|
                0 <= i < shorter.len() && (
                #[trigger] shorter[i]).stats is Some implies !shorter[i].stats->0.min_ms.nan() by {
                assert(shorter[i] == samples[i]);
            }
        }
        lemma_round_best_is_lowest(ips, shorter);
        let before = round_best(ips, shorter);
        let n = samples.len() - 1;
        assert(samples[n] == samples.last());
        if before is Some {
            let k = choose|i: int|
                0 <= i < shorter.len() && (#[trigger] shorter[i]).stats is Some && before == Some(
                    BestView { ip: target_ip(ips, i), stats: shorter[i].stats->0 },
                );
            assert(samples[k] == shorter[k]);
        }
        if exists|i: int| 0 <= i < samples.len() && (#[trigger] samples[i]).stats is Some {
            let k = choose|i: int|
                0 <= i < samples.len() && (#[trigger] samples[i]).stats is Some;
            if k < shorter.len() {
                assert(shorter[k].stats is Some);
            }
        }
        assert forall|i: int|
            0 <= i < samples.len() && (#[trigger] samples[i]).stats is Some implies round_best(
            ips,
            samples,
        )->0.stats.min_ms.at_most(samples[i].stats->0.min_ms) by {
            if i < shorter.len() {
                assert(shorter[i] == samples[i]);
            }
        }
    }
}

/// The time of a probe is not above any time that was sampled in any of its rounds,
/// and there is one wherever there was a sample with a time.
pub proof fn lemma_probe_keeps_lowest(host: Seq<char>, rounds: Seq<RoundView>, r: int, i: int)
    requires
        forall|k: int|
            0 <= k < rounds.len() ==> sample_times_are_numbers((#[trigger] rounds[k]).samples),
        0 <= r < rounds.len(),
        0 <= i < rounds[r].samples.len(),
        rounds[r].samples[i].stats is Some,
    ensures
        after_rounds(host, rounds).best is Some,
        after_rounds(host, rounds).best->0.stats.min_ms.at_most(
            rounds[r].samples[i].stats->0.min_ms,
        ),
    decreases rounds.len(),
{
    let shorter = rounds.drop_last();
    let last = rounds.last();
    assert forall|k: int| 0 <= k < shorter.len() implies sample_times_are_numbers(
        (#[trigger] shorter[k]).samples,
    ) by {
        assert(shorter[k] == rounds[k]);
    }
    assert(rounds[rounds.len() - 1] == last);
    lemma_round_best_is_lowest(last.ips, last.samples);
    lemma_best_is_number(host, shorter);
    if r < shorter.len() {
        assert(shorter[r] == rounds[r]);
        lemma_probe_keeps_lowest(host, shorter, r, i);
    }
    let own = round_best(last.ips, last.samples);
    if own is Some {
        let k = choose|k: int|
            0 <= k < last.samples.len() && (#[trigger] last.samples[k]).stats is Some && own
                == Some(BestView { ip: target_ip(last.ips, k), stats: last.samples[k].stats->0 });
        assert(!last.samples[k].stats->0.min_ms.nan());
    }
}

proof fn lemma_best_is_number(host: Seq<char>, rounds: Seq<RoundView>)
    requires
        forall|k: int|
            0 <= k < rounds.len() ==> sample_times_are_numbers((#[trigger] rounds[k]).samples),
    ensures
        after_rounds(host, rounds).best is Some ==> !after_rounds(
            host,
            rounds,
        ).best->0.stats.min_ms.nan(),
    decreases rounds.len(),
{
    if rounds.len() > 0 {
        let shorter = rounds.drop_last();
        let last = rounds.last();
        assert forall|k: int| 0 <= k < shorter.len() implies sample_times_are_numbers(
            (#[trigger] shorter[k]).samples,
        ) by {
            assert(shorter[k] == rounds[k]);
        }
        assert(rounds[rounds.len() - 1] == last);
        lemma_best_is_number(host, shorter);
        lemma_round_best_is_lowest(last.ips, last.samples);
        let own = round_best(last.ips, last.samples);
        if own is Some {
            let k = choose|k: int|
                0 <= k < last.samples.len() && (#[trigger] last.samples[k]).stats is Some && own
                    == Some(
                    BestView { ip: target_ip(last.ips, k), stats: last.samples[k].stats->0 },
                );
            assert(!last.samples[k].stats->0.min_ms.nan());
        }
    }
}

/// No more rounds succeed than there are.
pub proof fn lemma_successes_bounded(host: Seq<char>, rounds: Seq<RoundView>)
    ensures
        after_rounds(host, rounds).successes <= rounds.len(),
        after_rounds(host, rounds).best is None <==> after_rounds(host, rounds).successes == 0,
    decreases rounds.len(),
{
    if rounds.len() > 0 {
        lemma_successes_bounded(host, rounds.drop_last());
    }
}

/// A refined measurement only takes the place of another where it has a lower time or
/// the first one.
pub proof fn lemma_refining_never_raises(current: MeasurementView, refined: MeasurementView)
    requires
        better(current, refined),
    ensures
        refined.ping is Some,
        current.ping is Some ==> refined.ping->0.min_ms.below(current.ping->0.min_ms),
{
}

/// Tells whether each refined measurement has a place in the list.
pub open spec fn placed_within(refined: Seq<(int, MeasurementView)>, n: nat) -> bool {
    forall|k: int| 0 <= k < refined.len() ==> 0 <= (#[trigger] refined[k]).0 < n
}

/// Tells whether a measurement of this place was refined.
pub open spec fn was_refined(refined: Seq<(int, MeasurementView)>, i: int) -> bool {
    exists|k: int| 0 <= k < refined.len() && (#[trigger] refined[k]).0 == i
}

/// Tells whether the refined measurements of this place are of this anchor.
pub open spec fn refined_at(
    refined: Seq<(int, MeasurementView)>,
    i: int,
    anchor: AnchorView,
) -> bool {
    forall|k: int|
        0 <= k < refined.len() && (#[trigger] refined[k]).0 == i ==> refined[k].1.anchor == anchor
}

/// Refined measurements leave the list as long as it was, and all as they were but those
/// that were refined. Where these are of the same anchor, the anchor stays. No time is
/// lost, and none rises.
pub proof fn lemma_refining_keeps_the_rest(
    list: Seq<MeasurementView>,
    refined: Seq<(int, MeasurementView)>,
    i: int,
)
    requires
        0 <= i < list.len(),
        placed_within(refined, list.len()),
    ensures
        with_all_better(list, refined).len() == list.len(),
        !was_refined(refined, i) ==> with_all_better(list, refined)[i] == list[i],
        refined_at(refined, i, list[i].anchor) ==> with_all_better(list, refined)[i].anchor
            == list[i].anchor,
        with_all_better(list, refined)[i] == list[i] || {
            &&& with_all_better(list, refined)[i].ping is Some
            &&& list[i].ping matches Some(ping) ==> with_all_better(
                list,
                refined,
            )[i].ping->0.min_ms.below(ping.min_ms)
        },
    decreases refined.len(),
{
    if refined.len() > 0 {
        let shorter = refined.drop_last();
        let end = refined.len() - 1;
        assert(0 <= refined[end].0 < list.len());
        assert forall|k: int| 0 <= k < shorter.len() implies 0 <= (#[trigger] shorter[k]).0
            < list.len() by {
            assert(shorter[k] == refined[k]);
        }
        lemma_refining_keeps_the_rest(list, shorter, i);
        if !was_refined(refined, i) {
            assert(!was_refined(shorter, i)) by {
                if was_refined(shorter, i) {
                    let k = choose|k: int| 0 <= k < shorter.len() && (#[trigger] shorter[k]).0 == i;
                    assert(refined[k].0 == i);
                }
            }
        }
        if refined_at(refined, i, list[i].anchor) {
            assert forall|k: int| 0 <= k < shorter.len() && (#[trigger] shorter[k]).0
                == i implies shorter[k].1.anchor == list[i].anchor by {
                assert(shorter[k] == refined[k]);
            }
        }
    }
}

/// Tells whether the time of a measurement is a number, if it has one.
pub open spec fn time_is_number(measurement: MeasurementView) -> bool {
    measurement.ping matches Some(ping) ==> !ping.min_ms.nan()
}

proof fn lemma_refining_keeps_numbers(
    list: Seq<MeasurementView>,
    refined: Seq<(int, MeasurementView)>,
    i: int,
)
    requires
        0 <= i < list.len(),
        placed_within(refined, list.len()),
        time_is_number(list[i]),
        forall|j: int| 0 <= j < refined.len() ==> time_is_number((#[trigger] refined[j]).1),
    ensures
        time_is_number(with_all_better(list, refined)[i]),
    decreases refined.len(),
{
    if refined.len() > 0 {
        let shorter = refined.drop_last();
        let end = refined.len() - 1;
        assert(0 <= refined[end].0 < list.len());
        assert(time_is_number(refined[end].1));
        assert forall|j: int| 0 <= j < shorter.len() implies 0 <= (#[trigger] shorter[j]).0
            < list.len() && time_is_number(shorter[j].1) by {
            assert(shorter[j] == refined[j]);
        }
        lemma_refining_keeps_the_rest(list, shorter, i);
        lemma_refining_keeps_numbers(list, shorter, i);
    }
}

/// As long as all times are numbers, refining ends with the lowest time: a time that is
/// not above that of any refined measurement of the same place.
pub proof fn lemma_refining_takes_the_lowest(
    list: Seq<MeasurementView>,
    refined: Seq<(int, MeasurementView)>,
    i: int,
    k: int,
)
    requires
        0 <= i < list.len(),
        placed_within(refined, list.len()),
        time_is_number(list[i]),
        forall|j: int| 0 <= j < refined.len() ==> time_is_number((#[trigger] refined[j]).1),
        0 <= k < refined.len(),
        refined[k].0 == i,
        refined[k].1.ping is Some,
    ensures
        with_all_better(list, refined)[i].ping is Some,
        with_all_better(list, refined)[i].ping->0.min_ms.at_most(refined[k].1.ping->0.min_ms),
    decreases refined.len(),
{
    let shorter = refined.drop_last();
    let end = refined.len() - 1;
    assert(0 <= refined[end].0 < list.len());
    assert(time_is_number(refined[end].1));
    assert(time_is_number(refined[k].1));
    assert forall|j: int| 0 <= j < shorter.len() implies 0 <= (#[trigger] shorter[j]).0
        < list.len() && time_is_number(shorter[j].1) by {
        assert(shorter[j] == refined[j]);
    }
    lemma_refining_keeps_the_rest(list, shorter, i);
    lemma_refining_keeps_numbers(list, shorter, i);
    if k < end {
        assert(shorter[k] == refined[k]);
        lemma_refining_takes_the_lowest(list, shorter, i, k);
    }
}

/// The cache never raises a time: afterwards it is not above the time before nor above
/// the floor. Taking the floor twice is taking it once.
pub proof fn lemma_cached_floor_lowers(
    measurement: MeasurementView,
    cache: CacheView,
    age_days: Option<Double>,
    written: spec_fn(Double, u8) -> Seq<char>,
)
    ensures
        with_cached_floor(
            with_cached_floor(measurement, cache, age_days, written),
            cache,
            age_days,
            written,
        ) == with_cached_floor(measurement, cache, age_days, written),
        ({
            let after = with_cached_floor(measurement, cache, age_days, written).ping;
            let floor = floor_of(cache.floors, measurement.anchor.id);
            &&& floor is Some ==> after is Some
            &&& measurement.ping is Some ==> after is Some
            &&& floor is Some && !floor->0.min_ms.nan() && (measurement.ping is None
                || !measurement.ping->0.min_ms.nan()) ==> after->0.min_ms.at_most(
                floor->0.min_ms,
            )
            &&& measurement.ping is Some && !measurement.ping->0.min_ms.nan()
                ==> after->0.min_ms.at_most(measurement.ping->0.min_ms)
        }),
{
}

/// The uncertainty of a floor grows with its age: it is never below zero, an older
/// floor is no less uncertain than a younger one, and more so where the younger one
/// has an age at all.
pub proof fn lemma_decay_grows(younger: Double, older: Double)
    requires
        younger.at_most(older),
    ensures
        zero().at_most(decay(Some(younger))),
        decay(Some(younger)).at_most(decay(Some(older))),
        zero().at_most(younger) && younger.below(older) ==> decay(Some(younger)).below(
            decay(Some(older)),
        ),
        decay(None).at_most(decay(Some(younger))),
{
}

/// A measurement that takes a floor from the cache takes it with the age of the cache:
/// the floor of an older cache is the same time with the same note, and no less
/// uncertain. A measurement that takes none is as it was, at any age.
pub proof fn lemma_older_floor_is_less_certain(
    measurement: MeasurementView,
    cache: CacheView,
    younger: Double,
    older: Double,
    written: spec_fn(Double, u8) -> Seq<char>,
)
    requires
        younger.at_most(older),
    ensures
        ({
            let fresh = with_cached_floor(measurement, cache, Some(younger), written);
            let stale = with_cached_floor(measurement, cache, Some(older), written);
            let floor = floor_of(cache.floors, measurement.anchor.id);
            let taken = floor is Some && (measurement.ping is None || floor->0.min_ms.below(
                measurement.ping->0.min_ms,
            ));
            &&& taken ==> fresh.cache_age_days == Some(younger) && stale.cache_age_days == Some(
                older,
            ) && fresh.cache_uncertainty_ms.at_most(stale.cache_uncertainty_ms) && stale == (
            MeasurementView {
                cache_age_days: stale.cache_age_days,
                cache_uncertainty_ms: stale.cache_uncertainty_ms,
                ..fresh
            })
            &&& !taken ==> fresh == measurement && stale == measurement
        }),
{
    lemma_decay_grows(younger, older);
}

/// Taking the bias out of the times of a handshake keeps them in order and above a
/// twentieth of a millisecond.
pub proof fn lemma_unbiased_in_order(rules: Rules, ping: PingStats, bias_ms: Double)
    requires
        !rules.ratio(5, 100).nan(),
    ensures
        rules.ratio(5, 100).at_most(unbiased(rules, ping, bias_ms).min_ms),
        unbiased(rules, ping, bias_ms).min_ms.at_most(unbiased(rules, ping, bias_ms).avg_ms),
        unbiased(rules, ping, bias_ms).avg_ms.at_most(unbiased(rules, ping, bias_ms).max_ms),
{
}

/// The merged local floor is the lower of the two.
pub proof fn lemma_merged_floor_is_lower(current: LocalFloorView, cached: Double)
    requires
        !current.min_ms.nan(),
        !cached.nan(),
    ensures
        merged_floor(Some(current), Some(cached)) is Some,
        merged_floor(Some(current), Some(cached))->0.min_ms.at_most(current.min_ms),
        merged_floor(Some(current), Some(cached))->0.min_ms.at_most(cached),
{
}

/// A positive bias that is merged with an earlier one does not rise.
pub proof fn lemma_merged_bias_is_lower(current: Double, cached: Double)
    requires
        zero().below(current),
        !cached.nan(),
    ensures
        merged_bias(current, Some(cached)).at_most(current),
        merged_bias(current, Some(cached)).at_most(cached),
{
}

proof fn lemma_fastest(list: Seq<MeasurementView>, i: int)
    requires
        0 <= i < list.len(),
        list[i].ping is Some,
    ensures
        fastest(list) is Some,
        fastest(list)->0.total_place() <= list[i].ping->0.min_ms.total_place(),
    decreases list.len(),
{
    if i < list.len() - 1 {
        assert(list.drop_last()[i] == list[i]);
        lemma_fastest(list.drop_last(), i);
    }
}

/// The time that all routes have in common is not above the local floor nor above
/// three quarters of the lowest time, and the lowest time is below none other.
pub proof fn lemma_shared_floor_is_low(
    rules: Rules,
    list: Seq<MeasurementView>,
    local: LocalFloorView,
    i: int,
)
    requires
        0 <= i < list.len(),
        list[i].ping is Some,
        !local.min_ms.nan(),
    ensures
        fastest(list) is Some,
        fastest(list)->0.total_place() <= list[i].ping->0.min_ms.total_place(),
        shared_floor(rules, list, Some(local)).at_most(local.min_ms),
        ({
            let share = rules.mul(fastest(list)->0, rules.ratio(75, 100));
            !share.nan() ==> shared_floor(rules, list, Some(local)).at_most(share)
        }),
{
    lemma_fastest(list, i);
}

/// Without a local floor or without times nothing is taken off.
pub proof fn lemma_no_shared_floor(
    rules: Rules,
    list: Seq<MeasurementView>,
    local: Option<LocalFloorView>,
)
    requires
        local is None || forall|i: int| 0 <= i < list.len() ==> (#[trigger] list[i]).ping is None,
    ensures
        shared_floor(rules, list, local) == zero(),
    decreases list.len(),
{
    if list.len() > 0 && local is Some {
        let shorter = list.drop_last();
        assert forall|i: int| 0 <= i < shorter.len() implies (
        #[trigger] shorter[i]).ping is None by {
            assert(shorter[i] == list[i]);
        }
        assert(list[list.len() - 1].ping is None);
        lemma_no_shared_floor(rules, shorter, local);
    }
}

proof fn lemma_to_refine(list: Seq<MeasurementView>, chosen: Seq<usize>, n: nat)
    requires
        n <= list.len(),
        list.len() <= usize::MAX,
    ensures
        forall|k: int|
            0 <= k < to_refine(list, chosen, n).len() ==> (#[trigger] to_refine(
                list,
                chosen,
                n,
            )[k]) < n,
        forall|j: int, k: int|
            0 <= j < k < to_refine(list, chosen, n).len() ==> (#[trigger] to_refine(
                list,
                chosen,
                n,
            )[j]) < (#[trigger] to_refine(list, chosen, n)[k]),
        forall|i: usize|
            i < n ==> (#[trigger] to_refine(list, chosen, n).contains(i)
                <==> list[i as int].ping is None || chosen.contains(i)),
    decreases n,
{
    if n > 0 {
        lemma_to_refine(list, chosen, (n - 1) as nat);
        let before = to_refine(list, chosen, (n - 1) as nat);
        let all = to_refine(list, chosen, n);
        let last = (n - 1) as usize;
        assert forall|i: usize| i < n implies (#[trigger] all.contains(i)
            <==> list[i as int].ping is None || chosen.contains(i)) by {
            if all.len() > before.len() {
                assert(all[before.len() as int] == last);
                if i < last {
                    if before.contains(i) {
                        let k = choose|k: int| 0 <= k < before.len() && before[k] == i;
                        assert(all[k] == i);
                    }
                    if all.contains(i) {
                        let k = choose|k: int| 0 <= k < all.len() && all[k] == i;
                        assert(before[k] == i);
                    }
                }
            } else if i == last && all.contains(i) {
                let k = choose|k: int| 0 <= k < all.len() && all[k] == i;
                assert(before[k] < n - 1);
            }
        }
    }
}

/// Refining takes each measurement at most once, in order, and every one without a
/// time, as soon as any has one. Of those with a time it takes at most six.
pub proof fn lemma_refined_numbers(rules: Rules, list: Seq<MeasurementView>)
    requires
        list.len() <= usize::MAX,
        timed(list).len() > 0,
    ensures
        forall|k: int|
            0 <= k < refined_numbers(rules, list).len() ==> (#[trigger] refined_numbers(
                rules,
                list,
            )[k]) < list.len(),
        forall|j: int, k: int|
            0 <= j < k < refined_numbers(rules, list).len() ==> (#[trigger] refined_numbers(
                rules,
                list,
            )[j]) < (#[trigger] refined_numbers(rules, list)[k]),
        forall|i: usize|
            i < list.len() ==> (#[trigger] refined_numbers(rules, list).contains(i)
                <==> list[i as int].ping is None || worth_refining(
                rules,
                ascending(timed(list)),
            ).contains(i)),
        worth_refining(rules, ascending(timed(list))).len() <= 6,
{
    crate::ranking::lemma_ascending_orders(timed(list));
    lemma_to_refine(list, worth_refining(rules, ascending(timed(list))), list.len());
}

/// The position of the lowest value is one of the values, and none is lower than the value
/// there. There is no such position only where there are no values.
pub proof fn lemma_lowest(values: Seq<Double>)
    ensures
        match lowest(values) {
            Some(at) => 0 <= at < values.len() && forall|j: int|
                0 <= j < values.len() ==> values[at].total_place() <= (
                #[trigger] values[j]).total_place(),
            None => values.len() == 0,
        },
    decreases values.len(),
{
    if values.len() > 0 {
        let shorter = values.drop_last();
        lemma_lowest(shorter);
        let at = lowest(values)->0;
        assert forall|j: int| 0 <= j < values.len() implies values[at].total_place() <= (
        #[trigger] values[j]).total_place() by {
            if j < shorter.len() {
                assert(shorter[j] == values[j]);
            }
        }
    }
}

/// The anchor that a report names as the nearest is one of the list, at its distance, and
/// no other of the list is nearer.
pub proof fn lemma_nearest_anchor_is_nearest(rules: Rules, place: Place, anchors: Seq<AnchorView>)
    ensures
        match nearest_to(rules, place, anchors) {
            Some(nearest) => {
                &&& anchors.contains(nearest.anchor)
                &&& nearest.distance_km == distance_to(rules, place, nearest.anchor)
                &&& forall|j: int|
                    0 <= j < anchors.len() ==> nearest.distance_km.total_place() <= distance_to(
                        rules,
                        place,
                        #[trigger] anchors[j],
                    ).total_place()
            },
            None => anchors.len() == 0,
        },
{
    let distances = anchor_distances(rules, place, anchors);
    lemma_lowest(distances);
    if let Some(at) = lowest(distances) {
        assert(anchors.contains(anchors[at]));
        assert forall|j: int| 0 <= j < anchors.len() implies distances[at].total_place()
            <= distance_to(rules, place, #[trigger] anchors[j]).total_place() by {
            assert(distances[j] == distance_to(rules, place, anchors[j]));
        }
    }
}

} // verus!
