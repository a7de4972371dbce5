//! What the search promises: every constraint counts, no place is tried twice, and the
//! estimate says how unsure it is.

use crate::anchors::Anchor;
use crate::calc::Rules;
use crate::calc_laws::{lemma_sizes, orderly, sized};
use crate::calibrate::decay;
use crate::double::{zero, Double};
use crate::fit::{by_time, numbered_times};
use crate::geometry::{center_of, distance_to, moved, Place};
use crate::hints::HintView;
use crate::posterior::{
    distances_from, known, leave_one_out, numbered_values, place_key, prefix_subset, sample_place,
    sample_places, sorted, stability_radius, subsets_of, with_seed,
};
use crate::priors::{local_constraints, within};
use crate::probe::{Measurement, PingStats, ProbeMethod};
use crate::ranking::{ascending, lemma_ascending_members, lemma_ascending_orders};
use crate::run_laws::lemma_decay_grows;
use crate::scores::corridor_score;
use crate::search::{solved, Candidate, SceneView};
use crate::solver::{
    best_hub, constraint_of, constraints_of, dominant_hint, estimated, quality, Constraint,
    EvaluatedHintView,
};
use crate::summary::{
    blended, by_distance, quantile, reached, summarized, temperature, total_weight,
};
use vstd::prelude::*;

verus! {

/// Ordering constraints by time neither adds nor loses one, and puts none before a
/// faster one.
pub proof fn lemma_by_time_orders(constraints: Seq<Constraint>)
    requires
        constraints.len() <= usize::MAX,
    ensures
        by_time(constraints).len() == constraints.len(),
        forall|i: int, j: int|
            0 <= i <= j < constraints.len() ==> (#[trigger] by_time(
                constraints,
            )[i]).min_rtt_ms.total_place() <= (#[trigger] by_time(
                constraints,
            )[j]).min_rtt_ms.total_place(),
        forall|k: int|
            0 <= k < constraints.len() ==> constraints.contains(#[trigger] by_time(constraints)[k]),
        forall|i: int|
            0 <= i < constraints.len() ==> by_time(constraints).contains(
                #[trigger] constraints[i],
            ),
{
    broadcast use vstd::seq_lib::group_to_multiset_ensures;

    let items = numbered_times(constraints);
    let order = ascending(items);
    let ranked = by_time(constraints);
    lemma_ascending_orders(items);
    assert forall|k: int| 0 <= k < constraints.len() implies {
        &&& 0 <= (#[trigger] order[k]).0 < constraints.len()
        &&& order[k].1 == constraints[order[k].0 as int].min_rtt_ms
    } by {
        lemma_ascending_members(items, k);
        let i = choose|i: int| 0 <= i < items.len() && items[i] == order[k];
        assert(order[k].0 == i);
    }
    assert forall|i: int, j: int| 0 <= i <= j < constraints.len() implies (
    #[trigger] ranked[i]).min_rtt_ms.total_place() <= (
    #[trigger] ranked[j]).min_rtt_ms.total_place() by {
        assert(order[i].1.total_place() <= order[j].1.total_place());
    }
    assert forall|k: int| 0 <= k < constraints.len() implies constraints.contains(
        #[trigger] ranked[k],
    ) by {
        assert(ranked[k] == constraints[order[k].0 as int]);
    }
    assert forall|i: int| 0 <= i < constraints.len() implies ranked.contains(
        #[trigger] constraints[i],
    ) by {
        assert(items.contains(items[i]));
        assert(items.to_multiset().contains(items[i]));
        assert(order.contains(items[i]));
        let k = choose|k: int| 0 <= k < order.len() && order[k] == items[i];
        assert(ranked[k] == constraints[i]);
    }
}

/// Each subset that shows how stable the solution is has three constraints at least,
/// and none that was not given.
pub proof fn lemma_subsets_are_large(constraints: Seq<Constraint>, i: int)
    requires
        constraints.len() <= usize::MAX,
        0 <= i < subsets_of(constraints).len(),
    ensures
        3 <= subsets_of(constraints)[i].len() <= constraints.len(),
        forall|k: int|
            0 <= k < subsets_of(constraints)[i].len() ==> constraints.contains(
                #[trigger] subsets_of(constraints)[i][k],
            ),
        subsets_of(constraints).len() <= 8,
{
    lemma_by_time_orders(constraints);
    let ranked = by_time(constraints);
    let subset = subsets_of(constraints)[i];
    let four = prefix_subset(ranked, 4);
    let five = four + prefix_subset(ranked, 5);
    let six = five + prefix_subset(ranked, 6);
    let eight = six + prefix_subset(ranked, 8);
    if i < eight.len() {
        assert(subset == eight[i]);
        assert(exists|n: int| 4 <= n <= ranked.len() && subset == #[trigger] ranked.take(n)) by {
            if i < four.len() {
                assert(subset == ranked.take(4));
            } else if i < five.len() {
                assert(subset == ranked.take(5));
            } else if i < six.len() {
                assert(subset == ranked.take(6));
            } else {
                assert(subset == ranked.take(8));
            }
        }
        let n = choose|n: int| 4 <= n <= ranked.len() && subset == #[trigger] ranked.take(n);
        assert forall|k: int| 0 <= k < subset.len() implies constraints.contains(
            #[trigger] subset[k],
        ) by {
            assert(subset[k] == ranked[k]);
        }
    } else {
        let at = i - eight.len();
        assert(subset == leave_one_out(ranked)[at]);
        assert(subset == ranked.remove(at));
        assert forall|k: int| 0 <= k < subset.len() implies constraints.contains(
            #[trigger] subset[k],
        ) by {
            if k < at {
                assert(subset[k] == ranked[k]);
            } else {
                assert(subset[k] == ranked[k + 1]);
            }
        }
    }
}

/// Tells whether no two places are the same to a thousandth of a degree.
pub open spec fn all_distinct(rules: Rules, places: Seq<Place>) -> bool {
    forall|i: int, j: int|
        0 <= i < j < places.len() ==> place_key(rules, #[trigger] places[i]) != place_key(
            rules,
            #[trigger] places[j],
        )
}

proof fn lemma_with_seed_distinct(rules: Rules, places: Seq<Place>, seed: Place, tried: nat)
    requires
        all_distinct(rules, places),
    ensures
        all_distinct(rules, with_seed(rules, places, seed, tried)),
    decreases tried,
{
    if tried > 0 {
        lemma_with_seed_distinct(rules, places, seed, (tried - 1) as nat);
        let before = with_seed(rules, places, seed, (tried - 1) as nat);
        let next = sample_place(rules, seed, tried - 1);
        if !known(rules, before, place_key(rules, next)) {
            let all = before.push(next);
            assert forall|i: int, j: int| 0 <= i < j < all.len() implies place_key(
                rules,
                #[trigger] all[i],
            ) != place_key(rules, #[trigger] all[j]) by {
                assert(all[i] == before[i]);
                if j < before.len() {
                    assert(all[j] == before[j]);
                }
            }
        }
    }
}

/// No place is sampled twice, to a thousandth of a degree.
pub proof fn lemma_samples_are_distinct(rules: Rules, seeds: Seq<Place>)
    ensures
        all_distinct(rules, sample_places(rules, seeds)),
    decreases seeds.len(),
{
    if seeds.len() > 0 {
        lemma_samples_are_distinct(rules, seeds.drop_last());
        lemma_with_seed_distinct(
            rules,
            sample_places(rules, seeds.drop_last()),
            seeds.last(),
            405,
        );
    }
}

/// Tells whether a constraint is the one that a measurement gives.
pub open spec fn comes_from(
    rules: Rules,
    constraint: Constraint,
    measurement: Measurement,
    km_per_ms: Double,
) -> bool {
    measurement.ping is Some && constraint == constraint_of(
        rules,
        measurement.anchor,
        measurement.ping->0,
        measurement.cache_uncertainty_ms,
        km_per_ms,
    )
}

proof fn lemma_constraint_of_measurement(
    rules: Rules,
    measurements: Seq<Measurement>,
    km_per_ms: Double,
    i: int,
) -> (k: int)
    requires
        0 <= i < measurements.len(),
        measurements[i].ping is Some,
    ensures
        0 <= k < constraints_of(rules, measurements, km_per_ms).len(),
        comes_from(
            rules,
            constraints_of(rules, measurements, km_per_ms)[k],
            measurements[i],
            km_per_ms,
        ),
    decreases measurements.len(),
{
    let shorter = measurements.drop_last();
    if i < shorter.len() {
        assert(shorter[i] == measurements[i]);
        lemma_constraint_of_measurement(rules, shorter, km_per_ms, i)
    } else {
        constraints_of(rules, shorter, km_per_ms).len() as int
    }
}

proof fn lemma_measurement_of_constraint(
    rules: Rules,
    measurements: Seq<Measurement>,
    km_per_ms: Double,
    k: int,
) -> (i: int)
    requires
        0 <= k < constraints_of(rules, measurements, km_per_ms).len(),
    ensures
        0 <= i < measurements.len(),
        comes_from(
            rules,
            constraints_of(rules, measurements, km_per_ms)[k],
            measurements[i],
            km_per_ms,
        ),
    decreases measurements.len(),
{
    let shorter = measurements.drop_last();
    if k < constraints_of(rules, shorter, km_per_ms).len() {
        let i = lemma_measurement_of_constraint(rules, shorter, km_per_ms, k);
        assert(shorter[i] == measurements[i]);
        i
    } else {
        measurements.len() - 1
    }
}

/// Every measurement with a time gives a constraint, and every constraint comes from
/// one.
pub proof fn lemma_constraints_match_measurements(
    rules: Rules,
    measurements: Seq<Measurement>,
    km_per_ms: Double,
)
    ensures
        forall|i: int|
            0 <= i < measurements.len() && (#[trigger] measurements[i]).ping is Some ==> exists|
                k: int,
            |
                0 <= k < constraints_of(rules, measurements, km_per_ms).len() && comes_from(
                    rules,
                    #[trigger] constraints_of(rules, measurements, km_per_ms)[k],
                    measurements[i],
                    km_per_ms,
                ),
        forall|k: int|
            #![trigger constraints_of(rules, measurements, km_per_ms)[k]]
            0 <= k < constraints_of(rules, measurements, km_per_ms).len() ==> exists|i: int|
                0 <= i < measurements.len() && comes_from(
                    rules,
                    constraints_of(rules, measurements, km_per_ms)[k],
                    #[trigger] measurements[i],
                    km_per_ms,
                ),
{
    let all = constraints_of(rules, measurements, km_per_ms);
    assert forall|i: int|
        0 <= i < measurements.len() && (
        #[trigger] measurements[i]).ping is Some implies exists|k: int|
        0 <= k < all.len() && comes_from(
            rules,
            #[trigger] all[k],
            measurements[i],
            km_per_ms,
        ) by {
        let k = lemma_constraint_of_measurement(rules, measurements, km_per_ms, i);
        assert(comes_from(rules, all[k], measurements[i], km_per_ms));
    }
    assert forall|k: int|
        #![trigger all[k]]
        0 <= k < all.len() implies exists|i: int|
        0 <= i < measurements.len() && comes_from(
            rules,
            all[k],
            #[trigger] measurements[i],
            km_per_ms,
        ) by {
        let i = lemma_measurement_of_constraint(rules, measurements, km_per_ms, k);
        assert(comes_from(rules, all[k], measurements[i], km_per_ms));
    }
}

/// No measurement counts for less than twelve hundredths, nor for more than one.
pub proof fn lemma_quality_is_bounded(rules: Rules, method: ProbeMethod, jitter_ms: Double)
    requires
        rules.ratio(12, 100).at_most(rules.count(1)),
        !quality(rules, method, jitter_ms).nan(),
    ensures
        rules.ratio(12, 100).at_most(quality(rules, method, jitter_ms)),
        quality(rules, method, jitter_ms).at_most(rules.count(1)),
{
}

/// Tells whether sums and quotients of what is not below zero keep the order of what
/// they are taken of, and the numbers that quality is made of stand in their order.
pub open spec fn keeps_order(rules: Rules) -> bool {
    &&& forall|a: Double, b: Double|
        zero().at_most(a) && zero().at_most(b) ==> a.at_most(#[trigger] rules.add(a, b))
    &&& forall|a: Double, b: Double, c: Double|
        zero().at_most(a) && zero().at_most(b) && b.at_most(c) ==> (#[trigger] rules.add(
            a,
            b,
        )).at_most(#[trigger] rules.add(a, c))
    &&& forall|a: Double, b: Double, c: Double|
        zero().at_most(a) && a.at_most(b) && zero().below(c) && c.finite() ==> zero().at_most(
            rules.div(a, c),
        ) && (#[trigger] rules.div(a, c)).at_most(#[trigger] rules.div(b, c))
    &&& forall|a: Double, b: Double, c: Double|
        zero().at_most(a) && a.finite() && zero().below(b) && b.at_most(c) ==> (
        #[trigger] rules.div(a, c)).at_most(#[trigger] rules.div(a, b))
    &&& zero().below(rules.count(1)) && rules.count(1).finite()
    &&& zero().below(rules.count(3)) && rules.count(3).finite()
    &&& zero().at_most(rules.ratio(25, 100))
    &&& rules.ratio(12, 100).at_most(rules.count(1))
}

/// What comes from an older cache counts less. Of the same floor, the older it is the
/// greater is its jitter and the smaller its weight; its time and its bound are the same.
pub proof fn lemma_older_floor_counts_less(
    rules: Rules,
    anchor: Anchor,
    ping: PingStats,
    younger: Double,
    older: Double,
    km_per_ms: Double,
)
    requires
        keeps_order(rules),
        zero().at_most(ping.mdev_ms),
        younger.at_most(older),
    ensures
        ({
            let fresh = constraint_of(rules, anchor, ping, decay(Some(younger)), km_per_ms);
            let stale = constraint_of(rules, anchor, ping, decay(Some(older)), km_per_ms);
            &&& stale.min_rtt_ms == fresh.min_rtt_ms
            &&& stale.upper_bound_km == fresh.upper_bound_km
            &&& fresh.jitter_ms.at_most(stale.jitter_ms)
            &&& stale.quality_weight.at_most(fresh.quality_weight)
        }),
{
    let less = decay(Some(younger));
    let more = decay(Some(older));
    lemma_decay_grows(younger, older);
    let spread_ms = rules.sub(ping.avg_ms, ping.min_ms).greater(zero());
    let deviation = ping.mdev_ms.greater(rules.mul(spread_ms, rules.ratio(75, 100)));
    assert(zero().at_most(deviation));
    let low = rules.add(deviation, less);
    let high = rules.add(deviation, more);
    assert(deviation.at_most(low));
    assert(low.at_most(high));
    let penalty = if ping.method is Tcp {
        rules.ratio(25, 100)
    } else {
        zero()
    };
    let base = rules.add(rules.count(1), penalty);
    assert(rules.count(1).at_most(base));
    let small = rules.div(low, rules.count(3));
    let great = rules.div(high, rules.count(3));
    assert(zero().at_most(small) && small.at_most(great));
    assert(base.at_most(rules.add(base, small)));
    assert(rules.add(base, small).at_most(rules.add(base, great)));
    assert(rules.div(rules.count(1), rules.add(base, great)).at_most(
        rules.div(rules.count(1), rules.add(base, small)),
    ));
}

/// The constraints within a limit are no more than there were, and within the limit.
pub proof fn lemma_within_shrinks(constraints: Seq<Constraint>, cutoff_ms: Double)
    ensures
        within(constraints, cutoff_ms).len() <= constraints.len(),
        forall|k: int|
            0 <= k < within(constraints, cutoff_ms).len() ==> (#[trigger] within(
                constraints,
                cutoff_ms,
            )[k]).min_rtt_ms.at_most(cutoff_ms),
    decreases constraints.len(),
{
    if constraints.len() > 0 {
        lemma_within_shrinks(constraints.drop_last(), cutoff_ms);
    }
}

/// At most twelve constraints are compared pair by pair, all close to the fastest.
pub proof fn lemma_local_constraints_are_few(rules: Rules, ranked: Seq<Constraint>, k: int)
    requires
        0 <= k < local_constraints(rules, ranked).len(),
    ensures
        local_constraints(rules, ranked).len() <= 12,
        local_constraints(rules, ranked)[k].min_rtt_ms.at_most(
            rules.add(ranked[0].min_rtt_ms, rules.count(45)),
        ),
{
    let cutoff_ms = rules.add(ranked[0].min_rtt_ms, rules.count(45));
    lemma_within_shrinks(ranked, cutoff_ms);
    assert(local_constraints(rules, ranked)[k] == within(ranked, cutoff_ms)[k]);
}

/// There is an estimate if and only if there is a constraint. It lists every
/// constraint and every hint, in order, and its confidence radius is below neither of
/// the radii that it is made of.
pub proof fn lemma_estimate_is_complete(rules: Rules, scene: SceneView)
    ensures
        estimated(rules, scene) is Some <==> scene.constraints.len() > 0,
        estimated(rules, scene) is Some ==> {
            let estimate = estimated(rules, scene)->0;
            &&& estimate.constraints.len() == scene.constraints.len()
            &&& forall|i: int|
                0 <= i < scene.constraints.len() ==> (#[trigger] estimate.constraints[i]).anchor
                    == scene.constraints[i].anchor
            &&& estimate.hints.len() == scene.hints.len()
            &&& forall|i: int|
                0 <= i < scene.hints.len() ==> (#[trigger] estimate.hints[i]).anchor
                    == scene.hints[i].anchor
            &&& !estimate.confidence_radius_km.below(estimate.stability_radius_km)
            &&& !estimate.confidence_radius_km.below(estimate.posterior_radius_km)
        },
{
    reveal(solved);
    if scene.constraints.len() > 0 {
        crate::search::lemma_solution_beats_starts(rules, scene, 0);
    }
}

/// Sorting values neither adds nor loses one, and puts none before a lower one.
pub proof fn lemma_sorted_ascends(values: Seq<Double>)
    requires
        values.len() <= usize::MAX,
    ensures
        sorted(values).len() == values.len(),
        forall|i: int, j: int|
            0 <= i <= j < values.len() ==> (#[trigger] sorted(values)[i]).total_place() <= (
            #[trigger] sorted(values)[j]).total_place(),
        forall|k: int| 0 <= k < values.len() ==> values.contains(#[trigger] sorted(values)[k]),
        forall|i: int| 0 <= i < values.len() ==> sorted(values).contains(#[trigger] values[i]),
{
    broadcast use vstd::seq_lib::group_to_multiset_ensures;

    let items = numbered_values(values);
    let order = ascending(items);
    lemma_ascending_orders(items);
    assert forall|i: int, j: int| 0 <= i <= j < values.len() implies (
    #[trigger] sorted(values)[i]).total_place() <= (
    #[trigger] sorted(values)[j]).total_place() by {
        assert(order[i].1.total_place() <= order[j].1.total_place());
    }
    assert forall|k: int| 0 <= k < values.len() implies values.contains(
        #[trigger] sorted(values)[k],
    ) by {
        lemma_ascending_members(items, k);
        let i = choose|i: int| 0 <= i < items.len() && items[i] == order[k];
        assert(values[i] == sorted(values)[k]);
    }
    assert forall|i: int| 0 <= i < values.len() implies sorted(values).contains(
        #[trigger] values[i],
    ) by {
        assert(items.contains(items[i]));
        assert(items.to_multiset().contains(items[i]));
        assert(order.contains(items[i]));
        let k = choose|k: int| 0 <= k < order.len() && order[k] == items[i];
        assert(sorted(values)[k] == values[i]);
    }
}

/// The stability radius is the distance of a solution for a subset. Of the distances
/// in ascending order, the first three quarters are not above it and the others are
/// not below it.
pub proof fn lemma_stability_radius_is_a_quartile(
    rules: Rules,
    place: Place,
    modes: Seq<Candidate>,
    k: int,
)
    requires
        modes.len() <= usize::MAX,
        0 <= k < modes.len(),
    ensures
        distances_from(rules, place, modes).contains(stability_radius(rules, place, modes)),
        k <= (modes.len() - 1) * 3 / 4 ==> sorted(
            distances_from(rules, place, modes),
        )[k].total_place() <= stability_radius(rules, place, modes).total_place(),
        k >= (modes.len() - 1) * 3 / 4 ==> stability_radius(rules, place, modes).total_place()
            <= sorted(distances_from(rules, place, modes))[k].total_place(),
{
    lemma_sorted_ascends(distances_from(rules, place, modes));
}

/// The temperature is one at least.
pub proof fn lemma_temperature_is_positive(rules: Rules, mode: Candidate, samples: Seq<Candidate>)
    requires
        !rules.count(1).nan(),
    ensures
        rules.count(1).at_most(temperature(rules, mode, samples)),
{
}

proof fn lemma_reached_first(
    rules: Rules,
    pairs: Seq<(Double, Double)>,
    threshold: Double,
    tried: nat,
) -> (k: int)
    requires
        tried <= pairs.len(),
        reached(rules, pairs, threshold, tried) is Some,
    ensures
        0 <= k < tried,
        reached(rules, pairs, threshold, tried) == Some(pairs[k].0),
        threshold.at_most(total_weight(rules, pairs.take(k + 1))),
        forall|j: int|
            0 <= j < k ==> !threshold.at_most(#[trigger] total_weight(rules, pairs.take(j + 1))),
    decreases tried,
{
    if reached(rules, pairs, threshold, (tried - 1) as nat) is Some {
        lemma_reached_first(rules, pairs, threshold, (tried - 1) as nat)
    } else {
        lemma_not_reached(rules, pairs, threshold, (tried - 1) as nat);
        tried - 1
    }
}

proof fn lemma_not_reached(
    rules: Rules,
    pairs: Seq<(Double, Double)>,
    threshold: Double,
    tried: nat,
)
    requires
        tried <= pairs.len(),
        reached(rules, pairs, threshold, tried) is None,
    ensures
        forall|j: int|
            0 <= j < tried ==> !threshold.at_most(
                #[trigger] total_weight(rules, pairs.take(j + 1)),
            ),
    decreases tried,
{
    if tried > 0 {
        lemma_not_reached(rules, pairs, threshold, (tried - 1) as nat);
    }
}

/// Where the weights reach their share at all, the quantile is the first value at
/// which they do: with it the sum is not below the share, and before it the sum is.
pub proof fn lemma_quantile_is_first(
    rules: Rules,
    pairs: Seq<(Double, Double)>,
    share: Double,
) -> (k: int)
    requires
        !total_weight(rules, pairs).at_most(zero()),
        reached(
            rules,
            pairs,
            rules.mul(total_weight(rules, pairs), share.clamped(zero(), rules.count(1))),
            pairs.len(),
        ) is Some,
    ensures
        0 <= k < pairs.len(),
        quantile(rules, pairs, share) == pairs[k].0,
        rules.mul(total_weight(rules, pairs), share.clamped(zero(), rules.count(1))).at_most(
            total_weight(rules, pairs.take(k + 1)),
        ),
        forall|j: int|
            0 <= j < k ==> !rules.mul(
                total_weight(rules, pairs),
                share.clamped(zero(), rules.count(1)),
            ).at_most(#[trigger] total_weight(rules, pairs.take(j + 1))),
{
    let threshold = rules.mul(
        total_weight(rules, pairs),
        share.clamped(zero(), rules.count(1)),
    );
    lemma_reached_first(rules, pairs, threshold, pairs.len())
}

/// The posterior radius reaches just so far that three quarters of the weight are within it:
/// of the weighted places, nearest first, it is the distance of the first with which they
/// are. It is measured from the centre of those places.
pub proof fn lemma_radius_holds_three_quarters(
    rules: Rules,
    mode: Candidate,
    samples: Seq<Candidate>,
    modes: Seq<Candidate>,
) -> (k: int)
    requires
        orderly(rules),
        samples.len() > 1,
        ({
            let items = blended(rules, mode, samples, modes);
            let pairs = by_distance(rules, center_of(rules, items), items);
            let total = total_weight(rules, pairs);
            &&& !total.at_most(zero())
            &&& rules.mul(total, rules.ratio(75, 100)).at_most(total)
        }),
    ensures
        ({
            let items = blended(rules, mode, samples, modes);
            let found = summarized(rules, mode, samples, modes);
            let pairs = by_distance(rules, found.place, items);
            let most = rules.mul(total_weight(rules, pairs), rules.ratio(75, 100));
            &&& found.place == center_of(rules, items)
            &&& 0 <= k < pairs.len()
            &&& found.radius_km == pairs[k].0
            &&& most.at_most(total_weight(rules, pairs.take(k + 1)))
            &&& forall|j: int|
                0 <= j < k ==> !most.at_most(#[trigger] total_weight(rules, pairs.take(j + 1)))
        }),
{
    let items = blended(rules, mode, samples, modes);
    let pairs = by_distance(rules, center_of(rules, items), items);
    let total = total_weight(rules, pairs);
    let share = rules.ratio(75, 100);
    assert(sized(share, 14) && share.below(rules.count(1))) by {
        reveal(orderly);
    }
    lemma_sizes(share, 14);
    assert(share.clamped(zero(), rules.count(1)) == share);
    let threshold = rules.mul(total, share);
    if reached(rules, pairs, threshold, pairs.len()) is None {
        lemma_not_reached(rules, pairs, threshold, pairs.len());
        assert(pairs.take(pairs.len() as int) =~= pairs);
        if pairs.len() > 0 {
            let j = pairs.len() - 1;
            assert(!threshold.at_most(total_weight(rules, pairs.take(j + 1))));
        }
    }
    lemma_quantile_is_first(rules, pairs, share)
}

/// No step leads out of the latitudes that are searched.
pub proof fn lemma_moves_stay_off_the_poles(
    rules: Rules,
    from: Place,
    north: int,
    east: int,
    step: Double,
)
    requires
        rules.ratio(-899, 10).at_most(rules.ratio(899, 10)),
        !moved(rules, from, north, east, step).latitude.nan(),
    ensures
        rules.ratio(-899, 10).at_most(moved(rules, from, north, east, step).latitude),
        moved(rules, from, north, east, step).latitude.at_most(rules.ratio(899, 10)),
{
}

proof fn lemma_best_hub(
    rules: Rules,
    place: Place,
    constraints: Seq<Constraint>,
    hints: Seq<HintView>,
)
    ensures
        match best_hub(rules, place, constraints, hints) {
            Some((at, score)) => {
                &&& 0 <= at < hints.len()
                &&& hints[at].supporting_anchors.len() > 0
                &&& score == corridor_score(rules, place, constraints, hints[at])
                &&& forall|j: int|
                    0 <= j < hints.len() && (#[trigger] hints[j]).supporting_anchors.len() > 0
                        ==> score.total_place() <= corridor_score(
                        rules,
                        place,
                        constraints,
                        hints[j],
                    ).total_place()
            },
            None => forall|j: int|
                0 <= j < hints.len() ==> (#[trigger] hints[j]).supporting_anchors.len() == 0,
        },
    decreases hints.len(),
{
    if hints.len() > 0 {
        let shorter = hints.drop_last();
        lemma_best_hub(rules, place, constraints, shorter);
        match best_hub(rules, place, constraints, hints) {
            Some((at, score)) => {
                assert forall|j: int|
                    0 <= j < hints.len() && (#[trigger] hints[j]).supporting_anchors.len()
                        > 0 implies score.total_place() <= corridor_score(
                    rules,
                    place,
                    constraints,
                    hints[j],
                ).total_place() by {
                    if j < shorter.len() {
                        assert(shorter[j] == hints[j]);
                    }
                }
                if at < shorter.len() {
                    assert(shorter[at] == hints[at]);
                }
            },
            None => {
                assert forall|j: int| 0 <= j < hints.len() implies (
                #[trigger] hints[j]).supporting_anchors.len() == 0 by {
                    if j < shorter.len() {
                        assert(shorter[j] == hints[j]);
                    }
                }
            },
        }
    }
}

/// Tells whether a hub that is named stands for a hint: its anchor, weight and source are
/// those of the hint, and its distance is that of the anchor.
pub open spec fn names_hint(
    rules: Rules,
    place: Place,
    named: EvaluatedHintView,
    hint: HintView,
) -> bool {
    &&& named.anchor == hint.anchor
    &&& named.weight == hint.weight
    &&& named.source == hint.source
    &&& named.distance_km == distance_to(rules, place, hint.anchor)
}

/// Tells whether no hint with supporting anchors explains the times of the routes better
/// than this one, which has some.
pub open spec fn explains_best(
    rules: Rules,
    place: Place,
    constraints: Seq<Constraint>,
    hints: Seq<HintView>,
    at: int,
) -> bool {
    &&& 0 <= at < hints.len()
    &&& hints[at].supporting_anchors.len() > 0
    &&& forall|j: int|
        0 <= j < hints.len() && (#[trigger] hints[j]).supporting_anchors.len() > 0
            ==> corridor_score(rules, place, constraints, hints[at]).total_place()
            <= corridor_score(rules, place, constraints, hints[j]).total_place()
}

/// There is a dominant hub if and only if some hint has supporting anchors. It is one of
/// those hints, and no hint that has supporting anchors has a lower corridor score.
pub proof fn lemma_dominant_hub_explains_best(
    rules: Rules,
    place: Place,
    constraints: Seq<Constraint>,
    hints: Seq<HintView>,
)
    ensures
        dominant_hint(rules, place, constraints, hints) is Some <==> exists|j: int|
            0 <= j < hints.len() && (#[trigger] hints[j]).supporting_anchors.len() > 0,
        dominant_hint(rules, place, constraints, hints) matches Some(named) ==> exists|at: int|
            #[trigger] explains_best(rules, place, constraints, hints, at) && names_hint(
                rules,
                place,
                named,
                hints[at],
            ),
{
    lemma_best_hub(rules, place, constraints, hints);
    if let Some((at, score)) = best_hub(rules, place, constraints, hints) {
        assert(hints[at].supporting_anchors.len() > 0);
        assert(explains_best(rules, place, constraints, hints, at));
    }
}

} // verus!
