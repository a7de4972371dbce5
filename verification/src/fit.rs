//! Constraints by their times, and the straight line through the fastest of them.

use crate::calc::{Arith, Calc, Rules};
use crate::double::{zero, Double};
use crate::geometry::{anchor_distance_km, distance_to, Place};
use crate::ranking::{ascending, lemma_ascending_members, lemma_ascending_orders, rank};
use crate::solver::Constraint;
use vstd::prelude::*;

verus! {

/// The times of constraints, each with the number of its constraint.
pub open spec fn numbered_times(constraints: Seq<Constraint>) -> Seq<(usize, Double)> {
    Seq::new(constraints.len(), |i: int| (i as usize, constraints[i].min_rtt_ms))
}

/// The constraints by ascending time. Those of equal time keep their order.
pub open spec fn by_time(constraints: Seq<Constraint>) -> Seq<Constraint> {
    let order = ascending(numbered_times(constraints));
    Seq::new(constraints.len(), |k: int| constraints[order[k].0 as int])
}

/// The constraints by ascending time. Those of equal time keep their order.
pub fn rank_constraints(constraints: &Vec<Constraint>) -> (ranked: Vec<Constraint>)
    ensures
        ranked@ == by_time(constraints@),
{
    let ghost all = constraints@;
    let mut items: Vec<(usize, Double)> = Vec::new();
    let mut i: usize = 0;
    while i < constraints.len()
        invariant
            all == constraints@,
            i <= all.len(),
            items@ == numbered_times(all).take(i as int),
        decreases all.len() - i,
    {
        items.push((i, constraints[i].min_rtt_ms));
        i = i + 1;
        assert(items@ =~= numbered_times(all).take(i as int));
    }
    assert(items@ =~= numbered_times(all));
    let order = rank(&items);
    proof {
        lemma_ascending_orders(items@);
    }
    let mut ranked: Vec<Constraint> = Vec::new();
    let mut k: usize = 0;
    while k < order.len()
        invariant
            all == constraints@,
            order@ == ascending(numbered_times(all)),
            order@.len() == all.len(),
            k <= order@.len(),
            ranked@ == by_time(all).take(k as int),
        decreases order@.len() - k,
    {
        proof {
            lemma_ascending_members(numbered_times(all), k as int);
        }
        ranked.push(constraints[order[k].0]);
        k = k + 1;
        assert(ranked@ =~= by_time(all).take(k as int));
    }
    assert(ranked@ =~= by_time(all));
    ranked
}

/// The bits of the distance between one and the next greater number.
pub const EPSILON: u64 = 0x3cb0_0000_0000_0000;

/// A straight line through times over distances, and how far the times are from it.
#[derive(Debug, Clone, Copy, PartialEq, Eq, Structural)]
pub struct LatencyFit {
    pub overhead_ms: Double,
    pub ms_per_km: Double,
    pub weighted_rmse_ms: Double,
}

/// One point that a line is fitted to.
#[derive(Debug, Clone, Copy, PartialEq, Eq, Structural)]
pub struct FitSample {
    pub weight: Double,
    pub distance_km: Double,
    pub rtt_ms: Double,
}

/// The least time that a kilometre takes.
pub open spec fn least_ms_per_km(rules: Rules) -> Double {
    rules.ratio(1, 102)
}

/// The weight of a constraint by its quality and time.
pub open spec fn time_weight(rules: Rules, constraint: Constraint) -> Double {
    rules.div(
        constraint.quality_weight,
        rules.square(constraint.min_rtt_ms.greater(rules.count(5))),
    )
}

/// The point that a constraint gives, as seen from a place.
pub open spec fn fit_sample(rules: Rules, place: Place, constraint: Constraint) -> FitSample {
    FitSample {
        weight: time_weight(rules, constraint),
        distance_km: distance_to(rules, place, constraint.anchor@),
        rtt_ms: constraint.min_rtt_ms,
    }
}

/// The number of constraints that a line is fitted to: the six fastest.
pub open spec fn fit_count(n: nat) -> nat {
    if n < 6 {
        n
    } else {
        6
    }
}

/// The points that a line is fitted to, of constraints by ascending time.
pub open spec fn fit_samples(
    rules: Rules,
    place: Place,
    ranked: Seq<Constraint>,
) -> Seq<FitSample> {
    Seq::new(fit_count(ranked.len()), |i: int| fit_sample(rules, place, ranked[i]))
}

/// The weighted sums over points.
#[derive(Debug, Clone, Copy, PartialEq, Eq, Structural)]
pub struct FitSums {
    pub w: Double,
    pub x: Double,
    pub y: Double,
    pub xx: Double,
    pub xy: Double,
}

/// The weighted sums over points.
pub open spec fn fit_sums(rules: Rules, samples: Seq<FitSample>) -> FitSums
    decreases samples.len(),
{
    if samples.len() == 0 {
        FitSums { w: zero(), x: zero(), y: zero(), xx: zero(), xy: zero() }
    } else {
        let before = fit_sums(rules, samples.drop_last());
        let next = samples.last();
        let reach = rules.mul(next.weight, next.distance_km);
        FitSums {
            w: rules.add(before.w, next.weight),
            x: rules.add(before.x, reach),
            y: rules.add(before.y, rules.mul(next.weight, next.rtt_ms)),
            xx: rules.add(before.xx, rules.mul(reach, next.distance_km)),
            xy: rules.add(before.xy, rules.mul(reach, next.rtt_ms)),
        }
    }
}

/// The slope of the line: that of the least squares, and no less than light allows.
pub open spec fn fitted_slope(rules: Rules, sums: FitSums) -> Double {
    let spread = rules.sub(rules.mul(sums.w, sums.xx), rules.mul(sums.x, sums.x));
    let slope = if (Double { bits: EPSILON }).below(spread.unsigned()) {
        rules.div(rules.sub(rules.mul(sums.w, sums.xy), rules.mul(sums.x, sums.y)), spread)
    } else {
        least_ms_per_km(rules)
    };
    slope.greater(least_ms_per_km(rules))
}

/// The weighted sum of what the times are above a line through the origin.
pub open spec fn excess_sum(rules: Rules, samples: Seq<FitSample>, slope: Double) -> Double
    decreases samples.len(),
{
    if samples.len() == 0 {
        zero()
    } else {
        let next = samples.last();
        rules.add(
            excess_sum(rules, samples.drop_last(), slope),
            rules.mul(next.weight, rules.sub(next.rtt_ms, rules.mul(slope, next.distance_km))),
        )
    }
}

/// The weighted sum of the squares of the errors of a line.
pub open spec fn error_sum(
    rules: Rules,
    samples: Seq<FitSample>,
    overhead: Double,
    slope: Double,
) -> Double
    decreases samples.len(),
{
    if samples.len() == 0 {
        zero()
    } else {
        let next = samples.last();
        let predicted = rules.add(overhead, rules.mul(slope, next.distance_km));
        rules.add(
            error_sum(rules, samples.drop_last(), overhead, slope),
            rules.mul(next.weight, rules.square(rules.sub(predicted, next.rtt_ms))),
        )
    }
}

/// The line through points. The overhead is fitted anew to the slope that is used.
pub open spec fn line_through(rules: Rules, samples: Seq<FitSample>) -> LatencyFit {
    let sums = fit_sums(rules, samples);
    if sums.w.equals(zero()) {
        LatencyFit {
            overhead_ms: zero(),
            ms_per_km: least_ms_per_km(rules),
            weighted_rmse_ms: zero(),
        }
    } else {
        let slope = fitted_slope(rules, sums);
        let overhead = rules.div(excess_sum(rules, samples, slope), sums.w).greater(zero());
        LatencyFit {
            overhead_ms: overhead,
            ms_per_km: slope,
            weighted_rmse_ms: rules.sqrt(
                rules.div(error_sum(rules, samples, overhead, slope), sums.w),
            ),
        }
    }
}

/// The line through the points that the fastest constraints give.
pub open spec fn latency_fit(rules: Rules, place: Place, ranked: Seq<Constraint>) -> LatencyFit {
    line_through(rules, fit_samples(rules, place, ranked))
}

/// The weight of a constraint by its quality and time.
pub fn weight_by_time<A: Fn(Calc) -> Double>(
    constraint: &Constraint,
    arith: &Arith<A>,
) -> (weight: Double)
    requires
        arith.complete(),
    ensures
        forall|rules: Rules| #[trigger]
            arith.follows(rules) ==> weight == time_weight(rules, *constraint),
{
    arith.div(
        constraint.quality_weight,
        arith.square(constraint.min_rtt_ms.max(arith.count(5))),
    )
}

fn collect_samples<A: Fn(Calc) -> Double>(
    place: Place,
    ranked: &Vec<Constraint>,
    arith: &Arith<A>,
) -> (samples: Vec<FitSample>)
    requires
        arith.complete(),
    ensures
        forall|rules: Rules| #[trigger]
            arith.follows(rules) ==> samples@ == fit_samples(rules, place, ranked@),
{
    let n: usize = if ranked.len() < 6 {
        ranked.len()
    } else {
        6
    };
    let mut samples: Vec<FitSample> = Vec::new();
    let mut i: usize = 0;
    while i < n
        invariant
            n == fit_count(ranked@.len()),
            i <= n,
            samples@.len() == i,
            arith.complete(),
            forall|rules: Rules, j: int|
                #![trigger arith.follows(rules), samples@[j]]
                arith.follows(rules) && 0 <= j < i ==> samples@[j] == fit_sample(
                    rules,
                    place,
                    ranked@[j],
                ),
        decreases n - i,
    {
        let weight = weight_by_time(&ranked[i], arith);
        let distance_km = anchor_distance_km(place, &ranked[i].anchor, arith);
        samples.push(FitSample { weight, distance_km, rtt_ms: ranked[i].min_rtt_ms });
        i = i + 1;
    }
    assert forall|rules: Rules| #[trigger] arith.follows(rules) implies samples@ == fit_samples(
        rules,
        place,
        ranked@,
    ) by {
        assert(samples@ =~= fit_samples(rules, place, ranked@));
    }
    samples
}

fn sum_samples<A: Fn(Calc) -> Double>(samples: &Vec<FitSample>, arith: &Arith<A>) -> (sums: FitSums)
    requires
        arith.complete(),
    ensures
        forall|rules: Rules| #[trigger] arith.follows(rules) ==> sums == fit_sums(rules, samples@),
{
    let nothing = Double { bits: 0 };
    let mut sums = FitSums { w: nothing, x: nothing, y: nothing, xx: nothing, xy: nothing };
    let mut i: usize = 0;
    assert(samples@.take(0) =~= Seq::<FitSample>::empty());
    while i < samples.len()
        invariant
            i <= samples@.len(),
            arith.complete(),
            forall|rules: Rules| #[trigger]
                arith.follows(rules) ==> sums == fit_sums(rules, samples@.take(i as int)),
        decreases samples@.len() - i,
    {
        assert(samples@.take(i + 1).drop_last() =~= samples@.take(i as int));
        assert(samples@.take(i + 1).last() == samples@[i as int]);
        let next = samples[i];
        let reach = arith.mul(next.weight, next.distance_km);
        sums = FitSums {
            w: arith.add(sums.w, next.weight),
            x: arith.add(sums.x, reach),
            y: arith.add(sums.y, arith.mul(next.weight, next.rtt_ms)),
            xx: arith.add(sums.xx, arith.mul(reach, next.distance_km)),
            xy: arith.add(sums.xy, arith.mul(reach, next.rtt_ms)),
        };
        i = i + 1;
    }
    assert(samples@.take(samples@.len() as int) =~= samples@);
    sums
}

fn slope_of<A: Fn(Calc) -> Double>(sums: FitSums, arith: &Arith<A>) -> (slope: Double)
    requires
        arith.complete(),
    ensures
        forall|rules: Rules| #[trigger] arith.follows(rules) ==> slope == fitted_slope(rules, sums),
{
    let least = arith.ratio(1, 102);
    let spread = arith.sub(arith.mul(sums.w, sums.xx), arith.mul(sums.x, sums.x));
    let slope = if (Double { bits: EPSILON }).is_below(&spread.abs()) {
        arith.div(arith.sub(arith.mul(sums.w, sums.xy), arith.mul(sums.x, sums.y)), spread)
    } else {
        least
    };
    slope.max(least)
}

fn sum_excess<A: Fn(Calc) -> Double>(
    samples: &Vec<FitSample>,
    slope: Double,
    arith: &Arith<A>,
) -> (sum: Double)
    requires
        arith.complete(),
    ensures
        forall|rules: Rules| #[trigger]
            arith.follows(rules) ==> sum == excess_sum(rules, samples@, slope),
{
    let mut sum = Double { bits: 0 };
    let mut i: usize = 0;
    assert(samples@.take(0) =~= Seq::<FitSample>::empty());
    while i < samples.len()
        invariant
            i <= samples@.len(),
            arith.complete(),
            forall|rules: Rules| #[trigger]
                arith.follows(rules) ==> sum == excess_sum(rules, samples@.take(i as int), slope),
        decreases samples@.len() - i,
    {
        assert(samples@.take(i + 1).drop_last() =~= samples@.take(i as int));
        assert(samples@.take(i + 1).last() == samples@[i as int]);
        let next = samples[i];
        let excess = arith.sub(next.rtt_ms, arith.mul(slope, next.distance_km));
        sum = arith.add(sum, arith.mul(next.weight, excess));
        i = i + 1;
    }
    assert(samples@.take(samples@.len() as int) =~= samples@);
    sum
}

fn sum_errors<A: Fn(Calc) -> Double>(
    samples: &Vec<FitSample>,
    overhead: Double,
    slope: Double,
    arith: &Arith<A>,
) -> (sum: Double)
    requires
        arith.complete(),
    ensures
        forall|rules: Rules| #[trigger]
            arith.follows(rules) ==> sum == error_sum(rules, samples@, overhead, slope),
{
    let mut sum = Double { bits: 0 };
    let mut i: usize = 0;
    assert(samples@.take(0) =~= Seq::<FitSample>::empty());
    while i < samples.len()
        invariant
            i <= samples@.len(),
            arith.complete(),
            forall|rules: Rules| #[trigger]
                arith.follows(rules) ==> sum == error_sum(
                    rules,
                    samples@.take(i as int),
                    overhead,
                    slope,
                ),
        decreases samples@.len() - i,
    {
        assert(samples@.take(i + 1).drop_last() =~= samples@.take(i as int));
        assert(samples@.take(i + 1).last() == samples@[i as int]);
        let next = samples[i];
        let predicted = arith.add(overhead, arith.mul(slope, next.distance_km));
        let error = arith.square(arith.sub(predicted, next.rtt_ms));
        sum = arith.add(sum, arith.mul(next.weight, error));
        i = i + 1;
    }
    assert(samples@.take(samples@.len() as int) =~= samples@);
    sum
}

/// Fits a line to the times of the six fastest constraints over their distances from a
/// place, in whatever order the constraints are given.
pub fn fit_latency_model<A: Fn(Calc) -> Double>(
    place: Place,
    constraints: &Vec<Constraint>,
    arith: &Arith<A>,
) -> (fit: LatencyFit)
    requires
        arith.complete(),
    ensures
        forall|rules: Rules| #[trigger]
            arith.follows(rules) ==> fit == latency_fit(rules, place, by_time(constraints@)),
{
    let ranked = rank_constraints(constraints);
    let samples = collect_samples(place, &ranked, arith);
    let sums = sum_samples(&samples, arith);
    let nothing = Double { bits: 0 };
    if sums.w.is_equal(&nothing) {
        return LatencyFit {
            overhead_ms: nothing,
            ms_per_km: arith.ratio(1, 102),
            weighted_rmse_ms: nothing,
        };
    }
    let slope = slope_of(sums, arith);
    let overhead = arith.div(sum_excess(&samples, slope, arith), sums.w).max(nothing);
    let error = arith.div(sum_errors(&samples, overhead, slope, arith), sums.w);
    LatencyFit { overhead_ms: overhead, ms_per_km: slope, weighted_rmse_ms: arith.sqrt(error) }
}

/// The fitted line never starts below zero nor rises less than light allows,
/// as long as that least rise is a number.
pub proof fn lemma_fit_is_physical(rules: Rules, samples: Seq<FitSample>)
    requires
        !least_ms_per_km(rules).nan(),
    ensures
        zero().at_most(line_through(rules, samples).overhead_ms),
        least_ms_per_km(rules).at_most(line_through(rules, samples).ms_per_km),
{
}

} // verus!
