//! What the order of the times says of a place: the terms of the score that compare
//! the fastest constraints with each other. Each of them puts the constraints in order
//! of time first.

use crate::calc::{Arith, Calc, Rules};
use crate::double::{nothing, zero, Double};
use crate::fit::{by_time, rank_constraints};
use crate::geometry::{anchor_distance_km, distance_km, distance_to, Place};
use crate::solver::Constraint;
use vstd::prelude::*;

verus! {

/// How many times slower the second constraint is than the first.
pub open spec fn dominance(rules: Rules, ranked: Seq<Constraint>) -> Double {
    rules.div(ranked[1].min_rtt_ms, ranked[0].min_rtt_ms.greater(rules.ratio(1, 10)))
}

/// How many times slower the second constraint is than the first.
pub(crate) fn dominance_ratio<A: Fn(Calc) -> Double>(
    ranked: &Vec<Constraint>,
    arith: &Arith<A>,
) -> (r: Double)
    requires
        arith.complete(),
        ranked@.len() >= 2,
    ensures
        forall|rules: Rules| #[trigger] arith.follows(rules) ==> r == dominance(rules, ranked@),
{
    arith.div(ranked[1].min_rtt_ms, ranked[0].min_rtt_ms.max(arith.ratio(1, 10)))
}

/// How far a place is from an anchor that is much faster than all others.
pub open spec fn dominant_term(
    rules: Rules,
    place: Place,
    fastest: Constraint,
    ratio: Double,
    shared_rtt_floor_ms: Double,
) -> Double {
    let beyond_ms = rules.sub(fastest.min_rtt_ms, shared_rtt_floor_ms).greater(zero());
    let soft_radius_km = rules.mul(
        rules.mul(beyond_ms, rules.count(102)),
        rules.ratio(5, 100),
    ).clamped(rules.count(5), fastest.upper_bound_km.greater(rules.count(5)));
    let distance_km = distance_to(rules, place, fastest.anchor@);
    let overflow_km = rules.sub(distance_km, soft_radius_km).greater(zero());
    let near = fastest.min_rtt_ms.at_most(rules.count(2));
    let strength = rules.add(
        rules.div(rules.sub(ratio, rules.count(3)), rules.count(3)).clamped(
            zero(),
            rules.count(2),
        ),
        if near {
            rules.count(1)
        } else {
            zero()
        },
    );
    let center_bias = if near && rules.count(5).at_most(ratio) {
        rules.mul(
            rules.mul(rules.count(8), strength),
            rules.square(rules.div(distance_km, soft_radius_km.greater(rules.count(3)))),
        )
    } else {
        zero()
    };
    rules.add(
        rules.mul(
            rules.mul(rules.count(60), strength),
            rules.square(rules.div(overflow_km, soft_radius_km.greater(rules.count(10)))),
        ),
        center_bias,
    )
}

fn dominant_cost<A: Fn(Calc) -> Double>(
    place: Place,
    fastest: &Constraint,
    ratio: Double,
    shared_rtt_floor_ms: Double,
    arith: &Arith<A>,
) -> (term: Double)
    requires
        arith.complete(),
    ensures
        forall|rules: Rules| #[trigger]
            arith.follows(rules) ==> term == dominant_term(
                rules,
                place,
                *fastest,
                ratio,
                shared_rtt_floor_ms,
            ),
{
    let beyond_ms = arith.sub(fastest.min_rtt_ms, shared_rtt_floor_ms).max(nothing());
    let soft_radius_km = arith.mul(
        arith.mul(beyond_ms, arith.count(102)),
        arith.ratio(5, 100),
    ).clamp(arith.count(5), fastest.upper_bound_km.max(arith.count(5)));
    let distance_km = anchor_distance_km(place, &fastest.anchor, arith);
    let overflow_km = arith.sub(distance_km, soft_radius_km).max(nothing());
    let near = fastest.min_rtt_ms.is_at_most(&arith.count(2));
    let strength = arith.add(
        arith.div(arith.sub(ratio, arith.count(3)), arith.count(3)).clamp(
            nothing(),
            arith.count(2),
        ),
        if near {
            arith.count(1)
        } else {
            nothing()
        },
    );
    let center_bias = if near && arith.count(5).is_at_most(&ratio) {
        arith.mul(
            arith.mul(arith.count(8), strength),
            arith.square(arith.div(distance_km, soft_radius_km.max(arith.count(3)))),
        )
    } else {
        nothing()
    };
    arith.add(
        arith.mul(
            arith.mul(arith.count(60), strength),
            arith.square(arith.div(overflow_km, soft_radius_km.max(arith.count(10)))),
        ),
        center_bias,
    )
}

/// How far a place is from the fastest anchor, where that anchor is local and much
/// faster than the next one.
pub open spec fn dominant_score(
    rules: Rules,
    place: Place,
    ranked: Seq<Constraint>,
    shared_rtt_floor_ms: Double,
) -> Double {
    if shared_rtt_floor_ms.at_most(zero()) || ranked.len() < 2 {
        zero()
    } else {
        let ratio = dominance(rules, ranked);
        if rules.count(10).below(ranked[0].min_rtt_ms) || ratio.below(rules.count(3)) {
            zero()
        } else {
            dominant_term(rules, place, ranked[0], ratio, shared_rtt_floor_ms)
        }
    }
}

/// How far a place is from the fastest anchor, where that anchor is local and much
/// faster than the next one, in whatever order the constraints are given.
pub fn dominant_local_anchor_score<A: Fn(Calc) -> Double>(
    place: Place,
    constraints: &Vec<Constraint>,
    shared_rtt_floor_ms: Double,
    arith: &Arith<A>,
) -> (score: Double)
    requires
        arith.complete(),
    ensures
        forall|rules: Rules| #[trigger]
            arith.follows(rules) ==> score == dominant_score(
                rules,
                place,
                by_time(constraints@),
                shared_rtt_floor_ms,
            ),
{
    let ranked = rank_constraints(constraints);
    if shared_rtt_floor_ms.is_at_most(&nothing()) || ranked.len() < 2 {
        return nothing();
    }
    let ratio = dominance_ratio(&ranked, arith);
    if arith.count(10).is_below(&ranked[0].min_rtt_ms) || ratio.is_below(&arith.count(3)) {
        return nothing();
    }
    dominant_cost(place, &ranked[0], ratio, shared_rtt_floor_ms, arith)
}

/// How much too close a slower constraint is to the fastest one.
pub open spec fn spread_term(
    rules: Rules,
    place: Place,
    fastest: Constraint,
    fastest_distance_km: Double,
    constraint: Constraint,
) -> Double {
    let delta_rtt_ms = rules.sub(constraint.min_rtt_ms, fastest.min_rtt_ms);
    let minimum_spread_km = rules.sub(
        rules.mul(rules.mul(delta_rtt_ms, rules.count(102)), rules.ratio(30, 100)),
        rules.count(20),
    ).greater(zero());
    if delta_rtt_ms.below(rules.count(2)) || minimum_spread_km.at_most(zero()) {
        zero()
    } else {
        let distance_km = distance_to(rules, place, constraint.anchor@);
        let predicted_spread_km = rules.sub(distance_km, fastest_distance_km).greater(zero());
        let deficit_km = rules.sub(minimum_spread_km, predicted_spread_km).greater(zero());
        let weight = rules.mul(
            rules.div(delta_rtt_ms, rules.count(10)).clamped(rules.ratio(5, 10), rules.count(2)),
            fastest.quality_weight.lesser(constraint.quality_weight),
        );
        rules.mul(
            rules.mul(rules.count(45), weight),
            rules.square(
                rules.div(deficit_km, minimum_spread_km.greater(rules.count(100))),
            ),
        )
    }
}

fn spread_cost<A: Fn(Calc) -> Double>(
    place: Place,
    fastest: &Constraint,
    fastest_distance_km: Double,
    constraint: &Constraint,
    arith: &Arith<A>,
) -> (term: Double)
    requires
        arith.complete(),
    ensures
        forall|rules: Rules| #[trigger]
            arith.follows(rules) ==> term == spread_term(
                rules,
                place,
                *fastest,
                fastest_distance_km,
                *constraint,
            ),
{
    let delta_rtt_ms = arith.sub(constraint.min_rtt_ms, fastest.min_rtt_ms);
    if delta_rtt_ms.is_below(&arith.count(2)) {
        return nothing();
    }
    let minimum_spread_km = arith.sub(
        arith.mul(arith.mul(delta_rtt_ms, arith.count(102)), arith.ratio(30, 100)),
        arith.count(20),
    ).max(nothing());
    if minimum_spread_km.is_at_most(&nothing()) {
        return nothing();
    }
    let distance_km = anchor_distance_km(place, &constraint.anchor, arith);
    let predicted_spread_km = arith.sub(distance_km, fastest_distance_km).max(nothing());
    let deficit_km = arith.sub(minimum_spread_km, predicted_spread_km).max(nothing());
    let weight = arith.mul(
        arith.div(delta_rtt_ms, arith.count(10)).clamp(arith.ratio(5, 10), arith.count(2)),
        fastest.quality_weight.min(constraint.quality_weight),
    );
    arith.mul(
        arith.mul(arith.count(45), weight),
        arith.square(arith.div(deficit_km, minimum_spread_km.max(arith.count(100)))),
    )
}

/// How much too close the slower constraints are to the fastest one. Those that
/// are much slower do not count.
pub open spec fn spread_sum(
    rules: Rules,
    place: Place,
    fastest: Constraint,
    slower: Seq<Constraint>,
) -> Double
    decreases slower.len(),
{
    if slower.len() == 0 {
        zero()
    } else {
        let before = spread_sum(rules, place, fastest, slower.drop_last());
        let next = slower.last();
        if next.min_rtt_ms.at_most(rules.add(fastest.min_rtt_ms, rules.count(40))) {
            rules.add(
                before,
                spread_term(
                    rules,
                    place,
                    fastest,
                    distance_to(rules, place, fastest.anchor@),
                    next,
                ),
            )
        } else {
            before
        }
    }
}

/// The four constraints behind the fastest one, as far as there are so many.
pub open spec fn next_four(ranked: Seq<Constraint>) -> Seq<Constraint> {
    if ranked.len() > 5 {
        ranked.subrange(1, 5)
    } else {
        ranked.skip(1)
    }
}

/// How much too close the next constraints are to the fastest one, where that one
/// is local.
pub open spec fn spread_score(rules: Rules, place: Place, ranked: Seq<Constraint>) -> Double {
    if ranked.len() < 2 || rules.count(10).below(ranked[0].min_rtt_ms) {
        zero()
    } else {
        spread_sum(rules, place, ranked[0], next_four(ranked))
    }
}

/// How much too close the next constraints are to the fastest one, where that one
/// is local, in whatever order the constraints are given.
pub fn relative_spread_score<A: Fn(Calc) -> Double>(
    place: Place,
    constraints: &Vec<Constraint>,
    arith: &Arith<A>,
) -> (score: Double)
    requires
        arith.complete(),
    ensures
        forall|rules: Rules| #[trigger]
            arith.follows(rules) ==> score == spread_score(
                rules,
                place,
                by_time(constraints@),
            ),
{
    let ranked = rank_constraints(constraints);
    if ranked.len() < 2 {
        return nothing();
    }
    let fastest = ranked[0];
    if arith.count(10).is_below(&fastest.min_rtt_ms) {
        return nothing();
    }
    let ghost slower = next_four(ranked@);
    let end: usize = if ranked.len() > 5 {
        5
    } else {
        ranked.len()
    };
    let cutoff_ms = arith.add(fastest.min_rtt_ms, arith.count(40));
    let fastest_distance_km = anchor_distance_km(place, &fastest.anchor, arith);
    let mut score = nothing();
    let mut i: usize = 1;
    assert(slower.take(0) =~= Seq::<Constraint>::empty());
    while i < end
        invariant
            fastest == ranked@[0],
            slower == next_four(ranked@),
            end == slower.len() + 1,
            end <= ranked@.len(),
            1 <= i <= end,
            arith.complete(),
            forall|rules: Rules| #[trigger]
                arith.follows(rules) ==> {
                    &&& cutoff_ms == rules.add(fastest.min_rtt_ms, rules.count(40))
                    &&& fastest_distance_km == distance_to(rules, place, fastest.anchor@)
                    &&& score == spread_sum(rules, place, fastest, slower.take(i - 1))
                },
        decreases end - i,
    {
        assert(slower.take(i as int).drop_last() =~= slower.take(i - 1));
        assert(slower.take(i as int).last() == ranked@[i as int]);
        if ranked[i].min_rtt_ms.is_at_most(&cutoff_ms) {
            let term = spread_cost(place, &fastest, fastest_distance_km, &ranked[i], arith);
            score = arith.add(score, term);
        }
        i = i + 1;
    }
    assert(slower.take(end - 1) =~= slower);
    score
}

/// The constraints whose time is not above a limit.
pub open spec fn within(constraints: Seq<Constraint>, cutoff_ms: Double) -> Seq<Constraint>
    decreases constraints.len(),
{
    if constraints.len() == 0 {
        constraints
    } else {
        let before = within(constraints.drop_last(), cutoff_ms);
        if constraints.last().min_rtt_ms.at_most(cutoff_ms) {
            before.push(constraints.last())
        } else {
            before
        }
    }
}

/// The first items of a list, at most so many.
pub open spec fn first(constraints: Seq<Constraint>, most: int) -> Seq<Constraint> {
    if constraints.len() > most {
        constraints.take(most)
    } else {
        constraints
    }
}

/// The first constraints, without those whose time is above a limit.
pub(crate) fn keep_within(
    constraints: &Vec<Constraint>,
    end: usize,
    cutoff_ms: Double,
) -> (kept: Vec<Constraint>)
    requires
        end <= constraints@.len(),
    ensures
        kept@ == within(constraints@.take(end as int), cutoff_ms),
{
    let ghost all = constraints@.take(end as int);
    let mut kept: Vec<Constraint> = Vec::new();
    let mut i: usize = 0;
    assert(all.take(0) =~= kept@);
    while i < end
        invariant
            all == constraints@.take(end as int),
            end <= constraints@.len(),
            i <= end,
            kept@ == within(all.take(i as int), cutoff_ms),
        decreases end - i,
    {
        assert(all.take(i + 1).drop_last() =~= all.take(i as int));
        assert(all.take(i + 1).last() == constraints@[i as int]);
        if constraints[i].min_rtt_ms.is_at_most(&cutoff_ms) {
            kept.push(constraints[i]);
        }
        i = i + 1;
    }
    assert(all.take(end as int) =~= all);
    kept
}

/// The penalty so far, and what is added where a slower anchor is nearer than a
/// faster one by more than their times and jitters allow.
pub open spec fn with_inversion(
    rules: Rules,
    penalty: Double,
    observed_ms: Double,
    jitter_ms: Double,
    quality: Double,
    ahead_km: Double,
) -> Double {
    let allowed_km = rules.sub(
        rules.add(
            rules.count(100),
            rules.mul(rules.count(20), jitter_ms.lesser(rules.count(6))),
        ),
        rules.mul(rules.count(8), observed_ms),
    ).clamped(rules.count(40), rules.count(220));
    let inversion_km = rules.sub(ahead_km, allowed_km).greater(zero());
    if zero().below(inversion_km) {
        let weight = rules.mul(
            rules.mul(rules.count(220), quality),
            rules.div(observed_ms, rules.count(6)).clamped(rules.ratio(5, 10), rules.count(3)),
        );
        rules.add(
            penalty,
            rules.mul(
                weight,
                rules.square(rules.div(inversion_km, allowed_km.greater(rules.count(120)))),
            ),
        )
    } else {
        penalty
    }
}

/// The penalty so far, and what is added where a slower anchor is not as much
/// farther away than a faster one as their times say.
pub open spec fn with_pair(
    rules: Rules,
    penalty: Double,
    faster: Constraint,
    faster_km: Double,
    slower: Constraint,
    slower_km: Double,
) -> Double {
    let observed_ms = rules.sub(slower.min_rtt_ms, faster.min_rtt_ms);
    let jitter_ms = rules.add(faster.jitter_ms, slower.jitter_ms);
    let effective_ms = rules.sub(
        rules.sub(observed_ms, rules.mul(rules.ratio(5, 10), jitter_ms.lesser(rules.count(8)))),
        rules.count(1),
    ).greater(zero());
    if observed_ms.below(rules.ratio(15, 10)) || effective_ms.at_most(zero()) {
        penalty
    } else {
        let quality = faster.quality_weight.lesser(slower.quality_weight);
        let required_km = rules.add(
            rules.count(20),
            rules.mul(rules.count(4), effective_ms),
        ).lesser(rules.count(180));
        let deficit_km = rules.sub(required_km, rules.sub(slower_km, faster_km)).greater(zero());
        let weight = rules.mul(
            rules.mul(rules.count(65), quality),
            rules.div(effective_ms, rules.count(6)).clamped(rules.ratio(4, 10), rules.count(2)),
        );
        let ordered = rules.add(
            penalty,
            rules.mul(
                weight,
                rules.square(rules.div(deficit_km, required_km.greater(rules.count(120)))),
            ),
        );
        with_inversion(
            rules,
            ordered,
            observed_ms,
            jitter_ms,
            quality,
            rules.sub(faster_km, slower_km),
        )
    }
}

fn add_inversion<A: Fn(Calc) -> Double>(
    penalty: Double,
    observed_ms: Double,
    jitter_ms: Double,
    quality: Double,
    ahead_km: Double,
    arith: &Arith<A>,
) -> (r: Double)
    requires
        arith.complete(),
    ensures
        forall|rules: Rules| #[trigger]
            arith.follows(rules) ==> r == with_inversion(
                rules,
                penalty,
                observed_ms,
                jitter_ms,
                quality,
                ahead_km,
            ),
{
    let allowed_km = arith.sub(
        arith.add(
            arith.count(100),
            arith.mul(arith.count(20), jitter_ms.min(arith.count(6))),
        ),
        arith.mul(arith.count(8), observed_ms),
    ).clamp(arith.count(40), arith.count(220));
    let inversion_km = arith.sub(ahead_km, allowed_km).max(nothing());
    if nothing().is_below(&inversion_km) {
        let weight = arith.mul(
            arith.mul(arith.count(220), quality),
            arith.div(observed_ms, arith.count(6)).clamp(arith.ratio(5, 10), arith.count(3)),
        );
        arith.add(
            penalty,
            arith.mul(
                weight,
                arith.square(arith.div(inversion_km, allowed_km.max(arith.count(120)))),
            ),
        )
    } else {
        penalty
    }
}

fn add_pair<A: Fn(Calc) -> Double>(
    penalty: Double,
    faster: &Constraint,
    faster_km: Double,
    slower: &Constraint,
    slower_km: Double,
    arith: &Arith<A>,
) -> (r: Double)
    requires
        arith.complete(),
    ensures
        forall|rules: Rules| #[trigger]
            arith.follows(rules) ==> r == with_pair(
                rules,
                penalty,
                *faster,
                faster_km,
                *slower,
                slower_km,
            ),
{
    let observed_ms = arith.sub(slower.min_rtt_ms, faster.min_rtt_ms);
    if observed_ms.is_below(&arith.ratio(15, 10)) {
        return penalty;
    }
    let jitter_ms = arith.add(faster.jitter_ms, slower.jitter_ms);
    let effective_ms = arith.sub(
        arith.sub(observed_ms, arith.mul(arith.ratio(5, 10), jitter_ms.min(arith.count(8)))),
        arith.count(1),
    ).max(nothing());
    if effective_ms.is_at_most(&nothing()) {
        return penalty;
    }
    let quality = faster.quality_weight.min(slower.quality_weight);
    let required_km = arith.add(
        arith.count(20),
        arith.mul(arith.count(4), effective_ms),
    ).min(arith.count(180));
    let deficit_km = arith.sub(required_km, arith.sub(slower_km, faster_km)).max(nothing());
    let weight = arith.mul(
        arith.mul(arith.count(65), quality),
        arith.div(effective_ms, arith.count(6)).clamp(arith.ratio(4, 10), arith.count(2)),
    );
    let ordered = arith.add(
        penalty,
        arith.mul(
            weight,
            arith.square(arith.div(deficit_km, required_km.max(arith.count(120)))),
        ),
    );
    let ahead_km = arith.sub(faster_km, slower_km);
    add_inversion(ordered, observed_ms, jitter_ms, quality, ahead_km, arith)
}

/// The penalty so far, with the pairs of one constraint and slower ones.
pub open spec fn with_row(
    rules: Rules,
    place: Place,
    penalty: Double,
    faster: Constraint,
    slower: Seq<Constraint>,
) -> Double
    decreases slower.len(),
{
    if slower.len() == 0 {
        penalty
    } else {
        with_pair(
            rules,
            with_row(rules, place, penalty, faster, slower.drop_last()),
            faster,
            distance_to(rules, place, faster.anchor@),
            slower.last(),
            distance_to(rules, place, slower.last().anchor@),
        )
    }
}

/// The penalty for all pairs whose faster constraint is among the first.
pub open spec fn with_rows(rules: Rules, place: Place, local: Seq<Constraint>, rows: nat) -> Double
    decreases rows,
{
    if rows == 0 {
        zero()
    } else {
        with_row(
            rules,
            place,
            with_rows(rules, place, local, (rows - 1) as nat),
            local[rows - 1],
            local.skip(rows as int),
        )
    }
}

/// The constraints that are compared pair by pair: at most twelve, and none much
/// slower than the first.
pub open spec fn local_constraints(rules: Rules, ranked: Seq<Constraint>) -> Seq<Constraint> {
    first(within(ranked, rules.add(ranked[0].min_rtt_ms, rules.count(45))), 12)
}

/// The penalty for all pairs of local constraints.
pub open spec fn order_score(rules: Rules, place: Place, ranked: Seq<Constraint>) -> Double {
    if ranked.len() < 2 {
        zero()
    } else {
        let local = local_constraints(rules, ranked);
        with_rows(rules, place, local, local.len())
    }
}

fn distances_to<A: Fn(Calc) -> Double>(
    place: Place,
    constraints: &Vec<Constraint>,
    arith: &Arith<A>,
) -> (distances: Vec<Double>)
    requires
        arith.complete(),
    ensures
        distances@.len() == constraints@.len(),
        forall|rules: Rules, j: int|
            #![trigger arith.follows(rules), distances@[j]]
            arith.follows(rules) && 0 <= j < constraints@.len() ==> distances@[j] == distance_to(
                rules,
                place,
                constraints@[j].anchor@,
            ),
{
    let mut distances: Vec<Double> = Vec::new();
    let mut i: usize = 0;
    while i < constraints.len()
        invariant
            i <= constraints@.len(),
            distances@.len() == i,
            arith.complete(),
            forall|rules: Rules, j: int|
                #![trigger arith.follows(rules), distances@[j]]
                arith.follows(rules) && 0 <= j < i ==> distances@[j] == distance_to(
                    rules,
                    place,
                    constraints@[j].anchor@,
                ),
        decreases constraints@.len() - i,
    {
        distances.push(anchor_distance_km(place, &constraints[i].anchor, arith));
        i = i + 1;
    }
    distances
}

fn add_row<A: Fn(Calc) -> Double>(
    place: Place,
    start: Double,
    local: &Vec<Constraint>,
    distances: &Vec<Double>,
    at: usize,
    arith: &Arith<A>,
) -> (penalty: Double)
    requires
        arith.complete(),
        at < local@.len(),
        distances@.len() == local@.len(),
        forall|rules: Rules, j: int|
            #![trigger arith.follows(rules), distances@[j]]
            arith.follows(rules) && 0 <= j < local@.len() ==> distances@[j] == distance_to(
                rules,
                place,
                local@[j].anchor@,
            ),
    ensures
        forall|rules: Rules| #[trigger]
            arith.follows(rules) ==> penalty == with_row(
                rules,
                place,
                start,
                local@[at as int],
                local@.skip(at + 1),
            ),
{
    let ghost slower = local@.skip(at + 1);
    let n: usize = local.len();
    let mut penalty = start;
    let mut i: usize = at + 1;
    assert(slower.take(0) =~= Seq::<Constraint>::empty());
    while i < n
        invariant
            arith.complete(),
            n == local@.len(),
            at < i <= n,
            slower == local@.skip(at + 1),
            distances@.len() == local@.len(),
            forall|rules: Rules, j: int|
                #![trigger arith.follows(rules), distances@[j]]
                arith.follows(rules) && 0 <= j < local@.len() ==> distances@[j] == distance_to(
                    rules,
                    place,
                    local@[j].anchor@,
                ),
            forall|rules: Rules| #[trigger]
                arith.follows(rules) ==> penalty == with_row(
                    rules,
                    place,
                    start,
                    local@[at as int],
                    slower.take(i - at - 1),
                ),
        decreases n - i,
    {
        assert(slower.take(i - at).drop_last() =~= slower.take(i - at - 1));
        assert(slower.take(i - at).last() == local@[i as int]);
        penalty = add_pair(penalty, &local[at], distances[at], &local[i], distances[i], arith);
        i = i + 1;
    }
    assert(slower.take(n - at - 1) =~= slower);
    penalty
}

/// The penalty for all pairs of local constraints, in whatever order the constraints
/// are given.
pub fn pairwise_order_score<A: Fn(Calc) -> Double>(
    place: Place,
    constraints: &Vec<Constraint>,
    arith: &Arith<A>,
) -> (score: Double)
    requires
        arith.complete(),
    ensures
        forall|rules: Rules| #[trigger]
            arith.follows(rules) ==> score == order_score(
                rules,
                place,
                by_time(constraints@),
            ),
{
    let ranked = rank_constraints(constraints);
    if ranked.len() < 2 {
        return nothing();
    }
    let cutoff_ms = arith.add(ranked[0].min_rtt_ms, arith.count(45));
    let mut local = keep_within(&ranked, ranked.len(), cutoff_ms);
    assert(ranked@.take(ranked@.len() as int) =~= ranked@);
    if local.len() > 12 {
        local.truncate(12);
    }
    assert(local@ =~= first(within(ranked@, cutoff_ms), 12));
    let distances = distances_to(place, &local, arith);
    let mut score = nothing();
    let mut i: usize = 0;
    while i < local.len()
        invariant
            arith.complete(),
            i <= local@.len(),
            distances@.len() == local@.len(),
            forall|rules: Rules, j: int|
                #![trigger arith.follows(rules), distances@[j]]
                arith.follows(rules) && 0 <= j < local@.len() ==> distances@[j] == distance_to(
                    rules,
                    place,
                    local@[j].anchor@,
                ),
            forall|rules: Rules| #[trigger]
                arith.follows(rules) ==> score == with_rows(rules, place, local@, i as nat),
        decreases local@.len() - i,
    {
        score = add_row(place, score, &local, &distances, i, arith);
        i = i + 1;
    }
    score
}

} // verus!
