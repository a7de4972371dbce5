//! How badly a place fits the constraints and the hints: the terms of the score.

use crate::anchors::{Anchor, AnchorView};
use crate::calc::{Arith, Calc, Rules};
use crate::cluster::{cluster_score, regional_cluster_score};
use crate::double::{nothing, zero, Double, INFINITE};
use crate::fit::{by_time, least_ms_per_km, LatencyFit};
use crate::geometry::{anchor_distance_km, anchor_place, distance_to, place_of, Place};
use crate::hints::{hint_views, HintView, LocationHint};
use crate::priors::{
    dominant_local_anchor_score, dominant_score, order_score, pairwise_order_score,
    relative_spread_score, spread_score,
};
use crate::solver::Constraint;
use crate::text::same;
use vstd::prelude::*;
use vstd::string::*;

verus! {

/// What a place is too far away for a constraint.
pub open spec fn bound_term(rules: Rules, place: Place, constraint: Constraint) -> Double {
    let distance_km = distance_to(rules, place, constraint.anchor@);
    let overflow_km = rules.sub(distance_km, constraint.upper_bound_km).greater(zero());
    let scale = constraint.upper_bound_km.greater(rules.count(100));
    rules.mul(
        rules.mul(rules.count(1000), constraint.quality_weight),
        rules.square(rules.div(overflow_km, scale)),
    )
}

fn bound_cost<A: Fn(Calc) -> Double>(
    place: Place,
    constraint: &Constraint,
    arith: &Arith<A>,
) -> (term: Double)
    requires
        arith.complete(),
    ensures
        forall|rules: Rules| #[trigger]
            arith.follows(rules) ==> term == bound_term(rules, place, *constraint),
{
    let distance_km = anchor_distance_km(place, &constraint.anchor, arith);
    let overflow_km = arith.sub(distance_km, constraint.upper_bound_km).max(nothing());
    let scale = constraint.upper_bound_km.max(arith.count(100));
    arith.mul(
        arith.mul(arith.count(1000), constraint.quality_weight),
        arith.square(arith.div(overflow_km, scale)),
    )
}

/// What a place is too far away for the constraints.
pub open spec fn bound_score(rules: Rules, place: Place, constraints: Seq<Constraint>) -> Double
    decreases constraints.len(),
{
    if constraints.len() == 0 {
        zero()
    } else {
        rules.add(
            bound_score(rules, place, constraints.drop_last()),
            bound_term(rules, place, constraints.last()),
        )
    }
}

fn upper_bound_score<A: Fn(Calc) -> Double>(
    place: Place,
    constraints: &Vec<Constraint>,
    arith: &Arith<A>,
) -> (score: Double)
    requires
        arith.complete(),
    ensures
        forall|rules: Rules| #[trigger]
            arith.follows(rules) ==> score == bound_score(rules, place, constraints@),
{
    let mut score = nothing();
    let mut i: usize = 0;
    assert(constraints@.take(0) =~= Seq::<Constraint>::empty());
    while i < constraints.len()
        invariant
            i <= constraints@.len(),
            arith.complete(),
            forall|rules: Rules| #[trigger]
                arith.follows(rules) ==> score == bound_score(
                    rules,
                    place,
                    constraints@.take(i as int),
                ),
        decreases constraints@.len() - i,
    {
        assert(constraints@.take(i + 1).drop_last() =~= constraints@.take(i as int));
        assert(constraints@.take(i + 1).last() == constraints@[i as int]);
        score = arith.add(score, bound_cost(place, &constraints[i], arith));
        i = i + 1;
    }
    assert(constraints@.take(constraints@.len() as int) =~= constraints@);
    score
}

/// How far a place is from the anchor of a hint, if no route supports the hint.
pub open spec fn hint_term(rules: Rules, place: Place, hint: HintView) -> Double {
    if hint.supporting_anchors.len() > 0 {
        zero()
    } else {
        let distance_km = distance_to(rules, place, hint.anchor);
        let soft_radius_km = rules.count(450);
        let local_bias = rules.div(rules.mul(hint.weight, distance_km), rules.count(400));
        let overflow_km = rules.sub(distance_km, soft_radius_km).greater(zero());
        rules.add(
            local_bias,
            rules.mul(
                rules.mul(rules.count(25), hint.weight),
                rules.square(
                    rules.div(overflow_km, soft_radius_km.greater(rules.count(150))),
                ),
            ),
        )
    }
}

fn hint_cost<A: Fn(Calc) -> Double>(
    place: Place,
    hint: &LocationHint,
    arith: &Arith<A>,
) -> (term: Double)
    requires
        arith.complete(),
    ensures
        forall|rules: Rules| #[trigger]
            arith.follows(rules) ==> term == hint_term(rules, place, hint@),
{
    if hint.supporting_anchors.len() > 0 {
        return nothing();
    }
    let distance_km = anchor_distance_km(place, &hint.anchor, arith);
    let soft_radius_km = arith.count(450);
    let local_bias = arith.div(arith.mul(hint.weight, distance_km), arith.count(400));
    let overflow_km = arith.sub(distance_km, soft_radius_km).max(nothing());
    arith.add(
        local_bias,
        arith.mul(
            arith.mul(arith.count(25), hint.weight),
            arith.square(arith.div(overflow_km, soft_radius_km.max(arith.count(150)))),
        ),
    )
}

/// How far a place is from the anchors of the hints that no route supports.
pub open spec fn hint_sum(rules: Rules, place: Place, hints: Seq<HintView>) -> Double
    decreases hints.len(),
{
    if hints.len() == 0 {
        zero()
    } else {
        rules.add(
            hint_sum(rules, place, hints.drop_last()),
            hint_term(rules, place, hints.last()),
        )
    }
}

fn hint_score<A: Fn(Calc) -> Double>(
    place: Place,
    hints: &Vec<LocationHint>,
    arith: &Arith<A>,
) -> (score: Double)
    requires
        arith.complete(),
    ensures
        forall|rules: Rules| #[trigger]
            arith.follows(rules) ==> score == hint_sum(rules, place, hint_views(hints@)),
{
    let ghost all = hint_views(hints@);
    let mut score = nothing();
    let mut i: usize = 0;
    assert(all.take(0) =~= Seq::<HintView>::empty());
    while i < hints.len()
        invariant
            all == hint_views(hints@),
            i <= hints@.len(),
            arith.complete(),
            forall|rules: Rules| #[trigger]
                arith.follows(rules) ==> score == hint_sum(rules, place, all.take(i as int)),
        decreases hints@.len() - i,
    {
        assert(all.take(i + 1).drop_last() =~= all.take(i as int));
        assert(all.take(i + 1).last() == hints@[i as int]@);
        score = arith.add(score, hint_cost(place, &hints[i], arith));
        i = i + 1;
    }
    assert(all.take(hints@.len() as int) =~= all);
    score
}

/// The first constraint on the anchor of this id.
pub open spec fn constraint_on(constraints: Seq<Constraint>, id: Seq<char>) -> Option<Constraint>
    decreases constraints.len(),
{
    if constraints.len() == 0 {
        None
    } else if constraints[0].anchor@.id == id {
        Some(constraints[0])
    } else {
        constraint_on(constraints.skip(1), id)
    }
}

fn find_constraint(constraints: &Vec<Constraint>, id: &str) -> (found: Option<Constraint>)
    ensures
        found == constraint_on(constraints@, id@),
{
    let mut i: usize = 0;
    assert(constraints@.skip(0) =~= constraints@);
    while i < constraints.len()
        invariant
            i <= constraints@.len(),
            constraint_on(constraints@, id@) == constraint_on(constraints@.skip(i as int), id@),
        decreases constraints@.len() - i,
    {
        assert(constraints@.skip(i as int)[0] == constraints@[i as int]);
        if same(constraints[i].anchor.id, id) {
            return Some(constraints[i]);
        }
        assert(constraints@.skip(i as int).skip(1) =~= constraints@.skip(i + 1));
        i = i + 1;
    }
    None
}

/// The constraints on these anchors, as far as there are any.
pub open spec fn constraints_on(
    constraints: Seq<Constraint>,
    anchors: Seq<AnchorView>,
) -> Seq<Constraint>
    decreases anchors.len(),
{
    if anchors.len() == 0 {
        Seq::<Constraint>::empty()
    } else {
        let before = constraints_on(constraints, anchors.drop_last());
        match constraint_on(constraints, anchors.last().id) {
            Some(constraint) => before.push(constraint),
            None => before,
        }
    }
}

fn find_constraints(
    constraints: &Vec<Constraint>,
    anchors: &Vec<Anchor>,
) -> (found: Vec<Constraint>)
    ensures
        found@ == constraints_on(constraints@, crate::anchors::anchor_views(anchors@)),
{
    let ghost all = crate::anchors::anchor_views(anchors@);
    let mut found: Vec<Constraint> = Vec::new();
    let mut i: usize = 0;
    assert(found@ =~= constraints_on(constraints@, all.take(0)));
    while i < anchors.len()
        invariant
            all == crate::anchors::anchor_views(anchors@),
            i <= anchors@.len(),
            found@ == constraints_on(constraints@, all.take(i as int)),
        decreases anchors@.len() - i,
    {
        assert(all.take(i + 1).drop_last() =~= all.take(i as int));
        assert(all.take(i + 1).last() == anchors@[i as int]@);
        match find_constraint(constraints, anchors[i].id) {
            Some(constraint) => {
                found.push(constraint);
            },
            None => {},
        }
        i = i + 1;
    }
    assert(all.take(anchors@.len() as int) =~= all);
    found
}

/// The least time from a place to an anchor by way of a hub.
pub open spec fn corridor_base(
    rules: Rules,
    place: Place,
    hub: AnchorView,
    constraint: Constraint,
) -> Double {
    rules.mul(
        rules.add(
            distance_to(rules, place, hub),
            distance_to(rules, place_of(rules, hub), constraint.anchor@),
        ),
        least_ms_per_km(rules),
    )
}

fn corridor_time<A: Fn(Calc) -> Double>(
    place: Place,
    hub: &Anchor,
    constraint: &Constraint,
    arith: &Arith<A>,
) -> (time: Double)
    requires
        arith.complete(),
    ensures
        forall|rules: Rules| #[trigger]
            arith.follows(rules) ==> time == corridor_base(rules, place, hub@, *constraint),
{
    let to_hub = anchor_distance_km(place, hub, arith);
    let beyond = anchor_distance_km(anchor_place(hub, arith), &constraint.anchor, arith);
    arith.mul(arith.add(to_hub, beyond), arith.ratio(1, 102))
}

/// The least time that the constraints leave beside the way through the hub.
pub open spec fn least_overhead(
    rules: Rules,
    place: Place,
    hub: AnchorView,
    supporting: Seq<Constraint>,
) -> Double
    decreases supporting.len(),
{
    if supporting.len() == 0 {
        Double { bits: INFINITE }
    } else {
        let next = supporting.last();
        least_overhead(rules, place, hub, supporting.drop_last()).lesser(
            rules.sub(next.min_rtt_ms, corridor_base(rules, place, hub, next)),
        )
    }
}

fn shared_overhead<A: Fn(Calc) -> Double>(
    place: Place,
    hub: &Anchor,
    supporting: &Vec<Constraint>,
    arith: &Arith<A>,
) -> (least: Double)
    requires
        arith.complete(),
    ensures
        forall|rules: Rules| #[trigger]
            arith.follows(rules) ==> least == least_overhead(rules, place, hub@, supporting@),
{
    let mut least = Double { bits: INFINITE };
    let mut i: usize = 0;
    assert(supporting@.take(0) =~= Seq::<Constraint>::empty());
    while i < supporting.len()
        invariant
            i <= supporting@.len(),
            arith.complete(),
            forall|rules: Rules| #[trigger]
                arith.follows(rules) ==> least == least_overhead(
                    rules,
                    place,
                    hub@,
                    supporting@.take(i as int),
                ),
        decreases supporting@.len() - i,
    {
        assert(supporting@.take(i + 1).drop_last() =~= supporting@.take(i as int));
        assert(supporting@.take(i + 1).last() == supporting@[i as int]);
        let base = corridor_time(place, hub, &supporting[i], arith);
        least = least.min(arith.sub(supporting[i].min_rtt_ms, base));
        i = i + 1;
    }
    assert(supporting@.take(supporting@.len() as int) =~= supporting@);
    least
}

/// How badly the way through the hub explains the time of a constraint.
pub open spec fn corridor_term(
    rules: Rules,
    place: Place,
    hint: HintView,
    overhead_ms: Double,
    constraint: Constraint,
) -> Double {
    let predicted_ms = rules.add(
        overhead_ms,
        corridor_base(rules, place, hint.anchor, constraint),
    );
    let residual_ms = rules.sub(constraint.min_rtt_ms, predicted_ms);
    let sigma_ms = rules.add(
        rules.count(1),
        constraint.jitter_ms.greater(rules.ratio(25, 100)),
    );
    let underflow_ms = residual_ms.turned().greater(zero());
    let stretch_ms = residual_ms.greater(zero());
    rules.mul(
        rules.mul(hint.weight, constraint.quality_weight),
        rules.add(
            rules.mul(rules.count(40), rules.square(rules.div(underflow_ms, sigma_ms))),
            rules.mul(
                rules.ratio(35, 100),
                rules.square(rules.div(stretch_ms, rules.mul(sigma_ms, rules.ratio(25, 10)))),
            ),
        ),
    )
}

fn corridor_cost<A: Fn(Calc) -> Double>(
    place: Place,
    hint: &LocationHint,
    overhead_ms: Double,
    constraint: &Constraint,
    arith: &Arith<A>,
) -> (term: Double)
    requires
        arith.complete(),
    ensures
        forall|rules: Rules| #[trigger]
            arith.follows(rules) ==> term == corridor_term(
                rules,
                place,
                hint@,
                overhead_ms,
                *constraint,
            ),
{
    let base = corridor_time(place, &hint.anchor, constraint, arith);
    let predicted_ms = arith.add(overhead_ms, base);
    let residual_ms = arith.sub(constraint.min_rtt_ms, predicted_ms);
    let sigma_ms = arith.add(arith.count(1), constraint.jitter_ms.max(arith.ratio(25, 100)));
    let underflow_ms = residual_ms.neg().max(nothing());
    let stretch_ms = residual_ms.max(nothing());
    arith.mul(
        arith.mul(hint.weight, constraint.quality_weight),
        arith.add(
            arith.mul(arith.count(40), arith.square(arith.div(underflow_ms, sigma_ms))),
            arith.mul(
                arith.ratio(35, 100),
                arith.square(arith.div(stretch_ms, arith.mul(sigma_ms, arith.ratio(25, 10)))),
            ),
        ),
    )
}

/// How badly the way through the hub explains the times of the constraints.
pub open spec fn corridor_sum(
    rules: Rules,
    place: Place,
    hint: HintView,
    overhead_ms: Double,
    supporting: Seq<Constraint>,
) -> Double
    decreases supporting.len(),
{
    if supporting.len() == 0 {
        zero()
    } else {
        rules.add(
            corridor_sum(rules, place, hint, overhead_ms, supporting.drop_last()),
            corridor_term(rules, place, hint, overhead_ms, supporting.last()),
        )
    }
}

/// How badly the anchor of a hint, as the hub of the routes that support the hint,
/// explains their times.
pub open spec fn corridor_score(
    rules: Rules,
    place: Place,
    constraints: Seq<Constraint>,
    hint: HintView,
) -> Double {
    let supporting = constraints_on(constraints, hint.supporting_anchors);
    corridor_sum(
        rules,
        place,
        hint,
        least_overhead(rules, place, hint.anchor, supporting).greater(zero()),
        supporting,
    )
}

/// How badly the anchor of a hint, as the hub of the routes that support the hint,
/// explains their times.
pub fn trace_corridor_score_for_hint<A: Fn(Calc) -> Double>(
    place: Place,
    constraints: &Vec<Constraint>,
    hint: &LocationHint,
    arith: &Arith<A>,
) -> (score: Double)
    requires
        arith.complete(),
    ensures
        forall|rules: Rules| #[trigger]
            arith.follows(rules) ==> score == corridor_score(rules, place, constraints@, hint@),
{
    let supporting = find_constraints(constraints, &hint.supporting_anchors);
    let overhead_ms = shared_overhead(place, &hint.anchor, &supporting, arith).max(nothing());
    let mut score = nothing();
    let mut i: usize = 0;
    assert(supporting@.take(0) =~= Seq::<Constraint>::empty());
    while i < supporting.len()
        invariant
            i <= supporting@.len(),
            arith.complete(),
            forall|rules: Rules| #[trigger]
                arith.follows(rules) ==> score == corridor_sum(
                    rules,
                    place,
                    hint@,
                    overhead_ms,
                    supporting@.take(i as int),
                ),
        decreases supporting@.len() - i,
    {
        assert(supporting@.take(i + 1).drop_last() =~= supporting@.take(i as int));
        assert(supporting@.take(i + 1).last() == supporting@[i as int]);
        let term = corridor_cost(place, hint, overhead_ms, &supporting[i], arith);
        score = arith.add(score, term);
        i = i + 1;
    }
    assert(supporting@.take(supporting@.len() as int) =~= supporting@);
    score
}

/// How badly the hubs that routes support explain the times of those routes.
pub open spec fn corridors(
    rules: Rules,
    place: Place,
    constraints: Seq<Constraint>,
    hints: Seq<HintView>,
) -> Double
    decreases hints.len(),
{
    if hints.len() == 0 {
        zero()
    } else {
        let before = corridors(rules, place, constraints, hints.drop_last());
        if hints.last().supporting_anchors.len() == 0 {
            before
        } else {
            rules.add(before, corridor_score(rules, place, constraints, hints.last()))
        }
    }
}

fn trace_corridor_score<A: Fn(Calc) -> Double>(
    place: Place,
    constraints: &Vec<Constraint>,
    hints: &Vec<LocationHint>,
    arith: &Arith<A>,
) -> (score: Double)
    requires
        arith.complete(),
    ensures
        forall|rules: Rules| #[trigger]
            arith.follows(rules) ==> score == corridors(
                rules,
                place,
                constraints@,
                hint_views(hints@),
            ),
{
    let ghost all = hint_views(hints@);
    let mut score = nothing();
    let mut i: usize = 0;
    assert(all.take(0) =~= Seq::<HintView>::empty());
    while i < hints.len()
        invariant
            all == hint_views(hints@),
            i <= hints@.len(),
            arith.complete(),
            forall|rules: Rules| #[trigger]
                arith.follows(rules) ==> score == corridors(
                    rules,
                    place,
                    constraints@,
                    all.take(i as int),
                ),
        decreases hints@.len() - i,
    {
        assert(all.take(i + 1).drop_last() =~= all.take(i as int));
        assert(all.take(i + 1).last() == hints@[i as int]@);
        if hints[i].supporting_anchors.len() > 0 {
            let term = trace_corridor_score_for_hint(place, constraints, &hints[i], arith);
            score = arith.add(score, term);
        }
        i = i + 1;
    }
    assert(all.take(hints@.len() as int) =~= all);
    score
}

/// What a fitted line costs: the error, the overhead and the slowness.
pub open spec fn fit_penalty(rules: Rules, fit: LatencyFit) -> Double {
    rules.add(
        rules.add(
            rules.mul(rules.count(80), fit.weighted_rmse_ms),
            rules.mul(rules.ratio(5, 10), fit.overhead_ms),
        ),
        rules.mul(
            rules.count(2000),
            rules.sub(fit.ms_per_km, least_ms_per_km(rules)).greater(zero()),
        ),
    )
}

fn fit_cost<A: Fn(Calc) -> Double>(fit: LatencyFit, arith: &Arith<A>) -> (penalty: Double)
    requires
        arith.complete(),
    ensures
        forall|rules: Rules| #[trigger] arith.follows(rules) ==> penalty == fit_penalty(rules, fit),
{
    arith.add(
        arith.add(
            arith.mul(arith.count(80), fit.weighted_rmse_ms),
            arith.mul(arith.ratio(5, 10), fit.overhead_ms),
        ),
        arith.mul(
            arith.count(2000),
            arith.sub(fit.ms_per_km, arith.ratio(1, 102)).max(nothing()),
        ),
    )
}

/// How badly a place fits.
pub open spec fn badness(
    rules: Rules,
    place: Place,
    constraints: Seq<Constraint>,
    hints: Seq<HintView>,
    fit: LatencyFit,
    shared_rtt_floor_ms: Double,
) -> Double {
    let ranked = by_time(constraints);
    let bounds = bound_score(rules, place, constraints);
    let fitted = rules.add(bounds, fit_penalty(rules, fit));
    let hinted = rules.add(fitted, hint_sum(rules, place, hints));
    let routed = rules.add(hinted, corridors(rules, place, constraints, hints));
    let local = rules.add(routed, dominant_score(rules, place, ranked, shared_rtt_floor_ms));
    let spread = rules.add(local, spread_score(rules, place, ranked));
    let ordered = rules.add(spread, order_score(rules, place, ranked));
    rules.add(ordered, cluster_score(rules, place, ranked))
}

/// How badly a place fits.
pub fn objective<A: Fn(Calc) -> Double>(
    place: Place,
    constraints: &Vec<Constraint>,
    hints: &Vec<LocationHint>,
    fit: LatencyFit,
    shared_rtt_floor_ms: Double,
    arith: &Arith<A>,
) -> (score: Double)
    requires
        arith.complete(),
    ensures
        forall|rules: Rules| #[trigger]
            arith.follows(rules) ==> score == badness(
                rules,
                place,
                constraints@,
                hint_views(hints@),
                fit,
                shared_rtt_floor_ms,
            ),
{
    let bounds = upper_bound_score(place, constraints, arith);
    let fitted = arith.add(bounds, fit_cost(fit, arith));
    let hinted = arith.add(fitted, hint_score(place, hints, arith));
    let routed = arith.add(hinted, trace_corridor_score(place, constraints, hints, arith));
    let dominant = dominant_local_anchor_score(place, constraints, shared_rtt_floor_ms, arith);
    let local = arith.add(routed, dominant);
    let spread = arith.add(local, relative_spread_score(place, constraints, arith));
    let ordered = arith.add(spread, pairwise_order_score(place, constraints, arith));
    arith.add(ordered, regional_cluster_score(place, constraints, arith))
}

} // verus!
