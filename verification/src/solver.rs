//! The search for the place that explains the measured round-trip times best.

use crate::anchors::{Anchor, AnchorView};
use crate::calc::{Arith, Calc, Rules};
use crate::double::{nothing, zero, Double};
use crate::geometry::{anchor_distance_km, distance_to, Place};
use crate::hints::{hint_views, HintView, LocationHint};
use crate::posterior::{
    modes_of, posterior_samples, samples_of, stability_radius, stability_radius_km, subset_modes,
    subsets_of,
};
use crate::probe::{reach_km, Measurement, PingStats, ProbeMethod};
use crate::scores::{corridor_score, trace_corridor_score_for_hint};
use crate::search::{candidate, candidate_at, solve_scene, solved, Candidate, Scene, SceneView};
use crate::summary::{posterior_summary, summarized};
use vstd::prelude::*;
use vstd::string::*;

pub use crate::geometry::haversine_km;

verus! {

/// What one measurement says of where the local host is.
#[derive(Debug, Clone, Copy)]
pub struct Constraint {
    pub anchor: Anchor,
    pub upper_bound_km: Double,
    pub min_rtt_ms: Double,
    pub jitter_ms: Double,
    pub quality_weight: Double,
}

/// How well an estimate meets a constraint.
#[derive(Debug, Clone, Copy)]
pub struct EvaluatedConstraint {
    pub anchor: Anchor,
    pub min_rtt_ms: Double,
    pub upper_bound_km: Double,
    pub distance_km: Double,
    pub overflow_km: Double,
}

/// How far an estimate is from a hint.
#[derive(Debug, Clone)]
pub struct EvaluatedHint {
    pub anchor: Anchor,
    pub weight: Double,
    pub source: String,
    pub distance_km: Double,
}

/// Where the local host may be.
#[derive(Debug, Clone)]
pub struct Estimate {
    pub latitude: Double,
    pub longitude: Double,
    pub score: Double,
    pub mode_latitude: Double,
    pub mode_longitude: Double,
    pub mode_score: Double,
    pub fitted_overhead_ms: Double,
    pub fitted_km_per_ms: Double,
    pub weighted_rmse_ms: Double,
    pub confidence_radius_km: Double,
    pub posterior_radius_km: Double,
    pub stability_radius_km: Double,
    pub constraints: Vec<EvaluatedConstraint>,
    pub hints: Vec<EvaluatedHint>,
    pub dominant_corridor_hint: Option<EvaluatedHint>,
}

/// What an `EvaluatedHint` stands for.
#[verifier::ext_equal]
pub struct EvaluatedHintView {
    pub anchor: AnchorView,
    pub weight: Double,
    pub source: Seq<char>,
    pub distance_km: Double,
}

impl View for EvaluatedHint {
    type V = EvaluatedHintView;

    open spec fn view(&self) -> EvaluatedHintView {
        EvaluatedHintView {
            anchor: self.anchor@,
            weight: self.weight,
            source: self.source@,
            distance_km: self.distance_km,
        }
    }
}

/// What a list of evaluated hints stands for.
pub open spec fn evaluated_hint_views(list: Seq<EvaluatedHint>) -> Seq<EvaluatedHintView> {
    Seq::new(list.len(), |i: int| list[i]@)
}

/// What an evaluated hint stands for, if there is one.
pub open spec fn maybe_hint(hint: Option<EvaluatedHint>) -> Option<EvaluatedHintView> {
    match hint {
        Some(found) => Some(found@),
        None => None,
    }
}

/// What an `Estimate` stands for.
#[verifier::ext_equal]
pub struct EstimateView {
    pub center: Place,
    pub score: Double,
    pub mode: Place,
    pub mode_score: Double,
    pub fitted_overhead_ms: Double,
    pub fitted_km_per_ms: Double,
    pub weighted_rmse_ms: Double,
    pub confidence_radius_km: Double,
    pub posterior_radius_km: Double,
    pub stability_radius_km: Double,
    pub constraints: Seq<EvaluatedConstraint>,
    pub hints: Seq<EvaluatedHintView>,
    pub dominant_corridor_hint: Option<EvaluatedHintView>,
}

impl View for Estimate {
    type V = EstimateView;

    open spec fn view(&self) -> EstimateView {
        EstimateView {
            center: Place { latitude: self.latitude, longitude: self.longitude },
            score: self.score,
            mode: Place { latitude: self.mode_latitude, longitude: self.mode_longitude },
            mode_score: self.mode_score,
            fitted_overhead_ms: self.fitted_overhead_ms,
            fitted_km_per_ms: self.fitted_km_per_ms,
            weighted_rmse_ms: self.weighted_rmse_ms,
            confidence_radius_km: self.confidence_radius_km,
            posterior_radius_km: self.posterior_radius_km,
            stability_radius_km: self.stability_radius_km,
            constraints: self.constraints@,
            hints: evaluated_hint_views(self.hints@),
            dominant_corridor_hint: maybe_hint(self.dominant_corridor_hint),
        }
    }
}

/// What an estimate stands for, if there is one.
pub open spec fn maybe_estimate(estimate: Option<Estimate>) -> Option<EstimateView> {
    match estimate {
        Some(found) => Some(found@),
        None => None,
    }
}

/// How much a time may vary: its deviation or its spread, and what the cache leaves
/// uncertain.
pub open spec fn jitter(rules: Rules, ping: PingStats, cache_uncertainty_ms: Double) -> Double {
    let spread_ms = rules.sub(ping.avg_ms, ping.min_ms).greater(zero());
    rules.add(
        ping.mdev_ms.greater(rules.mul(spread_ms, rules.ratio(75, 100))),
        cache_uncertainty_ms,
    )
}

fn effective_jitter_ms<A: Fn(Calc) -> Double>(
    ping: &PingStats,
    cache_uncertainty_ms: Double,
    arith: &Arith<A>,
) -> (r: Double)
    requires
        arith.complete(),
    ensures
        forall|rules: Rules| #[trigger]
            arith.follows(rules) ==> r == jitter(rules, *ping, cache_uncertainty_ms),
{
    let spread_ms = arith.sub(ping.avg_ms, ping.min_ms).max(nothing());
    let deviation_ms = ping.mdev_ms.max(arith.mul(spread_ms, arith.ratio(75, 100)));
    arith.add(deviation_ms, cache_uncertainty_ms)
}

/// How much a measurement counts: less with jitter, and less over TCP.
pub open spec fn quality(rules: Rules, method: ProbeMethod, jitter_ms: Double) -> Double {
    let transport_penalty = if method is Tcp {
        rules.ratio(25, 100)
    } else {
        zero()
    };
    let jitter_penalty = rules.div(jitter_ms, rules.count(3));
    rules.div(
        rules.count(1),
        rules.add(rules.add(rules.count(1), transport_penalty), jitter_penalty),
    ).clamped(rules.ratio(12, 100), rules.count(1))
}

fn measurement_quality_weight<A: Fn(Calc) -> Double>(
    method: ProbeMethod,
    jitter_ms: Double,
    arith: &Arith<A>,
) -> (r: Double)
    requires
        arith.complete(),
    ensures
        forall|rules: Rules| #[trigger]
            arith.follows(rules) ==> r == quality(rules, method, jitter_ms),
{
    let transport_penalty = match method {
        ProbeMethod::Tcp { .. } => arith.ratio(25, 100),
        _ => nothing(),
    };
    let jitter_penalty = arith.div(jitter_ms, arith.count(3));
    arith.div(
        arith.count(1),
        arith.add(arith.add(arith.count(1), transport_penalty), jitter_penalty),
    ).clamp(arith.ratio(12, 100), arith.count(1))
}

/// The constraint that a ping of an anchor gives.
pub open spec fn constraint_of(
    rules: Rules,
    anchor: Anchor,
    ping: PingStats,
    cache_uncertainty_ms: Double,
    km_per_ms: Double,
) -> Constraint {
    let jitter_ms = jitter(rules, ping, cache_uncertainty_ms);
    Constraint {
        anchor,
        upper_bound_km: reach_km(rules, ping, km_per_ms),
        min_rtt_ms: ping.min_ms,
        jitter_ms,
        quality_weight: quality(rules, ping.method, jitter_ms),
    }
}

/// The constraints that measurements give: one for each that has a time, in order.
pub open spec fn constraints_of(
    rules: Rules,
    measurements: Seq<Measurement>,
    km_per_ms: Double,
) -> Seq<Constraint>
    decreases measurements.len(),
{
    if measurements.len() == 0 {
        Seq::<Constraint>::empty()
    } else {
        let before = constraints_of(rules, measurements.drop_last(), km_per_ms);
        let last = measurements.last();
        match last.ping {
            Some(ping) => before.push(
                constraint_of(rules, last.anchor, ping, last.cache_uncertainty_ms, km_per_ms),
            ),
            None => before,
        }
    }
}

/// The constraints that measurements give: one for each that has a time, in order.
pub fn constraints_from_measurements<A: Fn(Calc) -> Double>(
    measurements: &Vec<Measurement>,
    km_per_ms: Double,
    arith: &Arith<A>,
) -> (constraints: Vec<Constraint>)
    requires
        arith.complete(),
    ensures
        forall|rules: Rules| #[trigger]
            arith.follows(rules) ==> constraints@ == constraints_of(
                rules,
                measurements@,
                km_per_ms,
            ),
{
    let mut constraints: Vec<Constraint> = Vec::new();
    let mut i: usize = 0;
    assert(measurements@.take(0) =~= Seq::<Measurement>::empty());
    while i < measurements.len()
        invariant
            arith.complete(),
            i <= measurements@.len(),
            forall|rules: Rules| #[trigger]
                arith.follows(rules) ==> constraints@ == constraints_of(
                    rules,
                    measurements@.take(i as int),
                    km_per_ms,
                ),
        decreases measurements@.len() - i,
    {
        assert(measurements@.take(i + 1).drop_last() =~= measurements@.take(i as int));
        assert(measurements@.take(i + 1).last() == measurements@[i as int]);
        let measurement = &measurements[i];
        match &measurement.ping {
            Some(ping) => {
                let upper_bound_km = ping.upper_bound_km(km_per_ms, arith);
                let jitter_ms = effective_jitter_ms(
                    ping,
                    measurement.cache_uncertainty_ms,
                    arith,
                );
                let quality_weight = measurement_quality_weight(ping.method, jitter_ms, arith);
                constraints.push(
                    Constraint {
                        anchor: measurement.anchor,
                        upper_bound_km,
                        min_rtt_ms: ping.min_ms,
                        jitter_ms,
                        quality_weight,
                    },
                );
            },
            None => {},
        }
        i = i + 1;
    }
    assert(measurements@.take(measurements@.len() as int) =~= measurements@);
    constraints
}

/// How well a place meets a constraint.
pub open spec fn evaluated(
    rules: Rules,
    place: Place,
    constraint: Constraint,
) -> EvaluatedConstraint {
    let distance_km = distance_to(rules, place, constraint.anchor@);
    EvaluatedConstraint {
        anchor: constraint.anchor,
        min_rtt_ms: constraint.min_rtt_ms,
        upper_bound_km: constraint.upper_bound_km,
        distance_km,
        overflow_km: rules.sub(distance_km, constraint.upper_bound_km).greater(zero()),
    }
}

/// How well a place meets constraints.
pub open spec fn all_evaluated(
    rules: Rules,
    place: Place,
    constraints: Seq<Constraint>,
) -> Seq<EvaluatedConstraint> {
    Seq::new(constraints.len(), |i: int| evaluated(rules, place, constraints[i]))
}

fn evaluate_constraints<A: Fn(Calc) -> Double>(
    place: Place,
    constraints: &Vec<Constraint>,
    arith: &Arith<A>,
) -> (list: Vec<EvaluatedConstraint>)
    requires
        arith.complete(),
    ensures
        forall|rules: Rules| #[trigger]
            arith.follows(rules) ==> list@ == all_evaluated(rules, place, constraints@),
{
    let mut list: Vec<EvaluatedConstraint> = Vec::new();
    let mut i: usize = 0;
    while i < constraints.len()
        invariant
            arith.complete(),
            i <= constraints@.len(),
            list@.len() == i,
            forall|rules: Rules, j: int|
                #![trigger arith.follows(rules), list@[j]]
                arith.follows(rules) && 0 <= j < i ==> list@[j] == evaluated(
                    rules,
                    place,
                    constraints@[j],
                ),
        decreases constraints@.len() - i,
    {
        let constraint = constraints[i];
        let distance_km = anchor_distance_km(place, &constraint.anchor, arith);
        list.push(
            EvaluatedConstraint {
                anchor: constraint.anchor,
                min_rtt_ms: constraint.min_rtt_ms,
                upper_bound_km: constraint.upper_bound_km,
                distance_km,
                overflow_km: arith.sub(distance_km, constraint.upper_bound_km).max(nothing()),
            },
        );
        i = i + 1;
    }
    assert forall|rules: Rules| #[trigger] arith.follows(rules) implies list@ == all_evaluated(
        rules,
        place,
        constraints@,
    ) by {
        assert(list@ =~= all_evaluated(rules, place, constraints@));
    }
    list
}

/// How far a place is from a hint.
pub open spec fn evaluated_hint(rules: Rules, place: Place, hint: HintView) -> EvaluatedHintView {
    EvaluatedHintView {
        anchor: hint.anchor,
        weight: hint.weight,
        source: hint.source,
        distance_km: distance_to(rules, place, hint.anchor),
    }
}

fn evaluate_hint<A: Fn(Calc) -> Double>(
    place: Place,
    hint: &LocationHint,
    arith: &Arith<A>,
) -> (r: EvaluatedHint)
    requires
        arith.complete(),
    ensures
        forall|rules: Rules| #[trigger]
            arith.follows(rules) ==> r@ == evaluated_hint(rules, place, hint@),
{
    EvaluatedHint {
        anchor: hint.anchor,
        weight: hint.weight,
        source: hint.source.clone(),
        distance_km: anchor_distance_km(place, &hint.anchor, arith),
    }
}

/// How far a place is from hints.
pub open spec fn all_hints_evaluated(
    rules: Rules,
    place: Place,
    hints: Seq<HintView>,
) -> Seq<EvaluatedHintView> {
    Seq::new(hints.len(), |i: int| evaluated_hint(rules, place, hints[i]))
}

fn evaluate_hints<A: Fn(Calc) -> Double>(
    place: Place,
    hints: &Vec<LocationHint>,
    arith: &Arith<A>,
) -> (list: Vec<EvaluatedHint>)
    requires
        arith.complete(),
    ensures
        forall|rules: Rules| #[trigger]
            arith.follows(rules) ==> evaluated_hint_views(list@) == all_hints_evaluated(
                rules,
                place,
                hint_views(hints@),
            ),
{
    let mut list: Vec<EvaluatedHint> = Vec::new();
    let mut i: usize = 0;
    while i < hints.len()
        invariant
            arith.complete(),
            i <= hints@.len(),
            list@.len() == i,
            forall|rules: Rules, j: int|
                #![trigger arith.follows(rules), list@[j]]
                arith.follows(rules) && 0 <= j < i ==> list@[j]@ == evaluated_hint(
                    rules,
                    place,
                    hints@[j]@,
                ),
        decreases hints@.len() - i,
    {
        list.push(evaluate_hint(place, &hints[i], arith));
        i = i + 1;
    }
    assert forall|rules: Rules| #[trigger] arith.follows(rules) implies evaluated_hint_views(list@)
        == all_hints_evaluated(rules, place, hint_views(hints@)) by {
        assert(evaluated_hint_views(list@) =~= all_hints_evaluated(
            rules,
            place,
            hint_views(hints@),
        ));
    }
    list
}

/// The position and score of the first of the supported hints whose hub explains the
/// times best.
pub open spec fn best_hub(
    rules: Rules,
    place: Place,
    constraints: Seq<Constraint>,
    hints: Seq<HintView>,
) -> Option<(int, Double)>
    decreases hints.len(),
{
    if hints.len() == 0 {
        None
    } else {
        let before = best_hub(rules, place, constraints, hints.drop_last());
        let score = corridor_score(rules, place, constraints, hints.last());
        if hints.last().supporting_anchors.len() == 0 {
            before
        } else {
            match before {
                Some((at, best)) => if score.total_place() < best.total_place() {
                    Some((hints.len() - 1, score))
                } else {
                    before
                },
                None => Some((hints.len() - 1, score)),
            }
        }
    }
}

/// The supported hint whose hub explains the times best.
pub open spec fn dominant_hint(
    rules: Rules,
    place: Place,
    constraints: Seq<Constraint>,
    hints: Seq<HintView>,
) -> Option<EvaluatedHintView> {
    match best_hub(rules, place, constraints, hints) {
        Some((at, score)) => Some(evaluated_hint(rules, place, hints[at])),
        None => None,
    }
}

/// The supported hint whose hub explains the times best.
pub fn dominant_corridor_hint<A: Fn(Calc) -> Double>(
    place: Place,
    constraints: &Vec<Constraint>,
    hints: &Vec<LocationHint>,
    arith: &Arith<A>,
) -> (dominant: Option<EvaluatedHint>)
    requires
        arith.complete(),
    ensures
        forall|rules: Rules| #[trigger]
            arith.follows(rules) ==> maybe_hint(dominant) == dominant_hint(
                rules,
                place,
                constraints@,
                hint_views(hints@),
            ),
{
    let ghost all = hint_views(hints@);
    let mut best: Option<(usize, Double)> = None;
    let mut i: usize = 0;
    assert(all.take(0) =~= Seq::<HintView>::empty());
    while i < hints.len()
        invariant
            arith.complete(),
            all == hint_views(hints@),
            i <= hints@.len(),
            best matches Some((at, _)) ==> at < hints@.len(),
            forall|rules: Rules| #[trigger]
                arith.follows(rules) ==> best_hub(rules, place, constraints@, all.take(i as int))
                    == (match best {
                    Some((at, score)) => Some((at as int, score)),
                    None => None,
                }),
        decreases hints@.len() - i,
    {
        assert(all.take(i + 1).drop_last() =~= all.take(i as int));
        assert(all.take(i + 1).last() == hints@[i as int]@);
        if hints[i].supporting_anchors.len() > 0 {
            let score = trace_corridor_score_for_hint(place, constraints, &hints[i], arith);
            let replace = match best {
                Some((_, current)) => current.is_after(&score),
                None => true,
            };
            if replace {
                best = Some((i, score));
            }
        }
        i = i + 1;
    }
    assert(all.take(hints@.len() as int) =~= all);
    match best {
        Some((at, _)) => Some(evaluate_hint(place, &hints[at], arith)),
        None => None,
    }
}

/// What is known of the solution once its neighbourhood is explored.
pub struct Findings {
    pub center: Candidate,
    pub mode: Candidate,
    pub posterior_radius_km: Double,
    pub stability_radius_km: Double,
}

/// The estimate that findings give.
pub open spec fn estimate_of(rules: Rules, scene: SceneView, found: Findings) -> EstimateView {
    let place = found.center.place;
    EstimateView {
        center: place,
        score: found.center.score,
        mode: found.mode.place,
        mode_score: found.mode.score,
        fitted_overhead_ms: found.center.fit.overhead_ms,
        fitted_km_per_ms: rules.div(rules.count(1), found.center.fit.ms_per_km),
        weighted_rmse_ms: found.center.fit.weighted_rmse_ms,
        confidence_radius_km: found.stability_radius_km.greater(found.posterior_radius_km),
        posterior_radius_km: found.posterior_radius_km,
        stability_radius_km: found.stability_radius_km,
        constraints: all_evaluated(rules, place, scene.constraints),
        hints: all_hints_evaluated(rules, place, scene.hints),
        dominant_corridor_hint: dominant_hint(rules, place, scene.constraints, scene.hints),
    }
}

/// The estimate that findings give.
pub fn build_estimate<A: Fn(Calc) -> Double>(
    found: &Findings,
    scene: &Scene,
    arith: &Arith<A>,
) -> (estimate: Estimate)
    requires
        arith.complete(),
    ensures
        forall|rules: Rules| #[trigger]
            arith.follows(rules) ==> estimate@ == estimate_of(rules, scene@, *found),
{
    let place = found.center.place;
    Estimate {
        latitude: place.latitude,
        longitude: place.longitude,
        score: found.center.score,
        mode_latitude: found.mode.place.latitude,
        mode_longitude: found.mode.place.longitude,
        mode_score: found.mode.score,
        fitted_overhead_ms: found.center.fit.overhead_ms,
        fitted_km_per_ms: arith.div(arith.count(1), found.center.fit.ms_per_km),
        weighted_rmse_ms: found.center.fit.weighted_rmse_ms,
        confidence_radius_km: found.stability_radius_km.max(found.posterior_radius_km),
        posterior_radius_km: found.posterior_radius_km,
        stability_radius_km: found.stability_radius_km,
        constraints: evaluate_constraints(place, scene.constraints, arith),
        hints: evaluate_hints(place, scene.hints, arith),
        dominant_corridor_hint: dominant_corridor_hint(
            place,
            scene.constraints,
            scene.hints,
            arith,
        ),
    }
}

/// What is found around a solution.
pub open spec fn findings_of(rules: Rules, scene: SceneView, mode: Candidate) -> Findings {
    let modes = modes_of(rules, scene, subsets_of(scene.constraints));
    let samples = samples_of(rules, scene, mode, modes);
    let posterior = summarized(rules, mode, samples, modes);
    Findings {
        center: candidate_at(rules, scene, posterior.place),
        mode,
        posterior_radius_km: posterior.radius_km,
        stability_radius_km: stability_radius(rules, mode.place, modes),
    }
}

/// The estimate for a scene. There is one if and only if there is a constraint.
pub open spec fn estimated(rules: Rules, scene: SceneView) -> Option<EstimateView> {
    match solved(rules, scene) {
        Some(mode) => Some(estimate_of(rules, scene, findings_of(rules, scene, mode))),
        None => None,
    }
}

fn explore<A: Fn(Calc) -> Double>(
    mode: Candidate,
    scene: &Scene,
    arith: &Arith<A>,
) -> (found: Findings)
    requires
        arith.complete(),
    ensures
        forall|rules: Rules| #[trigger]
            arith.follows(rules) ==> found == findings_of(rules, scene@, mode),
{
    let modes = subset_modes(scene, arith);
    let samples = posterior_samples(scene, &mode, &modes, arith);
    let posterior = posterior_summary(&mode, &samples, &modes, arith);
    Findings {
        center: candidate(posterior.place, scene, arith),
        mode,
        posterior_radius_km: posterior.radius_km,
        stability_radius_km: stability_radius_km(mode.place, &modes, arith),
    }
}

/// Estimates where the local host is. Without constraints there is no estimate.
pub fn solve<A: Fn(Calc) -> Double>(
    constraints: &Vec<Constraint>,
    hints: &Vec<LocationHint>,
    shared_rtt_floor_ms: Double,
    arith: &Arith<A>,
) -> (estimate: Option<Estimate>)
    requires
        arith.complete(),
    ensures
        estimate is Some <==> constraints@.len() > 0,
        forall|rules: Rules| #[trigger]
            arith.follows(rules) ==> maybe_estimate(estimate) == estimated(
                rules,
                SceneView {
                    constraints: constraints@,
                    hints: hint_views(hints@),
                    shared_rtt_floor_ms,
                },
            ),
{
    let scene = Scene { constraints, hints, shared_rtt_floor_ms };
    match solve_scene(&scene, arith) {
        Some(mode) => {
            let found = explore(mode, &scene, arith);
            Some(build_estimate(&found, &scene, arith))
        },
        None => None,
    }
}

} // verus!
