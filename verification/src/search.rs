//! The search for the place with the lowest score.

use crate::calc::{Arith, Calc, Rules};
use crate::double::Double;
use crate::fit::{by_time, fit_latency_model, latency_fit, LatencyFit};
use crate::geometry::{
    anchor_place, center_of, move_place, moved, place_of, weighted_center, Place,
};
use crate::hints::{hint_views, HintView, LocationHint};
use crate::scores::{badness, objective};
use crate::solver::Constraint;
use vstd::prelude::*;

verus! {

/// What a place is judged by: the constraints, the hints, and the time that all routes
/// have in common.
pub struct Scene<'a> {
    pub constraints: &'a Vec<Constraint>,
    pub hints: &'a Vec<LocationHint>,
    pub shared_rtt_floor_ms: Double,
}

/// What a `Scene` stands for.
#[verifier::ext_equal]
pub struct SceneView {
    pub constraints: Seq<Constraint>,
    pub hints: Seq<HintView>,
    pub shared_rtt_floor_ms: Double,
}

impl<'a> View for Scene<'a> {
    type V = SceneView;

    open spec fn view(&self) -> SceneView {
        SceneView {
            constraints: self.constraints@,
            hints: hint_views(self.hints@),
            shared_rtt_floor_ms: self.shared_rtt_floor_ms,
        }
    }
}

/// A place with its score.
#[derive(Debug, Clone, Copy, PartialEq, Eq, Structural)]
pub struct Candidate {
    pub place: Place,
    pub score: Double,
    pub fit: LatencyFit,
}

/// The candidate at a place.
pub open spec fn candidate_at(rules: Rules, scene: SceneView, place: Place) -> Candidate {
    let fit = latency_fit(rules, place, by_time(scene.constraints));
    Candidate {
        place,
        score: badness(
            rules,
            place,
            scene.constraints,
            scene.hints,
            fit,
            scene.shared_rtt_floor_ms,
        ),
        fit,
    }
}

/// The candidate at a place.
pub fn candidate<A: Fn(Calc) -> Double>(
    place: Place,
    scene: &Scene,
    arith: &Arith<A>,
) -> (r: Candidate)
    requires
        arith.complete(),
    ensures
        forall|rules: Rules| #[trigger]
            arith.follows(rules) ==> r == candidate_at(rules, scene@, place),
{
    let fit = fit_latency_model(place, scene.constraints, arith);
    let score = objective(
        place,
        scene.constraints,
        scene.hints,
        fit,
        scene.shared_rtt_floor_ms,
        arith,
    );
    Candidate { place, score, fit }
}

/// One place of a grid over all inhabited latitudes, counted row by row.
pub open spec fn grid_place(rules: Rules, k: int) -> Place {
    Place {
        latitude: rules.ratio(15 * (k / 25) - 60, 1),
        longitude: rules.ratio(15 * (k % 25) - 180, 1),
    }
}

/// The places of constraints, weighted by how tightly they bind.
pub open spec fn bound_places(rules: Rules, constraints: Seq<Constraint>) -> Seq<(Place, Double)> {
    Seq::new(
        constraints.len(),
        |i: int|
            (
                place_of(rules, constraints[i].anchor@),
                rules.div(
                    rules.count(1),
                    rules.square(constraints[i].upper_bound_km.greater(rules.count(25))),
                ),
            ),
    )
}

/// The centre of the anchors of constraints, weighted by how tightly they bind.
pub fn weighted_centroid<A: Fn(Calc) -> Double>(
    constraints: &Vec<Constraint>,
    arith: &Arith<A>,
) -> (center: Place)
    requires
        arith.complete(),
    ensures
        forall|rules: Rules| #[trigger]
            arith.follows(rules) ==> center == center_of(rules, bound_places(rules, constraints@)),
{
    let mut items: Vec<(Place, Double)> = Vec::new();
    let mut i: usize = 0;
    while i < constraints.len()
        invariant
            arith.complete(),
            i <= constraints@.len(),
            items@.len() == i,
            forall|rules: Rules, j: int|
                #![trigger arith.follows(rules), items@[j]]
                arith.follows(rules) && 0 <= j < i ==> items@[j] == bound_places(
                    rules,
                    constraints@,
                )[j],
        decreases constraints@.len() - i,
    {
        let place = anchor_place(&constraints[i].anchor, arith);
        let bound = constraints[i].upper_bound_km.max(arith.count(25));
        let weight = arith.div(arith.count(1), arith.square(bound));
        items.push((place, weight));
        i = i + 1;
    }
    assert forall|rules: Rules| #[trigger] arith.follows(rules) implies items@ == bound_places(
        rules,
        constraints@,
    ) by {
        assert(items@ =~= bound_places(rules, constraints@));
    }
    weighted_center(&items, arith)
}

/// The places where the search may start: a grid, the anchors, and their centre.
pub open spec fn start_places(rules: Rules, constraints: Seq<Constraint>) -> Seq<Place> {
    Seq::new(
        251 + constraints.len(),
        |k: int|
            if k < 250 {
                grid_place(rules, k)
            } else if k < 250 + constraints.len() {
                place_of(rules, constraints[k - 250].anchor@)
            } else {
                center_of(rules, bound_places(rules, constraints))
            },
    )
}

/// The places where the search may start: a grid, the anchors, and their centre.
pub fn initial_candidates<A: Fn(Calc) -> Double>(
    constraints: &Vec<Constraint>,
    arith: &Arith<A>,
) -> (places: Vec<Place>)
    requires
        arith.complete(),
    ensures
        places@.len() == 251 + constraints@.len(),
        forall|rules: Rules| #[trigger]
            arith.follows(rules) ==> places@ == start_places(rules, constraints@),
{
    let mut places: Vec<Place> = Vec::new();
    let mut k: i32 = 0;
    while k < 250
        invariant
            arith.complete(),
            0 <= k <= 250,
            places@.len() == k,
            forall|rules: Rules, j: int|
                #![trigger arith.follows(rules), places@[j]]
                arith.follows(rules) && 0 <= j < k ==> places@[j] == grid_place(rules, j),
        decreases 250 - k,
    {
        let latitude = arith.ratio(15 * (k / 25) - 60, 1);
        let longitude = arith.ratio(15 * (k % 25) - 180, 1);
        places.push(Place { latitude, longitude });
        k = k + 1;
    }
    let mut i: usize = 0;
    while i < constraints.len()
        invariant
            arith.complete(),
            i <= constraints@.len(),
            places@.len() == 250 + i,
            forall|rules: Rules, j: int|
                #![trigger arith.follows(rules), places@[j]]
                arith.follows(rules) && 0 <= j < 250 + i ==> places@[j] == start_places(
                    rules,
                    constraints@,
                )[j],
        decreases constraints@.len() - i,
    {
        places.push(anchor_place(&constraints[i].anchor, arith));
        i = i + 1;
    }
    places.push(weighted_centroid(constraints, arith));
    assert forall|rules: Rules| #[trigger] arith.follows(rules) implies places@ == start_places(
        rules,
        constraints@,
    ) by {
        assert(places@ =~= start_places(rules, constraints@));
    }
    places
}

/// The first of the candidates with the lowest score at these places.
pub open spec fn best_at(rules: Rules, scene: SceneView, places: Seq<Place>) -> Option<Candidate>
    decreases places.len(),
{
    if places.len() == 0 {
        None
    } else {
        let next = candidate_at(rules, scene, places.last());
        match best_at(rules, scene, places.drop_last()) {
            Some(best) => if next.score.total_place() < best.score.total_place() {
                Some(next)
            } else {
                Some(best)
            },
            None => Some(next),
        }
    }
}

fn best_candidate<A: Fn(Calc) -> Double>(
    places: &Vec<Place>,
    scene: &Scene,
    arith: &Arith<A>,
) -> (best: Option<Candidate>)
    requires
        arith.complete(),
    ensures
        best is Some <==> places@.len() > 0,
        forall|rules: Rules| #[trigger]
            arith.follows(rules) ==> best == best_at(rules, scene@, places@),
{
    let mut best: Option<Candidate> = None;
    let mut i: usize = 0;
    assert(places@.take(0) =~= Seq::<Place>::empty());
    while i < places.len()
        invariant
            arith.complete(),
            i <= places@.len(),
            best is Some <==> i > 0,
            forall|rules: Rules| #[trigger]
                arith.follows(rules) ==> best == best_at(rules, scene@, places@.take(i as int)),
        decreases places@.len() - i,
    {
        assert(places@.take(i + 1).drop_last() =~= places@.take(i as int));
        assert(places@.take(i + 1).last() == places@[i as int]);
        let next = candidate(places[i], scene, arith);
        let replace = match best {
            Some(current) => current.score.is_after(&next.score),
            None => true,
        };
        if replace {
            best = Some(next);
        }
        i = i + 1;
    }
    assert(places@.take(places@.len() as int) =~= places@);
    best
}

/// The place that is tried next when the neighbourhood is searched row by row, with
/// eight steps to each side.
pub open spec fn neighbour(rules: Rules, center: Place, step: Double, k: int) -> Place {
    moved(rules, center, k / 17 - 8, k % 17 - 8, step)
}

/// The best candidate after so many places of the neighbourhood were tried.
pub open spec fn refined(
    rules: Rules,
    scene: SceneView,
    center: Candidate,
    step: Double,
    tried: nat,
) -> Candidate
    decreases tried,
{
    if tried == 0 {
        center
    } else {
        let best = refined(rules, scene, center, step, (tried - 1) as nat);
        let next = candidate_at(rules, scene, neighbour(rules, center.place, step, tried - 1));
        if next.score.below(best.score) {
            next
        } else {
            best
        }
    }
}

/// The best candidate of the neighbourhood of one.
pub fn refine<A: Fn(Calc) -> Double>(
    center: Candidate,
    step: Double,
    scene: &Scene,
    arith: &Arith<A>,
) -> (best: Candidate)
    requires
        arith.complete(),
    ensures
        forall|rules: Rules| #[trigger]
            arith.follows(rules) ==> best == refined(rules, scene@, center, step, 289),
{
    let mut best = center;
    let mut k: i32 = 0;
    while k < 289
        invariant
            arith.complete(),
            0 <= k <= 289,
            forall|rules: Rules| #[trigger]
                arith.follows(rules) ==> best == refined(rules, scene@, center, step, k as nat),
        decreases 289 - k,
    {
        let place = move_place(center.place, k / 17 - 8, k % 17 - 8, step, arith);
        let next = candidate(place, scene, arith);
        if next.score.is_below(&best.score) {
            best = next;
        }
        k = k + 1;
    }
    best
}

/// The widths of the steps, in degrees, with which the neighbourhood is searched
/// again and again.
pub open spec fn steps(rules: Rules) -> Seq<Double> {
    seq![
        rules.count(8),
        rules.count(2),
        rules.ratio(5, 10),
        rules.ratio(1, 10),
        rules.ratio(2, 100),
        rules.ratio(5, 1000),
        rules.ratio(1, 1000),
    ]
}

/// The candidate that searching with ever narrower steps leads to.
pub open spec fn narrowed(
    rules: Rules,
    scene: SceneView,
    start: Candidate,
    widths: Seq<Double>,
) -> Candidate
    decreases widths.len(),
{
    if widths.len() == 0 {
        start
    } else {
        let center = narrowed(rules, scene, start, widths.drop_last());
        refined(rules, scene, center, widths.last(), 289)
    }
}

/// The candidate with the lowest score that the search finds. There is one if and
/// only if there is a constraint.
#[verifier::opaque]
pub open spec fn solved(rules: Rules, scene: SceneView) -> Option<Candidate> {
    if scene.constraints.len() == 0 {
        None
    } else {
        match best_at(rules, scene, start_places(rules, scene.constraints)) {
            Some(start) => Some(narrowed(rules, scene, start, steps(rules))),
            None => None,
        }
    }
}

fn step_widths<A: Fn(Calc) -> Double>(arith: &Arith<A>) -> (widths: Vec<Double>)
    requires
        arith.complete(),
    ensures
        forall|rules: Rules| #[trigger] arith.follows(rules) ==> widths@ == steps(rules),
{
    let mut widths: Vec<Double> = Vec::new();
    widths.push(arith.count(8));
    widths.push(arith.count(2));
    widths.push(arith.ratio(5, 10));
    widths.push(arith.ratio(1, 10));
    widths.push(arith.ratio(2, 100));
    widths.push(arith.ratio(5, 1000));
    widths.push(arith.ratio(1, 1000));
    assert forall|rules: Rules| #[trigger] arith.follows(rules) implies widths@ == steps(rules) by {
        assert(widths@ =~= steps(rules));
    }
    widths
}

fn narrow<A: Fn(Calc) -> Double>(
    start: Candidate,
    scene: &Scene,
    arith: &Arith<A>,
) -> (best: Candidate)
    requires
        arith.complete(),
    ensures
        forall|rules: Rules| #[trigger]
            arith.follows(rules) ==> best == narrowed(rules, scene@, start, steps(rules)),
{
    let widths = step_widths(arith);
    let mut best = start;
    let mut i: usize = 0;
    assert(widths@.take(0) =~= Seq::<Double>::empty());
    while i < widths.len()
        invariant
            arith.complete(),
            i <= widths@.len(),
            forall|rules: Rules| #[trigger]
                arith.follows(rules) ==> best == narrowed(
                    rules,
                    scene@,
                    start,
                    widths@.take(i as int),
                ),
        decreases widths@.len() - i,
    {
        assert(widths@.take(i + 1).drop_last() =~= widths@.take(i as int));
        assert(widths@.take(i + 1).last() == widths@[i as int]);
        best = refine(best, widths[i], scene, arith);
        i = i + 1;
    }
    assert(widths@.take(widths@.len() as int) =~= widths@);
    best
}

/// The candidate with the lowest score that the search finds.
pub fn solve_scene<A: Fn(Calc) -> Double>(
    scene: &Scene,
    arith: &Arith<A>,
) -> (best: Option<Candidate>)
    requires
        arith.complete(),
    ensures
        best is Some <==> scene.constraints@.len() > 0,
        forall|rules: Rules| #[trigger] arith.follows(rules) ==> best == solved(rules, scene@),
{
    proof {
        reveal(solved);
    }
    if scene.constraints.len() == 0 {
        return None;
    }
    let places = initial_candidates(scene.constraints, arith);
    match best_candidate(&places, scene, arith) {
        Some(start) => Some(narrow(start, scene, arith)),
        None => None,
    }
}

/// The candidate with the lowest score that the search finds.
pub fn solve_once<A: Fn(Calc) -> Double>(
    constraints: &Vec<Constraint>,
    hints: &Vec<LocationHint>,
    shared_rtt_floor_ms: Double,
    arith: &Arith<A>,
) -> (best: Option<Candidate>)
    requires
        arith.complete(),
    ensures
        best is Some <==> constraints@.len() > 0,
        forall|rules: Rules| #[trigger]
            arith.follows(rules) ==> best == solved(
                rules,
                SceneView {
                    constraints: constraints@,
                    hints: hint_views(hints@),
                    shared_rtt_floor_ms,
                },
            ),
{
    let scene = Scene { constraints, hints, shared_rtt_floor_ms };
    solve_scene(&scene, arith)
}

proof fn lemma_best_at(rules: Rules, scene: SceneView, places: Seq<Place>, i: int)
    requires
        0 <= i < places.len(),
    ensures
        best_at(rules, scene, places) is Some,
        best_at(rules, scene, places)->0.score.total_place() <= candidate_at(
            rules,
            scene,
            places[i],
        ).score.total_place(),
    decreases places.len(),
{
    if i < places.len() - 1 {
        assert(places.drop_last()[i] == places[i]);
        lemma_best_at(rules, scene, places.drop_last(), i);
    }
}

proof fn lemma_refined(
    rules: Rules,
    scene: SceneView,
    center: Candidate,
    step: Double,
    tried: nat,
)
    ensures
        refined(rules, scene, center, step, tried).score.total_place()
            <= center.score.total_place(),
        refined(rules, scene, center, step, tried) == center || exists|place: Place|
            refined(rules, scene, center, step, tried) == #[trigger] candidate_at(
                rules,
                scene,
                place,
            ),
    decreases tried,
{
    if tried > 0 {
        lemma_refined(rules, scene, center, step, (tried - 1) as nat);
    }
}

proof fn lemma_narrowed(rules: Rules, scene: SceneView, start: Candidate, widths: Seq<Double>)
    ensures
        narrowed(rules, scene, start, widths).score.total_place() <= start.score.total_place(),
        narrowed(rules, scene, start, widths) == start || exists|place: Place|
            narrowed(rules, scene, start, widths) == #[trigger] candidate_at(rules, scene, place),
    decreases widths.len(),
{
    if widths.len() > 0 {
        lemma_narrowed(rules, scene, start, widths.drop_last());
        let center = narrowed(rules, scene, start, widths.drop_last());
        lemma_refined(rules, scene, center, widths.last(), 289);
    }
}

proof fn lemma_best_at_is_candidate(rules: Rules, scene: SceneView, places: Seq<Place>)
    requires
        places.len() > 0,
    ensures
        exists|place: Place|
            best_at(rules, scene, places) == Some(#[trigger] candidate_at(rules, scene, place)),
    decreases places.len(),
{
    if places.len() > 1 {
        lemma_best_at_is_candidate(rules, scene, places.drop_last());
    } else {
        assert(best_at(rules, scene, places.drop_last()) is None);
    }
    assert(best_at(rules, scene, places) == Some(candidate_at(rules, scene, places.last()))
        || best_at(rules, scene, places) == best_at(rules, scene, places.drop_last()));
}

/// The search finds a candidate wherever there is a constraint, what it finds is a
/// place with its own score, and no place where it may start has a lower score: not
/// the anchors, nor their centre, nor the grid.
pub proof fn lemma_solution_beats_starts(rules: Rules, scene: SceneView, i: int)
    requires
        scene.constraints.len() > 0,
        0 <= i < start_places(rules, scene.constraints).len(),
    ensures
        solved(rules, scene) is Some,
        exists|place: Place|
            solved(rules, scene) == Some(#[trigger] candidate_at(rules, scene, place)),
        solved(rules, scene)->0.score.total_place() <= candidate_at(
            rules,
            scene,
            start_places(rules, scene.constraints)[i],
        ).score.total_place(),
{
    reveal(solved);
    let places = start_places(rules, scene.constraints);
    lemma_best_at(rules, scene, places, i);
    lemma_best_at_is_candidate(rules, scene, places);
    lemma_narrowed(rules, scene, best_at(rules, scene, places)->0, steps(rules));
}

} // verus!
