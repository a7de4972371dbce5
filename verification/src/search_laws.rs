//! What the search looks at and what it is judged by: no place that it looks at is better
//! than the one that it finds, and it looks far and near.

use crate::calc::Rules;
use crate::calc_laws::{lemma_sizes, orderly, sized, subtracts_in_order};
use crate::double::{zero, Double};
use crate::fit::by_time;
use crate::geometry::{center_of, distance, distance_to, moved, place_of, Place};
use crate::posterior::{
    known, leave_one_out, modes_of, narrowed_to, place_key, prefix_subset, sample_place,
    sample_places, sample_width, seeds_of, subsets_of, with_place, with_seed,
};
use crate::ranking::{ascending, lemma_ascending_members, lemma_ascending_orders};
use crate::score_laws::{lemma_left, plausible};
use crate::search::{
    best_at, bound_places, candidate_at, lemma_solution_beats_starts, narrowed, neighbour, refined,
    solved, start_places, steps, Candidate, SceneView,
};
use crate::solver::{estimated, evaluated, Constraint};
use crate::summary::{by_distance, excess, numbered_distances, scaled, total_weight, weighed};
use vstd::prelude::*;

verus! {

/// Tells whether a candidate is no worse than any place within eight steps of a place to
/// the north, south, east and west.
pub open spec fn best_around(
    rules: Rules,
    scene: SceneView,
    best: Candidate,
    center: Place,
    step: Double,
) -> bool {
    forall|north: int, east: int|
        -8 <= north <= 8 && -8 <= east <= 8 ==> !candidate_at(
            rules,
            scene,
            #[trigger] moved(rules, center, north, east, step),
        ).score.below(best.score)
}

/// Tells whether a candidate is best around some place.
pub open spec fn best_somewhere(
    rules: Rules,
    scene: SceneView,
    best: Candidate,
    step: Double,
) -> bool {
    exists|center: Place| #[trigger] best_around(rules, scene, best, center, step)
}

spec fn no_worse(one: Candidate, other: Candidate) -> bool {
    one == other || one.score.below(other.score)
}

proof fn lemma_refined_beats(
    rules: Rules,
    scene: SceneView,
    center: Candidate,
    step: Double,
    tried: nat,
)
    ensures
        no_worse(refined(rules, scene, center, step, tried), center),
        forall|k: int|
            0 <= k < tried ==> !candidate_at(
                rules,
                scene,
                #[trigger] neighbour(rules, center.place, step, k),
            ).score.below(refined(rules, scene, center, step, tried).score),
    decreases tried,
{
    if tried > 0 {
        lemma_refined_beats(rules, scene, center, step, (tried - 1) as nat);
    }
}

proof fn lemma_refined_is_best_around(
    rules: Rules,
    scene: SceneView,
    center: Candidate,
    step: Double,
)
    ensures
        best_around(
            rules,
            scene,
            refined(rules, scene, center, step, 289),
            center.place,
            step,
        ),
{
    lemma_refined_beats(rules, scene, center, step, 289);
    let best = refined(rules, scene, center, step, 289);
    assert forall|north: int, east: int| -8 <= north <= 8 && -8 <= east <= 8 implies !candidate_at(
        rules,
        scene,
        #[trigger] moved(rules, center.place, north, east, step),
    ).score.below(best.score) by {
        let k = (north + 8) * 17 + east + 8;
        assert(k / 17 == north + 8 && k % 17 == east + 8 && 0 <= k < 289);
        assert(neighbour(rules, center.place, step, k) == moved(
            rules,
            center.place,
            north,
            east,
            step,
        ));
    }
}

proof fn lemma_narrowed_beats(
    rules: Rules,
    scene: SceneView,
    start: Candidate,
    widths: Seq<Double>,
)
    ensures
        no_worse(narrowed(rules, scene, start, widths), start),
        forall|j: int|
            0 <= j < widths.len() ==> best_somewhere(
                rules,
                scene,
                narrowed(rules, scene, start, widths),
                #[trigger] widths[j],
            ),
    decreases widths.len(),
{
    if widths.len() > 0 {
        let shorter = widths.drop_last();
        lemma_narrowed_beats(rules, scene, start, shorter);
        let before = narrowed(rules, scene, start, shorter);
        let best = narrowed(rules, scene, start, widths);
        lemma_refined_beats(rules, scene, before, widths.last(), 289);
        lemma_refined_is_best_around(rules, scene, before, widths.last());
        assert forall|j: int| 0 <= j < widths.len() implies best_somewhere(
            rules,
            scene,
            best,
            #[trigger] widths[j],
        ) by {
            if j < shorter.len() {
                assert(shorter[j] == widths[j]);
                assert(best_somewhere(rules, scene, before, shorter[j]));
                let center = choose|center: Place|
                    best_around(rules, scene, before, center, shorter[j]);
                assert(best_around(rules, scene, best, center, widths[j]));
            } else {
                assert(best_around(rules, scene, best, before.place, widths[j]));
            }
        }
    }
}

/// What the search finds is best around some place, for steps of every width from eight
/// degrees down to a thousandth of one.
#[verifier::rlimit(40)]
pub proof fn lemma_solution_is_best_around(rules: Rules, scene: SceneView, step: Double)
    requires
        scene.constraints.len() > 0,
        step == rules.count(8) || step == rules.count(2) || step == rules.ratio(5, 10) || step
            == rules.ratio(1, 10) || step == rules.ratio(2, 100) || step == rules.ratio(5, 1000)
            || step == rules.ratio(1, 1000),
    ensures
        solved(rules, scene) is Some,
        best_somewhere(rules, scene, solved(rules, scene)->0, step),
{
    reveal(solved);
    lemma_solution_beats_starts(rules, scene, 0);
    let start = best_at(rules, scene, start_places(rules, scene.constraints))->0;
    lemma_narrowed_beats(rules, scene, start, steps(rules));
    let j: int = if step == rules.count(8) {
        0
    } else if step == rules.count(2) {
        1
    } else if step == rules.ratio(5, 10) {
        2
    } else if step == rules.ratio(1, 10) {
        3
    } else if step == rules.ratio(2, 100) {
        4
    } else if step == rules.ratio(5, 1000) {
        5
    } else {
        6
    };
    assert(steps(rules)[j] == step);
    assert(best_somewhere(rules, scene, solved(rules, scene)->0, steps(rules)[j]));
}

spec fn no_better(rules: Rules, scene: SceneView, place: Place) -> bool {
    solved(rules, scene) is Some && solved(rules, scene)->0.score.total_place() <= candidate_at(
        rules,
        scene,
        place,
    ).score.total_place()
}

proof fn lemma_solution_beats_place(rules: Rules, scene: SceneView, k: int, place: Place)
    requires
        scene.constraints.len() > 0,
        0 <= k < start_places(rules, scene.constraints).len(),
        place == start_places(rules, scene.constraints)[k],
    ensures
        no_better(rules, scene, place),
{
    lemma_solution_beats_starts(rules, scene, k);
}

/// The search starts everywhere: no point of the grid of fifteen degrees from sixty degrees
/// south to seventy-five north has a lower score than what it finds, nor has any anchor,
/// nor the centre of the anchors.
#[verifier::rlimit(40)]
pub proof fn lemma_search_starts_everywhere(
    rules: Rules,
    scene: SceneView,
    row: int,
    column: int,
    i: int,
)
    requires
        scene.constraints.len() > 0,
        -4 <= row <= 5,
        -12 <= column <= 12,
        0 <= i < scene.constraints.len(),
    ensures
        ({
            let best = solved(rules, scene)->0.score.total_place();
            let on_grid = Place {
                latitude: rules.ratio(15 * row, 1),
                longitude: rules.ratio(15 * column, 1),
            };
            let at_anchor = place_of(rules, scene.constraints[i].anchor@);
            let at_center = center_of(rules, bound_places(rules, scene.constraints));
            &&& solved(rules, scene) is Some
            &&& best <= candidate_at(rules, scene, on_grid).score.total_place()
            &&& best <= candidate_at(rules, scene, at_anchor).score.total_place()
            &&& best <= candidate_at(rules, scene, at_center).score.total_place()
        }),
{
    let k = (row + 4) * 25 + column + 12;
    assert(k / 25 == row + 4 && k % 25 == column + 12 && 0 <= k < 250);
    let places = start_places(rules, scene.constraints);
    let on_grid = Place {
        latitude: rules.ratio(15 * row, 1),
        longitude: rules.ratio(15 * column, 1),
    };
    assert(places[k] == on_grid);
    lemma_solution_beats_place(rules, scene, k, on_grid);
    lemma_solution_beats_place(
        rules,
        scene,
        250 + i,
        place_of(rules, scene.constraints[i].anchor@),
    );
    lemma_solution_beats_place(
        rules,
        scene,
        250 + scene.constraints.len() as int,
        center_of(rules, bound_places(rules, scene.constraints)),
    );
}

/// A closer bound weighs no less in the centre of the anchors, and every bound weighs
/// something.
#[verifier::rlimit(60)]
pub proof fn lemma_closer_bound_weighs_more(
    rules: Rules,
    constraints: Seq<Constraint>,
    i: int,
    j: int,
)
    requires
        orderly(rules),
        0 <= i < constraints.len(),
        0 <= j < constraints.len(),
        plausible(constraints[i]),
        plausible(constraints[j]),
        constraints[i].upper_bound_km.at_most(constraints[j].upper_bound_km),
    ensures
        bound_places(rules, constraints)[i].0 == place_of(rules, constraints[i].anchor@),
        bound_places(rules, constraints)[j].1.at_most(bound_places(rules, constraints)[i].1),
        zero().below(bound_places(rules, constraints)[j].1),
{
    reveal(orderly);
    lemma_sizes(rules.count(1), 14);
    lemma_sizes(rules.count(25), 14);
    lemma_sizes(constraints[i].upper_bound_km, 30);
    lemma_sizes(constraints[j].upper_bound_km, 30);
    let close = constraints[i].upper_bound_km.greater(rules.count(25));
    let wide = constraints[j].upper_bound_km.greater(rules.count(25));
    assert(sized(close, 30) && sized(wide, 30));
    lemma_sizes(close, 30);
    lemma_sizes(wide, 30);
    assert(sized(rules.square(close), 60) && sized(rules.square(wide), 60));
    lemma_sizes(rules.square(close), 60);
    lemma_sizes(rules.square(wide), 60);
    assert(sized(rules.div(rules.count(1), rules.square(wide)), 74));
    lemma_sizes(rules.div(rules.count(1), rules.square(wide)), 74);
}

/// The subsets that are solved again: the four, five, six and eight fastest constraints, as
/// far as there are so many, and all without one of the four fastest. There are no others.
pub proof fn lemma_subsets(constraints: Seq<Constraint>)
    requires
        constraints.len() <= usize::MAX,
    ensures
        ({
            let ranked = by_time(constraints);
            let subsets = subsets_of(constraints);
            &&& forall|n: int|
                (n == 4 || n == 5 || n == 6 || n == 8) && n <= ranked.len() ==> subsets.contains(
                    #[trigger] ranked.take(n),
                )
            &&& forall|i: int|
                0 <= i < 4 <= ranked.len() ==> subsets.contains(#[trigger] ranked.remove(i))
            &&& forall|k: int|
                0 <= k < subsets.len() ==> {
                    ||| exists|n: int|
                        (n == 4 || n == 5 || n == 6 || n == 8) && n <= ranked.len()
                            && #[trigger] subsets[k] == #[trigger] ranked.take(n)
                    ||| exists|i: int| 0 <= i < 4 && subsets[k] == #[trigger] ranked.remove(i)
                }
        }),
{
    let ranked = by_time(constraints);
    let subsets = subsets_of(constraints);
    let a = prefix_subset(ranked, 4);
    let b = prefix_subset(ranked, 5);
    let c = prefix_subset(ranked, 6);
    let d = prefix_subset(ranked, 8);
    let e = leave_one_out(ranked);
    assert(subsets == a + b + c + d + e);
    assert forall|n: int|
        (n == 4 || n == 5 || n == 6 || n == 8) && n <= ranked.len() implies subsets.contains(
        #[trigger] ranked.take(n),
    ) by {
        let at = if n == 4 {
            0
        } else if n == 5 {
            1
        } else if n == 6 {
            2int
        } else {
            3
        };
        assert(subsets[at] == ranked.take(n));
    }
    let head = a.len() + b.len() + c.len() + d.len();
    assert forall|i: int| 0 <= i < 4 <= ranked.len() implies subsets.contains(
        #[trigger] ranked.remove(i),
    ) by {
        assert(subsets[head + i] == e[i]);
    }
    assert forall|k: int| 0 <= k < subsets.len() implies ({
        ||| exists|n: int|
            (n == 4 || n == 5 || n == 6 || n == 8) && n <= ranked.len() && #[trigger] subsets[k]
                == #[trigger] ranked.take(n)
        ||| exists|i: int| 0 <= i < 4 && subsets[k] == #[trigger] ranked.remove(i)
    }) by {
        if k >= head {
            assert(subsets[k] == e[k - head]);
            assert(subsets[k] == ranked.remove(k - head));
        } else if k == 0 {
            assert(subsets[k] == ranked.take(4));
        } else if k == 1 {
            assert(subsets[k] == ranked.take(5));
        } else if k == 2 {
            assert(subsets[k] == ranked.take(6));
        } else {
            assert(subsets[k] == ranked.take(8));
        }
    }
}

/// Each subset that holds a constraint is solved for itself, in order, and there are no
/// other modes.
pub proof fn lemma_subsets_are_solved(
    rules: Rules,
    scene: SceneView,
    subsets: Seq<Seq<Constraint>>,
)
    requires
        forall|i: int| 0 <= i < subsets.len() ==> (#[trigger] subsets[i]).len() > 0,
    ensures
        modes_of(rules, scene, subsets).len() == subsets.len(),
        forall|i: int|
            0 <= i < subsets.len() ==> solved(rules, narrowed_to(scene, #[trigger] subsets[i]))
                == Some(modes_of(rules, scene, subsets)[i]),
    decreases subsets.len(),
{
    if subsets.len() > 0 {
        let shorter = subsets.drop_last();
        assert forall|i: int| 0 <= i < shorter.len() implies (#[trigger] shorter[i]).len() > 0 by {
            assert(shorter[i] == subsets[i]);
        }
        lemma_subsets_are_solved(rules, scene, shorter);
        assert(subsets[subsets.len() - 1].len() > 0);
        lemma_solution_beats_starts(rules, narrowed_to(scene, subsets.last()), 0);
        assert forall|i: int| 0 <= i < subsets.len() implies solved(
            rules,
            narrowed_to(scene, #[trigger] subsets[i]),
        ) == Some(modes_of(rules, scene, subsets)[i]) by {
            if i < shorter.len() {
                assert(shorter[i] == subsets[i]);
            }
        }
    }
}

/// The neighbourhood of the solution, of the modes, of the anchors of the first eight
/// constraints, of the anchors of the hints and of the centre of the anchors is explored.
pub proof fn lemma_seeds(
    rules: Rules,
    scene: SceneView,
    mode: Candidate,
    modes: Seq<Candidate>,
)
    ensures
        ({
            let seeds = seeds_of(rules, scene, mode, modes);
            &&& seeds.contains(mode.place)
            &&& forall|i: int|
                0 <= i < modes.len() ==> seeds.contains((#[trigger] modes[i]).place)
            &&& forall|i: int|
                0 <= i < scene.constraints.len() && i < 8 ==> seeds.contains(
                    place_of(rules, (#[trigger] scene.constraints[i]).anchor@),
                )
            &&& forall|i: int|
                0 <= i < scene.hints.len() ==> seeds.contains(
                    place_of(rules, (#[trigger] scene.hints[i]).anchor),
                )
            &&& seeds.contains(center_of(rules, bound_places(rules, scene.constraints)))
        }),
{
    let seeds = seeds_of(rules, scene, mode, modes);
    let anchors: int = if scene.constraints.len() < 8 {
        scene.constraints.len() as int
    } else {
        8
    };
    assert(seeds[0] == mode.place);
    assert forall|i: int| 0 <= i < modes.len() implies seeds.contains(
        (#[trigger] modes[i]).place,
    ) by {
        assert(seeds[1 + i] == modes[i].place);
    }
    assert forall|i: int| 0 <= i < scene.constraints.len() && i < 8 implies seeds.contains(
        place_of(rules, (#[trigger] scene.constraints[i]).anchor@),
    ) by {
        assert(seeds[1 + modes.len() + i] == place_of(rules, scene.constraints[i].anchor@));
    }
    assert forall|i: int| 0 <= i < scene.hints.len() implies seeds.contains(
        place_of(rules, (#[trigger] scene.hints[i]).anchor),
    ) by {
        assert(seeds[1 + modes.len() + anchors + i] == place_of(rules, scene.hints[i].anchor));
    }
    assert(seeds[seeds.len() - 1] == center_of(rules, bound_places(rules, scene.constraints)));
}

proof fn lemma_with_seed_knows(rules: Rules, places: Seq<Place>, seed: Place, tried: nat)
    ensures
        forall|key: (u64, u64)|
            #[trigger] known(rules, places, key) ==> known(
                rules,
                with_seed(rules, places, seed, tried),
                key,
            ),
        forall|k: int|
            0 <= k < tried ==> known(
                rules,
                with_seed(rules, places, seed, tried),
                place_key(rules, #[trigger] sample_place(rules, seed, k)),
            ),
        forall|p: int|
            0 <= p < with_seed(rules, places, seed, tried).len() ==> {
                ||| places.contains(#[trigger] with_seed(rules, places, seed, tried)[p])
                ||| exists|k: int|
                    0 <= k < tried && with_seed(rules, places, seed, tried)[p]
                        == #[trigger] sample_place(rules, seed, k)
            },
    decreases tried,
{
    if tried > 0 {
        let fewer = (tried - 1) as nat;
        lemma_with_seed_knows(rules, places, seed, fewer);
        let before = with_seed(rules, places, seed, fewer);
        let next = sample_place(rules, seed, tried - 1);
        let after = with_seed(rules, places, seed, tried);
        assert(after == with_place(rules, before, next));
        assert forall|key: (u64, u64)| #[trigger] known(rules, before, key) implies known(
            rules,
            after,
            key,
        ) by {
            let i = choose|i: int|
                0 <= i < before.len() && place_key(rules, #[trigger] before[i]) == key;
            assert(after[i] == before[i]);
        }
        assert(known(rules, after, place_key(rules, next))) by {
            if !known(rules, before, place_key(rules, next)) {
                assert(after[before.len() as int] == next);
            }
        }
        assert forall|k: int| 0 <= k < tried implies known(
            rules,
            after,
            place_key(rules, #[trigger] sample_place(rules, seed, k)),
        ) by {
            if k < fewer {
                assert(known(rules, before, place_key(rules, sample_place(rules, seed, k))));
            }
        }
        assert forall|key: (u64, u64)| #[trigger] known(rules, places, key) implies known(
            rules,
            after,
            key,
        ) by {
            assert(known(rules, before, key));
        }
        assert forall|p: int| 0 <= p < after.len() implies ({
            ||| places.contains(#[trigger] after[p])
            ||| exists|k: int|
                0 <= k < tried && after[p] == #[trigger] sample_place(rules, seed, k)
        }) by {
            if p < before.len() {
                assert(after[p] == before[p]);
                if !places.contains(before[p]) {
                    let k = choose|k: int|
                        0 <= k < fewer && before[p] == #[trigger] sample_place(rules, seed, k);
                    assert(after[p] == sample_place(rules, seed, k));
                }
            } else {
                assert(after[p] == sample_place(rules, seed, tried - 1));
            }
        }
    } else {
        assert forall|p: int| 0 <= p < places.len() implies places.contains(
            #[trigger] places[p],
        ) by {}
    }
}

proof fn lemma_samples_know(rules: Rules, seeds: Seq<Place>)
    ensures
        forall|i: int, k: int|
            0 <= i < seeds.len() && 0 <= k < 405 ==> known(
                rules,
                sample_places(rules, seeds),
                place_key(rules, #[trigger] sample_place(rules, seeds[i], k)),
            ),
        forall|p: int|
            0 <= p < sample_places(rules, seeds).len() ==> exists|i: int, k: int|
                0 <= i < seeds.len() && 0 <= k < 405 && #[trigger] sample_places(rules, seeds)[p]
                    == #[trigger] sample_place(rules, seeds[i], k),
    decreases seeds.len(),
{
    if seeds.len() > 0 {
        let shorter = seeds.drop_last();
        lemma_samples_know(rules, shorter);
        let before = sample_places(rules, shorter);
        let after = sample_places(rules, seeds);
        lemma_with_seed_knows(rules, before, seeds.last(), 405);
        assert forall|i: int, k: int| 0 <= i < seeds.len() && 0 <= k < 405 implies known(
            rules,
            after,
            place_key(rules, #[trigger] sample_place(rules, seeds[i], k)),
        ) by {
            if i < shorter.len() {
                assert(shorter[i] == seeds[i]);
                assert(known(rules, before, place_key(rules, sample_place(rules, shorter[i], k))));
            }
        }
        assert forall|p: int| 0 <= p < after.len() implies exists|i: int, k: int|
            0 <= i < seeds.len() && 0 <= k < 405 && #[trigger] after[p]
                == #[trigger] sample_place(rules, seeds[i], k) by {
            if before.contains(after[p]) {
                let q = choose|q: int| 0 <= q < before.len() && before[q] == after[p];
                let (i, k) = choose|i: int, k: int|
                    0 <= i < shorter.len() && 0 <= k < 405 && before[q]
                        == #[trigger] sample_place(rules, shorter[i], k);
                assert(after[p] == sample_place(rules, seeds[i], k));
            } else {
                let k = choose|k: int|
                    0 <= k < 405 && after[p] == #[trigger] sample_place(rules, seeds.last(), k);
                assert(after[p] == sample_place(rules, seeds[seeds.len() - 1], k));
            }
        }
    }
}

/// Around each seed, the places up to four steps to the north, south, east and west are
/// sampled, for steps of two degrees, one, half, a fifth and a tenth: either such a place
/// itself or one that is the same to a thousandth of a degree.
pub proof fn lemma_every_seed_is_sampled(
    rules: Rules,
    seeds: Seq<Place>,
    i: int,
    north: int,
    east: int,
    step: Double,
)
    requires
        0 <= i < seeds.len(),
        -4 <= north <= 4,
        -4 <= east <= 4,
        step == rules.count(2) || step == rules.count(1) || step == rules.ratio(5, 10) || step
            == rules.ratio(2, 10) || step == rules.ratio(1, 10),
    ensures
        exists|p: int|
            0 <= p < sample_places(rules, seeds).len() && place_key(
                rules,
                #[trigger] sample_places(rules, seeds)[p],
            ) == place_key(
                rules,
                moved(rules, seeds[i], north, east, step),
            ),
{
    lemma_samples_know(rules, seeds);
    let width: int = if step == rules.count(2) {
        0
    } else if step == rules.count(1) {
        1
    } else if step == rules.ratio(5, 10) {
        2
    } else if step == rules.ratio(2, 10) {
        3
    } else {
        4
    };
    let k = width * 81 + (north + 4) * 9 + east + 4;
    assert(k / 81 == width && k % 81 / 9 == north + 4 && k % 9 == east + 4 && 0 <= k < 405);
    let place = sample_place(rules, seeds[i], k);
    assert(place == moved(rules, seeds[i], north, east, sample_width(rules, width)));
    assert(known(rules, sample_places(rules, seeds), place_key(rules, place)));
}

/// No place is sampled that is not up to four steps from a seed.
pub proof fn lemma_samples_are_near_seeds(rules: Rules, seeds: Seq<Place>, p: int)
    requires
        0 <= p < sample_places(rules, seeds).len(),
    ensures
        exists|i: int, north: int, east: int, width: int|
            0 <= i < seeds.len() && -4 <= north <= 4 && -4 <= east <= 4 && 0 <= width < 5
                && sample_places(rules, seeds)[p] == #[trigger] moved(
                rules,
                seeds[i],
                north,
                east,
                #[trigger] sample_width(rules, width),
            ),
{
    lemma_samples_know(rules, seeds);
    let (i, k) = choose|i: int, k: int|
        0 <= i < seeds.len() && 0 <= k < 405 && sample_places(rules, seeds)[p]
            == #[trigger] sample_place(rules, seeds[i], k);
    let north = k % 81 / 9 - 4;
    let east = k % 9 - 4;
    assert(0 <= k / 81 < 5 && -4 <= north <= 4 && -4 <= east <= 4);
    assert(sample_places(rules, seeds)[p] == moved(
        rules,
        seeds[i],
        north,
        east,
        sample_width(rules, k / 81),
    ));
}

/// Tells whether quotients by what is above zero keep order, also below zero, and the
/// exponential function does.
pub open spec fn cools(rules: Rules) -> bool {
    &&& forall|a: Double, b: Double|
        a.at_most(b) ==> (#[trigger] rules.exp(a)).at_most(#[trigger] rules.exp(b))
    &&& forall|a: Double, b: Double, h: Double|
        a.at_most(b) && a.finite() && b.finite() && zero().below(h) && h.finite() ==> (
        #[trigger] rules.div(a, h)).at_most(#[trigger] rules.div(b, h))
}

/// Of two samples, the better one weighs no less.
#[verifier::rlimit(60)]
pub proof fn lemma_better_sample_weighs_more(
    rules: Rules,
    mode: Candidate,
    samples: Seq<Candidate>,
    heat: Double,
    i: int,
    j: int,
)
    requires
        orderly(rules),
        cools(rules),
        zero().below(heat),
        heat.finite(),
        0 <= i < samples.len(),
        0 <= j < samples.len(),
        mode.score.finite(),
        samples[i].score.finite(),
        samples[j].score.finite(),
        excess(rules, mode, samples[i]).finite(),
        excess(rules, mode, samples[j]).finite(),
        samples[i].score.at_most(samples[j].score),
    ensures
        weighed(rules, mode, samples, heat)[i].0 == samples[i].place,
        weighed(rules, mode, samples, heat)[j].1.at_most(
            weighed(rules, mode, samples, heat)[i].1,
        ),
{
    assert(subtracts_in_order(rules)) by {
        reveal(orderly);
    }
    let a = rules.sub(samples[i].score, mode.score);
    let b = rules.sub(samples[j].score, mode.score);
    assert(a.at_most(b));
    let low = excess(rules, mode, samples[i]);
    let high = excess(rules, mode, samples[j]);
    assert(low.at_most(high));
    assert(high.turned().at_most(low.turned()));
    assert(rules.div(high.turned(), heat).at_most(rules.div(low.turned(), heat)));
}

/// What is weighed is scaled without a change of places or of their order by weight.
#[verifier::rlimit(60)]
pub proof fn lemma_scaling_keeps_order(
    rules: Rules,
    items: Seq<(Place, Double)>,
    target: Double,
    i: int,
    j: int,
)
    requires
        orderly(rules),
        0 <= i < items.len(),
        0 <= j < items.len(),
        zero().at_most(items[i].1),
        items[i].1.at_most(items[j].1),
        items[j].1.finite(),
        zero().below(target),
        target.finite(),
        total_weight(rules, items).finite(),
        rules.mul(items[j].1, target).finite(),
        zero().at_most(rules.mul(items[i].1, target)),
    ensures
        scaled(rules, items, target).len() == items.len(),
        scaled(rules, items, target)[i].0 == items[i].0,
        scaled(rules, items, target)[i].1.at_most(scaled(rules, items, target)[j].1),
{
    reveal(orderly);
    let a = rules.mul(items[i].1, target);
    let b = rules.mul(items[j].1, target);
    assert(a.at_most(b));
    let total = total_weight(rules, items);
    if !total.at_most(zero()) {
        assert(zero().below(total));
        assert(rules.div(a, total).at_most(rules.div(b, total)));
    }
}

/// Weighted places by their distance from a centre: the distances ascend, each goes with
/// the weight of its own place, and none is left out.
pub proof fn lemma_by_distance(rules: Rules, center: Place, items: Seq<(Place, Double)>)
    requires
        items.len() <= usize::MAX,
    ensures
        by_distance(rules, center, items).len() == items.len(),
        forall|i: int, j: int|
            0 <= i <= j < items.len() ==> (#[trigger] by_distance(
                rules,
                center,
                items,
            )[i]).0.total_place() <= (#[trigger] by_distance(
                rules,
                center,
                items,
            )[j]).0.total_place(),
        forall|i: int|
            0 <= i < items.len() ==> by_distance(rules, center, items).contains(
                (distance(rules, center, (#[trigger] items[i]).0), items[i].1),
            ),
        forall|k: int|
            0 <= k < items.len() ==> exists|i: int|
                0 <= i < items.len() && #[trigger] by_distance(rules, center, items)[k] == (
                    distance(rules, center, (#[trigger] items[i]).0),
                    items[i].1,
                ),
{
    broadcast use vstd::seq_lib::group_to_multiset_ensures;

    let numbered = numbered_distances(rules, center, items);
    let order = ascending(numbered);
    let pairs = by_distance(rules, center, items);
    lemma_ascending_orders(numbered);
    assert forall|i: int, j: int| 0 <= i <= j < items.len() implies (
    #[trigger] pairs[i]).0.total_place() <= (#[trigger] pairs[j]).0.total_place() by {
        assert(order[i].1.total_place() <= order[j].1.total_place());
    }
    assert forall|i: int| 0 <= i < items.len() implies pairs.contains(
        (distance(rules, center, (#[trigger] items[i]).0), items[i].1),
    ) by {
        assert(numbered.contains(numbered[i]));
        assert(numbered.to_multiset().contains(numbered[i]));
        assert(order.contains(numbered[i]));
        let k = choose|k: int| 0 <= k < order.len() && order[k] == numbered[i];
        assert(pairs[k] == (distance(rules, center, items[i].0), items[i].1));
    }
    assert forall|k: int| 0 <= k < items.len() implies exists|i: int|
        0 <= i < items.len() && #[trigger] pairs[k] == (
            distance(rules, center, (#[trigger] items[i]).0),
            items[i].1,
        ) by {
        lemma_ascending_members(numbered, k);
        let i = choose|i: int| 0 <= i < numbered.len() && numbered[i] == order[k];
        assert(pairs[k] == (distance(rules, center, items[i].0), items[i].1));
    }
}

/// An estimate says of each constraint how far its anchor is from the estimated place, and
/// by how much that is beyond what the time allows: by nothing if and only if the anchor is
/// within its bound. The mode is what the search finds.
#[verifier::rlimit(60)]
pub proof fn lemma_estimate_tells_violations(rules: Rules, scene: SceneView, i: int)
    requires
        orderly(rules),
        0 <= i < scene.constraints.len(),
        plausible(scene.constraints[i]),
        estimated(rules, scene) matches Some(estimate) ==> sized(
            distance_to(rules, estimate.center, scene.constraints[i].anchor@),
            30,
        ),
    ensures
        estimated(rules, scene) is Some,
        estimated(rules, scene) matches Some(estimate) ==> {
            let told = estimate.constraints[i];
            let constraint = scene.constraints[i];
            &&& told.anchor == constraint.anchor
            &&& told.min_rtt_ms == constraint.min_rtt_ms
            &&& told.upper_bound_km == constraint.upper_bound_km
            &&& told.distance_km == distance_to(rules, estimate.center, constraint.anchor@)
            &&& told.distance_km.at_most(told.upper_bound_km) ==> told.overflow_km.equals(zero())
            &&& told.upper_bound_km.below(told.distance_km) ==> zero().below(told.overflow_km)
            &&& solved(rules, scene) == Some(candidate_at(rules, scene, estimate.mode))
            &&& estimate.mode_score == candidate_at(rules, scene, estimate.mode).score
            &&& estimate.score == candidate_at(rules, scene, estimate.center).score
            &&& estimate.weighted_rmse_ms == candidate_at(
                rules,
                scene,
                estimate.center,
            ).fit.weighted_rmse_ms
            &&& estimate.fitted_overhead_ms == candidate_at(
                rules,
                scene,
                estimate.center,
            ).fit.overhead_ms
            &&& estimate.confidence_radius_km == estimate.posterior_radius_km
                || estimate.confidence_radius_km == estimate.stability_radius_km
        },
{
    lemma_solution_beats_starts(rules, scene, 0);
    let estimate = estimated(rules, scene)->0;
    let constraint = scene.constraints[i];
    let distance_km = distance_to(rules, estimate.center, constraint.anchor@);
    assert(estimate.constraints[i] == evaluated(rules, estimate.center, constraint));
    lemma_sizes(distance_km, 30);
    lemma_sizes(constraint.upper_bound_km, 30);
    lemma_left(rules, distance_km, constraint.upper_bound_km, 30);
    let place = choose|place: Place|
        solved(rules, scene) == Some(#[trigger] candidate_at(rules, scene, place));
    assert(candidate_at(rules, scene, place).place == place);
}

} // verus!
