//! How sure the found place is: what becomes of it when constraints are left out,
//! and how the scores of the places around it spread.

use crate::calc::{Arith, Calc, Rules};
use crate::double::{nothing, zero, Double};
use crate::fit::{by_time, rank_constraints};
use crate::geometry::{
    anchor_place, center_of, distance, distance_km, move_place, moved, place_of, Place,
};
use crate::hints::{hint_views, HintView};
use crate::ranking::{ascending, lemma_ascending_orders, rank};
use crate::search::{
    bound_places, candidate, candidate_at, solve_once, solved, weighted_centroid, Candidate,
    Scene, SceneView,
};
use crate::solver::Constraint;
use vstd::prelude::*;

verus! {

/// The first constraints as a subset, if there are so many.
pub open spec fn prefix_subset(ranked: Seq<Constraint>, n: int) -> Seq<Seq<Constraint>> {
    if ranked.len() >= n {
        seq![ranked.take(n)]
    } else {
        Seq::<Seq<Constraint>>::empty()
    }
}

/// The subsets that leave out one of the four fastest constraints, if three are left.
pub open spec fn leave_one_out(ranked: Seq<Constraint>) -> Seq<Seq<Constraint>> {
    if ranked.len() >= 4 {
        Seq::new(4, |i: int| ranked.remove(i))
    } else {
        Seq::<Seq<Constraint>>::empty()
    }
}

/// The subsets of constraints whose solutions show how stable the solution is.
pub open spec fn subsets_of(constraints: Seq<Constraint>) -> Seq<Seq<Constraint>> {
    let ranked = by_time(constraints);
    prefix_subset(ranked, 4) + prefix_subset(ranked, 5) + prefix_subset(ranked, 6) + prefix_subset(
        ranked,
        8,
    ) + leave_one_out(ranked)
}

/// What a list of subsets stands for.
pub open spec fn subset_views(subsets: Seq<Vec<Constraint>>) -> Seq<Seq<Constraint>> {
    Seq::new(subsets.len(), |i: int| subsets[i]@)
}

fn push_prefix(subsets: &mut Vec<Vec<Constraint>>, ranked: &Vec<Constraint>, n: usize)
    ensures
        subset_views(final(subsets)@) == subset_views(old(subsets)@) + prefix_subset(
            ranked@,
            n as int,
        ),
{
    let ghost before = subset_views(subsets@);
    if ranked.len() >= n {
        let mut subset: Vec<Constraint> = Vec::new();
        let mut i: usize = 0;
        while i < n
            invariant
                n <= ranked@.len(),
                i <= n,
                subset@ == ranked@.take(i as int),
            decreases n - i,
        {
            subset.push(ranked[i]);
            i = i + 1;
            assert(subset@ =~= ranked@.take(i as int));
        }
        subsets.push(subset);
        assert(subset_views(subsets@) =~= before + prefix_subset(ranked@, n as int));
    } else {
        assert(before + Seq::<Seq<Constraint>>::empty() =~= before);
    }
}

fn without(ranked: &Vec<Constraint>, at: usize) -> (subset: Vec<Constraint>)
    requires
        at < ranked@.len(),
    ensures
        subset@ == ranked@.remove(at as int),
{
    let ghost left = ranked@.remove(at as int);
    let n: usize = ranked.len();
    let mut subset: Vec<Constraint> = Vec::new();
    let mut i: usize = 0;
    while i < n
        invariant
            n == ranked@.len(),
            at < n,
            left == ranked@.remove(at as int),
            i <= n,
            subset@ == left.take(
                if i <= at {
                    i as int
                } else {
                    i - 1
                },
            ),
        decreases n - i,
    {
        if i != at {
            subset.push(ranked[i]);
        }
        i = i + 1;
        assert(subset@ =~= left.take(
            if i <= at {
                i as int
            } else {
                i - 1
            },
        ));
    }
    assert(subset@ =~= left);
    subset
}

/// The subsets of constraints whose solutions show how stable the solution is, in
/// whatever order the constraints are given.
pub fn stability_subsets(constraints: &Vec<Constraint>) -> (subsets: Vec<Vec<Constraint>>)
    ensures
        subset_views(subsets@) == subsets_of(constraints@),
{
    let ranked = rank_constraints(constraints);
    let mut subsets: Vec<Vec<Constraint>> = Vec::new();
    assert(subset_views(subsets@) =~= Seq::<Seq<Constraint>>::empty());
    push_prefix(&mut subsets, &ranked, 4);
    assert(subset_views(subsets@) =~= prefix_subset(ranked@, 4));
    push_prefix(&mut subsets, &ranked, 5);
    push_prefix(&mut subsets, &ranked, 6);
    push_prefix(&mut subsets, &ranked, 8);
    let ghost before = subset_views(subsets@);
    let ghost more = leave_one_out(ranked@);
    assert(before + more.take(0) =~= before);
    if ranked.len() >= 4 {
        let mut i: usize = 0;
        while i < 4
            invariant
                ranked@.len() >= 4,
                i <= 4,
                more == leave_one_out(ranked@),
                subset_views(subsets@) == before + more.take(i as int),
            decreases 4 - i,
        {
            let ghost now = subset_views(subsets@);
            subsets.push(without(&ranked, i));
            assert(subset_views(subsets@) =~= now.push(more[i as int]));
            i = i + 1;
            assert(subset_views(subsets@) =~= before + more.take(i as int));
        }
    }
    assert(more.take(more.len() as int) =~= more);
    subsets
}

/// The scene with other constraints.
pub open spec fn narrowed_to(scene: SceneView, constraints: Seq<Constraint>) -> SceneView {
    SceneView { constraints, ..scene }
}

/// The solutions for subsets of the constraints, as far as there are any.
pub open spec fn modes_of(
    rules: Rules,
    scene: SceneView,
    subsets: Seq<Seq<Constraint>>,
) -> Seq<Candidate>
    decreases subsets.len(),
{
    if subsets.len() == 0 {
        Seq::<Candidate>::empty()
    } else {
        let before = modes_of(rules, scene, subsets.drop_last());
        match solved(rules, narrowed_to(scene, subsets.last())) {
            Some(mode) => before.push(mode),
            None => before,
        }
    }
}

/// The solutions for subsets of the constraints that show how stable the solution is.
pub fn subset_modes<A: Fn(Calc) -> Double>(
    scene: &Scene,
    arith: &Arith<A>,
) -> (modes: Vec<Candidate>)
    requires
        arith.complete(),
    ensures
        forall|rules: Rules| #[trigger]
            arith.follows(rules) ==> modes@ == modes_of(
                rules,
                scene@,
                subsets_of(scene.constraints@),
            ),
{
    let subsets = stability_subsets(scene.constraints);
    let ghost all = subset_views(subsets@);
    let mut modes: Vec<Candidate> = Vec::new();
    let mut i: usize = 0;
    assert(all.take(0) =~= Seq::<Seq<Constraint>>::empty());
    while i < subsets.len()
        invariant
            arith.complete(),
            all == subset_views(subsets@),
            i <= subsets@.len(),
            forall|rules: Rules| #[trigger]
                arith.follows(rules) ==> modes@ == modes_of(rules, scene@, all.take(i as int)),
        decreases subsets@.len() - i,
    {
        assert(all.take(i + 1).drop_last() =~= all.take(i as int));
        assert(all.take(i + 1).last() == subsets@[i as int]@);
        match solve_once(&subsets[i], scene.hints, scene.shared_rtt_floor_ms, arith) {
            Some(mode) => {
                modes.push(mode);
            },
            None => {},
        }
        i = i + 1;
    }
    assert(all.take(subsets@.len() as int) =~= all);
    modes
}

/// Values, each with its number.
pub open spec fn numbered_values(values: Seq<Double>) -> Seq<(usize, Double)> {
    Seq::new(values.len(), |i: int| (i as usize, values[i]))
}

/// The values by ascending size.
pub open spec fn sorted(values: Seq<Double>) -> Seq<Double> {
    let order = ascending(numbered_values(values));
    Seq::new(values.len(), |k: int| order[k].1)
}

/// Values, each with its number.
pub fn number_values(values: &Vec<Double>) -> (items: Vec<(usize, Double)>)
    ensures
        items@ == numbered_values(values@),
{
    let mut items: Vec<(usize, Double)> = Vec::new();
    let mut i: usize = 0;
    while i < values.len()
        invariant
            i <= values@.len(),
            items@ == numbered_values(values@).take(i as int),
        decreases values@.len() - i,
    {
        items.push((i, values[i]));
        i = i + 1;
        assert(items@ =~= numbered_values(values@).take(i as int));
    }
    assert(items@ =~= numbered_values(values@));
    items
}

/// The values by ascending size.
pub fn sort_values(values: &Vec<Double>) -> (r: Vec<Double>)
    ensures
        r@ == sorted(values@),
{
    let items = number_values(values);
    let order = rank(&items);
    proof {
        lemma_ascending_orders(items@);
    }
    let mut r: Vec<Double> = Vec::new();
    let mut k: usize = 0;
    while k < order.len()
        invariant
            order@ == ascending(numbered_values(values@)),
            order@.len() == values@.len(),
            k <= order@.len(),
            r@ == sorted(values@).take(k as int),
        decreases order@.len() - k,
    {
        r.push(order[k].1);
        k = k + 1;
        assert(r@ =~= sorted(values@).take(k as int));
    }
    assert(r@ =~= sorted(values@));
    r
}

/// The distances from a place to candidates.
pub open spec fn distances_from(rules: Rules, place: Place, found: Seq<Candidate>) -> Seq<Double> {
    Seq::new(found.len(), |i: int| distance(rules, place, found[i].place))
}

/// How far the solutions for subsets are from a place: three quarters of them are
/// not farther.
pub open spec fn stability_radius(rules: Rules, place: Place, modes: Seq<Candidate>) -> Double {
    if modes.len() == 0 {
        zero()
    } else {
        sorted(distances_from(rules, place, modes))[(modes.len() - 1) * 3 / 4]
    }
}

/// How far the solutions for subsets are from a place: three quarters of them are
/// not farther.
pub fn stability_radius_km<A: Fn(Calc) -> Double>(
    place: Place,
    modes: &Vec<Candidate>,
    arith: &Arith<A>,
) -> (radius: Double)
    requires
        arith.complete(),
    ensures
        forall|rules: Rules| #[trigger]
            arith.follows(rules) ==> radius == stability_radius(rules, place, modes@),
{
    if modes.len() == 0 {
        return nothing();
    }
    let mut distances: Vec<Double> = Vec::new();
    let mut i: usize = 0;
    while i < modes.len()
        invariant
            arith.complete(),
            i <= modes@.len(),
            distances@.len() == i,
            forall|rules: Rules, j: int|
                #![trigger arith.follows(rules), distances@[j]]
                arith.follows(rules) && 0 <= j < i ==> distances@[j] == distance(
                    rules,
                    place,
                    modes@[j].place,
                ),
        decreases modes@.len() - i,
    {
        distances.push(distance_km(place, modes[i].place, arith));
        i = i + 1;
    }
    assert forall|rules: Rules| #[trigger] arith.follows(rules) implies distances@
        == distances_from(rules, place, modes@) by {
        assert(distances@ =~= distances_from(rules, place, modes@));
    }
    let ordered = sort_values(&distances);
    let last: usize = modes.len() - 1;
    let index: usize = last / 4 * 3 + last % 4 * 3 / 4;
    ordered[index]
}

/// The places of candidates.
pub open spec fn places_of(found: Seq<Candidate>) -> Seq<Place> {
    Seq::new(found.len(), |i: int| found[i].place)
}

/// The places of the first eight constraints, as far as there are so many.
pub open spec fn first_anchor_places(rules: Rules, constraints: Seq<Constraint>) -> Seq<Place> {
    Seq::new(
        if constraints.len() < 8 {
            constraints.len()
        } else {
            8
        },
        |i: int| place_of(rules, constraints[i].anchor@),
    )
}

/// The places of hints.
pub open spec fn hint_places(rules: Rules, hints: Seq<HintView>) -> Seq<Place> {
    Seq::new(hints.len(), |i: int| place_of(rules, hints[i].anchor))
}

/// The places around which samples are taken.
pub open spec fn seeds_of(
    rules: Rules,
    scene: SceneView,
    mode: Candidate,
    modes: Seq<Candidate>,
) -> Seq<Place> {
    (seq![mode.place] + places_of(modes) + first_anchor_places(rules, scene.constraints)
        + hint_places(rules, scene.hints)).push(
        center_of(rules, bound_places(rules, scene.constraints)),
    )
}

fn collect_seeds<A: Fn(Calc) -> Double>(
    scene: &Scene,
    mode: &Candidate,
    modes: &Vec<Candidate>,
    arith: &Arith<A>,
) -> (seeds: Vec<Place>)
    requires
        arith.complete(),
    ensures
        forall|rules: Rules| #[trigger]
            arith.follows(rules) ==> seeds@ == seeds_of(rules, scene@, *mode, modes@),
{
    let n: usize = modes.len();
    let m: usize = if scene.constraints.len() < 8 {
        scene.constraints.len()
    } else {
        8
    };
    let ghost hints = hint_views(scene.hints@);
    let mut seeds: Vec<Place> = Vec::new();
    seeds.push(mode.place);
    let mut i: usize = 0;
    while i < n
        invariant
            n == modes@.len(),
            i <= n,
            seeds@ == seq![mode.place] + places_of(modes@).take(i as int),
        decreases n - i,
    {
        seeds.push(modes[i].place);
        i = i + 1;
        assert(seeds@ =~= seq![mode.place] + places_of(modes@).take(i as int));
    }
    let ghost head = seq![mode.place] + places_of(modes@);
    assert(seeds@ =~= head);
    i = 0;
    while i < m
        invariant
            arith.complete(),
            m <= scene.constraints@.len(),
            m <= 8,
            i <= m,
            seeds@.len() == head.len() + i,
            forall|j: int| 0 <= j < head.len() ==> #[trigger] seeds@[j] == head[j],
            forall|rules: Rules, j: int|
                #![trigger arith.follows(rules), seeds@[j]]
                arith.follows(rules) && head.len() <= j < head.len() + i ==> seeds@[j]
                    == first_anchor_places(rules, scene.constraints@)[j - head.len()],
        decreases m - i,
    {
        seeds.push(anchor_place(&scene.constraints[i].anchor, arith));
        i = i + 1;
    }
    let ghost bulk = seeds@;
    i = 0;
    while i < scene.hints.len()
        invariant
            arith.complete(),
            hints == hint_views(scene.hints@),
            i <= scene.hints@.len(),
            seeds@.len() == bulk.len() + i,
            forall|j: int| 0 <= j < bulk.len() ==> #[trigger] seeds@[j] == bulk[j],
            forall|rules: Rules, j: int|
                #![trigger arith.follows(rules), seeds@[j]]
                arith.follows(rules) && bulk.len() <= j < bulk.len() + i ==> seeds@[j]
                    == hint_places(rules, hints)[j - bulk.len()],
        decreases scene.hints@.len() - i,
    {
        seeds.push(anchor_place(&scene.hints[i].anchor, arith));
        i = i + 1;
    }
    seeds.push(weighted_centroid(scene.constraints, arith));
    assert forall|rules: Rules| #[trigger] arith.follows(rules) implies seeds@ == seeds_of(
        rules,
        scene@,
        *mode,
        modes@,
    ) by {
        assert(bulk =~= head + first_anchor_places(rules, scene.constraints@));
        assert(seeds@ =~= seeds_of(rules, scene@, *mode, modes@));
    }
    seeds
}

/// The widths of the steps, in degrees, with which samples are taken.
pub open spec fn sample_width(rules: Rules, i: int) -> Double {
    if i == 0 {
        rules.count(2)
    } else if i == 1 {
        rules.count(1)
    } else if i == 2 {
        rules.ratio(5, 10)
    } else if i == 3 {
        rules.ratio(2, 10)
    } else {
        rules.ratio(1, 10)
    }
}

fn width_of_sample<A: Fn(Calc) -> Double>(i: i32, arith: &Arith<A>) -> (width: Double)
    requires
        arith.complete(),
    ensures
        forall|rules: Rules| #[trigger]
            arith.follows(rules) ==> width == sample_width(rules, i as int),
{
    if i == 0 {
        arith.count(2)
    } else if i == 1 {
        arith.count(1)
    } else if i == 2 {
        arith.ratio(5, 10)
    } else if i == 3 {
        arith.ratio(2, 10)
    } else {
        arith.ratio(1, 10)
    }
}

/// The places around a seed: for each width a square, row by row, with four steps to
/// each side.
pub open spec fn sample_place(rules: Rules, seed: Place, k: int) -> Place {
    moved(rules, seed, k % 81 / 9 - 4, k % 9 - 4, sample_width(rules, k / 81))
}

/// One pattern for all that count as the same whole number.
pub open spec fn canonical(value: Double) -> u64 {
    if value.nan() || value.magnitude() == 0 {
        0
    } else {
        value.bits
    }
}

/// What tells places apart: their coordinates, to a thousandth of a degree.
pub open spec fn place_key(rules: Rules, place: Place) -> (u64, u64) {
    (
        canonical(rules.round(rules.mul(place.latitude, rules.count(1000)))),
        canonical(rules.round(rules.mul(place.longitude, rules.count(1000)))),
    )
}

fn canonical_bits(value: Double) -> (bits: u64)
    ensures
        bits == canonical(value),
{
    if value.is_nan() || value.bits == crate::double::SIGN {
        0
    } else {
        value.bits
    }
}

fn key_of_place<A: Fn(Calc) -> Double>(place: Place, arith: &Arith<A>) -> (key: (u64, u64))
    requires
        arith.complete(),
    ensures
        forall|rules: Rules| #[trigger] arith.follows(rules) ==> key == place_key(rules, place),
{
    let latitude = arith.round(arith.mul(place.latitude, arith.count(1000)));
    let longitude = arith.round(arith.mul(place.longitude, arith.count(1000)));
    (canonical_bits(latitude), canonical_bits(longitude))
}

/// Tells whether a place of the list has this key.
pub open spec fn known(rules: Rules, places: Seq<Place>, key: (u64, u64)) -> bool {
    exists|i: int| 0 <= i < places.len() && place_key(rules, #[trigger] places[i]) == key
}

/// The places with one more, unless it is known.
pub open spec fn with_place(rules: Rules, places: Seq<Place>, place: Place) -> Seq<Place> {
    if known(rules, places, place_key(rules, place)) {
        places
    } else {
        places.push(place)
    }
}

/// The places with the first ones around a seed.
pub open spec fn with_seed(rules: Rules, places: Seq<Place>, seed: Place, tried: nat) -> Seq<Place>
    decreases tried,
{
    if tried == 0 {
        places
    } else {
        with_place(
            rules,
            with_seed(rules, places, seed, (tried - 1) as nat),
            sample_place(rules, seed, tried - 1),
        )
    }
}

/// The places around seeds, each once.
pub open spec fn sample_places(rules: Rules, seeds: Seq<Place>) -> Seq<Place>
    decreases seeds.len(),
{
    if seeds.len() == 0 {
        seeds
    } else {
        with_seed(rules, sample_places(rules, seeds.drop_last()), seeds.last(), 405)
    }
}

/// Places, with their keys.
struct KnownPlaces {
    places: Vec<Place>,
    keys: Vec<(u64, u64)>,
}

impl KnownPlaces {
    /// Tells whether the keys are those of the places.
    spec fn keyed(&self, rules: Rules) -> bool {
        &&& self.keys@.len() == self.places@.len()
        &&& forall|i: int|
            0 <= i < self.keys@.len() ==> #[trigger] self.keys@[i] == place_key(
                rules,
                self.places@[i],
            )
    }

    fn has(&self, key: (u64, u64)) -> (yes: bool)
        ensures
            yes == self.keys@.contains(key),
    {
        let mut i: usize = 0;
        while i < self.keys.len()
            invariant
                i <= self.keys@.len(),
                forall|j: int| 0 <= j < i ==> #[trigger] self.keys@[j] != key,
            decreases self.keys@.len() - i,
        {
            if self.keys[i].0 == key.0 && self.keys[i].1 == key.1 {
                assert(self.keys@[i as int] == key);
                return true;
            }
            i = i + 1;
        }
        false
    }
}

fn add_place<A: Fn(Calc) -> Double>(seen: &mut KnownPlaces, place: Place, arith: &Arith<A>)
    requires
        arith.complete(),
        forall|rules: Rules| #[trigger] arith.follows(rules) ==> old(seen).keyed(rules),
    ensures
        forall|rules: Rules| #[trigger]
            arith.follows(rules) ==> {
                &&& final(seen).keyed(rules)
                &&& final(seen).places@ == with_place(rules, old(seen).places@, place)
            },
{
    let key = key_of_place(place, arith);
    let ghost before = *seen;
    let present = seen.has(key);
    assert forall|rules: Rules| #[trigger] arith.follows(rules) implies present == known(
        rules,
        before.places@,
        key,
    ) by {
        if present {
            let i = choose|i: int| 0 <= i < before.keys@.len() && before.keys@[i] == key;
            assert(place_key(rules, before.places@[i]) == key);
        } else if known(rules, before.places@, key) {
            let i = choose|i: int|
                0 <= i < before.places@.len() && place_key(rules, #[trigger] before.places@[i])
                    == key;
            assert(before.keys@[i] == key);
        }
    }
    if !present {
        seen.keys.push(key);
        seen.places.push(place);
    }
}

fn add_seed<A: Fn(Calc) -> Double>(seen: &mut KnownPlaces, seed: Place, arith: &Arith<A>)
    requires
        arith.complete(),
        forall|rules: Rules| #[trigger] arith.follows(rules) ==> old(seen).keyed(rules),
    ensures
        forall|rules: Rules| #[trigger]
            arith.follows(rules) ==> {
                &&& final(seen).keyed(rules)
                &&& final(seen).places@ == with_seed(rules, old(seen).places@, seed, 405)
            },
{
    let ghost before = seen.places@;
    let mut k: i32 = 0;
    while k < 405
        invariant
            arith.complete(),
            0 <= k <= 405,
            forall|rules: Rules| #[trigger]
                arith.follows(rules) ==> {
                    &&& seen.keyed(rules)
                    &&& seen.places@ == with_seed(rules, before, seed, k as nat)
                },
        decreases 405 - k,
    {
        let width = width_of_sample(k / 81, arith);
        let place = move_place(seed, k % 81 / 9 - 4, k % 9 - 4, width, arith);
        add_place(seen, place, arith);
        k = k + 1;
    }
}

/// The candidates at places.
pub open spec fn candidates_at(
    rules: Rules,
    scene: SceneView,
    places: Seq<Place>,
) -> Seq<Candidate> {
    Seq::new(places.len(), |i: int| candidate_at(rules, scene, places[i]))
}

/// The samples around the solution, the solutions for subsets, the first anchors, the
/// hints, and the centre of the anchors.
pub open spec fn samples_of(
    rules: Rules,
    scene: SceneView,
    mode: Candidate,
    modes: Seq<Candidate>,
) -> Seq<Candidate> {
    candidates_at(rules, scene, sample_places(rules, seeds_of(rules, scene, mode, modes)))
}

/// The samples around the solution, the solutions for subsets, the first anchors, the
/// hints, and the centre of the anchors.
pub fn posterior_samples<A: Fn(Calc) -> Double>(
    scene: &Scene,
    mode: &Candidate,
    modes: &Vec<Candidate>,
    arith: &Arith<A>,
) -> (samples: Vec<Candidate>)
    requires
        arith.complete(),
    ensures
        forall|rules: Rules| #[trigger]
            arith.follows(rules) ==> samples@ == samples_of(rules, scene@, *mode, modes@),
{
    let seeds = collect_seeds(scene, mode, modes, arith);
    let mut seen = KnownPlaces { places: Vec::new(), keys: Vec::new() };
    let mut i: usize = 0;
    assert(seeds@.take(0) =~= Seq::<Place>::empty());
    while i < seeds.len()
        invariant
            arith.complete(),
            i <= seeds@.len(),
            forall|rules: Rules| #[trigger]
                arith.follows(rules) ==> {
                    &&& seen.keyed(rules)
                    &&& seen.places@ == sample_places(rules, seeds@.take(i as int))
                },
        decreases seeds@.len() - i,
    {
        assert(seeds@.take(i + 1).drop_last() =~= seeds@.take(i as int));
        assert(seeds@.take(i + 1).last() == seeds@[i as int]);
        add_seed(&mut seen, seeds[i], arith);
        i = i + 1;
    }
    assert(seeds@.take(seeds@.len() as int) =~= seeds@);
    let places = seen.places;
    let mut samples: Vec<Candidate> = Vec::new();
    i = 0;
    while i < places.len()
        invariant
            arith.complete(),
            i <= places@.len(),
            samples@.len() == i,
            forall|rules: Rules, j: int|
                #![trigger arith.follows(rules), samples@[j]]
                arith.follows(rules) && 0 <= j < i ==> samples@[j] == candidate_at(
                    rules,
                    scene@,
                    places@[j],
                ),
        decreases places@.len() - i,
    {
        samples.push(candidate(places[i], scene, arith));
        i = i + 1;
    }
    assert forall|rules: Rules| #[trigger] arith.follows(rules) implies samples@ == samples_of(
        rules,
        scene@,
        *mode,
        modes@,
    ) by {
        assert(samples@ =~= candidates_at(rules, scene@, places@));
    }
    samples
}

} // verus!
