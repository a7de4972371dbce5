//! The centre of the samples, and how far around it most of their weight lies.

use crate::calc::{Arith, Calc, Rules};
use crate::double::{nothing, zero, Double};
use crate::geometry::{center_of, distance, distance_km, weighted_center, Place};
use crate::posterior::{sort_values, sorted};
use crate::ranking::{ascending, lemma_ascending_members, lemma_ascending_orders, rank};
use crate::search::Candidate;
use vstd::prelude::*;

verus! {

/// The centre of the samples, and the radius that three quarters of their weight lie
/// within.
#[derive(Debug, Clone, Copy, PartialEq, Eq, Structural)]
pub struct PosteriorSummary {
    pub place: Place,
    pub radius_km: Double,
}

/// How much worse than the mode a candidate is.
pub open spec fn excess(rules: Rules, mode: Candidate, found: Candidate) -> Double {
    rules.sub(found.score, mode.score).greater(zero())
}

fn excess_of<A: Fn(Calc) -> Double>(
    mode: &Candidate,
    found: &Candidate,
    arith: &Arith<A>,
) -> (r: Double)
    requires
        arith.complete(),
    ensures
        forall|rules: Rules| #[trigger] arith.follows(rules) ==> r == excess(rules, *mode, *found),
{
    arith.sub(found.score, mode.score).max(nothing())
}

/// How much worse than the mode those candidates are that are worse.
pub open spec fn excesses(rules: Rules, mode: Candidate, samples: Seq<Candidate>) -> Seq<Double>
    decreases samples.len(),
{
    if samples.len() == 0 {
        Seq::<Double>::empty()
    } else {
        let before = excesses(rules, mode, samples.drop_last());
        let next = excess(rules, mode, samples.last());
        if zero().below(next) {
            before.push(next)
        } else {
            before
        }
    }
}

/// The position of the value that sets the temperature: the middle of the first
/// twenty-four.
pub open spec fn middle(n: nat) -> int {
    if n == 0 {
        0
    } else if n > 24 {
        11
    } else {
        (n - 1) / 2
    }
}

/// How much worse a sample may be and still count, one at least.
pub open spec fn temperature(rules: Rules, mode: Candidate, samples: Seq<Candidate>) -> Double {
    let values = sorted(excesses(rules, mode, samples));
    (if values.len() > 0 {
        values[middle(values.len())]
    } else {
        rules.count(1)
    }).greater(rules.count(1))
}

fn collect_excesses<A: Fn(Calc) -> Double>(
    mode: &Candidate,
    samples: &Vec<Candidate>,
    arith: &Arith<A>,
) -> (values: Vec<Double>)
    requires
        arith.complete(),
    ensures
        forall|rules: Rules| #[trigger]
            arith.follows(rules) ==> values@ == excesses(rules, *mode, samples@),
{
    let mut values: Vec<Double> = Vec::new();
    let mut i: usize = 0;
    assert(samples@.take(0) =~= Seq::<Candidate>::empty());
    while i < samples.len()
        invariant
            arith.complete(),
            i <= samples@.len(),
            forall|rules: Rules| #[trigger]
                arith.follows(rules) ==> values@ == excesses(rules, *mode, samples@.take(i as int)),
        decreases samples@.len() - i,
    {
        assert(samples@.take(i + 1).drop_last() =~= samples@.take(i as int));
        assert(samples@.take(i + 1).last() == samples@[i as int]);
        let next = excess_of(mode, &samples[i], arith);
        if nothing().is_below(&next) {
            values.push(next);
        }
        i = i + 1;
    }
    assert(samples@.take(samples@.len() as int) =~= samples@);
    values
}

fn temperature_of<A: Fn(Calc) -> Double>(
    mode: &Candidate,
    samples: &Vec<Candidate>,
    arith: &Arith<A>,
) -> (r: Double)
    requires
        arith.complete(),
    ensures
        forall|rules: Rules| #[trigger]
            arith.follows(rules) ==> r == temperature(rules, *mode, samples@),
{
    let values = sort_values(&collect_excesses(mode, samples, arith));
    let n: usize = values.len();
    let value = if n == 0 {
        arith.count(1)
    } else if n > 24 {
        values[11]
    } else {
        values[(n - 1) / 2]
    };
    value.max(arith.count(1))
}

/// The samples with their weights: the worse one is, the less it weighs.
pub open spec fn weighed(
    rules: Rules,
    mode: Candidate,
    samples: Seq<Candidate>,
    heat: Double,
) -> Seq<(Place, Double)> {
    Seq::new(
        samples.len(),
        |i: int|
            (
                samples[i].place,
                rules.exp(rules.div(excess(rules, mode, samples[i]).turned(), heat)),
            ),
    )
}

fn weigh<A: Fn(Calc) -> Double>(
    mode: &Candidate,
    samples: &Vec<Candidate>,
    heat: Double,
    arith: &Arith<A>,
) -> (items: Vec<(Place, Double)>)
    requires
        arith.complete(),
    ensures
        forall|rules: Rules| #[trigger]
            arith.follows(rules) ==> items@ == weighed(rules, *mode, samples@, heat),
{
    let mut items: Vec<(Place, Double)> = Vec::new();
    let mut i: usize = 0;
    while i < samples.len()
        invariant
            arith.complete(),
            i <= samples@.len(),
            items@.len() == i,
            forall|rules: Rules, j: int|
                #![trigger arith.follows(rules), items@[j]]
                arith.follows(rules) && 0 <= j < i ==> items@[j] == weighed(
                    rules,
                    *mode,
                    samples@,
                    heat,
                )[j],
        decreases samples@.len() - i,
    {
        let excess = excess_of(mode, &samples[i], arith);
        let weight = arith.exp(arith.div(excess.neg(), heat));
        items.push((samples[i].place, weight));
        i = i + 1;
    }
    assert forall|rules: Rules| #[trigger] arith.follows(rules) implies items@ == weighed(
        rules,
        *mode,
        samples@,
        heat,
    ) by {
        assert(items@ =~= weighed(rules, *mode, samples@, heat));
    }
    items
}

/// The solutions for subsets, all of the same weight.
pub open spec fn evenly(rules: Rules, modes: Seq<Candidate>) -> Seq<(Place, Double)> {
    Seq::new(modes.len(), |i: int| (modes[i].place, rules.count(1)))
}

fn weigh_evenly<A: Fn(Calc) -> Double>(
    modes: &Vec<Candidate>,
    arith: &Arith<A>,
) -> (items: Vec<(Place, Double)>)
    requires
        arith.complete(),
    ensures
        forall|rules: Rules| #[trigger] arith.follows(rules) ==> items@ == evenly(rules, modes@),
{
    let one = arith.count(1);
    let mut items: Vec<(Place, Double)> = Vec::new();
    let mut i: usize = 0;
    while i < modes.len()
        invariant
            i <= modes@.len(),
            items@.len() == i,
            forall|j: int| 0 <= j < i ==> #[trigger] items@[j] == (modes@[j].place, one),
        decreases modes@.len() - i,
    {
        items.push((modes[i].place, one));
        i = i + 1;
    }
    assert forall|rules: Rules| #[trigger] arith.follows(rules) implies items@ == evenly(
        rules,
        modes@,
    ) by {
        assert(items@ =~= evenly(rules, modes@));
    }
    items
}

/// The sum of the weights.
pub open spec fn total_weight<T>(rules: Rules, items: Seq<(T, Double)>) -> Double
    decreases items.len(),
{
    if items.len() == 0 {
        zero()
    } else {
        rules.add(total_weight(rules, items.drop_last()), items.last().1)
    }
}

fn sum_weights<T, A: Fn(Calc) -> Double>(
    items: &Vec<(T, Double)>,
    arith: &Arith<A>,
) -> (sum: Double)
    requires
        arith.complete(),
    ensures
        forall|rules: Rules| #[trigger] arith.follows(rules) ==> sum == total_weight(rules, items@),
{
    let mut sum = nothing();
    let mut i: usize = 0;
    assert(items@.take(0) =~= Seq::<(T, Double)>::empty());
    while i < items.len()
        invariant
            arith.complete(),
            i <= items@.len(),
            forall|rules: Rules| #[trigger]
                arith.follows(rules) ==> sum == total_weight(rules, items@.take(i as int)),
        decreases items@.len() - i,
    {
        assert(items@.take(i + 1).drop_last() =~= items@.take(i as int));
        assert(items@.take(i + 1).last() == items@[i as int]);
        sum = arith.add(sum, items[i].1);
        i = i + 1;
    }
    assert(items@.take(items@.len() as int) =~= items@);
    sum
}

/// The weighted places with their weights scaled to a sum of `target`. Weights whose
/// sum is not positive stay as they are.
pub open spec fn scaled(
    rules: Rules,
    items: Seq<(Place, Double)>,
    target: Double,
) -> Seq<(Place, Double)> {
    let total = total_weight(rules, items);
    if total.at_most(zero()) || target.at_most(zero()) {
        items
    } else {
        Seq::new(
            items.len(),
            |i: int| (items[i].0, rules.div(rules.mul(items[i].1, target), total)),
        )
    }
}

/// Scales the weights of places to a sum of `target_total_weight`.
pub fn normalize_weighted_candidates<A: Fn(Calc) -> Double>(
    items: Vec<(Place, Double)>,
    target_total_weight: Double,
    arith: &Arith<A>,
) -> (r: Vec<(Place, Double)>)
    requires
        arith.complete(),
    ensures
        forall|rules: Rules| #[trigger]
            arith.follows(rules) ==> r@ == scaled(rules, items@, target_total_weight),
{
    let total = sum_weights(&items, arith);
    if total.is_at_most(&nothing()) || target_total_weight.is_at_most(&nothing()) {
        return items;
    }
    let mut r: Vec<(Place, Double)> = Vec::new();
    let mut i: usize = 0;
    while i < items.len()
        invariant
            arith.complete(),
            i <= items@.len(),
            r@.len() == i,
            forall|rules: Rules, j: int|
                #![trigger arith.follows(rules), r@[j]]
                arith.follows(rules) && 0 <= j < i ==> r@[j] == (
                    items@[j].0,
                    rules.div(rules.mul(items@[j].1, target_total_weight), total),
                ),
        decreases items@.len() - i,
    {
        let weight = arith.div(arith.mul(items[i].1, target_total_weight), total);
        r.push((items[i].0, weight));
        i = i + 1;
    }
    assert forall|rules: Rules| #[trigger] arith.follows(rules) implies r@ == scaled(
        rules,
        items@,
        target_total_weight,
    ) by {
        assert(r@ =~= scaled(rules, items@, target_total_weight));
    }
    r
}

/// The samples and the solutions for subsets, either half of the weight.
pub open spec fn blended(
    rules: Rules,
    mode: Candidate,
    samples: Seq<Candidate>,
    modes: Seq<Candidate>,
) -> Seq<(Place, Double)> {
    let heat = temperature(rules, mode, samples);
    scaled(rules, weighed(rules, mode, samples, heat), rules.ratio(5, 10)) + scaled(
        rules,
        evenly(rules, modes),
        rules.ratio(5, 10),
    )
}

fn blend<A: Fn(Calc) -> Double>(
    mode: &Candidate,
    samples: &Vec<Candidate>,
    modes: &Vec<Candidate>,
    arith: &Arith<A>,
) -> (items: Vec<(Place, Double)>)
    requires
        arith.complete(),
    ensures
        forall|rules: Rules| #[trigger]
            arith.follows(rules) ==> items@ == blended(rules, *mode, samples@, modes@),
{
    let half = arith.ratio(5, 10);
    let heat = temperature_of(mode, samples, arith);
    let weighted = weigh(mode, samples, heat, arith);
    let mut items = normalize_weighted_candidates(weighted, half, arith);
    let even = weigh_evenly(modes, arith);
    let more = normalize_weighted_candidates(even, half, arith);
    let ghost head = items@;
    let mut i: usize = 0;
    assert(head + more@.take(0) =~= head);
    while i < more.len()
        invariant
            i <= more@.len(),
            items@ == head + more@.take(i as int),
        decreases more@.len() - i,
    {
        items.push(more[i]);
        i = i + 1;
        assert(items@ =~= head + more@.take(i as int));
    }
    assert(more@.take(more@.len() as int) =~= more@);
    items
}

/// The distances of places, each with the number of its place.
pub open spec fn numbered_distances(
    rules: Rules,
    center: Place,
    items: Seq<(Place, Double)>,
) -> Seq<(usize, Double)> {
    Seq::new(items.len(), |i: int| (i as usize, distance(rules, center, items[i].0)))
}

/// The distances of weighted places with their weights, by ascending distance.
pub open spec fn by_distance(
    rules: Rules,
    center: Place,
    items: Seq<(Place, Double)>,
) -> Seq<(Double, Double)> {
    let order = ascending(numbered_distances(rules, center, items));
    Seq::new(items.len(), |k: int| (order[k].1, items[order[k].0 as int].1))
}

fn number_distances<A: Fn(Calc) -> Double>(
    center: Place,
    items: &Vec<(Place, Double)>,
    arith: &Arith<A>,
) -> (numbered: Vec<(usize, Double)>)
    requires
        arith.complete(),
    ensures
        numbered@.len() == items@.len(),
        forall|i: int| 0 <= i < items@.len() ==> (#[trigger] numbered@[i]).0 == i,
        forall|rules: Rules| #[trigger]
            arith.follows(rules) ==> numbered@ == numbered_distances(rules, center, items@),
{
    let mut numbered: Vec<(usize, Double)> = Vec::new();
    let mut i: usize = 0;
    while i < items.len()
        invariant
            arith.complete(),
            i <= items@.len(),
            numbered@.len() == i,
            forall|j: int| 0 <= j < i ==> (#[trigger] numbered@[j]).0 == j,
            forall|rules: Rules, j: int|
                #![trigger arith.follows(rules), numbered@[j]]
                arith.follows(rules) && 0 <= j < i ==> numbered@[j].1 == distance(
                    rules,
                    center,
                    items@[j].0,
                ),
        decreases items@.len() - i,
    {
        numbered.push((i, distance_km(center, items[i].0, arith)));
        i = i + 1;
    }
    assert forall|rules: Rules| #[trigger] arith.follows(rules) implies numbered@
        == numbered_distances(rules, center, items@) by {
        assert(numbered@ =~= numbered_distances(rules, center, items@));
    }
    numbered
}

fn order_by_distance<A: Fn(Calc) -> Double>(
    center: Place,
    items: &Vec<(Place, Double)>,
    arith: &Arith<A>,
) -> (pairs: Vec<(Double, Double)>)
    requires
        arith.complete(),
    ensures
        forall|rules: Rules| #[trigger]
            arith.follows(rules) ==> pairs@ == by_distance(rules, center, items@),
{
    let numbered = number_distances(center, items, arith);
    let order = rank(&numbered);
    proof {
        lemma_ascending_orders(numbered@);
    }
    let mut pairs: Vec<(Double, Double)> = Vec::new();
    let mut k: usize = 0;
    while k < order.len()
        invariant
            order@ == ascending(numbered@),
            order@.len() == items@.len(),
            numbered@.len() == items@.len(),
            forall|i: int| 0 <= i < items@.len() ==> (#[trigger] numbered@[i]).0 == i,
            k <= order@.len(),
            pairs@.len() == k,
            forall|j: int|
                0 <= j < k ==> #[trigger] pairs@[j] == (
                    order@[j].1,
                    items@[order@[j].0 as int].1,
                ),
        decreases order@.len() - k,
    {
        proof {
            lemma_ascending_members(numbered@, k as int);
        }
        let at = order[k].0;
        pairs.push((order[k].1, items[at].1));
        k = k + 1;
    }
    assert forall|rules: Rules| #[trigger] arith.follows(rules) implies pairs@ == by_distance(
        rules,
        center,
        items@,
    ) by {
        assert(pairs@ =~= by_distance(rules, center, items@));
    }
    pairs
}

/// The first value, if any of the first is it, at which the sum of the weights reaches
/// a threshold.
pub open spec fn reached(
    rules: Rules,
    pairs: Seq<(Double, Double)>,
    threshold: Double,
    tried: nat,
) -> Option<Double>
    decreases tried,
{
    if tried == 0 {
        None
    } else {
        match reached(rules, pairs, threshold, (tried - 1) as nat) {
            Some(value) => Some(value),
            None => if threshold.at_most(total_weight(rules, pairs.take(tried as int))) {
                Some(pairs[tried - 1].0)
            } else {
                None
            },
        }
    }
}

/// The first value that, with those before it, has a share of all weight.
pub open spec fn quantile(rules: Rules, pairs: Seq<(Double, Double)>, share: Double) -> Double {
    let total = total_weight(rules, pairs);
    if total.at_most(zero()) {
        zero()
    } else {
        let threshold = rules.mul(total, share.clamped(zero(), rules.count(1)));
        match reached(rules, pairs, threshold, pairs.len()) {
            Some(value) => value,
            None => if pairs.len() > 0 {
                pairs.last().0
            } else {
                zero()
            },
        }
    }
}

proof fn lemma_reached_stays(
    rules: Rules,
    pairs: Seq<(Double, Double)>,
    threshold: Double,
    tried: nat,
    more: nat,
)
    requires
        tried <= more,
        reached(rules, pairs, threshold, tried) is Some,
    ensures
        reached(rules, pairs, threshold, more) == reached(rules, pairs, threshold, tried),
    decreases more,
{
    if tried < more {
        lemma_reached_stays(rules, pairs, threshold, tried, (more - 1) as nat);
    }
}

/// The first value that, with those before it, has a share of all weight.
pub fn weighted_quantile_distance<A: Fn(Calc) -> Double>(
    pairs: &Vec<(Double, Double)>,
    share: Double,
    arith: &Arith<A>,
) -> (value: Double)
    requires
        arith.complete(),
    ensures
        forall|rules: Rules| #[trigger]
            arith.follows(rules) ==> value == quantile(rules, pairs@, share),
{
    let total = sum_weights(pairs, arith);
    if total.is_at_most(&nothing()) {
        return nothing();
    }
    let threshold = arith.mul(total, share.clamp(nothing(), arith.count(1)));
    let mut sum = nothing();
    let mut i: usize = 0;
    assert(pairs@.take(0) =~= Seq::<(Double, Double)>::empty());
    while i < pairs.len()
        invariant
            arith.complete(),
            i <= pairs@.len(),
            !total.at_most(zero()),
            forall|rules: Rules| #[trigger]
                arith.follows(rules) ==> {
                    &&& total == total_weight(rules, pairs@)
                    &&& threshold == rules.mul(total, share.clamped(zero(), rules.count(1)))
                    &&& sum == total_weight(rules, pairs@.take(i as int))
                    &&& reached(rules, pairs@, threshold, i as nat) is None
                },
        decreases pairs@.len() - i,
    {
        assert(pairs@.take(i + 1).drop_last() =~= pairs@.take(i as int));
        assert(pairs@.take(i + 1).last() == pairs@[i as int]);
        sum = arith.add(sum, pairs[i].1);
        if threshold.is_at_most(&sum) {
            let value = pairs[i].0;
            assert forall|rules: Rules| #[trigger] arith.follows(rules) implies value == quantile(
                rules,
                pairs@,
                share,
            ) by {
                assert(reached(rules, pairs@, threshold, (i + 1) as nat) == Some(value));
                lemma_reached_stays(rules, pairs@, threshold, (i + 1) as nat, pairs@.len());
            }
            return value;
        }
        i = i + 1;
    }
    if pairs.len() > 0 {
        pairs[pairs.len() - 1].0
    } else {
        nothing()
    }
}

/// The centre of the samples and the solutions for subsets, and the radius that three
/// quarters of their weight lie within. Without a choice of samples it is the mode.
pub open spec fn summarized(
    rules: Rules,
    mode: Candidate,
    samples: Seq<Candidate>,
    modes: Seq<Candidate>,
) -> PosteriorSummary {
    if samples.len() <= 1 {
        PosteriorSummary { place: mode.place, radius_km: zero() }
    } else {
        let items = blended(rules, mode, samples, modes);
        let center = center_of(rules, items);
        PosteriorSummary {
            place: center,
            radius_km: quantile(rules, by_distance(rules, center, items), rules.ratio(75, 100)),
        }
    }
}

/// The centre of the samples and the solutions for subsets, and the radius that three
/// quarters of their weight lie within.
pub fn posterior_summary<A: Fn(Calc) -> Double>(
    mode: &Candidate,
    samples: &Vec<Candidate>,
    modes: &Vec<Candidate>,
    arith: &Arith<A>,
) -> (summary: PosteriorSummary)
    requires
        arith.complete(),
    ensures
        forall|rules: Rules| #[trigger]
            arith.follows(rules) ==> summary == summarized(rules, *mode, samples@, modes@),
{
    if samples.len() <= 1 {
        return PosteriorSummary { place: mode.place, radius_km: nothing() };
    }
    let items = blend(mode, samples, modes, arith);
    let place = weighted_center(&items, arith);
    let pairs = order_by_distance(place, &items, arith);
    let radius_km = weighted_quantile_distance(&pairs, arith.ratio(75, 100), arith);
    PosteriorSummary { place, radius_km }
}

} // verus!
