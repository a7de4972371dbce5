//! What the points of the line, the members of a cluster and the samples around a solution
//! count for.

use crate::calc::Rules;
use crate::calc_laws::{capped, lemma_sizes, orderly, sized};
use crate::cluster::{cluster_strength, quality_sum, stands_out, weighted_places};
use crate::double::{zero, Double};
use crate::fit::{fit_samples, time_weight};
use crate::fit_laws::{exact_on_wholes, lemma_faster_weighs_more, quotient};
use crate::geometry::{distance_to, place_of, Place};
use crate::posterior::{distances_from, modes_of, place_key, sorted, subsets_of};
use crate::priors::dominance;
use crate::score_laws::plausible;
use crate::search::{lemma_solution_beats_starts, Candidate, SceneView};
use crate::search_laws::lemma_subsets_are_solved;
use crate::solver::{estimate_of, estimated, Constraint, Findings};
use crate::solver_laws::{
    lemma_sorted_ascends, lemma_stability_radius_is_a_quartile, lemma_subsets_are_large,
};
use crate::summary::{
    blended, evenly, excess, excesses, scaled, summarized, temperature, total_weight, weighed,
};
use vstd::prelude::*;

verus! {

/// The line is fitted to the six fastest constraints, or to all where there are fewer: to
/// the distance and the time of each.
pub proof fn lemma_six_fastest_are_fitted(
    rules: Rules,
    place: Place,
    ranked: Seq<Constraint>,
    k: int,
)
    requires
        0 <= k < ranked.len(),
        k < 6,
    ensures
        fit_samples(rules, place, ranked).len() <= 6,
        k < fit_samples(rules, place, ranked).len(),
        fit_samples(rules, place, ranked)[k].distance_km == distance_to(
            rules,
            place,
            ranked[k].anchor@,
        ),
        fit_samples(rules, place, ranked)[k].rtt_ms == ranked[k].min_rtt_ms,
        fit_samples(rules, place, ranked)[k].weight == time_weight(rules, ranked[k]),
{
}

/// A fastest anchor that takes more than twelve milliseconds does not stand out, nor does
/// one that the next is less than 1.6 times as slow as.
pub proof fn lemma_what_does_not_stand_out(rules: Rules, ranked: Seq<Constraint>)
    ensures
        rules.count(12).below(ranked[0].min_rtt_ms) ==> !stands_out(rules, ranked),
        dominance(rules, ranked).below(rules.ratio(16, 10)) ==> !stands_out(rules, ranked),
        ranked[0].min_rtt_ms.at_most(rules.count(12)) && rules.ratio(16, 10).at_most(
            dominance(rules, ranked),
        ) ==> stands_out(rules, ranked),
{
}

/// The centre of a cluster is drawn to each member at its own place, more to the faster and
/// better ones.
#[verifier::rlimit(60)]
pub proof fn lemma_cluster_center_is_weighted(
    rules: Rules,
    members: Seq<Constraint>,
    i: int,
    j: int,
)
    requires
        orderly(rules),
        0 <= i < members.len(),
        0 <= j < members.len(),
        plausible(members[i]),
        plausible(members[j]),
        members[i].quality_weight.at_most(members[j].quality_weight),
        members[j].min_rtt_ms.at_most(members[i].min_rtt_ms),
    ensures
        weighted_places(rules, members)[i].0 == place_of(rules, members[i].anchor@),
        zero().below(weighted_places(rules, members)[i].1),
        weighted_places(rules, members)[i].1.at_most(weighted_places(rules, members)[j].1),
{
    lemma_faster_weighs_more(rules, members[i], members[j]);
}

#[verifier::rlimit(60)]
proof fn lemma_quality_sum(rules: Rules, members: Seq<Constraint>)
    requires
        orderly(rules),
        members.len() <= 5,
        forall|i: int| 0 <= i < members.len() ==> plausible(#[trigger] members[i]),
    ensures
        capped(quality_sum(rules, members), 20 + members.len() as int),
        members.len() > 0 ==> members[0].quality_weight.at_most(quality_sum(rules, members)),
    decreases members.len(),
{
    reveal(orderly);
    if members.len() > 0 {
        let shorter = members.drop_last();
        let last = members[members.len() - 1];
        assert forall|i: int| 0 <= i < shorter.len() implies plausible(#[trigger] shorter[i]) by {
            assert(shorter[i] == members[i]);
        }
        lemma_quality_sum(rules, shorter);
        let before = quality_sum(rules, shorter);
        let e = 20 + shorter.len() as int;
        assert(plausible(last));
        lemma_sizes(last.quality_weight, 20);
        assert(capped(last.quality_weight, e));
        lemma_sizes(before, e);
        assert(capped(rules.add(before, last.quality_weight), e + 1));
        if shorter.len() > 0 {
            assert(shorter[0] == members[0]);
        }
    } else {
        lemma_sizes(zero(), 20);
    }
}

#[verifier::rlimit(60)]
proof fn lemma_quality_sum_grows(rules: Rules, some: Seq<Constraint>, others: Seq<Constraint>)
    requires
        orderly(rules),
        some.len() == others.len(),
        some.len() <= 5,
        forall|i: int| 0 <= i < some.len() ==> plausible(#[trigger] some[i]),
        forall|i: int| 0 <= i < others.len() ==> plausible(#[trigger] others[i]),
        forall|i: int|
            0 <= i < some.len() ==> (#[trigger] some[i]).quality_weight.at_most(
                others[i].quality_weight,
            ),
    ensures
        quality_sum(rules, some).at_most(quality_sum(rules, others)),
    decreases some.len(),
{
    if some.len() > 0 {
        let a = some.drop_last();
        let b = others.drop_last();
        assert forall|i: int| 0 <= i < a.len() implies plausible(#[trigger] a[i]) by {
            assert(a[i] == some[i]);
        }
        assert forall|i: int| 0 <= i < b.len() implies plausible(#[trigger] b[i]) by {
            assert(b[i] == others[i]);
        }
        assert forall|i: int| 0 <= i < a.len() implies (#[trigger] a[i]).quality_weight.at_most(
            b[i].quality_weight,
        ) by {
            assert(a[i] == some[i] && b[i] == others[i]);
        }
        lemma_quality_sum_grows(rules, a, b);
        lemma_quality_sum(rules, a);
        lemma_sizes(quality_sum(rules, a), 20 + a.len() as int);
        assert(plausible(some[some.len() - 1]));
        lemma_sizes(some[some.len() - 1].quality_weight, 20);
        reveal(orderly);
    }
}

spec fn openness(rules: Rules, ratio: Double) -> Double {
    rules.sub(rules.ratio(145, 100), ratio).greater(rules.ratio(2, 10))
}

#[verifier::rlimit(60)]
proof fn lemma_openness(rules: Rules, ratio: Double)
    requires
        orderly(rules),
        capped(ratio, 40),
    ensures
        sized(openness(rules, ratio), 14),
{
    reveal(orderly);
    lemma_sizes(ratio, 40);
    lemma_sizes(rules.ratio(145, 100), 14);
    lemma_sizes(rules.ratio(2, 10), 14);
    let most = rules.ratio(145, 100);
    let left = rules.sub(most, ratio);
    assert(left.at_most(rules.sub(most, zero())));
    assert(rules.sub(most, zero()).equals(most));
}

/// A cluster pulls the more, the less its fastest member stands out and the better its
/// members were measured. One of three to five members always pulls.
#[verifier::rlimit(60)]
pub proof fn lemma_cluster_pulls(
    rules: Rules,
    low: Double,
    better: Seq<Constraint>,
    high: Double,
    worse: Seq<Constraint>,
)
    requires
        orderly(rules),
        3 <= better.len() <= 5,
        worse.len() == better.len(),
        forall|i: int| 0 <= i < worse.len() ==> plausible(#[trigger] worse[i]),
        forall|i: int| 0 <= i < better.len() ==> plausible(#[trigger] better[i]),
        forall|i: int|
            0 <= i < worse.len() ==> (#[trigger] worse[i]).quality_weight.at_most(
                better[i].quality_weight,
            ),
        capped(low, 40),
        capped(high, 40),
        low.at_most(high),
    ensures
        zero().below(cluster_strength(rules, high, worse)),
        cluster_strength(rules, high, worse).at_most(cluster_strength(rules, low, better)),
{
    reveal(orderly);
    let n = better.len() as int;
    let size = rules.count(n);
    lemma_sizes(size, 14);
    lemma_sizes(low, 40);
    lemma_sizes(high, 40);
    lemma_sizes(rules.ratio(145, 100), 14);
    let extra = rules.sub(size, rules.count(2));
    assert(rules.count(2).below(size));
    assert(sized(extra, 67));
    lemma_sizes(extra, 67);
    lemma_openness(rules, low);
    lemma_openness(rules, high);
    let a = openness(rules, low);
    let b = openness(rules, high);
    assert(rules.sub(rules.ratio(145, 100), high).at_most(
        rules.sub(rules.ratio(145, 100), low),
    ));
    assert(b.at_most(a));
    lemma_sizes(a, 14);
    lemma_sizes(b, 14);
    lemma_quality_sum(rules, better);
    lemma_quality_sum(rules, worse);
    lemma_quality_sum_grows(rules, worse, better);
    lemma_strength_grows(
        rules,
        size,
        extra,
        b,
        quality_sum(rules, worse),
        a,
        quality_sum(rules, better),
    );
    assert(plausible(worse[0]));
    lemma_sizes(worse[0].quality_weight, 20);
    lemma_sizes(quality_sum(rules, worse), 20 + n);
    assert(sized(quality_sum(rules, worse), 30));
    lemma_strength_is_positive(rules, size, extra, b, quality_sum(rules, worse));
}

spec fn strength_from(
    rules: Rules,
    size: Double,
    extra: Double,
    open: Double,
    sum: Double,
) -> Double {
    rules.mul(rules.mul(extra, open), rules.div(sum, size)).lesser(rules.ratio(25, 10))
}

#[verifier::rlimit(60)]
proof fn lemma_strength_grows(
    rules: Rules,
    size: Double,
    extra: Double,
    open: Double,
    sum: Double,
    open2: Double,
    sum2: Double,
)
    requires
        orderly(rules),
        sized(size, 14),
        sized(extra, 67),
        sized(open, 14),
        sized(open2, 14),
        open.at_most(open2),
        capped(sum, 30),
        capped(sum2, 30),
        sum.at_most(sum2),
    ensures
        strength_from(rules, size, extra, open, sum).at_most(
            strength_from(rules, size, extra, open2, sum2),
        ),
{
    reveal(orderly);
    lemma_sizes(size, 14);
    lemma_sizes(extra, 67);
    lemma_sizes(open, 14);
    lemma_sizes(open2, 14);
    lemma_sizes(sum, 30);
    lemma_sizes(sum2, 30);
    lemma_sizes(rules.ratio(25, 10), 14);
    let a = rules.mul(extra, open);
    let b = rules.mul(extra, open2);
    assert(sized(a, 81) && sized(b, 81));
    lemma_sizes(a, 81);
    lemma_sizes(b, 81);
    assert(a.at_most(b));
    let c = rules.div(sum, size);
    let d = rules.div(sum2, size);
    assert(capped(c, 44) && capped(d, 44));
    lemma_sizes(c, 44);
    lemma_sizes(d, 44);
    assert(c.at_most(d));
    assert(rules.mul(a, c).at_most(rules.mul(b, d)));
}

#[verifier::rlimit(60)]
proof fn lemma_strength_is_positive(
    rules: Rules,
    size: Double,
    extra: Double,
    open: Double,
    sum: Double,
)
    requires
        orderly(rules),
        sized(size, 14),
        sized(extra, 67),
        sized(open, 14),
        sized(sum, 30),
    ensures
        zero().below(strength_from(rules, size, extra, open, sum)),
{
    reveal(orderly);
    let a = rules.mul(extra, open);
    assert(sized(a, 81));
    let c = rules.div(sum, size);
    assert(sized(c, 44));
    let d = rules.mul(a, c);
    assert(sized(d, 125));
    lemma_sizes(d, 125);
    lemma_sizes(rules.ratio(25, 10), 14);
}

spec fn is_excess(
    rules: Rules,
    mode: Candidate,
    samples: Seq<Candidate>,
    value: Double,
) -> bool {
    zero().below(value) && exists|i: int|
        0 <= i < samples.len() && value == excess(rules, mode, #[trigger] samples[i])
}

proof fn lemma_excesses(rules: Rules, mode: Candidate, samples: Seq<Candidate>)
    ensures
        excesses(rules, mode, samples).len() <= samples.len(),
        forall|k: int|
            0 <= k < excesses(rules, mode, samples).len() ==> is_excess(
                rules,
                mode,
                samples,
                #[trigger] excesses(rules, mode, samples)[k],
            ),
        forall|i: int|
            0 <= i < samples.len() && zero().below(excess(rules, mode, #[trigger] samples[i]))
                ==> excesses(rules, mode, samples).contains(excess(rules, mode, samples[i])),
    decreases samples.len(),
{
    if samples.len() > 0 {
        let shorter = samples.drop_last();
        lemma_excesses(rules, mode, shorter);
        let before = excesses(rules, mode, shorter);
        let after = excesses(rules, mode, samples);
        assert forall|k: int| 0 <= k < after.len() implies is_excess(
            rules,
            mode,
            samples,
            #[trigger] after[k],
        ) by {
            if k < before.len() {
                assert(after[k] == before[k]);
                assert(is_excess(rules, mode, shorter, before[k]));
                let i = choose|i: int|
                    0 <= i < shorter.len() && before[k] == excess(
                        rules,
                        mode,
                        #[trigger] shorter[i],
                    );
                assert(samples[i] == shorter[i]);
            } else {
                assert(after[k] == excess(rules, mode, samples[samples.len() - 1]));
            }
        }
        assert forall|i: int|
            0 <= i < samples.len() && zero().below(
                excess(rules, mode, #[trigger] samples[i]),
            ) implies after.contains(excess(rules, mode, samples[i])) by {
            if i < shorter.len() {
                assert(shorter[i] == samples[i]);
                let k = choose|k: int|
                    0 <= k < before.len() && before[k] == excess(rules, mode, samples[i]);
                assert(after[k] == before[k]);
            } else {
                assert(after[before.len() as int] == excess(rules, mode, samples[i]));
            }
        }
    }
}

/// The temperature is one, or what some sample is worse than the mode by. Of the excesses
/// in ascending order, and of the first twenty-four at most, it is the middle one: not below
/// the lower half, and not above the upper half unless it is one.
pub proof fn lemma_temperature_is_in_the_middle(
    rules: Rules,
    mode: Candidate,
    samples: Seq<Candidate>,
    k: int,
)
    requires
        samples.len() <= usize::MAX,
        !rules.count(1).nan(),
        0 <= k < excesses(rules, mode, samples).len(),
    ensures
        ({
            let heat = temperature(rules, mode, samples);
            let values = sorted(excesses(rules, mode, samples));
            let n: int = if values.len() > 24 {
                24
            } else {
                values.len() as int
            };
            &&& values.len() == excesses(rules, mode, samples).len()
            &&& heat == rules.count(1) || exists|i: int|
                0 <= i < samples.len() && heat == excess(rules, mode, #[trigger] samples[i])
            &&& 2 * k + 1 <= n ==> values[k].at_most(heat)
            &&& 2 * k + 2 >= n ==> heat == rules.count(1) || heat.at_most(values[k])
        }),
{
    let list = excesses(rules, mode, samples);
    let values = sorted(list);
    lemma_excesses(rules, mode, samples);
    lemma_sorted_ascends(list);
    let n: int = if values.len() > 24 {
        24
    } else {
        values.len() as int
    };
    let mid = (n - 1) / 2;
    assert(temperature(rules, mode, samples) == values[mid].greater(rules.count(1)));
    lemma_sorted_excess(rules, mode, samples, mid);
    lemma_sorted_excess(rules, mode, samples, k);
}

proof fn lemma_sorted_excess(rules: Rules, mode: Candidate, samples: Seq<Candidate>, k: int)
    requires
        samples.len() <= usize::MAX,
        0 <= k < excesses(rules, mode, samples).len(),
    ensures
        exists|i: int|
            0 <= i < samples.len() && sorted(excesses(rules, mode, samples))[k] == excess(
                rules,
                mode,
                #[trigger] samples[i],
            ),
        zero().below(sorted(excesses(rules, mode, samples))[k]),
{
    let list = excesses(rules, mode, samples);
    lemma_excesses(rules, mode, samples);
    lemma_sorted_ascends(list);
    assert(list.contains(sorted(list)[k]));
    let m = choose|m: int| 0 <= m < list.len() && list[m] == sorted(list)[k];
    assert(is_excess(rules, mode, samples, list[m]));
}

proof fn lemma_total_of_equals(rules: Rules, items: Seq<(Place, Double)>, w: int)
    requires
        exact_on_wholes(rules),
        1 <= w <= 1000,
        items.len() <= 1000000,
        forall|i: int| 0 <= i < items.len() ==> (#[trigger] items[i]).1 == rules.count(w),
    ensures
        total_weight(rules, items) == rules.count(w * items.len()),
    decreases items.len(),
{
    if items.len() > 0 {
        let shorter = items.drop_last();
        assert forall|i: int| 0 <= i < shorter.len() implies (
        #[trigger] shorter[i]).1 == rules.count(w) by {
            assert(shorter[i] == items[i]);
        }
        lemma_total_of_equals(rules, shorter, w);
        let m = shorter.len() as int;
        assert(items[items.len() - 1].1 == rules.count(w));
        assert(w * (m + 1) == w * m + w && 0 <= w * m <= 1000000000) by (nonlinear_arith)
            requires
                1 <= w <= 1000,
                0 <= m <= 1000000,
        ;
        assert(rules.add(rules.count(w * m), rules.count(w)) == rules.count(w * m + w));
    } else {
        assert(w * 0 == 0);
    }
}

/// Scaling makes the weights add up to the target: `n` items of one weight get an `n`-th of
/// it each, whatever that weight was.
pub proof fn lemma_scaled_to_target(
    rules: Rules,
    items: Seq<(Place, Double)>,
    w: int,
    share: int,
    i: int,
)
    requires
        exact_on_wholes(rules),
        1 <= w <= 1000,
        1 <= share <= 1000,
        1 <= items.len() <= 1000000,
        forall|j: int| 0 <= j < items.len() ==> (#[trigger] items[j]).1 == rules.count(w),
        0 <= i < items.len(),
    ensures
        scaled(rules, items, rules.count(share * items.len()))[i] == (
            items[i].0,
            rules.count(share),
        ),
{
    let n = items.len() as int;
    lemma_total_of_equals(rules, items, w);
    assert(1 <= w * n <= 1000000000 && 1 <= share * n <= 1000000000) by (nonlinear_arith)
        requires
            1 <= w <= 1000,
            1 <= share <= 1000,
            1 <= n <= 1000000,
    ;
    assert(w * (share * n) == share * (w * n) && 0 <= w * (share * n) <= 1000000000000)
        by (nonlinear_arith)
        requires
            1 <= w <= 1000,
            1 <= share * n <= 1000000000,
    ;
    assert(items[i].1 == rules.count(w));
    assert(rules.mul(rules.count(w), rules.count(share * n)) == rules.count(w * (share * n)));
    assert(quotient(rules, share, w * n) == rules.count(share));
    assert(rules.count(0).below(rules.count(w * n)));
    assert(rules.count(0).below(rules.count(share * n)));
}

/// Together the samples weigh as much as the modes do: both are scaled to the same total,
/// all samples first, and each keeps its place.
pub proof fn lemma_samples_and_modes_weigh_the_same(
    rules: Rules,
    mode: Candidate,
    samples: Seq<Candidate>,
    modes: Seq<Candidate>,
)
    ensures
        blended(rules, mode, samples, modes).len() == samples.len() + modes.len(),
        forall|i: int|
            0 <= i < samples.len() ==> (#[trigger] blended(rules, mode, samples, modes)[i]).0
                == samples[i].place,
        forall|j: int|
            0 <= j < modes.len() ==> blended(rules, mode, samples, modes)[samples.len() + j].0 == (
            #[trigger] modes[j]).place,
        exists|total: Double|
            blended(rules, mode, samples, modes) == #[trigger] scaled(
                rules,
                weighed(rules, mode, samples, temperature(rules, mode, samples)),
                total,
            ) + scaled(rules, evenly(rules, modes), total),
{
    let total = rules.ratio(5, 10);
    let heat = temperature(rules, mode, samples);
    let a = scaled(rules, weighed(rules, mode, samples, heat), total);
    let b = scaled(rules, evenly(rules, modes), total);
    assert(blended(rules, mode, samples, modes) == a + b);
    assert forall|j: int| 0 <= j < modes.len() implies (a + b)[samples.len() + j].0 == (
    #[trigger] modes[j]).place by {
        assert((a + b)[a.len() + j] == b[j]);
    }
}

/// Without samples to weigh, the mode is all that there is.
pub proof fn lemma_mode_stands_alone(
    rules: Rules,
    mode: Candidate,
    samples: Seq<Candidate>,
    modes: Seq<Candidate>,
)
    requires
        samples.len() <= 1,
    ensures
        summarized(rules, mode, samples, modes).place == mode.place,
        summarized(rules, mode, samples, modes).radius_km == zero(),
{
}

/// Tells whether degrees are told apart to the thousandth.
pub open spec fn tells_thousandths(rules: Rules) -> bool {
    &&& forall|a: int|
        -360000 <= a <= 360000 ==> rules.round(
            rules.mul(#[trigger] rules.ratio(a, 1000), rules.count(1000)),
        ) == rules.ratio(a, 1)
    &&& forall|a: int, b: int|
        -360000 <= a < b <= 360000 ==> (#[trigger] rules.ratio(a, 1)).below(
            #[trigger] rules.ratio(b, 1),
        )
    &&& rules.ratio(0, 1).magnitude() == 0
}

/// Two sampled places are taken for one if and only if they are the same to a thousandth of
/// a degree, north and east.
pub proof fn lemma_places_are_told_apart(rules: Rules, a: int, b: int, c: int, d: int)
    requires
        tells_thousandths(rules),
        -360000 <= a <= 360000,
        -360000 <= b <= 360000,
        -360000 <= c <= 360000,
        -360000 <= d <= 360000,
    ensures
        place_key(
            rules,
            (Place { latitude: rules.ratio(a, 1000), longitude: rules.ratio(b, 1000) }),
        ) == place_key(
            rules,
            (Place { latitude: rules.ratio(c, 1000), longitude: rules.ratio(d, 1000) }),
        ) <==> a == c && b == d,
{
    lemma_thousandths_differ(rules, a, c);
    lemma_thousandths_differ(rules, b, d);
    assert(rules.round(rules.mul(rules.ratio(a, 1000), rules.count(1000))) == rules.ratio(a, 1));
    assert(rules.round(rules.mul(rules.ratio(b, 1000), rules.count(1000))) == rules.ratio(b, 1));
    assert(rules.round(rules.mul(rules.ratio(c, 1000), rules.count(1000))) == rules.ratio(c, 1));
    assert(rules.round(rules.mul(rules.ratio(d, 1000), rules.count(1000))) == rules.ratio(d, 1));
}

proof fn lemma_thousandths_differ(rules: Rules, a: int, b: int)
    requires
        tells_thousandths(rules),
        -360000 <= a <= 360000,
        -360000 <= b <= 360000,
    ensures
        crate::posterior::canonical(rules.ratio(a, 1)) == crate::posterior::canonical(
            rules.ratio(b, 1),
        ) <==> a == b,
{
    if a < b {
        assert(rules.ratio(a, 1).below(rules.ratio(b, 1)));
    } else if b < a {
        assert(rules.ratio(b, 1).below(rules.ratio(a, 1)));
    }
}

/// The stability radius of an estimate is the distance from its mode to the solution for
/// some subset, as soon as there are four constraints.
pub proof fn lemma_stability_is_measured_from_the_mode(rules: Rules, scene: SceneView)
    requires
        4 <= scene.constraints.len() <= usize::MAX,
    ensures
        estimated(rules, scene) matches Some(estimate) && distances_from(
            rules,
            estimate.mode,
            modes_of(rules, scene, subsets_of(scene.constraints)),
        ).contains(estimate.stability_radius_km),
{
    let subsets = subsets_of(scene.constraints);
    assert forall|i: int| 0 <= i < subsets.len() implies (#[trigger] subsets[i]).len() > 0 by {
        lemma_subsets_are_large(scene.constraints, i);
    }
    lemma_solution_beats_starts(rules, scene, 0);
    lemma_subsets_are_solved(rules, scene, subsets);
    let modes = modes_of(rules, scene, subsets);
    assert(subsets.len() >= 1 && subsets.len() <= 8);
    let estimate = estimated(rules, scene)->0;
    lemma_stability_radius_is_a_quartile(rules, estimate.mode, modes, 0);
}

/// The less time a kilometre takes by the fitted line, the faster the estimate says it is.
#[verifier::rlimit(60)]
pub proof fn lemma_speed_is_the_inverse(
    rules: Rules,
    scene: SceneView,
    fast: Findings,
    slow: Findings,
)
    requires
        orderly(rules),
        sized(fast.center.fit.ms_per_km, 30),
        sized(slow.center.fit.ms_per_km, 30),
        fast.center.fit.ms_per_km.at_most(slow.center.fit.ms_per_km),
    ensures
        zero().below(estimate_of(rules, scene, slow).fitted_km_per_ms),
        estimate_of(rules, scene, slow).fitted_km_per_ms.at_most(
            estimate_of(rules, scene, fast).fitted_km_per_ms,
        ),
{
    reveal(orderly);
    lemma_sizes(rules.count(1), 14);
    lemma_sizes(fast.center.fit.ms_per_km, 30);
    lemma_sizes(slow.center.fit.ms_per_km, 30);
    assert(sized(rules.div(rules.count(1), slow.center.fit.ms_per_km), 44));
    lemma_sizes(rules.div(rules.count(1), slow.center.fit.ms_per_km), 44);
}

} // verus!
