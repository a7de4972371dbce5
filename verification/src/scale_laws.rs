//! How fast costs grow: with the square of what is too far or too fast, and in proportion to
//! what was measured well.

use crate::calc::Rules;
use crate::cluster::{cluster_of, cluster_score, member_sum, ClusterView};
use crate::double::{zero, Double};
use crate::fit_laws::{
    exact_on_squares, exact_on_wholes, lemma_square_of_whole, quotient, told_apart,
};
use crate::geometry::{distance, distance_to, Place};
use crate::hints::HintView;
use crate::score_laws::predicted;
use crate::scores::{bound_term, corridor_term, hint_term};
use crate::solver::Constraint;
use vstd::prelude::*;

verus! {

/// A place that is beyond a bound by `k` times the bound costs a thousand times the square
/// of `k`, times the quality.
pub proof fn lemma_bound_costs_the_square(
    rules: Rules,
    place: Place,
    constraint: Constraint,
    bound: int,
    k: int,
    q: int,
)
    requires
        exact_on_wholes(rules),
        exact_on_squares(rules),
        100 <= bound <= 10000,
        0 <= k <= 100,
        0 <= q <= 100,
        constraint.upper_bound_km == rules.count(bound),
        constraint.quality_weight == rules.count(q),
        distance_to(rules, place, constraint.anchor@) == rules.count(bound + k * bound),
    ensures
        bound_term(rules, place, constraint) == rules.count(1000 * q * (k * k)),
{
    assert(0 <= k * bound <= 1000000 && 0 <= k * k <= 10000) by (nonlinear_arith)
        requires
            0 <= k <= 100,
            100 <= bound <= 10000,
    ;
    assert(0 <= 1000 * q * (k * k) <= 1000000000) by (nonlinear_arith)
        requires
            0 <= q <= 100,
            0 <= k * k <= 10000,
    ;
    let over = k * bound;
    assert(rules.sub(rules.count(bound + over), rules.count(bound)) == rules.count(
        (bound + over) - bound,
    ));
    if over > 0 {
        assert(rules.count(0).below(rules.count(over)));
    }
    if bound > 100 {
        assert(rules.count(100).below(rules.count(bound)));
    }
    assert(rules.count(0).below(rules.count(100)));
    assert(quotient(rules, k, bound) == rules.count(k));
    lemma_square_of_whole(rules, k);
    assert(rules.mul(rules.count(1000), rules.count(q)) == rules.count(1000 * q));
    assert(rules.mul(rules.count(1000 * q), rules.count(k * k)) == rules.count(
        1000 * q * (k * k),
    ));
}

/// A hint without support pulls in proportion to its weight: by a share of the distance, and
/// by the square of how often its radius of 450 kilometres goes into what the place is
/// beyond that.
pub proof fn lemma_hint_costs_the_square(
    rules: Rules,
    place: Place,
    hint: HintView,
    m: int,
    k: int,
)
    requires
        exact_on_wholes(rules),
        exact_on_squares(rules),
        0 <= m <= 100,
        0 <= k <= 40,
        hint.supporting_anchors.len() == 0,
        hint.weight == rules.count(8 * m),
        distance_to(rules, place, hint.anchor) == rules.count(450 + 450 * k),
    ensures
        hint_term(rules, place, hint) == rules.count(9 * m * (1 + k) + 200 * m * (k * k)),
{
    let w = 8 * m;
    let d = 450 + 450 * k;
    let share = 9 * m * (1 + k);
    assert(0 <= k * k <= 1600) by (nonlinear_arith)
        requires
            0 <= k <= 40,
    ;
    assert(0 <= w * d <= 20000000 && 0 <= share <= 40000) by (nonlinear_arith)
        requires
            w == 8 * m,
            0 <= m <= 100,
            0 <= k <= 40,
            d == 450 + 450 * k,
            share == 9 * m * (1 + k),
    ;
    assert((8 * m) * (450 + 450 * k) == (9 * m * (1 + k)) * 400) by (nonlinear_arith);
    assert(rules.mul(rules.count(w), rules.count(d)) == rules.count(w * d));
    assert(quotient(rules, share, 400) == rules.count(share));
    assert(rules.sub(rules.count(d), rules.count(450)) == rules.count(d - 450));
    if k > 0 {
        assert(rules.count(0).below(rules.count(450 * k)));
    }
    assert(rules.count(150).below(rules.count(450)));
    assert(k * 450 == 450 * k);
    assert(quotient(rules, k, 450) == rules.count(k));
    lemma_square_of_whole(rules, k);
    assert(rules.mul(rules.count(25), rules.count(w)) == rules.count(25 * w));
    assert(0 <= (25 * w) * (k * k) <= 32000000) by (nonlinear_arith)
        requires
            0 <= w <= 800,
            0 <= k * k <= 1600,
    ;
    assert((25 * (8 * m)) * (k * k) == 200 * m * (k * k)) by (nonlinear_arith);
    assert(rules.mul(rules.count(25 * w), rules.count(k * k)) == rules.count(
        (25 * w) * (k * k),
    ));
    assert(rules.add(rules.count(share), rules.count((25 * w) * (k * k))) == rules.count(
        share + (25 * w) * (k * k),
    ));
}

/// Tells whether what falls short is turned into what it falls short by, and shares of
/// nothing are nothing.
pub open spec fn exact_below(rules: Rules) -> bool {
    &&& forall|m: int, n: int|
        0 <= m < n && told_apart(n) ==> (#[trigger] rules.sub(
            rules.count(m),
            rules.count(n),
        )).turned() == rules.count(n - m)
    &&& forall|a: Double| zero().below(a) ==> #[trigger] rules.div(zero(), a) == zero()
    &&& forall|p: int, q: int|
        1 <= p <= 100 && 1 <= q <= 100 ==> rules.mul(#[trigger] rules.ratio(p, q), zero())
            == zero()
    &&& forall|n: int|
        1 <= n <= 10000 ==> zero().below(
            #[trigger] rules.mul(rules.count(n), rules.ratio(25, 10)),
        )
    &&& rules.ratio(25, 100).below(rules.count(1))
}

/// A time below the one that a hub predicts, by `k` times what it may vary by and one
/// millisecond, costs forty times the square of `k`, times the weight of the hub and the
/// quality of the measurement.
pub proof fn lemma_impossible_time_costs_the_square(
    rules: Rules,
    place: Place,
    hint: HintView,
    overhead_ms: Double,
    constraint: Constraint,
    ms: int,
    varies: int,
    k: int,
    w: int,
    q: int,
)
    requires
        exact_on_wholes(rules),
        exact_on_squares(rules),
        exact_below(rules),
        0 <= ms <= 1000,
        1 <= varies <= 100,
        1 <= k <= 100,
        0 <= w <= 100,
        0 <= q <= 100,
        constraint.min_rtt_ms == rules.count(ms),
        constraint.jitter_ms == rules.count(varies),
        constraint.quality_weight == rules.count(q),
        hint.weight == rules.count(w),
        predicted(rules, place, hint.anchor, overhead_ms, constraint) == rules.count(
            ms + k * (1 + varies),
        ),
    ensures
        corridor_term(rules, place, hint, overhead_ms, constraint) == rules.count(
            w * q * (40 * (k * k)),
        ),
{
    let sigma = 1 + varies;
    let short = k * sigma;
    assert(1 <= short <= 10200 && 0 <= k * k <= 10000) by (nonlinear_arith)
        requires
            1 <= k <= 100,
            2 <= sigma <= 102,
            short == k * sigma,
    ;
    assert(0 <= w * q <= 10000) by (nonlinear_arith)
        requires
            0 <= w <= 100,
            0 <= q <= 100,
    ;
    assert(0 <= w * q * (40 * (k * k)) <= 4000000000) by (nonlinear_arith)
        requires
            0 <= w * q <= 10000,
            0 <= k * k <= 10000,
    ;
    let residual = rules.sub(rules.count(ms), rules.count(ms + short));
    assert(residual.turned() == rules.count(short));
    assert(rules.count(0).below(rules.count(short)));
    assert(residual.turned().greater(zero()) == rules.count(short));
    assert(residual.greater(zero()) == zero());
    if varies > 1 {
        assert(rules.count(1).below(rules.count(varies)));
    }
    assert(rules.add(rules.count(1), rules.count(varies)) == rules.count(1 + varies));
    assert(quotient(rules, k, sigma) == rules.count(k));
    lemma_square_of_whole(rules, k);
    assert(rules.mul(rules.count(40), rules.count(k * k)) == rules.count(40 * (k * k)));
    let wide = rules.mul(rules.count(sigma), rules.ratio(25, 10));
    assert(rules.div(zero(), wide) == zero());
    assert(rules.mul(rules.ratio(35, 100), zero()) == zero());
    assert(rules.add(rules.count(40 * (k * k)), rules.count(0)) == rules.count(
        40 * (k * k) + 0,
    ));
    assert(rules.mul(rules.count(w), rules.count(q)) == rules.count(w * q));
    assert(rules.mul(rules.count(w * q), rules.count(40 * (k * k))) == rules.count(
        w * q * (40 * (k * k)),
    ));
}

/// A place that is `k` radii from the centre of a cluster costs twenty-eight times the
/// square of `k`, times the strength of the cluster, besides what its members cost. The
/// radius is two fifths of the span.
pub proof fn lemma_cluster_costs_the_square(
    rules: Rules,
    place: Place,
    ranked: Seq<Constraint>,
    cluster: ClusterView,
    radius: int,
    strength: int,
    k: int,
)
    requires
        exact_on_wholes(rules),
        exact_on_squares(rules),
        cluster_of(rules, ranked) == Some(cluster),
        rules.mul(cluster.span_km, rules.ratio(40, 100)) == rules.count(radius),
        140 <= radius <= 650,
        cluster.strength == rules.count(strength),
        1 <= strength <= 100,
        0 <= k <= 100,
        distance(rules, place, cluster.center) == rules.count(k * radius),
    ensures
        cluster_score(rules, place, ranked) == rules.add(
            rules.count(28 * strength * (k * k)),
            member_sum(
                rules,
                place,
                cluster.fastest,
                cluster.strength,
                cluster.members.skip(1),
            ),
        ),
{
    assert(0 <= k * radius <= 65000 && 0 <= k * k <= 10000) by (nonlinear_arith)
        requires
            0 <= k <= 100,
            140 <= radius <= 650,
    ;
    assert(0 <= 28 * strength * (k * k) <= 28000000) by (nonlinear_arith)
        requires
            1 <= strength <= 100,
            0 <= k * k <= 10000,
    ;
    if radius > 140 {
        assert(rules.count(140).below(rules.count(radius)));
    }
    if radius < 650 {
        assert(rules.count(radius).below(rules.count(650)));
    }
    assert(rules.count(120).below(rules.count(radius)));
    assert(quotient(rules, k, radius) == rules.count(k));
    lemma_square_of_whole(rules, k);
    assert(rules.mul(rules.count(28), rules.count(strength)) == rules.count(28 * strength));
    assert(rules.mul(rules.count(28 * strength), rules.count(k * k)) == rules.count(
        28 * strength * (k * k),
    ));
}

} // verus!
