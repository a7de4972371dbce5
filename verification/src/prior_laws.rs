//! What the terms of the score that compare constraints with each other are for, and what
//! the score as a whole counts.

use crate::calc::Rules;
use crate::calc_laws::{adds_in_order, capped, lemma_sizes, lemma_wider, nonneg, orderly, sized};
use crate::cluster::{
    cluster_of, cluster_score, member_sum, member_term, span_of_row, span_of_rows, ClusterView,
};
use crate::double::{zero, Double};
use crate::fit::{by_time, least_ms_per_km, LatencyFit};
use crate::geometry::{distance, distance_to, place_of, Place};
use crate::hints::HintView;
use crate::priors::{
    dominant_score, dominant_term, order_score, spread_score, spread_sum, spread_term,
    with_inversion, with_pair, with_row, with_rows,
};
use crate::score_laws::{
    lemma_left, lemma_left_grows, lemma_pull, lemma_pull_grows, plausible, pull,
};
use crate::scores::{
    badness, bound_score, corridor_score, corridors, fit_penalty, hint_sum, hint_term,
};
use crate::search::SceneView;
use crate::solver::Constraint;
use vstd::prelude::*;

verus! {

proof fn lemma_clamped(rules: Rules, a: Double, low: Double, high: Double, e: int)
    requires
        0 <= e <= 1000,
        !a.nan(),
        sized(low, e),
        capped(high, e),
        low.at_most(high),
    ensures
        sized(a.clamped(low, high), e),
        low.at_most(a.clamped(low, high)),
        a.clamped(low, high).at_most(high),
{
    lemma_sizes(low, e);
    lemma_sizes(high, e);
}

/// Tells whether what the dominant anchor is judged by is of a size that it has.
pub open spec fn plausible_dominance(
    rules: Rules,
    place: Place,
    fastest: Constraint,
    ratio: Double,
    shared_rtt_floor_ms: Double,
) -> bool {
    &&& plausible(fastest)
    &&& capped(distance_to(rules, place, fastest.anchor@), 30)
    &&& capped(shared_rtt_floor_ms, 20)
    &&& capped(ratio, 40)
    &&& rules.count(3).at_most(ratio)
}

spec fn soft_radius(rules: Rules, fastest: Constraint, shared_rtt_floor_ms: Double) -> Double {
    let beyond_ms = rules.sub(fastest.min_rtt_ms, shared_rtt_floor_ms).greater(zero());
    rules.mul(rules.mul(beyond_ms, rules.count(102)), rules.ratio(5, 100)).clamped(
        rules.count(5),
        fastest.upper_bound_km.greater(rules.count(5)),
    )
}

#[verifier::rlimit(60)]
proof fn lemma_soft_radius(rules: Rules, fastest: Constraint, shared_rtt_floor_ms: Double)
    requires
        orderly(rules),
        plausible(fastest),
        capped(shared_rtt_floor_ms, 20),
    ensures
        sized(soft_radius(rules, fastest, shared_rtt_floor_ms), 60),
        capped(soft_radius(rules, fastest, shared_rtt_floor_ms), 30),
        sized(soft_radius(rules, fastest, shared_rtt_floor_ms), 30),
        soft_radius(rules, fastest, shared_rtt_floor_ms).at_most(
            fastest.upper_bound_km.greater(rules.count(5)),
        ),
{
    reveal(orderly);
    lemma_sizes(fastest.min_rtt_ms, 20);
    lemma_left(rules, fastest.min_rtt_ms, shared_rtt_floor_ms, 20);
    let beyond_ms = rules.sub(fastest.min_rtt_ms, shared_rtt_floor_ms).greater(zero());
    lemma_sizes(rules.count(102), 14);
    lemma_sizes(rules.ratio(5, 100), 14);
    let a = rules.mul(beyond_ms, rules.count(102));
    assert(capped(a, 34));
    let b = rules.mul(a, rules.ratio(5, 100));
    assert(capped(b, 48));
    lemma_sizes(b, 48);
    lemma_sizes(rules.count(5), 14);
    lemma_wider(rules.count(5), 14, 30);
    lemma_sizes(rules.count(5), 30);
    lemma_sizes(fastest.upper_bound_km, 30);
    let high = fastest.upper_bound_km.greater(rules.count(5));
    lemma_clamped(rules, b, rules.count(5), high, 30);
    lemma_wider(soft_radius(rules, fastest, shared_rtt_floor_ms), 30, 60);
    lemma_sizes(soft_radius(rules, fastest, shared_rtt_floor_ms), 30);
}

spec fn strength_of(rules: Rules, fastest: Constraint, ratio: Double) -> Double {
    rules.add(
        rules.div(rules.sub(ratio, rules.count(3)), rules.count(3)).clamped(
            zero(),
            rules.count(2),
        ),
        if fastest.min_rtt_ms.at_most(rules.count(2)) {
            rules.count(1)
        } else {
            zero()
        },
    )
}

#[verifier::rlimit(60)]
proof fn lemma_strength(rules: Rules, fastest: Constraint, ratio: Double)
    requires
        orderly(rules),
        capped(ratio, 40),
        rules.count(3).at_most(ratio),
    ensures
        capped(strength_of(rules, fastest, ratio), 60),
        fastest.min_rtt_ms.at_most(rules.count(2)) ==> sized(
            strength_of(rules, fastest, ratio),
            60,
        ),
{
    reveal(orderly);
    lemma_sizes(rules.count(3), 14);
    lemma_wider(rules.count(3), 14, 40);
    lemma_sizes(rules.count(3), 40);
    lemma_sizes(rules.count(2), 14);
    lemma_sizes(rules.count(1), 14);
    let over = rules.sub(ratio, rules.count(3));
    assert(capped(over, 40));
    let share = rules.div(over, rules.count(3));
    assert(capped(share, 54));
    lemma_sizes(share, 54);
    let main = share.clamped(zero(), rules.count(2));
    assert(capped(main, 14)) by {
        lemma_sizes(main, 14);
    }
    lemma_sizes(main, 14);
    lemma_sizes(zero(), 14);
    let extra = if fastest.min_rtt_ms.at_most(rules.count(2)) {
        rules.count(1)
    } else {
        zero()
    };
    assert(capped(extra, 14));
    let all = rules.add(main, extra);
    assert(capped(all, 15));
    lemma_wider(all, 15, 60);
    if fastest.min_rtt_ms.at_most(rules.count(2)) {
        assert(rules.count(1).at_most(all));
        lemma_wider(rules.count(1), 14, 60);
        lemma_sizes(all, 60);
    }
}

/// An anchor that is much faster than all others draws the estimate to itself. At the anchor
/// there is nothing to pay. Beyond the bound of the anchor there is, where it is as fast as
/// only a near one can be.
#[verifier::rlimit(60)]
pub proof fn lemma_dominant_anchor_draws(
    rules: Rules,
    place: Place,
    fastest: Constraint,
    ratio: Double,
    shared_rtt_floor_ms: Double,
)
    requires
        orderly(rules),
        plausible_dominance(rules, place, fastest, ratio, shared_rtt_floor_ms),
    ensures
        ({
            let term = dominant_term(rules, place, fastest, ratio, shared_rtt_floor_ms);
            let km = distance_to(rules, place, fastest.anchor@);
            &&& nonneg(term)
            &&& km.equals(zero()) ==> term.equals(zero())
            &&& fastest.min_rtt_ms.at_most(rules.count(2)) && fastest.upper_bound_km.greater(
                rules.count(5),
            ).below(km) ==> zero().below(term)
        }),
{
    reveal(orderly);
    let km = distance_to(rules, place, fastest.anchor@);
    let soft = soft_radius(rules, fastest, shared_rtt_floor_ms);
    let strength = strength_of(rules, fastest, ratio);
    lemma_soft_radius(rules, fastest, shared_rtt_floor_ms);
    lemma_strength(rules, fastest, ratio);
    lemma_sizes(km, 30);
    lemma_sizes(soft, 30);
    lemma_left(rules, km, soft, 30);
    let over = rules.sub(km, soft).greater(zero());
    lemma_wider(over, 30, 120);
    lemma_wider(over, 83, 120);
    lemma_wider(km, 30, 120);
    lemma_wider(rules.count(10), 14, 60);
    lemma_wider(rules.count(3), 14, 60);
    lemma_pull(rules, rules.count(60), strength, over, soft.greater(rules.count(10)));
    lemma_pull(rules, rules.count(8), strength, km, soft.greater(rules.count(3)));
    lemma_sizes(zero(), 470);
}

/// The farther a place is from an anchor that is much faster than all others, the more it
/// costs.
#[verifier::rlimit(60)]
pub proof fn lemma_dominant_anchor_draws_with_distance(
    rules: Rules,
    near: Place,
    far: Place,
    fastest: Constraint,
    ratio: Double,
    shared_rtt_floor_ms: Double,
)
    requires
        orderly(rules),
        plausible_dominance(rules, near, fastest, ratio, shared_rtt_floor_ms),
        plausible_dominance(rules, far, fastest, ratio, shared_rtt_floor_ms),
        distance_to(rules, near, fastest.anchor@).at_most(
            distance_to(rules, far, fastest.anchor@),
        ),
    ensures
        dominant_term(rules, near, fastest, ratio, shared_rtt_floor_ms).at_most(
            dominant_term(rules, far, fastest, ratio, shared_rtt_floor_ms),
        ),
{
    reveal(orderly);
    let a = distance_to(rules, near, fastest.anchor@);
    let b = distance_to(rules, far, fastest.anchor@);
    let soft = soft_radius(rules, fastest, shared_rtt_floor_ms);
    let strength = strength_of(rules, fastest, ratio);
    lemma_soft_radius(rules, fastest, shared_rtt_floor_ms);
    lemma_strength(rules, fastest, ratio);
    lemma_sizes(strength, 60);
    lemma_sizes(soft, 60);
    lemma_left(rules, a, soft, 30);
    lemma_left(rules, b, soft, 30);
    lemma_left_grows(rules, a, soft, b, soft, 30);
    let over = rules.sub(a, soft).greater(zero());
    let more = rules.sub(b, soft).greater(zero());
    lemma_wider(over, 30, 120);
    lemma_wider(more, 30, 120);
    lemma_wider(a, 30, 120);
    lemma_wider(b, 30, 120);
    lemma_wider(rules.count(10), 14, 60);
    lemma_wider(rules.count(3), 14, 60);
    let ten = soft.greater(rules.count(10));
    let three = soft.greater(rules.count(3));
    lemma_sizes(ten, 60);
    lemma_sizes(three, 60);
    lemma_pull(rules, rules.count(60), strength, over, ten);
    lemma_pull(rules, rules.count(8), strength, a, three);
    lemma_pull_grows(rules, rules.count(60), strength, over, ten, strength, more, ten);
    lemma_pull_grows(rules, rules.count(8), strength, a, three, strength, b, three);
    lemma_sizes(zero(), 470);
}

/// No anchor dominates without a shared floor, among fewer than two constraints, or where the
/// fastest takes more than ten milliseconds or less than a third of the time of the second.
pub proof fn lemma_when_nothing_dominates(
    rules: Rules,
    place: Place,
    constraints: Seq<Constraint>,
    shared_rtt_floor_ms: Double,
)
    requires
        shared_rtt_floor_ms.at_most(zero()) || constraints.len() < 2 || rules.count(10).below(
            by_time(constraints)[0].min_rtt_ms,
        ) || rules.div(
            by_time(constraints)[1].min_rtt_ms,
            by_time(constraints)[0].min_rtt_ms.greater(rules.ratio(1, 10)),
        ).below(rules.count(3)),
    ensures
        dominant_score(rules, place, by_time(constraints), shared_rtt_floor_ms) == zero(),
{
}

/// Tells whether what two constraints are compared by is of a size that it has.
pub open spec fn plausible_pair(
    rules: Rules,
    faster: Constraint,
    faster_km: Double,
    slower: Constraint,
    slower_km: Double,
) -> bool {
    &&& plausible(faster)
    &&& plausible(slower)
    &&& capped(faster_km, 30)
    &&& capped(slower_km, 30)
    &&& faster.min_rtt_ms.at_most(slower.min_rtt_ms)
}

spec fn least_spread(rules: Rules, faster: Constraint, slower: Constraint) -> Double {
    rules.sub(
        rules.mul(
            rules.mul(rules.sub(slower.min_rtt_ms, faster.min_rtt_ms), rules.count(102)),
            rules.ratio(30, 100),
        ),
        rules.count(20),
    ).greater(zero())
}

#[verifier::rlimit(60)]
proof fn lemma_least_spread(rules: Rules, faster: Constraint, slower: Constraint)
    requires
        orderly(rules),
        plausible(faster),
        plausible(slower),
        faster.min_rtt_ms.at_most(slower.min_rtt_ms),
    ensures
        capped(rules.sub(slower.min_rtt_ms, faster.min_rtt_ms), 20),
        capped(
            rules.mul(
                rules.mul(rules.sub(slower.min_rtt_ms, faster.min_rtt_ms), rules.count(102)),
                rules.ratio(30, 100),
            ),
            48,
        ),
        capped(least_spread(rules, faster, slower), 48),
        rules.count(20).below(
            rules.mul(
                rules.mul(rules.sub(slower.min_rtt_ms, faster.min_rtt_ms), rules.count(102)),
                rules.ratio(30, 100),
            ),
        ) ==> sized(least_spread(rules, faster, slower), 101) && sized(
            least_spread(rules, faster, slower),
            102,
        ),
{
    reveal(orderly);
    lemma_sizes(faster.min_rtt_ms, 20);
    lemma_sizes(slower.min_rtt_ms, 20);
    lemma_sizes(rules.count(102), 14);
    lemma_sizes(rules.ratio(30, 100), 14);
    lemma_sizes(rules.count(20), 14);
    let delta = rules.sub(slower.min_rtt_ms, faster.min_rtt_ms);
    assert(capped(delta, 20));
    let a = rules.mul(delta, rules.count(102));
    assert(capped(a, 34));
    let b = rules.mul(a, rules.ratio(30, 100));
    assert(capped(b, 48));
    lemma_wider(rules.count(20), 14, 48);
    lemma_sizes(rules.count(20), 48);
    lemma_left(rules, b, rules.count(20), 48);
}

#[verifier::rlimit(60)]
proof fn lemma_spread_weight(rules: Rules, faster: Constraint, slower: Constraint)
    requires
        orderly(rules),
        plausible(faster),
        plausible(slower),
        faster.min_rtt_ms.at_most(slower.min_rtt_ms),
    ensures
        sized(
            rules.mul(
                rules.div(
                    rules.sub(slower.min_rtt_ms, faster.min_rtt_ms),
                    rules.count(10),
                ).clamped(rules.ratio(5, 10), rules.count(2)),
                faster.quality_weight.lesser(slower.quality_weight),
            ),
            60,
        ),
{
    reveal(orderly);
    lemma_least_spread(rules, faster, slower);
    lemma_sizes(rules.count(10), 14);
    lemma_sizes(rules.ratio(5, 10), 14);
    lemma_sizes(rules.count(2), 14);
    let delta = rules.sub(slower.min_rtt_ms, faster.min_rtt_ms);
    let share = rules.div(delta, rules.count(10));
    assert(capped(share, 34));
    lemma_sizes(share, 34);
    assert(rules.ratio(5, 10).below(rules.count(2)));
    lemma_clamped(rules, share, rules.ratio(5, 10), rules.count(2), 14);
    let factor = share.clamped(rules.ratio(5, 10), rules.count(2));
    let quality = faster.quality_weight.lesser(slower.quality_weight);
    assert(sized(quality, 20));
    assert(sized(rules.mul(factor, quality), 34));
    lemma_wider(rules.mul(factor, quality), 34, 60);
}

/// A slower anchor has to be farther away than the fastest. Where it is as much farther as
/// the difference of the times asks for, there is nothing to pay, nor where the times hardly
/// differ. Where it is no farther at all, there is.
#[verifier::rlimit(60)]
pub proof fn lemma_slower_has_to_be_farther(
    rules: Rules,
    place: Place,
    faster: Constraint,
    slower: Constraint,
)
    requires
        orderly(rules),
        plausible_pair(
            rules,
            faster,
            distance_to(rules, place, faster.anchor@),
            slower,
            distance_to(rules, place, slower.anchor@),
        ),
    ensures
        ({
            let near = distance_to(rules, place, faster.anchor@);
            let far = distance_to(rules, place, slower.anchor@);
            let term = spread_term(rules, place, faster, near, slower);
            let delta = rules.sub(slower.min_rtt_ms, faster.min_rtt_ms);
            let asked = rules.mul(rules.mul(delta, rules.count(102)), rules.ratio(30, 100));
            &&& nonneg(term)
            &&& delta.below(rules.count(2)) ==> term.equals(zero())
            &&& asked.at_most(rules.sub(far, near)) ==> term.equals(zero())
            &&& far.at_most(near) && rules.count(2).at_most(delta) && rules.count(20).below(asked)
                ==> zero().below(term)
        }),
{
    reveal(orderly);
    let near = distance_to(rules, place, faster.anchor@);
    let far = distance_to(rules, place, slower.anchor@);
    let delta = rules.sub(slower.min_rtt_ms, faster.min_rtt_ms);
    let asked = rules.mul(rules.mul(delta, rules.count(102)), rules.ratio(30, 100));
    let least = least_spread(rules, faster, slower);
    lemma_least_spread(rules, faster, slower);
    lemma_spread_weight(rules, faster, slower);
    lemma_left(rules, far, near, 30);
    let spread = rules.sub(far, near).greater(zero());
    lemma_wider(spread, 30, 48);
    lemma_left(rules, least, spread, 48);
    lemma_sizes(rules.count(20), 14);
    lemma_sizes(rules.count(100), 14);
    lemma_sizes(asked, 48);
    lemma_sizes(least, 48);
    lemma_sizes(spread, 48);
    let deficit = rules.sub(least, spread).greater(zero());
    lemma_wider(deficit, 48, 120);
    lemma_wider(rules.count(100), 14, 60);
    let scale = least.greater(rules.count(100));
    assert(sized(scale, 60));
    let weight = rules.mul(
        rules.div(delta, rules.count(10)).clamped(rules.ratio(5, 10), rules.count(2)),
        faster.quality_weight.lesser(slower.quality_weight),
    );
    lemma_sizes(weight, 60);
    lemma_pull(rules, rules.count(45), weight, deficit, scale);
    if asked.at_most(rules.sub(far, near)) {
        assert(rules.sub(far, near).finite()) by {
            if near.at_most(far) {
                assert(capped(rules.sub(far, near), 30));
                lemma_sizes(rules.sub(far, near), 30);
            } else {
                lemma_sizes(near, 30);
                lemma_sizes(far, 30);
                assert(capped(rules.sub(near, far), 30));
                lemma_sizes(rules.sub(near, far), 30);
                assert(rules.sub(far, near).turned().equals(rules.sub(near, far)));
            }
        }
        assert(asked.at_most(spread));
        lemma_sizes(zero(), 14);
        assert(rules.sub(asked, rules.count(20)).at_most(rules.sub(asked, zero())));
        assert(rules.sub(asked, zero()).equals(asked));
        assert(least.at_most(spread));
    }
    if far.at_most(near) && rules.count(2).at_most(delta) && rules.count(20).below(asked) {
        assert(spread.equals(zero()));
        assert(rules.sub(least, spread).equals(least));
        lemma_wider(deficit, 101, 120);
        lemma_sizes(deficit, 120);
    }
}

/// The farther the slower anchor is from a place, and the nearer the fastest, the less there
/// is to pay.
#[verifier::rlimit(60)]
pub proof fn lemma_spread_falls_with_distance(
    rules: Rules,
    one: Place,
    other: Place,
    faster: Constraint,
    slower: Constraint,
)
    requires
        orderly(rules),
        plausible_pair(
            rules,
            faster,
            distance_to(rules, one, faster.anchor@),
            slower,
            distance_to(rules, one, slower.anchor@),
        ),
        plausible_pair(
            rules,
            faster,
            distance_to(rules, other, faster.anchor@),
            slower,
            distance_to(rules, other, slower.anchor@),
        ),
        distance_to(rules, one, slower.anchor@).at_most(
            distance_to(rules, other, slower.anchor@),
        ),
        distance_to(rules, other, faster.anchor@).at_most(
            distance_to(rules, one, faster.anchor@),
        ),
    ensures
        spread_term(
            rules,
            other,
            faster,
            distance_to(rules, other, faster.anchor@),
            slower,
        ).at_most(
            spread_term(rules, one, faster, distance_to(rules, one, faster.anchor@), slower),
        ),
{
    reveal(orderly);
    let near = distance_to(rules, one, faster.anchor@);
    let far = distance_to(rules, one, slower.anchor@);
    let near2 = distance_to(rules, other, faster.anchor@);
    let far2 = distance_to(rules, other, slower.anchor@);
    let delta = rules.sub(slower.min_rtt_ms, faster.min_rtt_ms);
    let least = least_spread(rules, faster, slower);
    lemma_least_spread(rules, faster, slower);
    lemma_spread_weight(rules, faster, slower);
    lemma_left(rules, far, near, 30);
    lemma_left(rules, far2, near2, 30);
    lemma_left_grows(rules, far, near, far2, near2, 30);
    let spread = rules.sub(far, near).greater(zero());
    let spread2 = rules.sub(far2, near2).greater(zero());
    lemma_left(rules, least, spread, 48);
    lemma_left(rules, least, spread2, 48);
    lemma_sizes(least, 48);
    lemma_left_grows(rules, least, spread2, least, spread, 48);
    let deficit = rules.sub(least, spread).greater(zero());
    let deficit2 = rules.sub(least, spread2).greater(zero());
    let scale = least.greater(rules.count(100));
    let weight = rules.mul(
        rules.div(delta, rules.count(10)).clamped(rules.ratio(5, 10), rules.count(2)),
        faster.quality_weight.lesser(slower.quality_weight),
    );
    lemma_sizes(weight, 60);
    lemma_sizes(scale, 60);
    lemma_pull_grows(rules, rules.count(45), weight, deficit2, scale, weight, deficit, scale);
}

spec fn effective(rules: Rules, faster: Constraint, slower: Constraint) -> Double {
    rules.sub(
        rules.sub(
            rules.sub(slower.min_rtt_ms, faster.min_rtt_ms),
            rules.mul(
                rules.ratio(5, 10),
                rules.add(faster.jitter_ms, slower.jitter_ms).lesser(rules.count(8)),
            ),
        ),
        rules.count(1),
    ).greater(zero())
}

#[verifier::rlimit(60)]
proof fn lemma_effective(rules: Rules, faster: Constraint, slower: Constraint)
    requires
        orderly(rules),
        plausible(faster),
        plausible(slower),
        faster.min_rtt_ms.at_most(slower.min_rtt_ms),
    ensures
        capped(rules.sub(slower.min_rtt_ms, faster.min_rtt_ms), 20),
        capped(rules.add(faster.jitter_ms, slower.jitter_ms), 21),
        capped(effective(rules, faster, slower), 20),
{
    reveal(orderly);
    lemma_sizes(faster.min_rtt_ms, 20);
    lemma_sizes(slower.min_rtt_ms, 20);
    let observed = rules.sub(slower.min_rtt_ms, faster.min_rtt_ms);
    assert(capped(observed, 20));
    lemma_sizes(observed, 20);
    let jitter = rules.add(faster.jitter_ms, slower.jitter_ms);
    assert(capped(jitter, 21));
    lemma_sizes(jitter, 21);
    lemma_sizes(rules.count(8), 14);
    lemma_sizes(rules.count(1), 14);
    let some = jitter.lesser(rules.count(8));
    assert(capped(some, 21));
    let half = rules.mul(rules.ratio(5, 10), some);
    assert(capped(half, 35)) by {
        lemma_sizes(rules.ratio(5, 10), 14);
    }
    lemma_sizes(half, 35);
    let inner = rules.sub(observed, half);
    assert(inner.at_most(rules.sub(observed, zero())));
    assert(rules.sub(observed, zero()).equals(observed));
    let one = rules.count(1);
    if inner.at_most(one) {
        assert(inner.finite()) by {
            if half.at_most(observed) {
                assert(capped(inner, 35));
                lemma_sizes(inner, 35);
            } else {
                assert(capped(rules.sub(half, observed), 35));
                lemma_sizes(rules.sub(half, observed), 35);
                assert(inner.turned().equals(rules.sub(half, observed)));
            }
        }
        assert(rules.sub(inner, one).at_most(rules.sub(one, one)));
        assert(capped(rules.sub(one, one), 14));
        assert(rules.sub(one, one).turned().equals(rules.sub(one, one)));
    } else {
        assert(capped(inner, 20));
        assert(capped(rules.sub(inner, one), 20));
    }
}

spec fn required(rules: Rules, faster: Constraint, slower: Constraint) -> Double {
    rules.add(
        rules.count(20),
        rules.mul(rules.count(4), effective(rules, faster, slower)),
    ).lesser(rules.count(180))
}

spec fn pair_weight(rules: Rules, faster: Constraint, slower: Constraint) -> Double {
    rules.mul(
        rules.mul(rules.count(65), faster.quality_weight.lesser(slower.quality_weight)),
        rules.div(effective(rules, faster, slower), rules.count(6)).clamped(
            rules.ratio(4, 10),
            rules.count(2),
        ),
    )
}

#[verifier::rlimit(60)]
proof fn lemma_pair_parts(rules: Rules, faster: Constraint, slower: Constraint)
    requires
        orderly(rules),
        plausible(faster),
        plausible(slower),
        faster.min_rtt_ms.at_most(slower.min_rtt_ms),
    ensures
        capped(effective(rules, faster, slower), 20),
        sized(required(rules, faster, slower), 35),
        sized(
            rules.mul(rules.count(65), faster.quality_weight.lesser(slower.quality_weight)),
            40,
        ),
        sized(
            rules.div(effective(rules, faster, slower), rules.count(6)).clamped(
                rules.ratio(4, 10),
                rules.count(2),
            ),
            60,
        ),
{
    reveal(orderly);
    lemma_effective(rules, faster, slower);
    let effect = effective(rules, faster, slower);
    lemma_sizes(effect, 20);
    lemma_sizes(rules.count(4), 14);
    lemma_sizes(rules.count(20), 14);
    lemma_sizes(rules.count(6), 14);
    lemma_sizes(rules.count(180), 14);
    let more = rules.mul(rules.count(4), effect);
    assert(capped(more, 34));
    lemma_sizes(more, 34);
    let sum = rules.add(rules.count(20), more);
    assert(capped(rules.count(20), 34));
    assert(capped(sum, 35));
    assert(rules.count(20).at_most(sum));
    lemma_sizes(sum, 35);
    let share = rules.div(effect, rules.count(6));
    assert(capped(share, 34));
    lemma_sizes(share, 34);
    assert(rules.ratio(4, 10).below(rules.count(2)));
    lemma_sizes(rules.count(2), 14);
    lemma_clamped(rules, share, rules.ratio(4, 10), rules.count(2), 14);
    let quality = faster.quality_weight.lesser(slower.quality_weight);
    assert(sized(quality, 20));
    assert(sized(rules.mul(rules.count(65), quality), 34));
}

spec fn deficit_of(
    required_km: Double,
    rules: Rules,
    slower_km: Double,
    faster_km: Double,
) -> Double {
    rules.sub(required_km, rules.sub(slower_km, faster_km)).greater(zero())
}

#[verifier::rlimit(60)]
proof fn lemma_deficit(rules: Rules, required_km: Double, slower_km: Double, faster_km: Double)
    requires
        orderly(rules),
        sized(required_km, 35),
        capped(slower_km, 30),
        capped(faster_km, 30),
    ensures
        capped(deficit_of(required_km, rules, slower_km, faster_km), 120),
        rules.sub(slower_km, faster_km).finite(),
        rules.sub(faster_km, slower_km).finite(),
        slower_km.at_most(faster_km) ==> sized(
            deficit_of(required_km, rules, slower_km, faster_km),
            120,
        ),
{
    reveal(orderly);
    lemma_sizes(required_km, 35);
    lemma_sizes(slower_km, 30);
    lemma_sizes(faster_km, 30);
    let gap = rules.sub(slower_km, faster_km);
    let back = rules.sub(faster_km, slower_km);
    assert(gap.turned().equals(back));
    assert(back.turned().equals(gap));
    if faster_km.at_most(slower_km) {
        assert(capped(gap, 30));
        lemma_sizes(gap, 30);
        lemma_left(rules, required_km, gap, 35);
    }
    if slower_km.at_most(faster_km) {
        assert(capped(back, 30));
        lemma_sizes(back, 30);
        assert(capped(gap.turned(), 35));
        let all = rules.sub(required_km, gap);
        assert(capped(all, 36));
        assert(rules.sub(required_km, zero()).at_most(all));
        assert(rules.sub(required_km, zero()).equals(required_km));
        lemma_sizes(all, 36);
    }
}

spec fn allowed(rules: Rules, observed_ms: Double, jitter_ms: Double) -> Double {
    rules.sub(
        rules.add(
            rules.count(100),
            rules.mul(rules.count(20), jitter_ms.lesser(rules.count(6))),
        ),
        rules.mul(rules.count(8), observed_ms),
    ).clamped(rules.count(40), rules.count(220))
}

#[verifier::rlimit(60)]
proof fn lemma_allowed(rules: Rules, observed_ms: Double, jitter_ms: Double)
    requires
        orderly(rules),
        capped(observed_ms, 20),
        capped(jitter_ms, 21),
    ensures
        sized(allowed(rules, observed_ms, jitter_ms), 14),
        rules.count(40).at_most(allowed(rules, observed_ms, jitter_ms)),
        allowed(rules, observed_ms, jitter_ms).at_most(rules.count(220)),
{
    reveal(orderly);
    lemma_sizes(rules.count(100), 14);
    lemma_sizes(rules.count(20), 14);
    lemma_sizes(rules.count(8), 14);
    lemma_sizes(rules.count(6), 14);
    lemma_sizes(rules.count(220), 14);
    lemma_sizes(jitter_ms, 21);
    let some = jitter_ms.lesser(rules.count(6));
    assert(capped(some, 21));
    let more = rules.mul(rules.count(20), some);
    assert(capped(more, 35));
    assert(capped(rules.count(100), 35));
    let sum = rules.add(rules.count(100), more);
    assert(capped(sum, 36));
    lemma_sizes(sum, 36);
    let less = rules.mul(rules.count(8), observed_ms);
    assert(capped(less, 34));
    lemma_sizes(less, 34);
    assert(!rules.sub(sum, less).nan());
    assert(rules.count(40).below(rules.count(220)));
    lemma_clamped(rules, rules.sub(sum, less), rules.count(40), rules.count(220), 14);
}

#[verifier::rlimit(60)]
proof fn lemma_inversion(
    rules: Rules,
    penalty: Double,
    observed_ms: Double,
    jitter_ms: Double,
    quality: Double,
    ahead_km: Double,
    penalty2: Double,
    ahead2_km: Double,
)
    requires
        orderly(rules),
        nonneg(penalty),
        penalty.at_most(penalty2),
        capped(observed_ms, 20),
        capped(jitter_ms, 21),
        sized(quality, 20),
        ahead_km.finite(),
        ahead2_km.finite(),
        zero().at_most(ahead_km) ==> capped(ahead_km, 30),
        zero().at_most(ahead2_km) ==> capped(ahead2_km, 30),
        ahead_km.at_most(ahead2_km),
    ensures
        penalty.at_most(
            with_inversion(rules, penalty, observed_ms, jitter_ms, quality, ahead_km),
        ),
        with_inversion(rules, penalty, observed_ms, jitter_ms, quality, ahead_km).at_most(
            with_inversion(rules, penalty2, observed_ms, jitter_ms, quality, ahead2_km),
        ),
        ahead_km.at_most(rules.count(40)) ==> with_inversion(
            rules,
            penalty,
            observed_ms,
            jitter_ms,
            quality,
            ahead_km,
        ) == penalty,
{
    reveal(orderly);
    let limit = allowed(rules, observed_ms, jitter_ms);
    lemma_allowed(rules, observed_ms, jitter_ms);
    lemma_sizes(limit, 14);
    lemma_sizes(observed_ms, 20);
    lemma_sizes(rules.count(6), 14);
    lemma_sizes(rules.count(3), 14);
    let share = rules.div(observed_ms, rules.count(6));
    assert(capped(share, 34));
    lemma_sizes(share, 34);
    assert(rules.ratio(5, 10).below(rules.count(3)));
    lemma_clamped(rules, share, rules.ratio(5, 10), rules.count(3), 14);
    let factor = share.clamped(rules.ratio(5, 10), rules.count(3));
    let k = rules.mul(rules.count(220), quality);
    assert(sized(k, 34));
    let scale = limit.greater(rules.count(120));
    assert(sized(scale, 60));
    lemma_inverted(rules, ahead_km, limit);
    lemma_inverted(rules, ahead2_km, limit);
    let over = rules.sub(ahead_km, limit).greater(zero());
    let over2 = rules.sub(ahead2_km, limit).greater(zero());
    assert(rules.sub(ahead_km, limit).at_most(rules.sub(ahead2_km, limit)));
    assert(over.at_most(over2));
    assert(sized(factor, 60));
    lemma_sizes(factor, 60);
    lemma_sizes(scale, 60);
    lemma_pull(rules, k, factor, over, scale);
    lemma_pull(rules, k, factor, over2, scale);
    lemma_pull_grows(rules, k, factor, over, scale, factor, over2, scale);
    assert(nonneg(penalty2));
}

#[verifier::rlimit(60)]
proof fn lemma_inverted(rules: Rules, ahead_km: Double, limit: Double)
    requires
        orderly(rules),
        sized(limit, 14),
        ahead_km.finite(),
        zero().at_most(ahead_km) ==> capped(ahead_km, 30),
    ensures
        capped(rules.sub(ahead_km, limit).greater(zero()), 120),
        ahead_km.at_most(limit) ==> rules.sub(ahead_km, limit).greater(zero()).equals(zero()),
        !rules.sub(ahead_km, limit).nan(),
{
    reveal(orderly);
    lemma_sizes(limit, 14);
    if zero().at_most(ahead_km) {
        lemma_left(rules, ahead_km, limit, 30);
    } else {
        lemma_sizes(zero(), 30);
        lemma_left(rules, zero(), limit, 30);
        assert(rules.sub(ahead_km, limit).at_most(rules.sub(zero(), limit)));
    }
}

spec fn with_order(
    rules: Rules,
    penalty: Double,
    faster: Constraint,
    faster_km: Double,
    slower: Constraint,
    slower_km: Double,
) -> Double {
    let required_km = required(rules, faster, slower);
    rules.add(
        penalty,
        rules.mul(
            pair_weight(rules, faster, slower),
            rules.square(
                rules.div(
                    deficit_of(required_km, rules, slower_km, faster_km),
                    required_km.greater(rules.count(120)),
                ),
            ),
        ),
    )
}

#[verifier::rlimit(60)]
proof fn lemma_with_order(
    rules: Rules,
    penalty: Double,
    penalty2: Double,
    faster: Constraint,
    faster_km: Double,
    faster2_km: Double,
    slower: Constraint,
    slower_km: Double,
    slower2_km: Double,
)
    requires
        orderly(rules),
        nonneg(penalty),
        penalty.at_most(penalty2),
        plausible_pair(rules, faster, faster_km, slower, slower_km),
        plausible_pair(rules, faster, faster2_km, slower, slower2_km),
        faster_km.at_most(faster2_km),
        slower2_km.at_most(slower_km),
    ensures
        penalty.at_most(with_order(rules, penalty, faster, faster_km, slower, slower_km)),
        with_order(rules, penalty, faster, faster_km, slower, slower_km).at_most(
            with_order(rules, penalty2, faster, faster2_km, slower, slower2_km),
        ),
        slower_km.at_most(faster_km) ==> zero().below(
            with_order(rules, penalty, faster, faster_km, slower, slower_km),
        ),
{
    reveal(orderly);
    lemma_pair_parts(rules, faster, slower);
    let required_km = required(rules, faster, slower);
    lemma_deficit(rules, required_km, slower_km, faster_km);
    lemma_deficit(rules, required_km, slower2_km, faster2_km);
    let one = deficit_of(required_km, rules, slower_km, faster_km);
    let two = deficit_of(required_km, rules, slower2_km, faster2_km);
    lemma_sizes(required_km, 35);
    lemma_sizes(slower_km, 30);
    lemma_sizes(slower2_km, 30);
    lemma_sizes(faster_km, 30);
    lemma_sizes(faster2_km, 30);
    assert(rules.sub(slower2_km, faster2_km).at_most(rules.sub(slower_km, faster_km)));
    assert(rules.sub(required_km, rules.sub(slower_km, faster_km)).at_most(
        rules.sub(required_km, rules.sub(slower2_km, faster2_km)),
    ));
    assert(one.at_most(two));
    let scale = required_km.greater(rules.count(120));
    assert(sized(scale, 60)) by {
        lemma_sizes(rules.count(120), 14);
    }
    let k = rules.mul(
        rules.count(65),
        faster.quality_weight.lesser(slower.quality_weight),
    );
    let w = rules.div(effective(rules, faster, slower), rules.count(6)).clamped(
        rules.ratio(4, 10),
        rules.count(2),
    );
    lemma_sizes(w, 60);
    lemma_sizes(scale, 60);
    lemma_pull(rules, k, w, one, scale);
    lemma_pull(rules, k, w, two, scale);
    lemma_pull_grows(rules, k, w, one, scale, w, two, scale);
    assert(nonneg(penalty2));
}

/// Tells whether two times differ by enough to order two anchors by them: by a millisecond
/// and a half, and by more than a millisecond beyond half of what the times vary by.
pub open spec fn apart(rules: Rules, faster: Constraint, slower: Constraint) -> bool {
    let observed_ms = rules.sub(slower.min_rtt_ms, faster.min_rtt_ms);
    let jitter_ms = rules.add(faster.jitter_ms, slower.jitter_ms);
    &&& rules.ratio(15, 10).at_most(observed_ms)
    &&& zero().below(
        rules.sub(
            rules.sub(observed_ms, rules.mul(rules.ratio(5, 10), jitter_ms.lesser(rules.count(8)))),
            rules.count(1),
        ),
    )
}

/// Two anchors are to be as far as their times order them. A pair never makes up for another.
/// Times that hardly differ order nothing. Where they do, and the slower anchor is not the
/// farther one, there is something to pay.
#[verifier::rlimit(60)]
pub proof fn lemma_pair_is_ordered_by_time(
    rules: Rules,
    penalty: Double,
    faster: Constraint,
    faster_km: Double,
    slower: Constraint,
    slower_km: Double,
)
    requires
        orderly(rules),
        nonneg(penalty),
        plausible_pair(rules, faster, faster_km, slower, slower_km),
    ensures
        ({
            let after = with_pair(rules, penalty, faster, faster_km, slower, slower_km);
            &&& penalty.at_most(after)
            &&& rules.sub(slower.min_rtt_ms, faster.min_rtt_ms).below(rules.ratio(15, 10))
                ==> after == penalty
            &&& apart(rules, faster, slower) && slower_km.at_most(faster_km) ==> zero().below(after)
        }),
{
    lemma_pair_grows(
        rules,
        penalty,
        penalty,
        faster,
        faster_km,
        faster_km,
        slower,
        slower_km,
        slower_km,
    );
}

/// The nearer the slower anchor is to a place and the farther the faster one, the more there
/// is to pay.
#[verifier::rlimit(60)]
pub proof fn lemma_pair_grows(
    rules: Rules,
    penalty: Double,
    penalty2: Double,
    faster: Constraint,
    faster_km: Double,
    faster2_km: Double,
    slower: Constraint,
    slower_km: Double,
    slower2_km: Double,
)
    requires
        orderly(rules),
        nonneg(penalty),
        penalty.at_most(penalty2),
        plausible_pair(rules, faster, faster_km, slower, slower_km),
        plausible_pair(rules, faster, faster2_km, slower, slower2_km),
        faster_km.at_most(faster2_km),
        slower2_km.at_most(slower_km),
    ensures
        penalty.at_most(with_pair(rules, penalty, faster, faster_km, slower, slower_km)),
        with_pair(rules, penalty, faster, faster_km, slower, slower_km).at_most(
            with_pair(rules, penalty2, faster, faster2_km, slower, slower2_km),
        ),
        apart(rules, faster, slower) && slower_km.at_most(faster_km) ==> zero().below(
            with_pair(rules, penalty, faster, faster_km, slower, slower_km),
        ),
{
    reveal(orderly);
    lemma_effective(rules, faster, slower);
    lemma_with_order(
        rules,
        penalty,
        penalty2,
        faster,
        faster_km,
        faster2_km,
        slower,
        slower_km,
        slower2_km,
    );
    let observed_ms = rules.sub(slower.min_rtt_ms, faster.min_rtt_ms);
    let jitter_ms = rules.add(faster.jitter_ms, slower.jitter_ms);
    let quality = faster.quality_weight.lesser(slower.quality_weight);
    let one = with_order(rules, penalty, faster, faster_km, slower, slower_km);
    let two = with_order(rules, penalty2, faster, faster2_km, slower, slower2_km);
    let ahead = rules.sub(faster_km, slower_km);
    let ahead2 = rules.sub(faster2_km, slower2_km);
    lemma_pair_parts(rules, faster, slower);
    lemma_ahead(rules, faster_km, slower_km);
    lemma_ahead(rules, faster2_km, slower2_km);
    lemma_sizes(slower_km, 30);
    lemma_sizes(slower2_km, 30);
    lemma_sizes(faster_km, 30);
    lemma_sizes(faster2_km, 30);
    assert(ahead.at_most(ahead2));
    assert(nonneg(one));
    lemma_inversion(rules, one, observed_ms, jitter_ms, quality, ahead, two, ahead2);
}

#[verifier::rlimit(60)]
proof fn lemma_ahead(rules: Rules, faster_km: Double, slower_km: Double)
    requires
        orderly(rules),
        capped(faster_km, 30),
        capped(slower_km, 30),
    ensures
        rules.sub(faster_km, slower_km).finite(),
        zero().at_most(rules.sub(faster_km, slower_km)) ==> capped(
            rules.sub(faster_km, slower_km),
            30,
        ),
{
    reveal(orderly);
    lemma_sizes(faster_km, 30);
    lemma_sizes(slower_km, 30);
    let gap = rules.sub(slower_km, faster_km);
    let back = rules.sub(faster_km, slower_km);
    assert(back.turned().equals(gap));
    if faster_km.at_most(slower_km) {
        assert(capped(gap, 30));
        lemma_sizes(gap, 30);
    } else {
        assert(capped(back, 30));
        lemma_sizes(back, 30);
    }
}

/// Tells whether all constraints can be compared with each other, as seen from a place.
pub open spec fn comparable(rules: Rules, place: Place, local: Seq<Constraint>) -> bool {
    forall|i: int, j: int|
        0 <= i < j < local.len() ==> plausible_pair(
            rules,
            #[trigger] local[i],
            distance_to(rules, place, local[i].anchor@),
            #[trigger] local[j],
            distance_to(rules, place, local[j].anchor@),
        )
}

#[verifier::rlimit(60)]
proof fn lemma_row_counts(
    rules: Rules,
    place: Place,
    penalty: Double,
    faster: Constraint,
    slower: Seq<Constraint>,
)
    requires
        orderly(rules),
        nonneg(penalty),
        forall|j: int|
            0 <= j < slower.len() ==> plausible_pair(
                rules,
                faster,
                distance_to(rules, place, faster.anchor@),
                #[trigger] slower[j],
                distance_to(rules, place, slower[j].anchor@),
            ),
    ensures
        penalty.at_most(with_row(rules, place, penalty, faster, slower)),
        forall|j: int|
            0 <= j < slower.len() ==> with_pair(
                rules,
                zero(),
                faster,
                distance_to(rules, place, faster.anchor@),
                #[trigger] slower[j],
                distance_to(rules, place, slower[j].anchor@),
            ).at_most(with_row(rules, place, penalty, faster, slower)),
    decreases slower.len(),
{
    if slower.len() > 0 {
        let shorter = slower.drop_last();
        let last = slower[slower.len() - 1];
        let near = distance_to(rules, place, faster.anchor@);
        let far = distance_to(rules, place, last.anchor@);
        assert forall|j: int| 0 <= j < shorter.len() implies plausible_pair(
            rules,
            faster,
            near,
            #[trigger] shorter[j],
            distance_to(rules, place, shorter[j].anchor@),
        ) by {
            assert(shorter[j] == slower[j]);
        }
        lemma_row_counts(rules, place, penalty, faster, shorter);
        let before = with_row(rules, place, penalty, faster, shorter);
        let all = with_row(rules, place, penalty, faster, slower);
        assert(plausible_pair(rules, faster, near, last, far));
        lemma_pair_grows(rules, zero(), before, faster, near, near, last, far, far);
        lemma_pair_is_ordered_by_time(rules, before, faster, near, last, far);
        assert forall|j: int| 0 <= j < slower.len() implies with_pair(
            rules,
            zero(),
            faster,
            near,
            #[trigger] slower[j],
            distance_to(rules, place, slower[j].anchor@),
        ).at_most(all) by {
            if j < shorter.len() {
                assert(shorter[j] == slower[j]);
            }
        }
    }
}

/// Every pair of constraints counts: all pairs together cost no less than any of them does
/// alone.
#[verifier::rlimit(60)]
pub proof fn lemma_every_pair_counts(
    rules: Rules,
    place: Place,
    local: Seq<Constraint>,
    rows: nat,
)
    requires
        orderly(rules),
        comparable(rules, place, local),
        rows <= local.len(),
    ensures
        nonneg(with_rows(rules, place, local, rows)),
        forall|i: int, j: int|
            0 <= i < rows && i < j < local.len() ==> with_pair(
                rules,
                zero(),
                #[trigger] local[i],
                distance_to(rules, place, local[i].anchor@),
                #[trigger] local[j],
                distance_to(rules, place, local[j].anchor@),
            ).at_most(with_rows(rules, place, local, rows)),
    decreases rows,
{
    if rows > 0 {
        let fewer = (rows - 1) as nat;
        lemma_every_pair_counts(rules, place, local, fewer);
        let before = with_rows(rules, place, local, fewer);
        let faster = local[rows - 1];
        let slower = local.skip(rows as int);
        assert forall|j: int| 0 <= j < slower.len() implies plausible_pair(
            rules,
            faster,
            distance_to(rules, place, faster.anchor@),
            #[trigger] slower[j],
            distance_to(rules, place, slower[j].anchor@),
        ) by {
            assert(slower[j] == local[rows + j]);
        }
        lemma_row_counts(rules, place, before, faster, slower);
        let all = with_rows(rules, place, local, rows);
        assert forall|i: int, j: int| 0 <= i < rows && i < j < local.len() implies with_pair(
            rules,
            zero(),
            #[trigger] local[i],
            distance_to(rules, place, local[i].anchor@),
            #[trigger] local[j],
            distance_to(rules, place, local[j].anchor@),
        ).at_most(all) by {
            if i == rows - 1 {
                assert(slower[j - rows] == local[j]);
            }
        }
    }
}

/// How far beyond the fastest anchor a member of a cluster may lie by its time.
pub open spec fn member_reach(rules: Rules, faster: Constraint, slower: Constraint) -> Double {
    let observed_ms = rules.sub(slower.min_rtt_ms, faster.min_rtt_ms);
    rules.add(
        rules.add(rules.mul(observed_ms, rules.count(70)), rules.count(140)),
        rules.mul(
            rules.count(80),
            rules.add(faster.jitter_ms, slower.jitter_ms).lesser(rules.count(12)),
        ),
    )
}

#[verifier::rlimit(60)]
proof fn lemma_member_reach(rules: Rules, faster: Constraint, slower: Constraint)
    requires
        orderly(rules),
        plausible(faster),
        plausible(slower),
        faster.min_rtt_ms.at_most(slower.min_rtt_ms),
    ensures
        sized(member_reach(rules, faster, slower), 40),
        rules.count(140).at_most(member_reach(rules, faster, slower)),
{
    reveal(orderly);
    lemma_effective(rules, faster, slower);
    let observed = rules.sub(slower.min_rtt_ms, faster.min_rtt_ms);
    let jitter = rules.add(faster.jitter_ms, slower.jitter_ms);
    lemma_sizes(observed, 20);
    lemma_sizes(jitter, 21);
    lemma_sizes(rules.count(12), 14);
    lemma_sizes(rules.count(70), 14);
    lemma_sizes(rules.count(80), 14);
    lemma_sizes(rules.count(140), 14);
    let by_ms = rules.mul(observed, rules.count(70));
    assert(capped(by_ms, 34));
    lemma_sizes(by_ms, 34);
    assert(capped(rules.count(140), 34));
    let base = rules.add(by_ms, rules.count(140));
    assert(capped(base, 35));
    lemma_sizes(base, 35);
    let some = jitter.lesser(rules.count(12));
    assert(capped(some, 21));
    let more = rules.mul(rules.count(80), some);
    assert(capped(more, 35));
    lemma_sizes(more, 35);
    let reach = rules.add(base, more);
    assert(capped(reach, 36));
    lemma_sizes(reach, 36);
    assert(rules.count(140).at_most(base));
    assert(base.at_most(reach));
}

#[verifier::rlimit(60)]
proof fn lemma_member_weight(rules: Rules, faster: Constraint, slower: Constraint)
    requires
        orderly(rules),
        plausible(faster),
        plausible(slower),
        faster.min_rtt_ms.at_most(slower.min_rtt_ms),
    ensures
        sized(
            rules.mul(
                rules.div(
                    rules.sub(slower.min_rtt_ms, faster.min_rtt_ms),
                    rules.count(6),
                ).clamped(rules.ratio(5, 10), rules.ratio(15, 10)),
                faster.quality_weight.lesser(slower.quality_weight),
            ),
            60,
        ),
{
    reveal(orderly);
    lemma_effective(rules, faster, slower);
    let observed = rules.sub(slower.min_rtt_ms, faster.min_rtt_ms);
    lemma_sizes(rules.count(6), 14);
    let share = rules.div(observed, rules.count(6));
    assert(capped(share, 34));
    lemma_sizes(share, 34);
    lemma_sizes(rules.ratio(15, 10), 14);
    assert(rules.ratio(5, 10).below(rules.count(1)));
    assert(rules.count(1).below(rules.ratio(15, 10)));
    lemma_clamped(rules, share, rules.ratio(5, 10), rules.ratio(15, 10), 14);
    assert(sized(faster.quality_weight.lesser(slower.quality_weight), 20));
    assert(sized(
        rules.mul(
            share.clamped(rules.ratio(5, 10), rules.ratio(15, 10)),
            faster.quality_weight.lesser(slower.quality_weight),
        ),
        34,
    ));
}

/// A member of a cluster costs nothing where it is no farther from a place than its time
/// allows, as seen from the fastest anchor. Where it is, it costs something.
#[verifier::rlimit(60)]
pub proof fn lemma_member_has_to_be_near(
    rules: Rules,
    place: Place,
    fastest: Constraint,
    strength: Double,
    member: Constraint,
)
    requires
        orderly(rules),
        plausible_pair(
            rules,
            fastest,
            distance_to(rules, place, fastest.anchor@),
            member,
            distance_to(rules, place, member.anchor@),
        ),
        sized(strength, 20),
    ensures
        ({
            let near = distance_to(rules, place, fastest.anchor@);
            let far = distance_to(rules, place, member.anchor@);
            let observed_ms = rules.sub(member.min_rtt_ms, fastest.min_rtt_ms);
            let term = member_term(rules, place, fastest, strength, member);
            &&& capped(term, 470)
            &&& far.at_most(near) ==> term.equals(zero())
            &&& rules.sub(far, near).at_most(member_reach(rules, fastest, member))
                ==> term.equals(zero())
            &&& rules.ratio(5, 10).below(observed_ms) && member_reach(
                rules,
                fastest,
                member,
            ).below(rules.sub(far, near)) ==> zero().below(term)
        }),
{
    reveal(orderly);
    let near = distance_to(rules, place, fastest.anchor@);
    let far = distance_to(rules, place, member.anchor@);
    lemma_member_reach(rules, fastest, member);
    lemma_member_weight(rules, fastest, member);
    lemma_sizes(near, 30);
    lemma_sizes(far, 30);
    lemma_left(rules, far, near, 30);
    let beyond = rules.sub(far, near).greater(zero());
    let reach = member_reach(rules, fastest, member);
    lemma_sizes(reach, 40);
    lemma_left(rules, beyond, reach, 40);
    let over = rules.sub(beyond, reach).greater(zero());
    let k = rules.mul(rules.count(14), strength);
    assert(sized(k, 34));
    let weight = rules.mul(
        rules.div(rules.sub(member.min_rtt_ms, fastest.min_rtt_ms), rules.count(6)).clamped(
            rules.ratio(5, 10),
            rules.ratio(15, 10),
        ),
        fastest.quality_weight.lesser(member.quality_weight),
    );
    lemma_sizes(weight, 60);
    let scale = reach.greater(rules.count(150));
    assert(sized(scale, 60)) by {
        lemma_sizes(rules.count(150), 14);
    }
    lemma_pull(rules, k, weight, over, scale);
    if reach.below(beyond) {
        assert(sized(beyond, 40));
        assert(sized(over, 93));
    }
}

/// The farther a member of a cluster is from a place, and the nearer the fastest anchor,
/// the more it costs.
#[verifier::rlimit(60)]
pub proof fn lemma_member_costs_with_distance(
    rules: Rules,
    one: Place,
    other: Place,
    fastest: Constraint,
    strength: Double,
    member: Constraint,
)
    requires
        orderly(rules),
        plausible_pair(
            rules,
            fastest,
            distance_to(rules, one, fastest.anchor@),
            member,
            distance_to(rules, one, member.anchor@),
        ),
        plausible_pair(
            rules,
            fastest,
            distance_to(rules, other, fastest.anchor@),
            member,
            distance_to(rules, other, member.anchor@),
        ),
        sized(strength, 20),
        distance_to(rules, one, member.anchor@).at_most(
            distance_to(rules, other, member.anchor@),
        ),
        distance_to(rules, other, fastest.anchor@).at_most(
            distance_to(rules, one, fastest.anchor@),
        ),
    ensures
        member_term(rules, one, fastest, strength, member).at_most(
            member_term(rules, other, fastest, strength, member),
        ),
{
    reveal(orderly);
    let near = distance_to(rules, one, fastest.anchor@);
    let far = distance_to(rules, one, member.anchor@);
    let near2 = distance_to(rules, other, fastest.anchor@);
    let far2 = distance_to(rules, other, member.anchor@);
    lemma_member_reach(rules, fastest, member);
    lemma_member_weight(rules, fastest, member);
    lemma_left(rules, far, near, 30);
    lemma_left(rules, far2, near2, 30);
    lemma_left_grows(rules, far, near, far2, near2, 30);
    let beyond = rules.sub(far, near).greater(zero());
    let beyond2 = rules.sub(far2, near2).greater(zero());
    let reach = member_reach(rules, fastest, member);
    lemma_sizes(reach, 40);
    lemma_left(rules, beyond, reach, 40);
    lemma_left(rules, beyond2, reach, 40);
    lemma_left_grows(rules, beyond, reach, beyond2, reach, 40);
    let over = rules.sub(beyond, reach).greater(zero());
    let over2 = rules.sub(beyond2, reach).greater(zero());
    let k = rules.mul(rules.count(14), strength);
    assert(sized(k, 34));
    let weight = rules.mul(
        rules.div(rules.sub(member.min_rtt_ms, fastest.min_rtt_ms), rules.count(6)).clamped(
            rules.ratio(5, 10),
            rules.ratio(15, 10),
        ),
        fastest.quality_weight.lesser(member.quality_weight),
    );
    lemma_sizes(weight, 60);
    let scale = reach.greater(rules.count(150));
    assert(sized(scale, 60)) by {
        lemma_sizes(rules.count(150), 14);
    }
    lemma_sizes(scale, 60);
    lemma_pull_grows(rules, k, weight, over, scale, weight, over2, scale);
}

#[verifier::rlimit(60)]
proof fn lemma_members_count(
    rules: Rules,
    place: Place,
    fastest: Constraint,
    strength: Double,
    members: Seq<Constraint>,
)
    requires
        orderly(rules),
        forall|i: int|
            0 <= i < members.len() ==> nonneg(
                member_term(rules, place, fastest, strength, #[trigger] members[i]),
            ),
    ensures
        nonneg(member_sum(rules, place, fastest, strength, members)),
        forall|i: int|
            0 <= i < members.len() ==> member_term(
                rules,
                place,
                fastest,
                strength,
                #[trigger] members[i],
            ).at_most(member_sum(rules, place, fastest, strength, members)),
    decreases members.len(),
{
    assert(adds_in_order(rules)) by {
        reveal(orderly);
    }
    if members.len() > 0 {
        let shorter = members.drop_last();
        assert forall|i: int| 0 <= i < shorter.len() implies nonneg(
            member_term(rules, place, fastest, strength, #[trigger] shorter[i]),
        ) by {
            assert(shorter[i] == members[i]);
        }
        lemma_members_count(rules, place, fastest, strength, shorter);
        let all = member_sum(rules, place, fastest, strength, members);
        assert(nonneg(member_term(rules, place, fastest, strength, members[members.len() - 1])));
        assert forall|i: int| 0 <= i < members.len() implies member_term(
            rules,
            place,
            fastest,
            strength,
            #[trigger] members[i],
        ).at_most(all) by {
            if i < shorter.len() {
                assert(shorter[i] == members[i]);
            }
        }
    }
}

/// Tells whether a cluster is of a size that clusters have, as seen from a place.
pub open spec fn plausible_cluster(rules: Rules, place: Place, cluster: ClusterView) -> bool {
    &&& sized(cluster.strength, 20)
    &&& capped(cluster.span_km, 30)
    &&& capped(distance(rules, place, cluster.center), 30)
    &&& forall|i: int|
        0 <= i < cluster.members.len() ==> plausible_pair(
            rules,
            cluster.fastest,
            distance_to(rules, place, cluster.fastest.anchor@),
            #[trigger] cluster.members[i],
            distance_to(rules, place, cluster.members[i].anchor@),
        )
}

spec fn cluster_pull(rules: Rules, place: Place, cluster: ClusterView) -> Double {
    let soft_radius_km = rules.mul(cluster.span_km, rules.ratio(40, 100)).clamped(
        rules.count(140),
        rules.count(650),
    );
    rules.mul(
        rules.mul(rules.count(28), cluster.strength),
        rules.square(
            rules.div(
                distance(rules, place, cluster.center),
                soft_radius_km.greater(rules.count(120)),
            ),
        ),
    )
}

#[verifier::rlimit(60)]
proof fn lemma_cluster_radius(rules: Rules, cluster: ClusterView)
    requires
        orderly(rules),
        capped(cluster.span_km, 30),
    ensures
        sized(
            rules.mul(cluster.span_km, rules.ratio(40, 100)).clamped(
                rules.count(140),
                rules.count(650),
            ).greater(rules.count(120)),
            60,
        ),
{
    reveal(orderly);
    lemma_sizes(rules.ratio(40, 100), 14);
    let share = rules.mul(cluster.span_km, rules.ratio(40, 100));
    assert(capped(share, 44));
    lemma_sizes(share, 44);
    lemma_sizes(rules.count(650), 14);
    lemma_sizes(rules.count(120), 14);
    assert(rules.count(140).below(rules.count(650)));
    lemma_clamped(rules, share, rules.count(140), rules.count(650), 14);
}

/// A cluster draws a place to its centre, and its members count on top of that. A place
/// away from the centre costs something, and none costs less than any member but the first
/// does.
#[verifier::rlimit(60)]
pub proof fn lemma_cluster_draws(rules: Rules, place: Place, ranked: Seq<Constraint>)
    requires
        orderly(rules),
        cluster_of(rules, ranked) matches Some(cluster) ==> plausible_cluster(
            rules,
            place,
            cluster,
        ),
    ensures
        nonneg(cluster_score(rules, place, ranked)),
        cluster_of(rules, ranked) is None ==> cluster_score(rules, place, ranked) == zero(),
        cluster_of(rules, ranked) matches Some(cluster) ==> {
            let score = cluster_score(rules, place, ranked);
            &&& sized(distance(rules, place, cluster.center), 30) ==> zero().below(score)
            &&& forall|i: int|
                1 <= i < cluster.members.len() ==> member_term(
                    rules,
                    place,
                    cluster.fastest,
                    cluster.strength,
                    #[trigger] cluster.members[i],
                ).at_most(score)
        },
{
    if let Some(cluster) = cluster_of(rules, ranked) {
        let members = cluster.members.skip(1);
        let fastest = cluster.fastest;
        let strength = cluster.strength;
        let far = distance(rules, place, cluster.center);
        let score = cluster_score(rules, place, ranked);
        lemma_cluster_radius(rules, cluster);
        let scale = rules.mul(cluster.span_km, rules.ratio(40, 100)).clamped(
            rules.count(140),
            rules.count(650),
        ).greater(rules.count(120));
        assert(capped(strength, 60) && sized(strength, 60)) by {
            lemma_sizes(strength, 20);
        }
        assert(sized(rules.count(28), 40)) by {
            reveal(orderly);
        }
        lemma_pull(rules, rules.count(28), strength, far, scale);
        let drawn = cluster_pull(rules, place, cluster);
        assert(drawn == pull(rules, rules.count(28), strength, far, scale));
        lemma_sizes(drawn, 470);
        assert forall|i: int| 0 <= i < members.len() implies nonneg(
            member_term(rules, place, fastest, strength, #[trigger] members[i]),
        ) by {
            assert(members[i] == cluster.members[i + 1]);
            lemma_member_has_to_be_near(rules, place, fastest, strength, members[i]);
            lemma_sizes(member_term(rules, place, fastest, strength, members[i]), 470);
        }
        lemma_members_count(rules, place, fastest, strength, members);
        let sum = member_sum(rules, place, fastest, strength, members);
        assert(score == rules.add(drawn, sum));
        assert(drawn.at_most(score) && sum.at_most(score)) by {
            reveal(orderly);
        }
        assert forall|i: int| 1 <= i < cluster.members.len() implies member_term(
            rules,
            place,
            fastest,
            strength,
            #[trigger] cluster.members[i],
        ).at_most(score) by {
            assert(members[i - 1] == cluster.members[i]);
        }
    }
}

/// The farther a place is from the centre of the cluster, and from its members, the more it
/// costs.
#[verifier::rlimit(60)]
pub proof fn lemma_cluster_draws_with_distance(
    rules: Rules,
    one: Place,
    other: Place,
    ranked: Seq<Constraint>,
)
    requires
        orderly(rules),
        cluster_of(rules, ranked) matches Some(cluster) ==> {
            &&& plausible_cluster(rules, one, cluster)
            &&& plausible_cluster(rules, other, cluster)
            &&& distance(rules, one, cluster.center).at_most(
                distance(rules, other, cluster.center),
            )
            &&& nonneg(
                member_sum(
                    rules,
                    one,
                    cluster.fastest,
                    cluster.strength,
                    cluster.members.skip(1),
                ),
            )
            &&& member_sum(
                rules,
                one,
                cluster.fastest,
                cluster.strength,
                cluster.members.skip(1),
            ).at_most(
                member_sum(
                    rules,
                    other,
                    cluster.fastest,
                    cluster.strength,
                    cluster.members.skip(1),
                ),
            )
        },
    ensures
        cluster_score(rules, one, ranked).at_most(cluster_score(rules, other, ranked)),
{
    if let Some(cluster) = cluster_of(rules, ranked) {
        let strength = cluster.strength;
        let far = distance(rules, one, cluster.center);
        let far2 = distance(rules, other, cluster.center);
        lemma_cluster_radius(rules, cluster);
        let scale = rules.mul(cluster.span_km, rules.ratio(40, 100)).clamped(
            rules.count(140),
            rules.count(650),
        ).greater(rules.count(120));
        assert(capped(strength, 60)) by {
            lemma_sizes(strength, 20);
        }
        assert(sized(rules.count(28), 40)) by {
            reveal(orderly);
        }
        lemma_sizes(scale, 60);
        lemma_sizes(strength, 60);
        lemma_pull(rules, rules.count(28), strength, far, scale);
        lemma_pull(rules, rules.count(28), strength, far2, scale);
        lemma_pull_grows(rules, rules.count(28), strength, far, scale, strength, far2, scale);
        let drawn = cluster_pull(rules, one, cluster);
        let drawn2 = cluster_pull(rules, other, cluster);
        assert(drawn == pull(rules, rules.count(28), strength, far, scale));
        assert(drawn2 == pull(rules, rules.count(28), strength, far2, scale));
        lemma_sizes(drawn, 470);
        assert(adds_in_order(rules)) by {
            reveal(orderly);
        }
    }
}

proof fn lemma_row_spans(
    rules: Rules,
    span_km: Double,
    left: Constraint,
    others: Seq<Constraint>,
)
    requires
        nonneg(span_km),
    ensures
        span_km.at_most(span_of_row(rules, span_km, left, others)),
        forall|j: int|
            0 <= j < others.len() && nonneg(
                distance_to(rules, place_of(rules, left.anchor@), (#[trigger] others[j]).anchor@),
            ) ==> distance_to(
                rules,
                place_of(rules, left.anchor@),
                others[j].anchor@,
            ).at_most(span_of_row(rules, span_km, left, others)),
        span_of_row(rules, span_km, left, others) == span_km || exists|j: int|
            0 <= j < others.len() && span_of_row(rules, span_km, left, others) == distance_to(
                rules,
                place_of(rules, left.anchor@),
                (#[trigger] others[j]).anchor@,
            ),
    decreases others.len(),
{
    if others.len() > 0 {
        let shorter = others.drop_last();
        lemma_row_spans(rules, span_km, left, shorter);
        let here = place_of(rules, left.anchor@);
        let all = span_of_row(rules, span_km, left, others);
        let before = span_of_row(rules, span_km, left, shorter);
        assert forall|j: int| 0 <= j < others.len() && nonneg(
            distance_to(rules, here, (#[trigger] others[j]).anchor@),
        ) implies distance_to(rules, here, others[j].anchor@).at_most(all) by {
            if j < shorter.len() {
                assert(shorter[j] == others[j]);
            }
        }
        if all == before && before != span_km {
            let j = choose|j: int|
                0 <= j < shorter.len() && before == distance_to(
                    rules,
                    here,
                    (#[trigger] shorter[j]).anchor@,
                );
            assert(others[j] == shorter[j]);
        } else if all != before {
            assert(all == distance_to(rules, here, others[others.len() - 1].anchor@));
        }
    }
}

/// The span of a cluster is not below the distance between any two of its anchors, and
/// where it is above zero, it is the distance between two of them.
pub proof fn lemma_span_is_the_greatest(rules: Rules, members: Seq<Constraint>, rows: nat)
    requires
        rows <= members.len(),
    ensures
        nonneg(span_of_rows(rules, members, rows)),
        forall|i: int, j: int|
            0 <= i < rows && i < j < members.len() && nonneg(
                distance_to(
                    rules,
                    place_of(rules, (#[trigger] members[i]).anchor@),
                    (#[trigger] members[j]).anchor@,
                ),
            ) ==> distance_to(
                rules,
                place_of(rules, members[i].anchor@),
                members[j].anchor@,
            ).at_most(span_of_rows(rules, members, rows)),
        span_of_rows(rules, members, rows) == zero() || exists|i: int, j: int|
            0 <= i < j < members.len() && span_of_rows(rules, members, rows) == distance_to(
                rules,
                place_of(rules, (#[trigger] members[i]).anchor@),
                (#[trigger] members[j]).anchor@,
            ),
    decreases rows,
{
    if rows > 0 {
        let fewer = (rows - 1) as nat;
        lemma_span_is_the_greatest(rules, members, fewer);
        let before = span_of_rows(rules, members, fewer);
        let left = members[rows - 1];
        let others = members.skip(rows as int);
        let all = span_of_rows(rules, members, rows);
        lemma_row_spans(rules, before, left, others);
        assert forall|i: int, j: int| 0 <= i < rows && i < j < members.len() && nonneg(
            distance_to(
                rules,
                place_of(rules, (#[trigger] members[i]).anchor@),
                (#[trigger] members[j]).anchor@,
            ),
        ) implies distance_to(
            rules,
            place_of(rules, members[i].anchor@),
            members[j].anchor@,
        ).at_most(all) by {
            if i == rows - 1 {
                assert(others[j - rows] == members[j]);
            }
        }
        if all != before {
            let j = choose|j: int|
                0 <= j < others.len() && all == distance_to(
                    rules,
                    place_of(rules, left.anchor@),
                    (#[trigger] others[j]).anchor@,
                );
            assert(members[rows + j] == others[j]);
            assert(all == distance_to(
                rules,
                place_of(rules, members[rows - 1].anchor@),
                members[rows + j].anchor@,
            ));
        }
    }
}

/// What is slower than the fastest by at most forty milliseconds counts: together such
/// constraints cost no less than any of them does alone.
#[verifier::rlimit(60)]
pub proof fn lemma_spreads_count(
    rules: Rules,
    place: Place,
    fastest: Constraint,
    slower: Seq<Constraint>,
)
    requires
        orderly(rules),
        forall|i: int|
            0 <= i < slower.len() ==> nonneg(
                spread_term(
                    rules,
                    place,
                    fastest,
                    distance_to(rules, place, fastest.anchor@),
                    #[trigger] slower[i],
                ),
            ),
    ensures
        nonneg(spread_sum(rules, place, fastest, slower)),
        forall|i: int|
            0 <= i < slower.len() && (#[trigger] slower[i]).min_rtt_ms.at_most(
                rules.add(fastest.min_rtt_ms, rules.count(40)),
            ) ==> spread_term(
                rules,
                place,
                fastest,
                distance_to(rules, place, fastest.anchor@),
                slower[i],
            ).at_most(spread_sum(rules, place, fastest, slower)),
        (forall|i: int|
            0 <= i < slower.len() ==> !(#[trigger] slower[i]).min_rtt_ms.at_most(
                rules.add(fastest.min_rtt_ms, rules.count(40)),
            )) ==> spread_sum(rules, place, fastest, slower) == zero(),
    decreases slower.len(),
{
    assert(adds_in_order(rules)) by {
        reveal(orderly);
    }
    if slower.len() > 0 {
        let shorter = slower.drop_last();
        let near = distance_to(rules, place, fastest.anchor@);
        let last = slower[slower.len() - 1];
        assert forall|i: int| 0 <= i < shorter.len() implies nonneg(
            spread_term(rules, place, fastest, near, #[trigger] shorter[i]),
        ) by {
            assert(shorter[i] == slower[i]);
        }
        lemma_spreads_count(rules, place, fastest, shorter);
        assert(nonneg(spread_term(rules, place, fastest, near, last)));
        let limit = rules.add(fastest.min_rtt_ms, rules.count(40));
        let all = spread_sum(rules, place, fastest, slower);
        assert forall|i: int| 0 <= i < slower.len() && (
        #[trigger] slower[i]).min_rtt_ms.at_most(limit) implies spread_term(
            rules,
            place,
            fastest,
            near,
            slower[i],
        ).at_most(all) by {
            if i < shorter.len() {
                assert(shorter[i] == slower[i]);
            }
        }
        if forall|i: int|
            0 <= i < slower.len() ==> !(#[trigger] slower[i]).min_rtt_ms.at_most(limit) {
            assert forall|i: int| 0 <= i < shorter.len() implies !(
            #[trigger] shorter[i]).min_rtt_ms.at_most(limit) by {
                assert(shorter[i] == slower[i]);
            }
        }
    }
}

/// Tells whether a fitted line is of a size that lines have.
pub open spec fn plausible_fit(fit: LatencyFit) -> bool {
    &&& capped(fit.weighted_rmse_ms, 30)
    &&& capped(fit.overhead_ms, 30)
    &&& capped(fit.ms_per_km, 30)
}

/// A line that has less error, starts lower or rises less costs no more. One that has no
/// error, starts at zero and rises no more than light takes costs nothing, and any error or
/// overhead costs something.
#[verifier::rlimit(60)]
pub proof fn lemma_worse_line_costs_more(rules: Rules, one: LatencyFit, other: LatencyFit)
    requires
        orderly(rules),
        plausible_fit(one),
        plausible_fit(other),
        one.weighted_rmse_ms.at_most(other.weighted_rmse_ms),
        one.overhead_ms.at_most(other.overhead_ms),
        one.ms_per_km.at_most(other.ms_per_km),
    ensures
        nonneg(fit_penalty(rules, one)),
        fit_penalty(rules, one).at_most(fit_penalty(rules, other)),
        one.weighted_rmse_ms.equals(zero()) && one.overhead_ms.equals(zero())
            && one.ms_per_km.at_most(least_ms_per_km(rules)) ==> fit_penalty(rules, one).equals(
            zero(),
        ),
        sized(one.weighted_rmse_ms, 30) || sized(one.overhead_ms, 30) || (sized(one.ms_per_km, 30)
            && least_ms_per_km(rules).below(one.ms_per_km)) ==> zero().below(
            fit_penalty(rules, one),
        ),
{
    reveal(orderly);
    let least = least_ms_per_km(rules);
    assert(sized(least, 14));
    lemma_sizes(least, 14);
    assert(capped(least, 30));
    lemma_sizes(rules.count(80), 14);
    lemma_sizes(rules.count(2000), 14);
    lemma_sizes(rules.ratio(5, 10), 14);
    lemma_fit_sizes(rules, one);
    lemma_fit_sizes(rules, other);
    lemma_left_grows(rules, one.ms_per_km, least, other.ms_per_km, least, 30);
    let slow = rules.sub(one.ms_per_km, least).greater(zero());
    let slow2 = rules.sub(other.ms_per_km, least).greater(zero());
    let a = rules.mul(rules.count(80), one.weighted_rmse_ms);
    let b = rules.mul(rules.ratio(5, 10), one.overhead_ms);
    let c = rules.mul(rules.count(2000), slow);
    let a2 = rules.mul(rules.count(80), other.weighted_rmse_ms);
    let b2 = rules.mul(rules.ratio(5, 10), other.overhead_ms);
    let c2 = rules.mul(rules.count(2000), slow2);
    assert(a.at_most(a2) && b.at_most(b2) && c.at_most(c2));
    assert(rules.add(a, b).at_most(rules.add(a2, b2)));
    if sized(one.ms_per_km, 30) && least.below(one.ms_per_km) {
        assert(sized(least, 30));
        assert(sized(slow, 83));
        assert(sized(c, 97));
        lemma_sizes(c, 97);
    }
    if sized(one.weighted_rmse_ms, 30) {
        assert(sized(a, 44));
        lemma_sizes(a, 44);
    }
    if sized(one.overhead_ms, 30) {
        assert(sized(b, 44));
        lemma_sizes(b, 44);
    }
}

#[verifier::rlimit(60)]
proof fn lemma_fit_sizes(rules: Rules, fit: LatencyFit)
    requires
        orderly(rules),
        plausible_fit(fit),
    ensures
        ({
            let least = least_ms_per_km(rules);
            let slow = rules.sub(fit.ms_per_km, least).greater(zero());
            &&& capped(slow, 30) && nonneg(slow) && slow.finite()
            &&& fit.ms_per_km.at_most(least) ==> slow.equals(zero())
            &&& nonneg(fit.weighted_rmse_ms) && fit.weighted_rmse_ms.finite()
            &&& nonneg(fit.overhead_ms) && fit.overhead_ms.finite()
            &&& nonneg(rules.mul(rules.count(80), fit.weighted_rmse_ms))
            &&& nonneg(rules.mul(rules.ratio(5, 10), fit.overhead_ms))
            &&& nonneg(rules.mul(rules.count(2000), slow))
        }),
{
    reveal(orderly);
    let least = least_ms_per_km(rules);
    assert(sized(least, 14));
    lemma_sizes(least, 14);
    lemma_sizes(fit.ms_per_km, 30);
    lemma_sizes(fit.weighted_rmse_ms, 30);
    lemma_sizes(fit.overhead_ms, 30);
    lemma_left(rules, fit.ms_per_km, least, 30);
    let slow = rules.sub(fit.ms_per_km, least).greater(zero());
    lemma_sizes(slow, 30);
    lemma_sizes(rules.count(80), 14);
    lemma_sizes(rules.count(2000), 14);
    lemma_sizes(rules.ratio(5, 10), 14);
    assert(capped(rules.mul(rules.count(80), fit.weighted_rmse_ms), 44));
    assert(capped(rules.mul(rules.ratio(5, 10), fit.overhead_ms), 44));
    assert(capped(rules.mul(rules.count(2000), slow), 44));
    lemma_sizes(rules.mul(rules.count(80), fit.weighted_rmse_ms), 44);
    lemma_sizes(rules.mul(rules.ratio(5, 10), fit.overhead_ms), 44);
    lemma_sizes(rules.mul(rules.count(2000), slow), 44);
}

/// What a place is judged by: its bounds, its line, the hints, the routes, the dominant
/// anchor, the spread, the order of the anchors, and the cluster.
pub open spec fn parts(
    rules: Rules,
    place: Place,
    scene: SceneView,
    fit: LatencyFit,
) -> Seq<Double> {
    let ranked = by_time(scene.constraints);
    seq![
        bound_score(rules, place, scene.constraints),
        fit_penalty(rules, fit),
        hint_sum(rules, place, scene.hints),
        corridors(rules, place, scene.constraints, scene.hints),
        dominant_score(rules, place, ranked, scene.shared_rtt_floor_ms),
        spread_score(rules, place, ranked),
        order_score(rules, place, ranked),
        cluster_score(rules, place, ranked),
    ]
}

/// All that a place is judged by counts: where no part is below zero, its score is not
/// below any of them.
#[verifier::rlimit(60)]
pub proof fn lemma_score_counts_every_part(
    rules: Rules,
    place: Place,
    scene: SceneView,
    fit: LatencyFit,
)
    requires
        orderly(rules),
        forall|i: int| 0 <= i < 8 ==> nonneg(#[trigger] parts(rules, place, scene, fit)[i]),
    ensures
        forall|i: int|
            0 <= i < 8 ==> (#[trigger] parts(rules, place, scene, fit)[i]).at_most(
                badness(
                    rules,
                    place,
                    scene.constraints,
                    scene.hints,
                    fit,
                    scene.shared_rtt_floor_ms,
                ),
            ),
{
    assert(adds_in_order(rules)) by {
        reveal(orderly);
    }
    let p = parts(rules, place, scene, fit);
    assert(nonneg(p[0]) && nonneg(p[1]) && nonneg(p[2]) && nonneg(p[3]));
    assert(nonneg(p[4]) && nonneg(p[5]) && nonneg(p[6]) && nonneg(p[7]));
}

/// A place that is no worse by any part is no worse by its score.
#[verifier::rlimit(60)]
pub proof fn lemma_score_grows_with_every_part(
    rules: Rules,
    one: Place,
    scene: SceneView,
    fit: LatencyFit,
    other: Place,
    scene2: SceneView,
    fit2: LatencyFit,
)
    requires
        orderly(rules),
        forall|i: int|
            0 <= i < 8 ==> nonneg(#[trigger] parts(rules, one, scene, fit)[i]) && parts(
                rules,
                one,
                scene,
                fit,
            )[i].at_most(parts(rules, other, scene2, fit2)[i]),
    ensures
        badness(
            rules,
            one,
            scene.constraints,
            scene.hints,
            fit,
            scene.shared_rtt_floor_ms,
        ).at_most(
            badness(
                rules,
                other,
                scene2.constraints,
                scene2.hints,
                fit2,
                scene2.shared_rtt_floor_ms,
            ),
        ),
{
    assert(adds_in_order(rules)) by {
        reveal(orderly);
    }
    let p = parts(rules, one, scene, fit);
    assert(nonneg(p[0]) && nonneg(p[1]) && nonneg(p[2]) && nonneg(p[3]));
    assert(nonneg(p[4]) && nonneg(p[5]) && nonneg(p[6]) && nonneg(p[7]));
}

/// Supported hubs count: where no hub costs less than nothing, all hubs together cost no
/// less than any supported one does. A hint without support is no hub.
#[verifier::rlimit(60)]
pub proof fn lemma_every_hub_counts(
    rules: Rules,
    place: Place,
    constraints: Seq<Constraint>,
    hints: Seq<HintView>,
)
    requires
        orderly(rules),
        forall|i: int|
            0 <= i < hints.len() ==> nonneg(
                corridor_score(rules, place, constraints, #[trigger] hints[i]),
            ),
    ensures
        nonneg(corridors(rules, place, constraints, hints)),
        forall|i: int|
            0 <= i < hints.len() && (#[trigger] hints[i]).supporting_anchors.len() > 0
                ==> corridor_score(rules, place, constraints, hints[i]).at_most(
                corridors(rules, place, constraints, hints),
            ),
        (forall|i: int|
            0 <= i < hints.len() ==> (#[trigger] hints[i]).supporting_anchors.len() == 0)
            ==> corridors(rules, place, constraints, hints) == zero(),
    decreases hints.len(),
{
    assert(adds_in_order(rules)) by {
        reveal(orderly);
    }
    if hints.len() > 0 {
        let shorter = hints.drop_last();
        assert forall|i: int| 0 <= i < shorter.len() implies nonneg(
            corridor_score(rules, place, constraints, #[trigger] shorter[i]),
        ) by {
            assert(shorter[i] == hints[i]);
        }
        lemma_every_hub_counts(rules, place, constraints, shorter);
        assert(nonneg(corridor_score(rules, place, constraints, hints[hints.len() - 1])));
        let all = corridors(rules, place, constraints, hints);
        assert forall|i: int| 0 <= i < hints.len() && (
        #[trigger] hints[i]).supporting_anchors.len() > 0 implies corridor_score(
            rules,
            place,
            constraints,
            hints[i],
        ).at_most(all) by {
            if i < shorter.len() {
                assert(shorter[i] == hints[i]);
            }
        }
        if forall|i: int|
            0 <= i < hints.len() ==> (#[trigger] hints[i]).supporting_anchors.len() == 0 {
            assert forall|i: int| 0 <= i < shorter.len() implies (
            #[trigger] shorter[i]).supporting_anchors.len() == 0 by {
                assert(shorter[i] == hints[i]);
            }
            assert(hints[hints.len() - 1].supporting_anchors.len() == 0);
        }
    }
}

/// Hints count: where no hint costs less than nothing, all together cost no less than any
/// of them does.
#[verifier::rlimit(60)]
pub proof fn lemma_every_hint_counts(rules: Rules, place: Place, hints: Seq<HintView>)
    requires
        orderly(rules),
        forall|i: int|
            0 <= i < hints.len() ==> nonneg(hint_term(rules, place, #[trigger] hints[i])),
    ensures
        nonneg(hint_sum(rules, place, hints)),
        forall|i: int|
            0 <= i < hints.len() ==> hint_term(rules, place, #[trigger] hints[i]).at_most(
                hint_sum(rules, place, hints),
            ),
    decreases hints.len(),
{
    assert(adds_in_order(rules)) by {
        reveal(orderly);
    }
    if hints.len() > 0 {
        let shorter = hints.drop_last();
        assert forall|i: int| 0 <= i < shorter.len() implies nonneg(
            hint_term(rules, place, #[trigger] shorter[i]),
        ) by {
            assert(shorter[i] == hints[i]);
        }
        lemma_every_hint_counts(rules, place, shorter);
        assert(nonneg(hint_term(rules, place, hints[hints.len() - 1])));
        let all = hint_sum(rules, place, hints);
        assert forall|i: int| 0 <= i < hints.len() implies hint_term(
            rules,
            place,
            #[trigger] hints[i],
        ).at_most(all) by {
            if i < shorter.len() {
                assert(shorter[i] == hints[i]);
            }
        }
    }
}

} // verus!
