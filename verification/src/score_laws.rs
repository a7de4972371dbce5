//! What the terms of the score are for: a place costs nothing where it agrees with what
//! was measured, something where it does not, and the more the less it agrees.

use crate::anchors::AnchorView;
use crate::calc::Rules;
use crate::calc_laws::{
    adds_in_order, capped, lemma_sizes, lemma_wider, nonneg, orderly, sized, tellable,
};
use crate::double::{zero, Double};
use crate::geometry::{distance_to, place_of, Place};
use crate::hints::HintView;
use crate::scores::{
    bound_score, bound_term, constraint_on, constraints_on, corridor_base, corridor_score,
    corridor_sum, corridor_term, hint_term, least_overhead,
};
use crate::solver::Constraint;
use vstd::prelude::*;

verus! {

/// Tells whether the numbers of a constraint are of a size that measured ones have.
pub open spec fn plausible(constraint: Constraint) -> bool {
    &&& sized(constraint.quality_weight, 20)
    &&& sized(constraint.min_rtt_ms, 20)
    &&& capped(constraint.jitter_ms, 20)
    &&& sized(constraint.upper_bound_km, 30)
}

/// A weight times the square of a share, times a factor.
pub open spec fn pull(rules: Rules, k: Double, w: Double, o: Double, s: Double) -> Double {
    rules.mul(rules.mul(k, w), rules.square(rules.div(o, s)))
}

/// Such a product is not below zero, zero where nothing is weighed or shared, and above
/// zero where something is.
#[verifier::rlimit(60)]
pub proof fn lemma_pull(rules: Rules, k: Double, w: Double, o: Double, s: Double)
    requires
        orderly(rules),
        sized(k, 40),
        capped(w, 60),
        capped(o, 120),
        sized(s, 60),
    ensures
        capped(pull(rules, k, w, o, s), 470),
        nonneg(pull(rules, k, w, o, s)),
        o.equals(zero()) || w.equals(zero()) ==> pull(rules, k, w, o, s).equals(zero()),
        sized(w, 60) && sized(o, 120) ==> sized(pull(rules, k, w, o, s), 470),
        sized(w, 60) && sized(o, 120) ==> zero().below(pull(rules, k, w, o, s)),
{
    reveal(orderly);
    lemma_sizes(k, 40);
    lemma_sizes(w, 60);
    lemma_sizes(o, 120);
    lemma_sizes(s, 60);
    let kw = rules.mul(k, w);
    let q = rules.div(o, s);
    let qq = rules.square(q);
    assert(capped(kw, 100));
    assert(capped(q, 180));
    assert(capped(qq, 360));
    lemma_sizes(kw, 100);
    lemma_sizes(q, 180);
    lemma_sizes(qq, 360);
    assert(capped(rules.mul(kw, qq), 460));
    lemma_wider(rules.mul(kw, qq), 460, 470);
    lemma_sizes(rules.mul(kw, qq), 470);
    if sized(w, 60) && sized(o, 120) {
        assert(sized(kw, 100));
        assert(sized(q, 180));
        assert(sized(qq, 360));
        assert(sized(rules.mul(kw, qq), 460));
    }
}

/// Such a product grows with the weight and with the share.
#[verifier::rlimit(60)]
pub proof fn lemma_pull_grows(
    rules: Rules,
    k: Double,
    w: Double,
    o: Double,
    s: Double,
    more: Double,
    over: Double,
    small: Double,
)
    requires
        orderly(rules),
        sized(k, 40),
        capped(w, 60),
        capped(o, 120),
        sized(s, 60),
        capped(more, 60),
        capped(over, 120),
        sized(small, 60),
        w.at_most(more),
        o.at_most(over),
        small.at_most(s),
    ensures
        pull(rules, k, w, o, s).at_most(pull(rules, k, more, over, small)),
{
    reveal(orderly);
    lemma_sizes(k, 40);
    lemma_sizes(w, 60);
    lemma_sizes(more, 60);
    lemma_sizes(o, 120);
    lemma_sizes(over, 120);
    lemma_sizes(s, 60);
    lemma_sizes(small, 60);
    let kw = rules.mul(k, w);
    let km = rules.mul(k, more);
    assert(k.at_most(k));
    assert(kw.at_most(km));
    assert(capped(kw, 100) && capped(km, 100));
    lemma_sizes(kw, 100);
    lemma_sizes(km, 100);
    let q = rules.div(o, s);
    let r = rules.div(over, small);
    assert(q.at_most(r));
    assert(capped(q, 180) && capped(r, 180));
    lemma_sizes(q, 180);
    lemma_sizes(r, 180);
    let qq = rules.square(q);
    let rr = rules.square(r);
    assert(qq.at_most(rr));
    assert(capped(qq, 360) && capped(rr, 360));
    lemma_sizes(qq, 360);
    lemma_sizes(rr, 360);
}

/// What is left of a difference above zero: nothing where the first is not the greater,
/// something where it is, and the more the greater the first and the smaller the second.
#[verifier::rlimit(60)]
pub proof fn lemma_left(rules: Rules, a: Double, b: Double, e: int)
    requires
        orderly(rules),
        tellable(e + 53),
        e >= 0,
        capped(a, e),
        capped(b, e),
    ensures
        capped(rules.sub(a, b).greater(zero()), e),
        a.at_most(b) ==> rules.sub(a, b).greater(zero()).equals(zero()),
        sized(a, e) && (sized(b, e) || b.equals(zero())) && b.below(a) ==> sized(
            rules.sub(a, b).greater(zero()),
            e + 53,
        ),
{
    reveal(orderly);
    lemma_sizes(a, e);
    lemma_sizes(b, e);
    assert(rules.sub(a, b).turned().equals(rules.sub(b, a)));
    if b.at_most(a) {
        assert(capped(rules.sub(a, b), e));
    }
    if a.at_most(b) {
        assert(capped(rules.sub(b, a), e));
    }
    lemma_sizes(rules.sub(a, b), e + 53);
    lemma_sizes(rules.sub(a, b), e);
    lemma_sizes(rules.sub(b, a), e);
}

/// What is left of a difference above zero grows with the first and shrinks with the
/// second.
#[verifier::rlimit(60)]
pub proof fn lemma_left_grows(rules: Rules, a: Double, b: Double, c: Double, d: Double, e: int)
    requires
        orderly(rules),
        tellable(e),
        capped(a, e),
        capped(b, e),
        capped(c, e),
        capped(d, e),
        a.at_most(c),
        d.at_most(b),
    ensures
        rules.sub(a, b).greater(zero()).at_most(rules.sub(c, d).greater(zero())),
{
    reveal(orderly);
    lemma_sizes(a, e);
    lemma_sizes(b, e);
    lemma_sizes(c, e);
    lemma_sizes(d, e);
    assert(rules.sub(a, b).at_most(rules.sub(c, d)));
}

/// A constraint costs nothing at a place within its bound and something at one beyond.
#[verifier::rlimit(60)]
pub proof fn lemma_bound_is_a_bound(rules: Rules, place: Place, constraint: Constraint)
    requires
        orderly(rules),
        plausible(constraint),
        capped(distance_to(rules, place, constraint.anchor@), 30),
    ensures
        nonneg(bound_term(rules, place, constraint)),
        distance_to(rules, place, constraint.anchor@).at_most(constraint.upper_bound_km)
            ==> bound_term(rules, place, constraint).equals(zero()),
        constraint.upper_bound_km.below(distance_to(rules, place, constraint.anchor@))
            ==> zero().below(bound_term(rules, place, constraint)),
{
    reveal(orderly);
    let d = distance_to(rules, place, constraint.anchor@);
    let bound = constraint.upper_bound_km;
    let over = rules.sub(d, bound).greater(zero());
    let scale = bound.greater(rules.count(100));
    lemma_sizes(d, 30);
    lemma_sizes(bound, 30);
    lemma_left(rules, d, bound, 30);
    lemma_wider(rules.count(100), 14, 60);
    lemma_wider(bound, 30, 60);
    lemma_wider(constraint.quality_weight, 20, 60);
    lemma_sizes(constraint.quality_weight, 60);
    lemma_wider(over, 30, 120);
    lemma_wider(over, 83, 120);
    lemma_pull(rules, rules.count(1000), constraint.quality_weight, over, scale);
}

/// The farther a place is beyond a bound, the more it costs: more at a greater distance,
/// more where the bound is tighter, and more where it was measured better.
#[verifier::rlimit(60)]
pub proof fn lemma_bound_costs_with_distance(
    rules: Rules,
    near: Place,
    loose: Constraint,
    far: Place,
    tight: Constraint,
)
    requires
        orderly(rules),
        plausible(loose),
        plausible(tight),
        capped(distance_to(rules, near, loose.anchor@), 30),
        capped(distance_to(rules, far, tight.anchor@), 30),
        distance_to(rules, near, loose.anchor@).at_most(distance_to(rules, far, tight.anchor@)),
        tight.upper_bound_km.at_most(loose.upper_bound_km),
        loose.quality_weight.at_most(tight.quality_weight),
    ensures
        bound_term(rules, near, loose).at_most(bound_term(rules, far, tight)),
{
    reveal(orderly);
    let a = distance_to(rules, near, loose.anchor@);
    let b = distance_to(rules, far, tight.anchor@);
    lemma_sizes(loose.upper_bound_km, 30);
    lemma_sizes(tight.upper_bound_km, 30);
    let over = rules.sub(a, loose.upper_bound_km).greater(zero());
    let more = rules.sub(b, tight.upper_bound_km).greater(zero());
    lemma_left(rules, a, loose.upper_bound_km, 30);
    lemma_left(rules, b, tight.upper_bound_km, 30);
    lemma_left_grows(rules, a, loose.upper_bound_km, b, tight.upper_bound_km, 30);
    lemma_wider(over, 30, 120);
    lemma_wider(more, 30, 120);
    lemma_wider(loose.quality_weight, 20, 60);
    lemma_wider(tight.quality_weight, 20, 60);
    lemma_sizes(loose.quality_weight, 60);
    lemma_sizes(tight.quality_weight, 60);
    lemma_wider(rules.count(100), 14, 60);
    lemma_wider(loose.upper_bound_km, 30, 60);
    lemma_wider(tight.upper_bound_km, 30, 60);
    let wide = loose.upper_bound_km.greater(rules.count(100));
    let small = tight.upper_bound_km.greater(rules.count(100));
    lemma_pull_grows(
        rules,
        rules.count(1000),
        loose.quality_weight,
        over,
        wide,
        tight.quality_weight,
        more,
        small,
    );
}

/// The bounds together cost at least as much as each of them, and nothing at a place that
/// is within all of them.
#[verifier::rlimit(60)]
pub proof fn lemma_bounds_cost_together(
    rules: Rules,
    place: Place,
    constraints: Seq<Constraint>,
)
    requires
        orderly(rules),
        forall|i: int|
            0 <= i < constraints.len() ==> plausible(#[trigger] constraints[i]) && capped(
                distance_to(rules, place, constraints[i].anchor@),
                30,
            ),
    ensures
        nonneg(bound_score(rules, place, constraints)),
        forall|i: int|
            0 <= i < constraints.len() ==> bound_term(
                rules,
                place,
                #[trigger] constraints[i],
            ).at_most(bound_score(rules, place, constraints)),
        (forall|i: int|
            0 <= i < constraints.len() ==> distance_to(
                rules,
                place,
                (#[trigger] constraints[i]).anchor@,
            ).at_most(constraints[i].upper_bound_km)) ==> bound_score(
            rules,
            place,
            constraints,
        ).equals(zero()),
    decreases constraints.len(),
{
    assert(adds_in_order(rules)) by {
        reveal(orderly);
    }
    if constraints.len() > 0 {
        let shorter = constraints.drop_last();
        let last = constraints[constraints.len() - 1];
        assert forall|i: int| 0 <= i < shorter.len() implies plausible(#[trigger] shorter[i])
            && capped(distance_to(rules, place, shorter[i].anchor@), 30) by {
            assert(shorter[i] == constraints[i]);
        }
        lemma_bounds_cost_together(rules, place, shorter);
        assert(plausible(last));
        lemma_bound_is_a_bound(rules, place, last);
        let before = bound_score(rules, place, shorter);
        let term = bound_term(rules, place, last);
        let sum = bound_score(rules, place, constraints);
        assert(before.at_most(sum) && term.at_most(sum));
        assert forall|i: int| 0 <= i < constraints.len() implies bound_term(
            rules,
            place,
            #[trigger] constraints[i],
        ).at_most(sum) by {
            if i < shorter.len() {
                assert(shorter[i] == constraints[i]);
            }
        }
        if forall|i: int|
            0 <= i < constraints.len() ==> distance_to(
                rules,
                place,
                (#[trigger] constraints[i]).anchor@,
            ).at_most(constraints[i].upper_bound_km) {
            assert forall|i: int| 0 <= i < shorter.len() implies distance_to(
                rules,
                place,
                (#[trigger] shorter[i]).anchor@,
            ).at_most(shorter[i].upper_bound_km) by {
                assert(shorter[i] == constraints[i]);
            }
            assert(term.equals(zero()));
        }
    }
}

/// Tells whether the weight of a hint is of a size that weights have.
pub open spec fn plausible_hint(hint: HintView) -> bool {
    sized(hint.weight, 20)
}

/// A hint that a route supports costs nothing by itself. Any other costs something at a
/// place away from its anchor, and nothing at its anchor.
#[verifier::rlimit(60)]
pub proof fn lemma_hint_pulls(rules: Rules, place: Place, hint: HintView)
    requires
        orderly(rules),
        plausible_hint(hint),
        capped(distance_to(rules, place, hint.anchor), 30),
    ensures
        nonneg(hint_term(rules, place, hint)),
        hint.supporting_anchors.len() > 0 ==> hint_term(rules, place, hint).equals(zero()),
        distance_to(rules, place, hint.anchor).equals(zero()) ==> hint_term(
            rules,
            place,
            hint,
        ).equals(zero()),
        hint.supporting_anchors.len() == 0 && sized(distance_to(rules, place, hint.anchor), 30)
            ==> zero().below(hint_term(rules, place, hint)),
{
    reveal(orderly);
    let d = distance_to(rules, place, hint.anchor);
    let soft = rules.count(450);
    lemma_sizes(d, 30);
    lemma_sizes(hint.weight, 20);
    lemma_sizes(soft, 14);
    lemma_sizes(rules.count(400), 14);
    let drag = rules.mul(hint.weight, d);
    assert(capped(drag, 50));
    lemma_sizes(drag, 50);
    let bias = rules.div(drag, rules.count(400));
    assert(capped(bias, 64));
    lemma_sizes(bias, 64);
    if sized(d, 30) {
        assert(sized(drag, 50));
        assert(sized(bias, 64));
    }
    lemma_wider(soft, 14, 30);
    lemma_left(rules, d, soft, 30);
    let over = rules.sub(d, soft).greater(zero());
    lemma_wider(over, 30, 120);
    lemma_wider(hint.weight, 20, 60);
    lemma_wider(soft, 14, 60);
    lemma_wider(rules.count(150), 14, 60);
    lemma_pull(
        rules,
        rules.count(25),
        hint.weight,
        over,
        soft.greater(rules.count(150)),
    );
}

/// The farther a place is from the anchor of a hint, and the more the hint weighs, the
/// more it costs.
#[verifier::rlimit(40)]
pub proof fn lemma_hint_pulls_with_distance(
    rules: Rules,
    near: Place,
    light: HintView,
    far: Place,
    heavy: HintView,
)
    requires
        orderly(rules),
        plausible_hint(light),
        plausible_hint(heavy),
        light.supporting_anchors.len() == 0,
        heavy.supporting_anchors.len() == 0,
        capped(distance_to(rules, near, light.anchor), 30),
        capped(distance_to(rules, far, heavy.anchor), 30),
        distance_to(rules, near, light.anchor).at_most(distance_to(rules, far, heavy.anchor)),
        light.weight.at_most(heavy.weight),
    ensures
        hint_term(rules, near, light).at_most(hint_term(rules, far, heavy)),
{
    reveal(orderly);
    let a = distance_to(rules, near, light.anchor);
    let b = distance_to(rules, far, heavy.anchor);
    let soft = rules.count(450);
    lemma_sizes(a, 30);
    lemma_sizes(b, 30);
    lemma_sizes(light.weight, 20);
    lemma_sizes(heavy.weight, 20);
    lemma_sizes(soft, 14);
    lemma_sizes(rules.count(400), 14);
    let slow = rules.mul(light.weight, a);
    let fast = rules.mul(heavy.weight, b);
    assert(capped(slow, 50) && capped(fast, 50));
    lemma_sizes(slow, 50);
    lemma_sizes(fast, 50);
    assert(slow.at_most(fast));
    let low = rules.div(slow, rules.count(400));
    let high = rules.div(fast, rules.count(400));
    assert(capped(low, 64) && capped(high, 64));
    lemma_sizes(low, 64);
    lemma_sizes(high, 64);
    assert(low.at_most(high));
    lemma_wider(soft, 14, 30);
    lemma_left(rules, a, soft, 30);
    lemma_left(rules, b, soft, 30);
    lemma_left_grows(rules, a, soft, b, soft, 30);
    let over = rules.sub(a, soft).greater(zero());
    let more = rules.sub(b, soft).greater(zero());
    lemma_wider(over, 30, 120);
    lemma_wider(more, 30, 120);
    lemma_wider(light.weight, 20, 60);
    lemma_wider(heavy.weight, 20, 60);
    lemma_wider(soft, 14, 60);
    lemma_wider(rules.count(150), 14, 60);
    let scale = soft.greater(rules.count(150));
    lemma_pull_grows(
        rules,
        rules.count(25),
        light.weight,
        over,
        scale,
        heavy.weight,
        more,
        scale,
    );
    lemma_pull(rules, rules.count(25), light.weight, over, scale);
}

/// Tells whether the ways from a place to a hub, and on to the anchor of a constraint, are
/// of a size that ways have.
pub open spec fn plausible_way(
    rules: Rules,
    place: Place,
    hub: AnchorView,
    constraint: Constraint,
) -> bool {
    &&& capped(distance_to(rules, place, hub), 30)
    &&& capped(distance_to(rules, place_of(rules, hub), constraint.anchor@), 30)
}

/// The way through a hub takes no less time than either part of it does, and the more the
/// longer the parts are.
#[verifier::rlimit(60)]
pub proof fn lemma_way_through_hub(
    rules: Rules,
    place: Place,
    hub: AnchorView,
    constraint: Constraint,
)
    requires
        orderly(rules),
        plausible_way(rules, place, hub, constraint),
    ensures
        capped(corridor_base(rules, place, hub, constraint), 45),
        rules.mul(distance_to(rules, place, hub), rules.ratio(1, 102)).at_most(
            corridor_base(rules, place, hub, constraint),
        ),
        rules.mul(
            distance_to(rules, place_of(rules, hub), constraint.anchor@),
            rules.ratio(1, 102),
        ).at_most(corridor_base(rules, place, hub, constraint)),
{
    reveal(orderly);
    let a = distance_to(rules, place, hub);
    let b = distance_to(rules, place_of(rules, hub), constraint.anchor@);
    let slow = rules.ratio(1, 102);
    lemma_sizes(a, 30);
    lemma_sizes(b, 30);
    lemma_sizes(slow, 14);
    let way = rules.add(a, b);
    assert(capped(way, 31));
    lemma_sizes(way, 31);
    assert(capped(rules.mul(way, slow), 45));
    assert(slow.at_most(slow));
}

/// The way to an anchor by way of a hub that is farther, or on to one that is farther from
/// the hub, takes no less time.
#[verifier::rlimit(60)]
pub proof fn lemma_longer_way_takes_longer(
    rules: Rules,
    near: Place,
    hub: AnchorView,
    close: Constraint,
    far: Place,
    other: AnchorView,
    remote: Constraint,
)
    requires
        orderly(rules),
        plausible_way(rules, near, hub, close),
        plausible_way(rules, far, other, remote),
        distance_to(rules, near, hub).at_most(distance_to(rules, far, other)),
        distance_to(rules, place_of(rules, hub), close.anchor@).at_most(
            distance_to(rules, place_of(rules, other), remote.anchor@),
        ),
    ensures
        corridor_base(rules, near, hub, close).at_most(corridor_base(rules, far, other, remote)),
{
    reveal(orderly);
    let a = distance_to(rules, near, hub);
    let b = distance_to(rules, place_of(rules, hub), close.anchor@);
    let c = distance_to(rules, far, other);
    let d = distance_to(rules, place_of(rules, other), remote.anchor@);
    let slow = rules.ratio(1, 102);
    lemma_sizes(a, 30);
    lemma_sizes(b, 30);
    lemma_sizes(c, 30);
    lemma_sizes(d, 30);
    lemma_sizes(slow, 14);
    assert(capped(rules.add(a, b), 31) && capped(rules.add(c, d), 31));
    lemma_sizes(rules.add(a, b), 31);
    lemma_sizes(rules.add(c, d), 31);
    assert(rules.add(a, b).at_most(rules.add(c, d)));
    assert(slow.at_most(slow));
}

/// The time that is predicted of the way through a hub.
pub open spec fn predicted(
    rules: Rules,
    place: Place,
    hub: AnchorView,
    overhead_ms: Double,
    constraint: Constraint,
) -> Double {
    rules.add(overhead_ms, corridor_base(rules, place, hub, constraint))
}

spec fn corridor_shape(
    rules: Rules,
    weight: Double,
    quality: Double,
    under: Double,
    stretch: Double,
    sigma: Double,
) -> Double {
    rules.mul(
        rules.mul(weight, quality),
        rules.add(
            rules.mul(rules.count(40), rules.square(rules.div(under, sigma))),
            rules.mul(
                rules.ratio(35, 100),
                rules.square(rules.div(stretch, rules.mul(sigma, rules.ratio(25, 10)))),
            ),
        ),
    )
}

#[verifier::rlimit(60)]
proof fn lemma_corridor_shape(
    rules: Rules,
    weight: Double,
    quality: Double,
    under: Double,
    stretch: Double,
    sigma: Double,
)
    requires
        orderly(rules),
        sized(weight, 20),
        sized(quality, 20),
        capped(under, 100),
        capped(stretch, 100),
        sized(sigma, 22),
    ensures
        ({
            let term = corridor_shape(rules, weight, quality, under, stretch, sigma);
            &&& capped(term, 400)
            &&& under.equals(zero()) && stretch.equals(zero()) ==> term.equals(zero())
            &&& sized(under, 100) || sized(stretch, 100) ==> zero().below(term)
        }),
{
    reveal(orderly);
    lemma_sizes(weight, 20);
    lemma_sizes(quality, 20);
    lemma_sizes(under, 100);
    lemma_sizes(stretch, 100);
    lemma_sizes(sigma, 22);
    let ww = rules.mul(weight, quality);
    assert(sized(ww, 40));
    lemma_sizes(ww, 40);
    let k = rules.count(40);
    lemma_sizes(k, 14);
    let q = rules.div(under, sigma);
    assert(capped(q, 122));
    lemma_sizes(q, 122);
    let qq = rules.square(q);
    assert(capped(qq, 244));
    lemma_sizes(qq, 244);
    let left = rules.mul(k, qq);
    assert(capped(left, 258));
    lemma_sizes(left, 258);
    let c = rules.ratio(35, 100);
    lemma_sizes(c, 14);
    lemma_sizes(rules.ratio(25, 10), 14);
    let wide = rules.mul(sigma, rules.ratio(25, 10));
    assert(sized(wide, 36));
    lemma_sizes(wide, 36);
    let r = rules.div(stretch, wide);
    assert(capped(r, 136));
    lemma_sizes(r, 136);
    let rr = rules.square(r);
    assert(capped(rr, 272));
    lemma_sizes(rr, 272);
    let right = rules.mul(c, rr);
    assert(capped(right, 286));
    lemma_sizes(right, 286);
    lemma_wider(left, 258, 286);
    let sum = rules.add(left, right);
    assert(capped(sum, 287));
    lemma_sizes(sum, 287);
    assert(capped(rules.mul(ww, sum), 327));
    lemma_wider(rules.mul(ww, sum), 327, 400);
    if sized(under, 100) {
        assert(sized(q, 122));
        assert(sized(qq, 244));
        assert(sized(left, 258));
        lemma_wider(left, 258, 287);
        assert(left.at_most(sum));
        assert(sized(sum, 287));
        assert(sized(rules.mul(ww, sum), 327));
        lemma_sizes(rules.mul(ww, sum), 327);
    }
    if sized(stretch, 100) {
        assert(sized(r, 136));
        assert(sized(rr, 272));
        assert(sized(right, 286));
        lemma_wider(right, 286, 287);
        assert(right.at_most(sum));
        assert(sized(sum, 287));
        assert(sized(rules.mul(ww, sum), 327));
        lemma_sizes(rules.mul(ww, sum), 327);
    }
}

#[verifier::rlimit(60)]
proof fn lemma_corridor_shape_grows(
    rules: Rules,
    weight: Double,
    quality: Double,
    under: Double,
    stretch: Double,
    sigma: Double,
    under2: Double,
    stretch2: Double,
)
    requires
        orderly(rules),
        sized(weight, 20),
        sized(quality, 20),
        capped(under, 100),
        capped(stretch, 100),
        capped(under2, 100),
        capped(stretch2, 100),
        sized(sigma, 22),
        under.at_most(under2),
        stretch.at_most(stretch2),
    ensures
        corridor_shape(rules, weight, quality, under, stretch, sigma).at_most(
            corridor_shape(rules, weight, quality, under2, stretch2, sigma),
        ),
{
    reveal(orderly);
    lemma_sizes(weight, 20);
    lemma_sizes(quality, 20);
    lemma_sizes(under, 100);
    lemma_sizes(stretch, 100);
    lemma_sizes(under2, 100);
    lemma_sizes(stretch2, 100);
    lemma_sizes(sigma, 22);
    let ww = rules.mul(weight, quality);
    assert(sized(ww, 40));
    lemma_sizes(ww, 40);
    let k = rules.count(40);
    let c = rules.ratio(35, 100);
    lemma_sizes(k, 14);
    lemma_sizes(c, 14);
    lemma_sizes(rules.ratio(25, 10), 14);
    let wide = rules.mul(sigma, rules.ratio(25, 10));
    assert(sized(wide, 36));
    lemma_sizes(wide, 36);
    let q1 = rules.div(under, sigma);
    let q2 = rules.div(under2, sigma);
    assert(capped(q1, 122) && capped(q2, 122));
    lemma_sizes(q1, 122);
    lemma_sizes(q2, 122);
    assert(sigma.at_most(sigma) && wide.at_most(wide) && k.at_most(k) && c.at_most(c));
    assert(q1.at_most(q2));
    let s1 = rules.square(q1);
    let s2 = rules.square(q2);
    assert(capped(s1, 244) && capped(s2, 244));
    lemma_sizes(s1, 244);
    lemma_sizes(s2, 244);
    assert(s1.at_most(s2));
    let l1 = rules.mul(k, s1);
    let l2 = rules.mul(k, s2);
    assert(capped(l1, 258) && capped(l2, 258));
    lemma_sizes(l1, 258);
    lemma_sizes(l2, 258);
    assert(l1.at_most(l2));
    let r1 = rules.div(stretch, wide);
    let r2 = rules.div(stretch2, wide);
    assert(capped(r1, 136) && capped(r2, 136));
    lemma_sizes(r1, 136);
    lemma_sizes(r2, 136);
    assert(r1.at_most(r2));
    let t1 = rules.square(r1);
    let t2 = rules.square(r2);
    assert(capped(t1, 272) && capped(t2, 272));
    lemma_sizes(t1, 272);
    lemma_sizes(t2, 272);
    assert(t1.at_most(t2));
    let m1 = rules.mul(c, t1);
    let m2 = rules.mul(c, t2);
    assert(capped(m1, 286) && capped(m2, 286));
    lemma_sizes(m1, 286);
    lemma_sizes(m2, 286);
    assert(m1.at_most(m2));
    lemma_wider(l1, 258, 286);
    lemma_wider(l2, 258, 286);
    let a1 = rules.add(l1, m1);
    let a2 = rules.add(l2, m2);
    assert(capped(a1, 287) && capped(a2, 287));
    lemma_sizes(a1, 287);
    lemma_sizes(a2, 287);
    assert(a1.at_most(a2));
    assert(ww.at_most(ww));
}

#[verifier::rlimit(60)]
proof fn lemma_sigma(rules: Rules, jitter_ms: Double)
    requires
        orderly(rules),
        capped(jitter_ms, 20),
    ensures
        sized(rules.add(rules.count(1), jitter_ms.greater(rules.ratio(25, 100))), 22),
{
    reveal(orderly);
    let one = rules.count(1);
    let least = rules.ratio(25, 100);
    lemma_sizes(one, 14);
    lemma_sizes(least, 14);
    lemma_sizes(jitter_ms, 20);
    let jitter = jitter_ms.greater(least);
    lemma_wider(jitter, 14, 21);
    lemma_wider(jitter, 20, 21);
    lemma_wider(one, 14, 21);
    lemma_sizes(jitter, 21);
    assert(capped(rules.add(one, jitter), 22));
    assert(one.at_most(rules.add(one, jitter)));
    lemma_wider(one, 14, 22);
    lemma_sizes(rules.add(one, jitter), 22);
}

#[verifier::rlimit(60)]
proof fn lemma_residual(rules: Rules, time: Double, expected: Double)
    requires
        orderly(rules),
        sized(time, 20),
        capped(expected, 46),
    ensures
        ({
            let residual = rules.sub(time, expected);
            let under = residual.turned().greater(zero());
            let stretch = residual.greater(zero());
            &&& capped(under, 100)
            &&& capped(stretch, 100)
            &&& time.at_most(expected) ==> stretch.equals(zero())
            &&& expected.at_most(time) ==> under.equals(zero())
            &&& time.below(expected) ==> sized(under, 100)
            &&& expected.below(time) && (sized(expected, 46) || expected.equals(zero())) ==> sized(
                stretch,
                100,
            )
        }),
{
    reveal(orderly);
    lemma_sizes(time, 20);
    lemma_sizes(expected, 46);
    lemma_wider(time, 20, 46);
    let residual = rules.sub(time, expected);
    let reverse = rules.sub(expected, time);
    assert(residual.turned().equals(reverse));
    if time.at_most(expected) {
        assert(capped(reverse, 46));
        lemma_wider(reverse, 46, 100);
    }
    if expected.at_most(time) {
        assert(capped(residual, 46));
        lemma_wider(residual, 46, 100);
    }
    if time.below(expected) {
        assert(sized(expected, 46));
        assert(sized(reverse, 99));
        lemma_wider(reverse, 99, 100);
        assert(residual.turned().bits == reverse.bits);
    }
    if expected.below(time) && (sized(expected, 46) || expected.equals(zero())) {
        assert(sized(residual, 99));
        lemma_wider(residual, 99, 100);
    }
}

/// Tells whether all that a corridor is judged by is of a size that it has.
pub open spec fn plausible_corridor(
    rules: Rules,
    place: Place,
    hint: HintView,
    overhead_ms: Double,
    constraint: Constraint,
) -> bool {
    &&& plausible_hint(hint)
    &&& plausible(constraint)
    &&& plausible_way(rules, place, hint.anchor, constraint)
    &&& capped(overhead_ms, 45)
}

/// A time that is exactly the one predicted by way of the hub costs nothing. A time below
/// it, which no route through the hub can have, costs something, and so does a time above
/// it.
#[verifier::rlimit(60)]
pub proof fn lemma_corridor_costs_what_it_does_not_explain(
    rules: Rules,
    place: Place,
    hint: HintView,
    overhead_ms: Double,
    constraint: Constraint,
)
    requires
        orderly(rules),
        plausible_corridor(rules, place, hint, overhead_ms, constraint),
    ensures
        ({
            let expected = predicted(rules, place, hint.anchor, overhead_ms, constraint);
            let term = corridor_term(rules, place, hint, overhead_ms, constraint);
            &&& nonneg(term)
            &&& constraint.min_rtt_ms.equals(expected) ==> term.equals(zero())
            &&& constraint.min_rtt_ms.below(expected) ==> zero().below(term)
            &&& expected.below(constraint.min_rtt_ms) && (sized(expected, 46) || expected.equals(
                zero(),
            )) ==> zero().below(term)
        }),
{
    reveal(orderly);
    lemma_way_through_hub(rules, place, hint.anchor, constraint);
    let base = corridor_base(rules, place, hint.anchor, constraint);
    let expected = predicted(rules, place, hint.anchor, overhead_ms, constraint);
    assert(capped(expected, 46));
    lemma_residual(rules, constraint.min_rtt_ms, expected);
    lemma_sigma(rules, constraint.jitter_ms);
    let residual = rules.sub(constraint.min_rtt_ms, expected);
    let sigma = rules.add(
        rules.count(1),
        constraint.jitter_ms.greater(rules.ratio(25, 100)),
    );
    lemma_corridor_shape(
        rules,
        hint.weight,
        constraint.quality_weight,
        residual.turned().greater(zero()),
        residual.greater(zero()),
        sigma,
    );
    lemma_sizes(corridor_term(rules, place, hint, overhead_ms, constraint), 400);
}

/// Tells whether two constraints say the same but for the time.
pub open spec fn same_but_time(a: Constraint, b: Constraint) -> bool {
    &&& a.anchor == b.anchor
    &&& a.quality_weight == b.quality_weight
    &&& a.jitter_ms == b.jitter_ms
}

/// What a corridor costs does not fall as a time falls further below the one predicted,
/// nor as it rises further above.
#[verifier::rlimit(60)]
pub proof fn lemma_corridor_costs_more_the_less_it_explains(
    rules: Rules,
    place: Place,
    hint: HintView,
    overhead_ms: Double,
    faster: Constraint,
    slower: Constraint,
)
    requires
        orderly(rules),
        plausible_corridor(rules, place, hint, overhead_ms, faster),
        plausible_corridor(rules, place, hint, overhead_ms, slower),
        same_but_time(faster, slower),
        faster.min_rtt_ms.at_most(slower.min_rtt_ms),
    ensures
        ({
            let expected = predicted(rules, place, hint.anchor, overhead_ms, faster);
            let fast = corridor_term(rules, place, hint, overhead_ms, faster);
            let slow = corridor_term(rules, place, hint, overhead_ms, slower);
            &&& slower.min_rtt_ms.at_most(expected) ==> slow.at_most(fast)
            &&& expected.at_most(faster.min_rtt_ms) ==> fast.at_most(slow)
        }),
{
    reveal(orderly);
    lemma_way_through_hub(rules, place, hint.anchor, faster);
    let expected = predicted(rules, place, hint.anchor, overhead_ms, faster);
    assert(capped(expected, 46));
    lemma_residual(rules, faster.min_rtt_ms, expected);
    lemma_residual(rules, slower.min_rtt_ms, expected);
    lemma_sigma(rules, faster.jitter_ms);
    lemma_sizes(faster.min_rtt_ms, 20);
    lemma_sizes(slower.min_rtt_ms, 20);
    lemma_sizes(expected, 46);
    let sigma = rules.add(rules.count(1), faster.jitter_ms.greater(rules.ratio(25, 100)));
    let a = rules.sub(faster.min_rtt_ms, expected);
    let b = rules.sub(slower.min_rtt_ms, expected);
    assert(a.at_most(b));
    let under_a = a.turned().greater(zero());
    let under_b = b.turned().greater(zero());
    let stretch_a = a.greater(zero());
    let stretch_b = b.greater(zero());
    if slower.min_rtt_ms.at_most(expected) {
        lemma_corridor_shape_grows(
            rules,
            hint.weight,
            faster.quality_weight,
            under_b,
            stretch_b,
            sigma,
            under_a,
            stretch_a,
        );
    }
    if expected.at_most(faster.min_rtt_ms) {
        lemma_corridor_shape_grows(
            rules,
            hint.weight,
            faster.quality_weight,
            under_a,
            stretch_a,
            sigma,
            under_b,
            stretch_b,
        );
    }
}

/// The time that all routes through a hub have left is left by each of them: no more than
/// any time leaves beside the way through the hub.
pub proof fn lemma_overhead_is_shared(
    rules: Rules,
    place: Place,
    hub: AnchorView,
    supporting: Seq<Constraint>,
    k: int,
)
    requires
        0 <= k < supporting.len(),
        !rules.sub(
            supporting[k].min_rtt_ms,
            corridor_base(rules, place, hub, supporting[k]),
        ).nan(),
    ensures
        least_overhead(rules, place, hub, supporting).at_most(
            rules.sub(
                supporting[k].min_rtt_ms,
                corridor_base(rules, place, hub, supporting[k]),
            ),
        ),
        exists|j: int|
            0 <= j < supporting.len() && least_overhead(rules, place, hub, supporting)
                == rules.sub(
                (#[trigger] supporting[j]).min_rtt_ms,
                corridor_base(rules, place, hub, supporting[j]),
            ) || least_overhead(rules, place, hub, supporting) == (Double {
                bits: crate::double::INFINITE,
            }),
    decreases supporting.len(),
{
    lemma_least_overhead(rules, place, hub, supporting, k);
    let j = lemma_overhead_is_of_one(rules, place, hub, supporting);
    if j >= 0 {
        assert(least_overhead(rules, place, hub, supporting) == rules.sub(
            supporting[j].min_rtt_ms,
            corridor_base(rules, place, hub, supporting[j]),
        ));
    } else {
        assert(supporting[0] == supporting[0]);
    }
}

proof fn lemma_least_overhead(
    rules: Rules,
    place: Place,
    hub: AnchorView,
    supporting: Seq<Constraint>,
    k: int,
)
    requires
        0 <= k < supporting.len(),
        !rules.sub(
            supporting[k].min_rtt_ms,
            corridor_base(rules, place, hub, supporting[k]),
        ).nan(),
    ensures
        least_overhead(rules, place, hub, supporting).at_most(
            rules.sub(
                supporting[k].min_rtt_ms,
                corridor_base(rules, place, hub, supporting[k]),
            ),
        ),
    decreases supporting.len(),
{
    let shorter = supporting.drop_last();
    if k < shorter.len() {
        assert(shorter[k] == supporting[k]);
        lemma_least_overhead(rules, place, hub, shorter, k);
    }
}

proof fn lemma_overhead_is_of_one(
    rules: Rules,
    place: Place,
    hub: AnchorView,
    supporting: Seq<Constraint>,
) -> (j: int)
    ensures
        j < supporting.len() || supporting.len() == 0,
        j >= 0 ==> j < supporting.len() && least_overhead(rules, place, hub, supporting)
            == rules.sub(
            supporting[j].min_rtt_ms,
            corridor_base(rules, place, hub, supporting[j]),
        ),
        j < 0 ==> least_overhead(rules, place, hub, supporting) == (Double {
            bits: crate::double::INFINITE,
        }),
    decreases supporting.len(),
{
    if supporting.len() == 0 {
        -1
    } else {
        let shorter = supporting.drop_last();
        let j = lemma_overhead_is_of_one(rules, place, hub, shorter);
        let last = supporting.last();
        let left = rules.sub(last.min_rtt_ms, corridor_base(rules, place, hub, last));
        if least_overhead(rules, place, hub, supporting) == left {
            supporting.len() - 1
        } else {
            if j >= 0 {
                assert(shorter[j] == supporting[j]);
            }
            j
        }
    }
}

#[verifier::rlimit(60)]
proof fn lemma_corridor_sum(
    rules: Rules,
    place: Place,
    hint: HintView,
    overhead_ms: Double,
    supporting: Seq<Constraint>,
)
    requires
        orderly(rules),
        forall|i: int|
            0 <= i < supporting.len() ==> plausible_corridor(
                rules,
                place,
                hint,
                overhead_ms,
                #[trigger] supporting[i],
            ),
    ensures
        nonneg(corridor_sum(rules, place, hint, overhead_ms, supporting)),
        forall|i: int|
            0 <= i < supporting.len() ==> corridor_term(
                rules,
                place,
                hint,
                overhead_ms,
                #[trigger] supporting[i],
            ).at_most(corridor_sum(rules, place, hint, overhead_ms, supporting)),
    decreases supporting.len(),
{
    assert(adds_in_order(rules)) by {
        reveal(orderly);
    }
    if supporting.len() > 0 {
        let shorter = supporting.drop_last();
        let last = supporting[supporting.len() - 1];
        assert forall|i: int| 0 <= i < shorter.len() implies plausible_corridor(
            rules,
            place,
            hint,
            overhead_ms,
            #[trigger] shorter[i],
        ) by {
            assert(shorter[i] == supporting[i]);
        }
        lemma_corridor_sum(rules, place, hint, overhead_ms, shorter);
        assert(plausible_corridor(rules, place, hint, overhead_ms, last));
        lemma_corridor_costs_what_it_does_not_explain(rules, place, hint, overhead_ms, last);
        let sum = corridor_sum(rules, place, hint, overhead_ms, supporting);
        let before = corridor_sum(rules, place, hint, overhead_ms, shorter);
        assert(before.at_most(sum));
        assert forall|i: int| 0 <= i < supporting.len() implies corridor_term(
            rules,
            place,
            hint,
            overhead_ms,
            #[trigger] supporting[i],
        ).at_most(sum) by {
            if i < shorter.len() {
                assert(shorter[i] == supporting[i]);
            }
        }
    }
}

/// A hub is refuted by a route that is too fast for it: wherever a supporting constraint
/// has a time below what the way through the hub takes at least, the hub has a score above
/// zero.
#[verifier::rlimit(60)]
pub proof fn lemma_impossible_hub_costs(
    rules: Rules,
    place: Place,
    constraints: Seq<Constraint>,
    hint: HintView,
    k: int,
)
    requires
        orderly(rules),
        plausible_hint(hint),
        forall|i: int|
            0 <= i < constraints_on(constraints, hint.supporting_anchors).len() ==> plausible(
                #[trigger] constraints_on(constraints, hint.supporting_anchors)[i],
            ) && plausible_way(
                rules,
                place,
                hint.anchor,
                constraints_on(constraints, hint.supporting_anchors)[i],
            ),
        0 <= k < constraints_on(constraints, hint.supporting_anchors).len(),
        ({
            let refuting = constraints_on(constraints, hint.supporting_anchors)[k];
            refuting.min_rtt_ms.below(corridor_base(rules, place, hint.anchor, refuting))
        }),
    ensures
        zero().below(corridor_score(rules, place, constraints, hint)),
{
    reveal(orderly);
    let supporting = constraints_on(constraints, hint.supporting_anchors);
    let refuting = supporting[k];
    assert(plausible(refuting));
    let left = least_overhead(rules, place, hint.anchor, supporting);
    let overhead_ms = left.greater(zero());
    let base = corridor_base(rules, place, hint.anchor, refuting);
    lemma_way_through_hub(rules, place, hint.anchor, refuting);
    lemma_sizes(base, 45);
    lemma_sizes(refuting.min_rtt_ms, 20);
    lemma_wider(refuting.min_rtt_ms, 20, 45);
    let slack = rules.sub(refuting.min_rtt_ms, base);
    assert(slack.turned().equals(rules.sub(base, refuting.min_rtt_ms)));
    assert(capped(rules.sub(base, refuting.min_rtt_ms), 45));
    lemma_sizes(rules.sub(base, refuting.min_rtt_ms), 45);
    assert(!slack.nan());
    lemma_overhead_is_shared(rules, place, hint.anchor, supporting, k);
    assert(overhead_ms.equals(zero()));
    assert forall|i: int| 0 <= i < supporting.len() implies plausible_corridor(
        rules,
        place,
        hint,
        overhead_ms,
        #[trigger] supporting[i],
    ) by {
        assert(plausible(supporting[i]));
    }
    lemma_corridor_sum(rules, place, hint, overhead_ms, supporting);
    assert(plausible_corridor(rules, place, hint, overhead_ms, refuting));
    lemma_corridor_costs_what_it_does_not_explain(rules, place, hint, overhead_ms, refuting);
    let expected = predicted(rules, place, hint.anchor, overhead_ms, refuting);
    assert(base.at_most(expected));
}

proof fn lemma_constraint_on(constraints: Seq<Constraint>, id: Seq<char>)
    ensures
        match constraint_on(constraints, id) {
            Some(found) => constraints.contains(found) && found.anchor@.id == id,
            None => forall|i: int|
                0 <= i < constraints.len() ==> (#[trigger] constraints[i]).anchor@.id != id,
        },
    decreases constraints.len(),
{
    if constraints.len() > 0 && constraints[0].anchor@.id != id {
        let rest = constraints.skip(1);
        lemma_constraint_on(rest, id);
        match constraint_on(rest, id) {
            Some(found) => {
                let k = choose|k: int| 0 <= k < rest.len() && rest[k] == found;
                assert(constraints[k + 1] == found);
            },
            None => {
                assert forall|i: int| 0 <= i < constraints.len() implies (
                #[trigger] constraints[i]).anchor@.id != id by {
                    if i > 0 {
                        assert(rest[i - 1] == constraints[i]);
                    }
                }
            },
        }
    } else if constraints.len() > 0 {
        assert(constraints.contains(constraints[0]));
    }
}

/// The routes that support a hint are judged by their own constraints: each that is found is
/// one of those given, on one of the supporting anchors, and each supporting anchor that has
/// a constraint is among those found.
pub proof fn lemma_supporting_constraints(
    constraints: Seq<Constraint>,
    anchors: Seq<AnchorView>,
)
    ensures
        forall|k: int|
            0 <= k < constraints_on(constraints, anchors).len() ==> constraints.contains(
                #[trigger] constraints_on(constraints, anchors)[k],
            ) && exists|a: int|
                0 <= a < anchors.len() && (#[trigger] anchors[a]).id == constraints_on(
                    constraints,
                    anchors,
                )[k].anchor@.id,
        forall|a: int, i: int|
            0 <= a < anchors.len() && 0 <= i < constraints.len() && (
            #[trigger] constraints[i]).anchor@.id == (#[trigger] anchors[a]).id ==> exists|k: int|
                0 <= k < constraints_on(constraints, anchors).len() && (
                #[trigger] constraints_on(constraints, anchors)[k]).anchor@.id == anchors[a].id,
    decreases anchors.len(),
{
    if anchors.len() > 0 {
        let shorter = anchors.drop_last();
        let last = anchors[anchors.len() - 1];
        lemma_supporting_constraints(constraints, shorter);
        lemma_constraint_on(constraints, last.id);
        let before = constraints_on(constraints, shorter);
        let all = constraints_on(constraints, anchors);
        assert forall|k: int| 0 <= k < all.len() implies constraints.contains(#[trigger] all[k])
            && exists|a: int|
            0 <= a < anchors.len() && (#[trigger] anchors[a]).id == all[k].anchor@.id by {
            if k < before.len() {
                assert(all[k] == before[k]);
                let a = choose|a: int|
                    0 <= a < shorter.len() && (#[trigger] shorter[a]).id == before[k].anchor@.id;
                assert(anchors[a].id == all[k].anchor@.id);
            } else {
                assert(anchors[anchors.len() - 1].id == all[k].anchor@.id);
            }
        }
        assert forall|a: int, i: int|
            0 <= a < anchors.len() && 0 <= i < constraints.len() && (
            #[trigger] constraints[i]).anchor@.id == (#[trigger] anchors[a]).id implies exists|
            k: int,
        |
            0 <= k < all.len() && (#[trigger] all[k]).anchor@.id == anchors[a].id by {
            if a < shorter.len() {
                assert(shorter[a] == anchors[a]);
                let k = choose|k: int|
                    0 <= k < before.len() && (#[trigger] before[k]).anchor@.id == shorter[a].id;
                assert(all[k] == before[k]);
            } else {
                assert(all[all.len() - 1].anchor@.id == anchors[a].id);
            }
        }
    }
}

} // verus!
