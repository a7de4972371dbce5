//! What the fitted line is for: it finds the line that the times lie on. What counts more
//! for it, and which constraints are compared with each other.

use crate::calc::Rules;
use crate::calc_laws::{lemma_sizes, orderly, sized};
use crate::double::{zero, Double};
use crate::fit::{
    error_sum, excess_sum, fit_sums, fitted_slope, least_ms_per_km, line_through, time_weight,
    FitSample, LatencyFit, EPSILON,
};
use crate::score_laws::plausible;
use crate::search::bound_places;
use crate::solver::Constraint;
use vstd::prelude::*;

verus! {

/// Of two constraints, the one of better quality and of less time weighs no less. None
/// weighs nothing.
pub proof fn lemma_faster_weighs_more(rules: Rules, one: Constraint, other: Constraint)
    requires
        orderly(rules),
        plausible(one),
        plausible(other),
        one.quality_weight.at_most(other.quality_weight),
        other.min_rtt_ms.at_most(one.min_rtt_ms),
    ensures
        zero().below(time_weight(rules, one)),
        time_weight(rules, one).at_most(time_weight(rules, other)),
{
    reveal(orderly);
    lemma_sizes(rules.count(5), 14);
    lemma_sizes(one.min_rtt_ms, 20);
    lemma_sizes(other.min_rtt_ms, 20);
    let slow = one.min_rtt_ms.greater(rules.count(5));
    let fast = other.min_rtt_ms.greater(rules.count(5));
    assert(sized(slow, 20));
    assert(sized(fast, 20));
    lemma_sizes(slow, 20);
    lemma_sizes(fast, 20);
    assert(sized(rules.square(slow), 40));
    assert(sized(rules.square(fast), 40));
    lemma_sizes(rules.square(slow), 40);
    lemma_sizes(rules.square(fast), 40);
    lemma_sizes(one.quality_weight, 20);
    lemma_sizes(other.quality_weight, 20);
    assert(sized(time_weight(rules, one), 60));
    lemma_sizes(time_weight(rules, one), 60);
}

/// The greatest of the whole numbers that are told apart.
pub const WHOLE: u64 = 0x0020_0000_0000_0000;

/// Tells whether a whole number is told apart from the next.
pub open spec fn told_apart(n: int) -> bool {
    0 <= n <= WHOLE
}

/// Tells whether arithmetic is exact where whole numbers come out of whole numbers.
pub open spec fn exact_on_wholes(rules: Rules) -> bool {
    &&& rules.count(0) == zero()
    &&& forall|n: int|
        1 <= n <= WHOLE ==> (Double { bits: EPSILON }).below(#[trigger] rules.count(n))
    &&& forall|m: int, n: int|
        0 <= m < n <= WHOLE ==> (#[trigger] rules.count(m)).below(#[trigger] rules.count(n))
    &&& forall|m: int, n: int|
        0 <= m && 0 <= n && told_apart(m + n) ==> #[trigger] rules.add(
            rules.count(m),
            rules.count(n),
        ) == rules.count(m + n)
    &&& forall|m: int, n: int|
        0 <= n <= m <= WHOLE ==> #[trigger] rules.sub(rules.count(m), rules.count(n))
            == rules.count(m - n)
    &&& forall|m: int, n: int|
        told_apart(m) && told_apart(n) && told_apart(m * n) ==> #[trigger] rules.mul(
            rules.count(m),
            rules.count(n),
        ) == rules.count(m * n)
    &&& forall|m: int, n: int|
        told_apart(m) && 1 <= n <= WHOLE && told_apart(m * n) ==> #[trigger] quotient(
            rules,
            m,
            n,
        ) == rules.count(m)
    &&& rules.square(zero()) == zero()
    &&& rules.sqrt(zero()) == zero()
    &&& least_ms_per_km(rules).below(rules.count(1))
}

/// The quotient of the product of two whole numbers and the second of them.
pub open spec fn quotient(rules: Rules, m: int, n: int) -> Double {
    rules.div(rules.count(m * n), rules.count(n))
}

/// A point of a line: its weight and its distance.
pub struct LinePoint {
    pub weight: int,
    pub x: int,
}

/// Tells whether points have whole weights from one to ten and whole distances up to ten
/// thousand.
pub open spec fn modest(points: Seq<LinePoint>) -> bool {
    &&& points.len() <= 6
    &&& forall|i: int|
        0 <= i < points.len() ==> 1 <= (#[trigger] points[i]).weight <= 10 && 0 <= points[i].x
            <= 10000
}

/// The samples that points of a line give.
pub open spec fn on_line(
    rules: Rules,
    points: Seq<LinePoint>,
    overhead: int,
    slope: int,
) -> Seq<FitSample> {
    Seq::new(
        points.len(),
        |i: int|
            FitSample {
                weight: rules.count(points[i].weight),
                distance_km: rules.count(points[i].x),
                rtt_ms: rules.count(overhead + slope * points[i].x),
            },
    )
}

spec fn w_sum(points: Seq<LinePoint>) -> int
    decreases points.len(),
{
    if points.len() == 0 {
        0
    } else {
        w_sum(points.drop_last()) + points.last().weight
    }
}

spec fn x_sum(points: Seq<LinePoint>) -> int
    decreases points.len(),
{
    if points.len() == 0 {
        0
    } else {
        x_sum(points.drop_last()) + points.last().weight * points.last().x
    }
}

spec fn xx_sum(points: Seq<LinePoint>) -> int
    decreases points.len(),
{
    if points.len() == 0 {
        0
    } else {
        xx_sum(points.drop_last()) + points.last().weight * points.last().x * points.last().x
    }
}

proof fn lemma_point_sizes(points: Seq<LinePoint>)
    requires
        modest(points),
    ensures
        points.len() <= w_sum(points) <= 10 * points.len(),
        0 <= x_sum(points) <= 100000 * points.len(),
        0 <= xx_sum(points) <= 1000000000 * points.len(),
    decreases points.len(),
{
    if points.len() > 0 {
        let shorter = points.drop_last();
        assert forall|i: int| 0 <= i < shorter.len() implies 1 <= (
        #[trigger] shorter[i]).weight <= 10 && 0 <= shorter[i].x <= 10000 by {
            assert(shorter[i] == points[i]);
        }
        lemma_point_sizes(shorter);
        let p = points[points.len() - 1];
        let w = p.weight;
        let x = p.x;
        assert(0 <= w * x <= 100000 && 0 <= w * x * x <= 1000000000) by (nonlinear_arith)
            requires
                1 <= w <= 10,
                0 <= x <= 10000,
        ;
    }
}

spec fn spread_about(points: Seq<LinePoint>, x: int) -> int
    decreases points.len(),
{
    if points.len() == 0 {
        0
    } else {
        spread_about(points.drop_last(), x) + points.last().weight * ((points.last().x - x) * (
        points.last().x - x))
    }
}

proof fn lemma_spread_about(points: Seq<LinePoint>, x: int)
    requires
        modest(points),
    ensures
        spread_about(points, x) == xx_sum(points) - 2 * (x * x_sum(points)) + x * x * w_sum(points),
        0 <= spread_about(points, x),
        (exists|i: int| 0 <= i < points.len() && (#[trigger] points[i]).x != x) ==> 1
            <= spread_about(points, x),
    decreases points.len(),
{
    if points.len() > 0 {
        let shorter = points.drop_last();
        assert forall|i: int| 0 <= i < shorter.len() implies 1 <= (
        #[trigger] shorter[i]).weight <= 10 && 0 <= shorter[i].x <= 10000 by {
            assert(shorter[i] == points[i]);
        }
        lemma_spread_about(shorter, x);
        let p = points[points.len() - 1];
        let w = p.weight;
        let y = p.x;
        let xs = x_sum(shorter);
        let ws = w_sum(shorter);
        let xxs = xx_sum(shorter);
        let d = y - x;
        assert(w * (d * d) >= 0 && (d != 0 ==> w * (d * d) >= 1)) by (nonlinear_arith)
            requires
                1 <= w <= 10,
        ;
        assert(w * ((y - x) * (y - x)) == w * y * y - 2 * (x * (w * y)) + x * x * w)
            by (nonlinear_arith);
        assert(x * (xs + w * y) == x * xs + x * (w * y)) by (nonlinear_arith);
        assert(x * x * (ws + w) == x * x * ws + x * x * w) by (nonlinear_arith);
        if exists|i: int| 0 <= i < points.len() && (#[trigger] points[i]).x != x {
            let i = choose|i: int| 0 <= i < points.len() && (#[trigger] points[i]).x != x;
            if i < shorter.len() {
                assert(shorter[i].x != x);
            }
        }
    } else {
        assert(x * 0 == 0);
    }
}

proof fn lemma_spread(points: Seq<LinePoint>)
    requires
        modest(points),
    ensures
        0 <= w_sum(points) * xx_sum(points) - x_sum(points) * x_sum(points),
        (exists|i: int, j: int|
            0 <= i < j < points.len() && (#[trigger] points[i]).x != (#[trigger] points[j]).x) ==> 1
            <= w_sum(points) * xx_sum(points) - x_sum(points) * x_sum(points),
    decreases points.len(),
{
    if points.len() > 0 {
        let shorter = points.drop_last();
        assert forall|i: int| 0 <= i < shorter.len() implies 1 <= (
        #[trigger] shorter[i]).weight <= 10 && 0 <= shorter[i].x <= 10000 by {
            assert(shorter[i] == points[i]);
        }
        lemma_spread(shorter);
        let p = points[points.len() - 1];
        let w = p.weight;
        let y = p.x;
        let xs = x_sum(shorter);
        let ws = w_sum(shorter);
        let xxs = xx_sum(shorter);
        lemma_spread_about(shorter, y);
        let about = spread_about(shorter, y);
        let a = w * y;
        let b = w * y * y;
        let m = y * xs;
        let n = y * y * ws;
        assert((ws + w) * (xxs + b) == ws * xxs + ws * b + w * xxs + w * b) by (nonlinear_arith);
        assert((xs + a) * (xs + a) == xs * xs + 2 * (xs * a) + a * a) by (nonlinear_arith);
        assert((w * y) * (w * y) == w * (w * y * y)) by (nonlinear_arith);
        assert(ws * (w * y * y) == w * (y * y * ws)) by (nonlinear_arith);
        assert(xs * (w * y) == w * (y * xs)) by (nonlinear_arith);
        assert(w * (xxs - 2 * m + n) == w * xxs - 2 * (w * m) + w * n) by (nonlinear_arith);
        assert(about == xxs - 2 * m + n);
        assert(w * about >= 0 && (about >= 1 ==> w * about >= 1)) by (nonlinear_arith)
            requires
                1 <= w <= 10,
                about >= 0,
        ;
        if exists|i: int, j: int|
            0 <= i < j < points.len() && (#[trigger] points[i]).x != (#[trigger] points[j]).x {
            let (i, j) = choose|i: int, j: int|
                0 <= i < j < points.len() && (#[trigger] points[i]).x != (#[trigger] points[j]).x;
            if j < shorter.len() {
                assert(shorter[i].x != shorter[j].x);
            } else {
                assert(shorter[i].x != y);
            }
        }
    } else {
        assert(0int * 0int == 0);
    }
}

proof fn lemma_sums_on_line(rules: Rules, points: Seq<LinePoint>, overhead: int, slope: int)
    requires
        exact_on_wholes(rules),
        modest(points),
        0 <= overhead <= 10000,
        1 <= slope <= 100,
    ensures
        ({
            let sums = fit_sums(rules, on_line(rules, points, overhead, slope));
            &&& sums.w == rules.count(w_sum(points))
            &&& sums.x == rules.count(x_sum(points))
            &&& sums.xx == rules.count(xx_sum(points))
            &&& sums.y == rules.count(overhead * w_sum(points) + slope * x_sum(points))
            &&& sums.xy == rules.count(overhead * x_sum(points) + slope * xx_sum(points))
        }),
    decreases points.len(),
{
    let samples = on_line(rules, points, overhead, slope);
    if points.len() > 0 {
        let shorter = points.drop_last();
        assert forall|i: int| 0 <= i < shorter.len() implies 1 <= (
        #[trigger] shorter[i]).weight <= 10 && 0 <= shorter[i].x <= 10000 by {
            assert(shorter[i] == points[i]);
        }
        lemma_sums_on_line(rules, shorter, overhead, slope);
        lemma_point_sizes(points);
        lemma_point_sizes(shorter);
        assert(samples.drop_last() =~= on_line(rules, shorter, overhead, slope));
        let p = points[points.len() - 1];
        let w = p.weight;
        let x = p.x;
        let t = overhead + slope * x;
        let ws = w_sum(shorter);
        let xs = x_sum(shorter);
        let xxs = xx_sum(shorter);
        assert(0 <= w * x <= 100000 && 0 <= w * x * x <= 1000000000) by (nonlinear_arith)
            requires
                1 <= w <= 10,
                0 <= x <= 10000,
        ;
        assert(0 <= slope * x <= 1000000) by (nonlinear_arith)
            requires
                1 <= slope <= 100,
                0 <= x <= 10000,
        ;
        assert(0 <= w * t <= 20000000) by (nonlinear_arith)
            requires
                1 <= w <= 10,
                0 <= t <= 1010000,
        ;
        assert(0 <= w * x * t <= 200000000000) by (nonlinear_arith)
            requires
                0 <= w * x <= 100000,
                0 <= t <= 1010000,
        ;
        assert(0 <= overhead * ws <= 600000 && 0 <= slope * xs <= 60000000) by (nonlinear_arith)
            requires
                0 <= overhead <= 10000,
                0 <= ws <= 60,
                1 <= slope <= 100,
                0 <= xs <= 600000,
        ;
        assert(0 <= overhead * xs <= 6000000000 && 0 <= slope * xxs <= 600000000000)
            by (nonlinear_arith)
            requires
                0 <= overhead <= 10000,
                0 <= xs <= 600000,
                1 <= slope <= 100,
                0 <= xxs <= 6000000000,
        ;
        assert(overhead * (ws + w) + slope * (xs + w * x) == overhead * ws + slope * xs + w * (
        overhead + slope * x)) by (nonlinear_arith);
        assert(overhead * (xs + w * x) + slope * (xxs + w * x * x) == overhead * xs + slope * xxs
            + w * x * (overhead + slope * x)) by (nonlinear_arith);
        let last = samples.last();
        assert(rules.mul(last.weight, last.distance_km) == rules.count(w * x));
        assert(rules.mul(rules.count(w * x), rules.count(x)) == rules.count(w * x * x));
        assert(rules.mul(last.weight, last.rtt_ms) == rules.count(w * t));
        assert(rules.mul(rules.count(w * x), rules.count(t)) == rules.count(w * x * t));
        assert(rules.add(rules.count(ws), rules.count(w)) == rules.count(ws + w));
        assert(rules.add(rules.count(xs), rules.count(w * x)) == rules.count(xs + w * x));
        assert(rules.add(rules.count(xxs), rules.count(w * x * x)) == rules.count(
            xxs + w * x * x,
        ));
    } else {
        assert(overhead * 0 + slope * 0 == 0);
    }
}

proof fn lemma_excess_on_line(rules: Rules, points: Seq<LinePoint>, overhead: int, slope: int)
    requires
        exact_on_wholes(rules),
        modest(points),
        0 <= overhead <= 10000,
        1 <= slope <= 100,
    ensures
        excess_sum(
            rules,
            on_line(rules, points, overhead, slope),
            rules.count(slope),
        ) == rules.count(overhead * w_sum(points)),
        error_sum(
            rules,
            on_line(rules, points, overhead, slope),
            rules.count(overhead),
            rules.count(slope),
        ) == zero(),
    decreases points.len(),
{
    let samples = on_line(rules, points, overhead, slope);
    if points.len() > 0 {
        let shorter = points.drop_last();
        assert forall|i: int| 0 <= i < shorter.len() implies 1 <= (
        #[trigger] shorter[i]).weight <= 10 && 0 <= shorter[i].x <= 10000 by {
            assert(shorter[i] == points[i]);
        }
        lemma_excess_on_line(rules, shorter, overhead, slope);
        lemma_point_sizes(shorter);
        assert(samples.drop_last() =~= on_line(rules, shorter, overhead, slope));
        let p = points[points.len() - 1];
        let w = p.weight;
        let x = p.x;
        let t = overhead + slope * x;
        let ws = w_sum(shorter);
        assert(0 <= slope * x <= 1000000) by (nonlinear_arith)
            requires
                1 <= slope <= 100,
                0 <= x <= 10000,
        ;
        assert(0 <= w * overhead <= 100000 && 0 <= overhead * ws <= 600000) by (nonlinear_arith)
            requires
                1 <= w <= 10,
                0 <= overhead <= 10000,
                0 <= ws <= 60,
        ;
        assert(overhead * (ws + w) == overhead * ws + w * overhead) by (nonlinear_arith);
        assert(rules.mul(rules.count(slope), rules.count(x)) == rules.count(slope * x));
        assert(rules.sub(rules.count(t), rules.count(slope * x)) == rules.count(overhead));
        assert(rules.mul(rules.count(w), rules.count(overhead)) == rules.count(w * overhead));
        assert(rules.add(rules.count(overhead * ws), rules.count(w * overhead)) == rules.count(
            overhead * ws + w * overhead,
        ));
        assert(rules.add(rules.count(overhead), rules.count(slope * x)) == rules.count(t));
        assert(rules.sub(rules.count(t), rules.count(t)) == rules.count(0));
        assert(w * 0 == 0);
        assert(rules.mul(rules.count(w), rules.count(0)) == rules.count(0));
        assert(rules.add(rules.count(0), rules.count(0)) == rules.count(0));
    } else {
        assert(overhead * 0 == 0);
    }
}

/// Times that lie on a line are fitted by that line. Whatever whole weights the points
/// have, the fit finds the overhead and the slope that the times were made of, and no error
/// is left, as long as two of the distances differ and arithmetic is exact.
pub proof fn lemma_line_is_found(
    rules: Rules,
    points: Seq<LinePoint>,
    overhead: int,
    slope: int,
)
    requires
        exact_on_wholes(rules),
        modest(points),
        0 <= overhead <= 10000,
        1 <= slope <= 100,
        exists|i: int, j: int|
            0 <= i < j < points.len() && (#[trigger] points[i]).x != (#[trigger] points[j]).x,
    ensures
        line_through(rules, on_line(rules, points, overhead, slope)) == (LatencyFit {
            overhead_ms: rules.count(overhead),
            ms_per_km: rules.count(slope),
            weighted_rmse_ms: zero(),
        }),
{
    let samples = on_line(rules, points, overhead, slope);
    let ws = w_sum(points);
    let xs = x_sum(points);
    let xxs = xx_sum(points);
    let ys = overhead * ws + slope * xs;
    let xys = overhead * xs + slope * xxs;
    let d = ws * xxs - xs * xs;
    lemma_point_sizes(points);
    lemma_spread(points);
    lemma_sums_on_line(rules, points, overhead, slope);
    lemma_excess_on_line(rules, points, overhead, slope);
    let sums = fit_sums(rules, samples);
    assert(0 <= ws * xxs <= 360000000000 && 0 <= xs * xs <= 360000000000) by (nonlinear_arith)
        requires
            0 <= ws <= 60,
            0 <= xxs <= 6000000000,
            0 <= xs <= 600000,
    ;
    assert(0 <= overhead * ws <= 600000 && 0 <= slope * xs <= 60000000 && 0 <= overhead * xs
        <= 6000000000 && 0 <= slope * xxs <= 600000000000) by (nonlinear_arith)
        requires
            0 <= overhead <= 10000,
            0 <= ws <= 60,
            1 <= slope <= 100,
            0 <= xs <= 600000,
            0 <= xxs <= 6000000000,
    ;
    assert(0 <= ws * xys <= 60 * 606000000000) by (nonlinear_arith)
        requires
            0 <= ws <= 60,
            0 <= xys <= 606000000000,
    ;
    assert(0 <= xs * ys <= 600000 * 60600000) by (nonlinear_arith)
        requires
            0 <= xs <= 600000,
            0 <= ys <= 60600000,
    ;
    assert(ws * (overhead * xs + slope * xxs) - xs * (overhead * ws + slope * xs) == slope * (ws
        * xxs - xs * xs)) by (nonlinear_arith);
    assert(0 <= slope * d <= 36000000000000 && slope * d >= d) by (nonlinear_arith)
        requires
            1 <= slope <= 100,
            1 <= d <= 360000000000,
    ;
    assert(rules.mul(sums.w, sums.xx) == rules.count(ws * xxs));
    assert(rules.mul(sums.x, sums.x) == rules.count(xs * xs));
    let spread = rules.sub(rules.mul(sums.w, sums.xx), rules.mul(sums.x, sums.x));
    assert(spread == rules.count(d));
    assert(rules.mul(sums.w, sums.xy) == rules.count(ws * xys));
    assert(rules.mul(sums.x, sums.y) == rules.count(xs * ys));
    assert(rules.sub(rules.count(ws * xys), rules.count(xs * ys)) == rules.count(slope * d));
    assert(quotient(rules, slope, d) == rules.count(slope));
    assert(rules.count(0).below(rules.count(d)));
    assert(spread.unsigned() == spread);
    if slope > 1 {
        assert(rules.count(1).below(rules.count(slope)));
    }
    assert(fitted_slope(rules, sums) == rules.count(slope));
    assert(ws > 0);
    assert(rules.count(0).below(rules.count(ws)));
    assert(quotient(rules, overhead, ws) == rules.count(overhead));
    if overhead > 0 {
        assert(rules.count(0).below(rules.count(overhead)));
    }
    assert(0 * ws == 0);
    assert(quotient(rules, 0, ws) == rules.count(0));
}

/// Tells whether arithmetic is exact on the squares of whole numbers and of what they differ
/// by, and nothing comes of nothing.
pub open spec fn exact_on_squares(rules: Rules) -> bool {
    &&& forall|m: int, n: int|
        told_apart(m) && told_apart(n) && told_apart((m - n) * (m - n)) ==> rules.square(
            #[trigger] rules.sub(rules.count(m), rules.count(n)),
        ) == rules.count((m - n) * (m - n))
    &&& forall|n: int|
        0 <= n && told_apart(n * n) ==> #[trigger] root(rules, n) == rules.count(n)
    &&& rules.mul(least_ms_per_km(rules), zero()) == zero()
}

/// The root of the square of a whole number.
pub open spec fn root(rules: Rules, n: int) -> Double {
    rules.sqrt(rules.count(n * n))
}

/// Points of one distance say nothing of the slope, which is then the least that light
/// allows. For two points at no distance, the overhead is the weighted mean of the times,
/// and the error is the root of the weighted mean of the squares of what they differ from
/// it by: two points of the weights `a * a` and `b * b` that are as far above and below `m`
/// as their weights balance have `m` as their overhead, and `a * b * d` as their error.
pub proof fn lemma_error_is_found(rules: Rules, a: int, b: int, m: int, d: int)
    requires
        exact_on_wholes(rules),
        exact_on_squares(rules),
        1 <= a <= 10,
        1 <= b <= 10,
        0 <= d <= 100,
        a * a * d <= m <= 100000,
    ensures
        line_through(
            rules,
            seq![
                FitSample {
                    weight: rules.count(a * a),
                    distance_km: rules.count(0),
                    rtt_ms: rules.count(m + b * b * d),
                },
                FitSample {
                    weight: rules.count(b * b),
                    distance_km: rules.count(0),
                    rtt_ms: rules.count(m - a * a * d),
                },
            ],
        ) == (LatencyFit {
            overhead_ms: rules.count(m),
            ms_per_km: least_ms_per_km(rules),
            weighted_rmse_ms: rules.count(a * b * d),
        }),
{
    let v = a * a;
    let w = b * b;
    assert(1 <= v <= 100 && 1 <= w <= 100) by (nonlinear_arith)
        requires
            v == a * a,
            w == b * b,
            1 <= a <= 10,
            1 <= b <= 10,
    ;
    let up = w * d;
    let down = v * d;
    assert(0 <= up <= 10000 && 0 <= down <= 10000) by (nonlinear_arith)
        requires
            up == w * d,
            down == v * d,
            1 <= v <= 100,
            1 <= w <= 100,
            0 <= d <= 100,
    ;
    let high = m + up;
    let low = m - down;
    let one = FitSample {
        weight: rules.count(v),
        distance_km: rules.count(0),
        rtt_ms: rules.count(high),
    };
    let two = FitSample {
        weight: rules.count(w),
        distance_km: rules.count(0),
        rtt_ms: rules.count(low),
    };
    let samples = seq![one, two];
    let firsts = seq![one];
    assert(samples.drop_last() =~= firsts);
    assert(firsts.drop_last() =~= Seq::<FitSample>::empty());
    reveal_with_fuel(fit_sums, 3);
    reveal_with_fuel(excess_sum, 3);
    reveal_with_fuel(error_sum, 3);
    let sums = fit_sums(rules, samples);
    let least = least_ms_per_km(rules);
    assert(v * 0 == 0 && w * 0 == 0 && (v + w) * 0 == 0);
    assert(rules.mul(rules.count(v), rules.count(0)) == zero());
    assert(rules.mul(rules.count(w), rules.count(0)) == zero());
    assert(rules.mul(rules.count(0), rules.count(0)) == rules.count(0int * 0int));
    assert(rules.add(rules.count(0), rules.count(0)) == zero());
    assert(0 <= v * high <= 20000000 && 0 <= w * low <= 20000000) by (nonlinear_arith)
        requires
            1 <= v <= 100,
            1 <= w <= 100,
            0 <= high <= 110000,
            0 <= low <= 100000,
    ;
    assert(rules.mul(rules.count(v), rules.count(high)) == rules.count(v * high));
    assert(rules.mul(rules.count(w), rules.count(low)) == rules.count(w * low));
    assert(rules.add(rules.count(0), rules.count(v)) == rules.count(0 + v));
    assert(rules.add(rules.count(v), rules.count(w)) == rules.count(v + w));
    assert(sums.w == rules.count(v + w));
    assert(rules.mul(rules.count(0), rules.count(low)) == rules.count(0 * low));
    assert(rules.mul(rules.count(0), rules.count(high)) == rules.count(0 * high));
    assert(0 * low == 0 && 0 * high == 0);
    assert(sums.x == zero() && sums.xx == zero());
    assert(rules.mul(rules.count(v + w), rules.count(0)) == rules.count((v + w) * 0));
    assert(rules.sub(rules.count(0), rules.count(0)) == rules.count(0 - 0));
    assert(fitted_slope(rules, sums) == least);
    assert(rules.sub(rules.count(high), rules.count(0)) == rules.count(high - 0));
    assert(rules.sub(rules.count(low), rules.count(0)) == rules.count(low - 0));
    assert(rules.add(rules.count(0), rules.count(v * high)) == rules.count(0 + v * high));
    assert(rules.add(rules.count(v * high), rules.count(w * low)) == rules.count(
        v * high + w * low,
    ));
    assert(v * (m + w * d) + w * (m - v * d) == m * (v + w)) by (nonlinear_arith);
    let excess = excess_sum(rules, samples, least);
    assert(excess == rules.count(m * (v + w)));
    assert(0 <= m * (v + w) <= 20000000) by (nonlinear_arith)
        requires
            0 <= m <= 100000,
            2 <= v + w <= 200,
    ;
    assert(0 <= m) by {
        assert(0 <= down <= m);
    }
    assert(quotient(rules, m, v + w) == rules.count(m));
    if m > 0 {
        assert(rules.count(0).below(rules.count(m)));
    }
    assert(rules.count(0).below(rules.count(v + w)));
    assert(rules.add(rules.count(m), rules.count(0)) == rules.count(m + 0));
    assert(0 <= up * up <= 100000000 && 0 <= down * down <= 100000000) by (nonlinear_arith)
        requires
            0 <= up <= 10000,
            0 <= down <= 10000,
    ;
    assert((m - high) * (m - high) == up * up) by (nonlinear_arith)
        requires
            high == m + up,
    ;
    assert(rules.square(rules.sub(rules.count(m), rules.count(high))) == rules.count(up * up));
    assert(rules.square(rules.sub(rules.count(m), rules.count(low))) == rules.count(down * down));
    assert(0 <= v * (up * up) <= 10000000000 && 0 <= w * (down * down) <= 10000000000)
        by (nonlinear_arith)
        requires
            1 <= v <= 100,
            1 <= w <= 100,
            0 <= up * up <= 100000000,
            0 <= down * down <= 100000000,
    ;
    assert(rules.mul(rules.count(v), rules.count(up * up)) == rules.count(v * (up * up)));
    assert(rules.mul(rules.count(w), rules.count(down * down)) == rules.count(w * (down * down)));
    assert(rules.add(rules.count(0), rules.count(v * (up * up))) == rules.count(
        0 + v * (up * up),
    ));
    assert(rules.add(rules.count(v * (up * up)), rules.count(w * (down * down))) == rules.count(
        v * (up * up) + w * (down * down),
    ));
    let r = a * b * d;
    let q = v * w * (d * d);
    assert(v * ((w * d) * (w * d)) == v * w * (d * d) * w) by (nonlinear_arith);
    assert(w * ((v * d) * (v * d)) == v * w * (d * d) * v) by (nonlinear_arith);
    assert(q * w + q * v == q * (v + w)) by (nonlinear_arith);
    assert((a * b * d) * (a * b * d) == (a * a) * (b * b) * (d * d)) by (nonlinear_arith);
    assert(q == r * r);
    assert(0 <= r <= 10000) by (nonlinear_arith)
        requires
            r == a * b * d,
            1 <= a <= 10,
            1 <= b <= 10,
            0 <= d <= 100,
    ;
    assert(0 <= r * r <= 100000000) by (nonlinear_arith)
        requires
            0 <= r <= 10000,
    ;
    let errors = error_sum(rules, samples, rules.count(m), least);
    assert(errors == rules.count(q * (v + w)));
    assert(quotient(rules, q, v + w) == rules.count(q));
    assert(root(rules, r) == rules.count(r));
}

/// The square of a whole number is what it is multiplied by itself.
pub proof fn lemma_square_of_whole(rules: Rules, n: int)
    requires
        exact_on_wholes(rules),
        exact_on_squares(rules),
        told_apart(n),
        told_apart(n * n),
    ensures
        rules.square(rules.count(n)) == rules.count(n * n),
{
    assert(rules.sub(rules.count(n), rules.count(0)) == rules.count(n - 0));
    assert((n - 0) * (n - 0) == n * n);
    assert(told_apart((n - 0) * (n - 0)));
}

/// The weight of a constraint falls with the square of its time, and stops growing below
/// five milliseconds: a quality of `q` times that square makes a weight of `q`.
pub proof fn lemma_weight_falls_with_the_square(
    rules: Rules,
    constraint: Constraint,
    ms: int,
    q: int,
)
    requires
        exact_on_wholes(rules),
        exact_on_squares(rules),
        constraint.min_rtt_ms == rules.count(ms),
        0 <= ms <= 10000,
        0 <= q <= 1000,
        ms >= 5 ==> constraint.quality_weight == rules.count(q * (ms * ms)),
        ms < 5 ==> constraint.quality_weight == rules.count(q * 25),
    ensures
        time_weight(rules, constraint) == rules.count(q),
{
    let t: int = if ms < 5 {
        5
    } else {
        ms
    };
    assert(25 <= t * t <= 100000000) by (nonlinear_arith)
        requires
            5 <= t <= 10000,
    ;
    assert(0 <= q * (t * t) <= 100000000000) by (nonlinear_arith)
        requires
            0 <= q <= 1000,
            25 <= t * t <= 100000000,
    ;
    if ms < 5 {
        assert(rules.count(ms).below(rules.count(5)));
    } else if ms > 5 {
        assert(rules.count(5).below(rules.count(ms)));
    }
    assert(constraint.min_rtt_ms.greater(rules.count(5)) == rules.count(t)) by {
        assert(rules.count(4).below(rules.count(5)));
    }
    lemma_square_of_whole(rules, t);
    assert(quotient(rules, q, t * t) == rules.count(q));
}

/// The weight of an anchor in the centre of the anchors falls with the square of its bound,
/// and stops growing below twenty-five kilometres.
pub proof fn lemma_bound_weighs_by_the_square(
    rules: Rules,
    constraints: Seq<Constraint>,
    i: int,
    km: int,
)
    requires
        exact_on_wholes(rules),
        exact_on_squares(rules),
        0 <= i < constraints.len(),
        constraints[i].upper_bound_km == rules.count(km),
        0 <= km <= 100000,
    ensures
        km >= 25 ==> bound_places(rules, constraints)[i].1 == rules.div(
            rules.count(1),
            rules.count(km * km),
        ),
        km < 25 ==> bound_places(rules, constraints)[i].1 == rules.div(
            rules.count(1),
            rules.count(625),
        ),
{
    let k: int = if km < 25 {
        25
    } else {
        km
    };
    assert(625 <= k * k <= 10000000000) by (nonlinear_arith)
        requires
            25 <= k <= 100000,
    ;
    if km < 25 {
        assert(rules.count(km).below(rules.count(25)));
    } else if km > 25 {
        assert(rules.count(25).below(rules.count(km)));
    }
    assert(constraints[i].upper_bound_km.greater(rules.count(25)) == rules.count(k)) by {
        assert(rules.count(24).below(rules.count(25)));
    }
    lemma_square_of_whole(rules, k);
}

} // verus!
