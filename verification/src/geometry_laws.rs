//! What distances promise, as far as the steps of arithmetic that they are made of do.

use crate::calc::Rules;
use crate::double::{zero, Double};
use crate::geometry::{
    center_of, directions, distance, half_chord_square, longitude_within, moved, Place,
};
use vstd::prelude::*;

verus! {

/// Tells whether turning the sign of what they are taken of changes no more than the sign
/// of differences, halves and sines, and nothing of squares, and products can be turned
/// around: all that of numbers that are not infinite.
pub open spec fn mirrors(rules: Rules) -> bool {
    &&& forall|a: Double, b: Double|
        a.finite() && b.finite() ==> (#[trigger] rules.sub(a, b)).unsigned() == rules.sub(
            b,
            a,
        ).unsigned()
    &&& forall|a: Double, b: Double|
        a.finite() && b.finite() && a.unsigned() == b.unsigned() ==> (#[trigger] rules.div(
            a,
            rules.count(2),
        )).unsigned() == (#[trigger] rules.div(b, rules.count(2))).unsigned() && rules.div(
            a,
            rules.count(2),
        ).finite()
    &&& forall|a: Double, b: Double|
        a.finite() && b.finite() && a.unsigned() == b.unsigned() ==> (#[trigger] rules.sin(
            a,
        )).unsigned() == (#[trigger] rules.sin(b)).unsigned() && rules.sin(a).finite()
    &&& forall|a: Double, b: Double|
        a.finite() && b.finite() && a.unsigned() == b.unsigned() ==> #[trigger] rules.square(a)
            == #[trigger] rules.square(b)
    &&& forall|a: Double| a.finite() ==> (#[trigger] rules.cos(a)).finite()
    &&& forall|a: Double, b: Double|
        a.finite() && b.finite() ==> #[trigger] rules.mul(a, b) == rules.mul(b, a)
}

proof fn lemma_half_sine_mirrors(rules: Rules, a: Double, b: Double)
    requires
        mirrors(rules),
        a.finite(),
        b.finite(),
        rules.sub(a, b).finite(),
    ensures
        rules.square(rules.sin(rules.div(rules.sub(a, b), rules.count(2)))) == rules.square(
            rules.sin(rules.div(rules.sub(b, a), rules.count(2))),
        ),
{
    let there = rules.sub(a, b);
    let back = rules.sub(b, a);
    assert(there.unsigned() == back.unsigned());
    assert(there.unsigned().magnitude() == there.magnitude());
    assert(back.unsigned().magnitude() == back.magnitude());
    let half_there = rules.div(there, rules.count(2));
    let half_back = rules.div(back, rules.count(2));
    assert(half_there.unsigned() == half_back.unsigned());
    assert(half_there.finite() && half_back.finite());
    assert(rules.sin(half_there).unsigned() == rules.sin(half_back).unsigned());
    assert(rules.sin(half_there).finite() && rules.sin(half_back).finite());
}

/// It is as far there as back.
pub proof fn lemma_distance_is_symmetric(rules: Rules, from: Place, to: Place)
    requires
        mirrors(rules),
        rules.radians(from.latitude).finite(),
        rules.radians(from.longitude).finite(),
        rules.radians(to.latitude).finite(),
        rules.radians(to.longitude).finite(),
        rules.sub(rules.radians(to.latitude), rules.radians(from.latitude)).finite(),
        rules.sub(rules.radians(to.longitude), rules.radians(from.longitude)).finite(),
    ensures
        distance(rules, from, to) == distance(rules, to, from),
{
    let from_latitude = rules.radians(from.latitude);
    let to_latitude = rules.radians(to.latitude);
    lemma_half_sine_mirrors(rules, to_latitude, from_latitude);
    lemma_half_sine_mirrors(rules, rules.radians(to.longitude), rules.radians(from.longitude));
    assert(rules.mul(rules.cos(from_latitude), rules.cos(to_latitude)) == rules.mul(
        rules.cos(to_latitude),
        rules.cos(from_latitude),
    ));
    assert(half_chord_square(rules, from, to) == half_chord_square(rules, to, from));
}

/// Tells whether this is a number without the sign bit.
pub open spec fn unsigned_number(a: Double) -> bool {
    !a.negative() && !a.nan()
}

/// Half the length of the longest way, on a globe of radius one.
pub open spec fn quarter_turn(rules: Rules) -> Double {
    rules.atan2(rules.count(1), zero())
}

/// Tells whether roots, angles and multiples of numbers without sign have none and keep
/// their order, and no angle between them is above a quarter turn.
pub open spec fn keeps_angles(rules: Rules) -> bool {
    &&& forall|a: Double| unsigned_number(a) ==> unsigned_number(#[trigger] rules.sqrt(a))
    &&& forall|y: Double, x: Double|
        unsigned_number(y) && unsigned_number(x) ==> unsigned_number(#[trigger] rules.atan2(y, x))
            && rules.atan2(y, x).at_most(quarter_turn(rules))
    &&& forall|k: Double, a: Double, b: Double|
        unsigned_number(k) && k.finite() && unsigned_number(a) && a.at_most(b) && b.finite()
            ==> unsigned_number(#[trigger] rules.mul(k, a)) && rules.mul(k, a).at_most(
            #[trigger] rules.mul(k, b),
        )
    &&& unsigned_number(rules.count(2)) && rules.count(2).finite()
    &&& unsigned_number(rules.count(6371)) && rules.count(6371).finite()
    &&& quarter_turn(rules).finite()
    &&& rules.mul(rules.count(2), quarter_turn(rules)).finite()
}

/// A distance is a number, not below zero, and not above half the way around the globe:
/// for all places that are not so close to opposite that the chord between them comes out
/// longer than the diameter.
pub proof fn lemma_distance_is_bounded(rules: Rules, from: Place, to: Place)
    requires
        keeps_angles(rules),
        unsigned_number(half_chord_square(rules, from, to)),
        unsigned_number(rules.sub(rules.count(1), half_chord_square(rules, from, to))),
    ensures
        zero().at_most(distance(rules, from, to)),
        distance(rules, from, to).at_most(
            rules.mul(rules.count(6371), rules.mul(rules.count(2), quarter_turn(rules))),
        ),
{
    let a = half_chord_square(rules, from, to);
    let rest = rules.sub(rules.count(1), a);
    let angle = rules.atan2(rules.sqrt(a), rules.sqrt(rest));
    assert(unsigned_number(rules.sqrt(a)) && unsigned_number(rules.sqrt(rest)));
    assert(unsigned_number(angle) && angle.at_most(quarter_turn(rules)));
    let turn = rules.mul(rules.count(2), angle);
    let most = rules.mul(rules.count(2), quarter_turn(rules));
    assert(unsigned_number(turn) && turn.at_most(most));
    assert(unsigned_number(rules.mul(rules.count(6371), turn)));
}

/// Tells whether the steps of a distance are exact where they are taken of zero.
pub open spec fn exact_at_zero(rules: Rules) -> bool {
    &&& forall|a: Double| a.finite() ==> #[trigger] rules.sub(a, a) == zero()
    &&& forall|a: Double| unsigned_number(a) && a.finite() ==> #[trigger] rules.mul(a, zero())
        == zero()
    &&& rules.div(zero(), rules.count(2)) == zero()
    &&& rules.sin(zero()) == zero()
    &&& rules.square(zero()) == zero()
    &&& rules.add(zero(), zero()) == zero()
    &&& rules.sqrt(zero()) == zero()
    &&& rules.sub(rules.count(1), zero()) == rules.count(1)
    &&& rules.sqrt(rules.count(1)) == rules.count(1)
    &&& rules.atan2(zero(), rules.count(1)) == zero()
    &&& unsigned_number(rules.count(2)) && rules.count(2).finite()
    &&& unsigned_number(rules.count(6371)) && rules.count(6371).finite()
}

/// A place is no way from itself.
pub proof fn lemma_distance_to_itself(rules: Rules, place: Place)
    requires
        exact_at_zero(rules),
        rules.radians(place.latitude).finite(),
        rules.radians(place.longitude).finite(),
        ({
            let cosine = rules.cos(rules.radians(place.latitude));
            unsigned_number(rules.mul(cosine, cosine)) && rules.mul(cosine, cosine).finite()
        }),
    ensures
        distance(rules, place, place) == zero(),
{
    assert(half_chord_square(rules, place, place) == zero());
}

/// The direction of a place: its ordinates on a globe of radius one.
pub open spec fn pointing(rules: Rules, place: Place) -> (Double, Double, Double) {
    let latitude = rules.radians(place.latitude);
    let longitude = rules.radians(place.longitude);
    let flat = rules.cos(latitude);
    (
        rules.mul(flat, rules.cos(longitude)),
        rules.mul(flat, rules.sin(longitude)),
        rules.sin(latitude),
    )
}

/// Tells whether the angles of the direction of a place are those of the place, also where
/// its abscissa is below zero: the angle of the point that its cosine and sine make is its
/// longitude, and that of the point that its flat length and its height make its latitude.
pub open spec fn angles_come_back(rules: Rules, place: Place) -> bool {
    let (x, y, z) = pointing(rules, place);
    &&& rules.degrees(rules.atan2(y, x)) == place.longitude
    &&& rules.degrees(
        rules.atan2(z, rules.sqrt(rules.add(rules.square(x), rules.square(y)))),
    ) == place.latitude
}

/// The sum of weights.
pub open spec fn sum_of(rules: Rules, weights: Seq<Double>) -> Double
    decreases weights.len(),
{
    if weights.len() == 0 {
        zero()
    } else {
        rules.add(sum_of(rules, weights.drop_last()), weights.last())
    }
}

/// So many times an ordinate as the weights are together, and nothing without weights.
pub open spec fn times(rules: Rules, weights: Seq<Double>, a: Double) -> Double {
    if weights.len() == 0 {
        zero()
    } else {
        rules.mul(sum_of(rules, weights), a)
    }
}

/// Tells whether an ordinate is summed exactly with these weights, and divided exactly by
/// their sum.
pub open spec fn sums_exactly(rules: Rules, weights: Seq<Double>, a: Double) -> bool {
    &&& forall|k: int|
        0 <= k < weights.len() ==> rules.add(
            times(rules, weights.take(k), a),
            rules.mul(#[trigger] weights[k], a),
        ) == times(rules, weights.take(k + 1), a)
    &&& rules.div(times(rules, weights, a), sum_of(rules, weights)) == a
}

/// A place with each of these weights.
pub open spec fn all_at(place: Place, weights: Seq<Double>) -> Seq<(Place, Double)> {
    Seq::new(weights.len(), |i: int| (place, weights[i]))
}

proof fn lemma_directions_at_one_place(rules: Rules, place: Place, weights: Seq<Double>, n: int)
    requires
        0 <= n <= weights.len(),
        forall|k: int|
            0 <= k < weights.len() ==> ({
                let flat = rules.cos(rules.radians(place.latitude));
                let longitude = rules.radians(place.longitude);
                &&& rules.mul(rules.mul(#[trigger] weights[k], flat), rules.cos(longitude))
                    == rules.mul(weights[k], rules.mul(flat, rules.cos(longitude)))
                &&& rules.mul(rules.mul(weights[k], flat), rules.sin(longitude)) == rules.mul(
                    weights[k],
                    rules.mul(flat, rules.sin(longitude)),
                )
            }),
        ({
            let (x, y, z) = pointing(rules, place);
            &&& sums_exactly(rules, weights, x)
            &&& sums_exactly(rules, weights, y)
            &&& sums_exactly(rules, weights, z)
        }),
    ensures
        ({
            let (x, y, z) = pointing(rules, place);
            let sum = directions(rules, all_at(place, weights.take(n)));
            &&& sum.x == times(rules, weights.take(n), x)
            &&& sum.y == times(rules, weights.take(n), y)
            &&& sum.z == times(rules, weights.take(n), z)
            &&& sum.total == sum_of(rules, weights.take(n))
        }),
    decreases n,
{
    let items = all_at(place, weights.take(n));
    if n > 0 {
        lemma_directions_at_one_place(rules, place, weights, n - 1);
        assert(items.drop_last() =~= all_at(place, weights.take(n - 1)));
        assert(items.last() == (place, weights[n - 1]));
        assert(weights.take(n).drop_last() =~= weights.take(n - 1));
        assert(weights.take(n).last() == weights[n - 1]);
        let k = n - 1;
        assert(weights[k] == weights[k]);
    }
}

/// The centre of weighted places that are all one place is that place, wherever on the globe
/// it is: for arithmetic in which the angles of a direction come back, weights are summed
/// exactly and a factor may be taken out of a product.
pub proof fn lemma_center_of_one_place(rules: Rules, place: Place, weights: Seq<Double>)
    requires
        angles_come_back(rules, place),
        !sum_of(rules, weights).equals(zero()),
        forall|k: int|
            0 <= k < weights.len() ==> ({
                let flat = rules.cos(rules.radians(place.latitude));
                let longitude = rules.radians(place.longitude);
                &&& rules.mul(rules.mul(#[trigger] weights[k], flat), rules.cos(longitude))
                    == rules.mul(weights[k], rules.mul(flat, rules.cos(longitude)))
                &&& rules.mul(rules.mul(weights[k], flat), rules.sin(longitude)) == rules.mul(
                    weights[k],
                    rules.mul(flat, rules.sin(longitude)),
                )
            }),
        ({
            let (x, y, z) = pointing(rules, place);
            &&& sums_exactly(rules, weights, x)
            &&& sums_exactly(rules, weights, y)
            &&& sums_exactly(rules, weights, z)
        }),
    ensures
        center_of(rules, all_at(place, weights)) == place,
{
    lemma_directions_at_one_place(rules, place, weights, weights.len() as int);
    assert(weights.take(weights.len() as int) =~= weights);
}

/// Tells whether the angle of a point lies in the quadrant of the point, a quotient by a
/// number above zero has the sign of what is divided, and degrees keep the order of angles.
pub open spec fn keeps_quadrants(rules: Rules) -> bool {
    &&& forall|y: Double, x: Double|
        x.below(zero()) && zero().below(y) ==> quarter_turn(rules).at_most(
            #[trigger] rules.atan2(y, x),
        )
    &&& forall|y: Double, x: Double|
        x.below(zero()) && y.below(zero()) ==> (#[trigger] rules.atan2(y, x)).at_most(
            quarter_turn(rules).turned(),
        )
    &&& forall|y: Double, x: Double|
        zero().below(x) && !y.nan() ==> (#[trigger] rules.atan2(y, x)).at_most(
            quarter_turn(rules),
        ) && quarter_turn(rules).turned().at_most(rules.atan2(y, x))
    &&& forall|y: Double, x: Double|
        zero().below(y) && !x.nan() ==> zero().at_most(#[trigger] rules.atan2(y, x))
    &&& forall|y: Double, x: Double|
        y.below(zero()) && !x.nan() ==> (#[trigger] rules.atan2(y, x)).at_most(zero())
    &&& forall|a: Double, b: Double|
        a.at_most(b) ==> (#[trigger] rules.degrees(a)).at_most(#[trigger] rules.degrees(b))
}

/// The centre lies where its direction points: beyond a quarter turn to the east or to the
/// west where the abscissa is below zero and within it where it is above, to the east where
/// the ordinate is above zero and to the west where it is below, and to the north where the
/// height is above zero and to the south where it is below.
pub proof fn lemma_center_lies_where_it_points(rules: Rules, items: Seq<(Place, Double)>)
    requires
        keeps_quadrants(rules),
        !directions(rules, items).total.equals(zero()),
    ensures
        ({
            let sum = directions(rules, items);
            let x = rules.div(sum.x, sum.total);
            let y = rules.div(sum.y, sum.total);
            let z = rules.div(sum.z, sum.total);
            let center = center_of(rules, items);
            let east = rules.degrees(quarter_turn(rules));
            let west = rules.degrees(quarter_turn(rules).turned());
            &&& x.below(zero()) && zero().below(y) ==> east.at_most(center.longitude)
            &&& x.below(zero()) && y.below(zero()) ==> center.longitude.at_most(west)
            &&& zero().below(x) && !y.nan() ==> west.at_most(center.longitude)
                && center.longitude.at_most(east)
            &&& zero().below(y) && !x.nan() ==> rules.degrees(zero()).at_most(center.longitude)
            &&& y.below(zero()) && !x.nan() ==> center.longitude.at_most(rules.degrees(zero()))
            &&& zero().below(z) && !rules.sqrt(rules.add(rules.square(x), rules.square(y))).nan()
                ==> rules.degrees(zero()).at_most(center.latitude)
            &&& z.below(zero()) && !rules.sqrt(rules.add(rules.square(x), rules.square(y))).nan()
                ==> center.latitude.at_most(rules.degrees(zero()))
        }),
{
}

/// Tells whether nothing changes a sum that is not zero when nothing is added to it, and
/// nothing times anything is nothing.
pub open spec fn adds_nothing(rules: Rules) -> bool {
    &&& forall|s: Double, t: Double|
        t.equals(zero()) && s.finite() && !s.equals(zero()) ==> #[trigger] rules.add(s, t) == s
    &&& forall|a: Double, t: Double|
        t.equals(zero()) && a.finite() ==> (#[trigger] rules.mul(t, a)).equals(zero())
}

/// A place of no weight leaves the centre where it is.
pub proof fn lemma_weightless_place_does_not_pull(
    rules: Rules,
    items: Seq<(Place, Double)>,
    place: Place,
)
    requires
        adds_nothing(rules),
        rules.cos(rules.radians(place.latitude)).finite(),
        rules.sin(rules.radians(place.latitude)).finite(),
        rules.cos(rules.radians(place.longitude)).finite(),
        rules.sin(rules.radians(place.longitude)).finite(),
        ({
            let sum = directions(rules, items);
            &&& sum.x.finite() && !sum.x.equals(zero())
            &&& sum.y.finite() && !sum.y.equals(zero())
            &&& sum.z.finite() && !sum.z.equals(zero())
            &&& sum.total.finite() && !sum.total.equals(zero())
        }),
    ensures
        center_of(rules, items.push((place, zero()))) == center_of(rules, items),
{
    assert(items.push((place, zero())).drop_last() =~= items);
}

/// Tells whether an angle comes back from its own sine, halved as the distance has it.
pub open spec fn half_comes_back(rules: Rules, angle: Double) -> bool {
    let half = rules.div(angle, rules.count(2));
    let a = rules.square(rules.sin(half));
    &&& rules.atan2(rules.sqrt(a), rules.sqrt(rules.sub(rules.count(1), a))) == half
    &&& rules.mul(rules.count(2), half) == angle
    &&& unsigned_number(a)
}

/// Tells whether arithmetic is exact where one or nothing is multiplied, added or halved,
/// and the sine and cosine of nothing are.
pub open spec fn exact_at_one(rules: Rules) -> bool {
    &&& forall|a: Double| a.finite() ==> #[trigger] rules.sub(a, a) == zero()
    &&& rules.div(zero(), rules.count(2)) == zero()
    &&& rules.sin(zero()) == zero()
    &&& rules.cos(zero()) == rules.count(1)
    &&& rules.radians(zero()) == zero()
    &&& rules.square(zero()) == zero()
    &&& forall|a: Double| unsigned_number(a) ==> #[trigger] rules.add(a, zero()) == a
    &&& forall|a: Double| unsigned_number(a) ==> #[trigger] rules.add(zero(), a) == a
    &&& forall|a: Double| unsigned_number(a) ==> #[trigger] rules.mul(rules.count(1), a) == a
    &&& unsigned_number(rules.count(1))
}

/// Along a meridian, the distance is the angle between the latitudes times the radius of
/// the globe, 6371 kilometres.
pub proof fn lemma_distance_along_a_meridian(rules: Rules, from: Place, to: Place)
    requires
        exact_at_one(rules),
        from.longitude == to.longitude,
        rules.radians(from.longitude).finite(),
        rules.mul(
            rules.mul(
                rules.cos(rules.radians(from.latitude)),
                rules.cos(rules.radians(to.latitude)),
            ),
            zero(),
        ) == zero(),
        half_comes_back(
            rules,
            rules.sub(rules.radians(to.latitude), rules.radians(from.latitude)),
        ),
    ensures
        distance(rules, from, to) == rules.mul(
            rules.count(6371),
            rules.sub(rules.radians(to.latitude), rules.radians(from.latitude)),
        ),
{
    let lon = rules.radians(from.longitude);
    assert(rules.sub(lon, lon) == zero());
}

/// Along the equator, the distance is the angle between the longitudes times the radius of
/// the globe, 6371 kilometres.
pub proof fn lemma_distance_along_the_equator(rules: Rules, from: Place, to: Place)
    requires
        exact_at_one(rules),
        from.latitude == zero(),
        to.latitude == zero(),
        half_comes_back(
            rules,
            rules.sub(rules.radians(to.longitude), rules.radians(from.longitude)),
        ),
    ensures
        distance(rules, from, to) == rules.mul(
            rules.count(6371),
            rules.sub(rules.radians(to.longitude), rules.radians(from.longitude)),
        ),
{
    assert(rules.sub(zero(), zero()) == zero());
    assert(rules.mul(rules.count(1), rules.count(1)) == rules.count(1));
}

/// Tells whether arithmetic keeps the order of whole numbers of steps, and no step leads
/// nowhere.
pub open spec fn steps_in_order(rules: Rules, step: Double) -> bool {
    &&& forall|m: int, n: int|
        -1000 <= m <= n <= 1000 ==> (#[trigger] rules.mul(rules.ratio(m, 1), step)).at_most(
            #[trigger] rules.mul(rules.ratio(n, 1), step),
        )
    &&& forall|a: Double, b: Double, c: Double|
        a.finite() && b.at_most(c) ==> (#[trigger] rules.add(a, b)).at_most(
            #[trigger] rules.add(a, c),
        )
    &&& forall|a: Double|
        a.finite() ==> (#[trigger] rules.add(a, rules.mul(rules.ratio(0, 1), step))).equals(a)
    &&& rules.ratio(-899, 10).at_most(rules.ratio(899, 10))
}

/// Steps to the north do not lead south, and only steps to the north or south change the
/// latitude. Where there are none, it stays as it is, off the poles.
pub proof fn lemma_steps_lead_north(
    rules: Rules,
    from: Place,
    south: int,
    north: int,
    east: int,
    other: int,
    step: Double,
)
    requires
        steps_in_order(rules, step),
        -1000 <= south <= north <= 1000,
        from.latitude.finite(),
    ensures
        moved(rules, from, south, east, step).latitude.at_most(
            moved(rules, from, north, other, step).latitude,
        ),
        moved(rules, from, north, east, step).latitude == moved(
            rules,
            from,
            north,
            other,
            step,
        ).latitude,
        moved(rules, from, north, east, step).longitude == moved(
            rules,
            from,
            south,
            east,
            step,
        ).longitude,
        rules.ratio(-899, 10).at_most(from.latitude) && from.latitude.at_most(
            rules.ratio(899, 10),
        ) ==> moved(rules, from, 0, east, step).latitude.equals(from.latitude),
{
    let a = rules.mul(rules.ratio(south, 1), step);
    let b = rules.mul(rules.ratio(north, 1), step);
    assert(a.at_most(b));
    assert(rules.add(from.latitude, a).at_most(rules.add(from.latitude, b)));
    assert(rules.add(from.latitude, rules.mul(rules.ratio(0, 1), step)).equals(from.latitude));
}

/// Tells whether a number of degrees is one that is counted in whole degrees.
pub open spec fn whole_degrees(n: int) -> bool {
    -1000000 <= n <= 1000000
}

/// Tells whether arithmetic is exact on whole degrees.
pub open spec fn exact_on_degrees(rules: Rules) -> bool {
    &&& forall|n: int|
        whole_degrees(n) ==> #[trigger] rules.add(rules.ratio(n, 1), rules.count(180))
            == rules.ratio(n + 180, 1)
    &&& forall|n: int|
        whole_degrees(n) ==> #[trigger] rules.remainder(rules.ratio(n, 1), rules.count(360))
            == rules.ratio(n % 360, 1)
    &&& forall|n: int|
        whole_degrees(n) ==> #[trigger] rules.sub(rules.ratio(n, 1), rules.count(180))
            == rules.ratio(n - 180, 1)
    &&& forall|m: int, n: int|
        whole_degrees(m) && whole_degrees(n) && m < n ==> (#[trigger] rules.ratio(m, 1)).below(
            #[trigger] rules.ratio(n, 1),
        )
    &&& rules.count(180) == rules.ratio(180, 1)
}

/// A longitude in whole degrees is brought to the same longitude between 180 degrees west,
/// which does not count, and 180 degrees east, which does.
pub proof fn lemma_longitude_is_wrapped(rules: Rules, n: int, same: int)
    requires
        exact_on_degrees(rules),
        -999000 <= n <= 999000,
        -180 < same <= 180,
        (n - same) % 360 == 0,
    ensures
        longitude_within(rules, rules.ratio(n, 1)) == rules.ratio(same, 1),
{
    let turned = rules.ratio(n + 180, 1);
    let r = (n + 180) % 360;
    assert(rules.add(rules.ratio(n, 1), rules.count(180)) == turned);
    assert(rules.remainder(turned, rules.count(360)) == rules.ratio(r, 1));
    assert(rules.sub(rules.ratio(r, 1), rules.count(180)) == rules.ratio(r - 180, 1));
    if r == 0 {
        assert(same == 180);
        assert(rules.ratio(-180, 1).below(rules.ratio(-179, 1)));
    } else {
        assert(same == r - 180);
        assert(rules.ratio(-180, 1).below(rules.ratio(r - 180, 1)));
    }
}

} // verus!
