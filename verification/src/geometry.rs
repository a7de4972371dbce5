//! Places on the globe and the distances between them.

use crate::anchors::{Anchor, AnchorView};
use crate::calc::{Arith, Calc, Rules};
use crate::double::{zero, Double};
use vstd::prelude::*;

verus! {

/// A place, in degrees.
#[derive(Debug, Clone, Copy, PartialEq, Eq, Structural)]
pub struct Place {
    pub latitude: Double,
    pub longitude: Double,
}

/// The square of half the chord between two places, on a globe of radius one.
pub open spec fn half_chord_square(rules: Rules, from: Place, to: Place) -> Double {
    let from_latitude = rules.radians(from.latitude);
    let from_longitude = rules.radians(from.longitude);
    let to_latitude = rules.radians(to.latitude);
    let to_longitude = rules.radians(to.longitude);
    let north = rules.div(rules.sub(to_latitude, from_latitude), rules.count(2));
    let east = rules.div(rules.sub(to_longitude, from_longitude), rules.count(2));
    rules.add(
        rules.square(rules.sin(north)),
        rules.mul(
            rules.mul(rules.cos(from_latitude), rules.cos(to_latitude)),
            rules.square(rules.sin(east)),
        ),
    )
}

/// The distance between two places along the globe, in kilometres.
pub open spec fn distance(rules: Rules, from: Place, to: Place) -> Double {
    let a = half_chord_square(rules, from, to);
    let angle = rules.mul(
        rules.count(2),
        rules.atan2(rules.sqrt(a), rules.sqrt(rules.sub(rules.count(1), a))),
    );
    rules.mul(rules.count(6371), angle)
}

fn half_chord<A: Fn(Calc) -> Double>(from: Place, to: Place, arith: &Arith<A>) -> (a: Double)
    requires
        arith.complete(),
    ensures
        forall|rules: Rules| #[trigger]
            arith.follows(rules) ==> a == half_chord_square(rules, from, to),
{
    let from_latitude = arith.radians(from.latitude);
    let from_longitude = arith.radians(from.longitude);
    let to_latitude = arith.radians(to.latitude);
    let to_longitude = arith.radians(to.longitude);
    let north = arith.div(arith.sub(to_latitude, from_latitude), arith.count(2));
    let east = arith.div(arith.sub(to_longitude, from_longitude), arith.count(2));
    arith.add(
        arith.square(arith.sin(north)),
        arith.mul(
            arith.mul(arith.cos(from_latitude), arith.cos(to_latitude)),
            arith.square(arith.sin(east)),
        ),
    )
}

/// The distance between two places along the globe, in kilometres.
pub fn distance_km<A: Fn(Calc) -> Double>(from: Place, to: Place, arith: &Arith<A>) -> (km: Double)
    requires
        arith.complete(),
    ensures
        forall|rules: Rules| #[trigger]
            arith.follows(rules) ==> km == distance(rules, from, to),
{
    let a = half_chord(from, to, arith);
    let angle = arith.mul(
        arith.count(2),
        arith.atan2(arith.sqrt(a), arith.sqrt(arith.sub(arith.count(1), a))),
    );
    arith.mul(arith.count(6371), angle)
}

/// The distance between two places along the globe, in kilometres.
pub fn haversine_km<A: Fn(Calc) -> Double>(
    lat1: Double,
    lon1: Double,
    lat2: Double,
    lon2: Double,
    arith: &Arith<A>,
) -> (km: Double)
    requires
        arith.complete(),
    ensures
        forall|rules: Rules| #[trigger]
            arith.follows(rules) ==> km == distance(
                rules,
                Place { latitude: lat1, longitude: lon1 },
                Place { latitude: lat2, longitude: lon2 },
            ),
{
    distance_km(
        Place { latitude: lat1, longitude: lon1 },
        Place { latitude: lat2, longitude: lon2 },
        arith,
    )
}

/// The place of an anchor.
pub open spec fn place_of(rules: Rules, anchor: AnchorView) -> Place {
    Place {
        latitude: rules.ratio(anchor.latitude_e4, 10000),
        longitude: rules.ratio(anchor.longitude_e4, 10000),
    }
}

/// The place of an anchor.
pub fn anchor_place<A: Fn(Calc) -> Double>(anchor: &Anchor, arith: &Arith<A>) -> (place: Place)
    requires
        arith.complete(),
    ensures
        forall|rules: Rules| #[trigger] arith.follows(rules) ==> place == place_of(rules, anchor@),
{
    Place {
        latitude: arith.ratio(anchor.latitude_e4, 10000),
        longitude: arith.ratio(anchor.longitude_e4, 10000),
    }
}

/// The distance between a place and an anchor.
pub open spec fn distance_to(rules: Rules, place: Place, anchor: AnchorView) -> Double {
    distance(rules, place, place_of(rules, anchor))
}

/// The distance between a place and an anchor, in kilometres.
pub fn anchor_distance_km<A: Fn(Calc) -> Double>(
    place: Place,
    anchor: &Anchor,
    arith: &Arith<A>,
) -> (km: Double)
    requires
        arith.complete(),
    ensures
        forall|rules: Rules| #[trigger]
            arith.follows(rules) ==> km == distance_to(rules, place, anchor@),
{
    distance_km(place, anchor_place(anchor, arith), arith)
}

/// The nearest latitude that is not too close to a pole.
pub open spec fn latitude_within(rules: Rules, latitude: Double) -> Double {
    latitude.clamped(rules.ratio(-899, 10), rules.ratio(899, 10))
}

/// The longitude that is the same, above half a turn to the west and up to half a
/// turn to the east.
pub open spec fn longitude_within(rules: Rules, longitude: Double) -> Double {
    let wrapped = rules.sub(
        rules.remainder(rules.add(longitude, rules.count(180)), rules.count(360)),
        rules.count(180),
    );
    if wrapped.equals(rules.ratio(-180, 1)) {
        rules.count(180)
    } else {
        wrapped
    }
}

/// The nearest latitude that is not too close to a pole.
pub fn clamp_latitude<A: Fn(Calc) -> Double>(latitude: Double, arith: &Arith<A>) -> (r: Double)
    requires
        arith.complete(),
    ensures
        forall|rules: Rules| #[trigger]
            arith.follows(rules) ==> r == latitude_within(rules, latitude),
{
    latitude.clamp(arith.ratio(-899, 10), arith.ratio(899, 10))
}

/// The longitude that is the same, within half a turn to either side.
pub fn normalize_longitude<A: Fn(Calc) -> Double>(
    longitude: Double,
    arith: &Arith<A>,
) -> (r: Double)
    requires
        arith.complete(),
    ensures
        forall|rules: Rules| #[trigger]
            arith.follows(rules) ==> r == longitude_within(rules, longitude),
{
    let wrapped = arith.sub(
        arith.remainder(arith.add(longitude, arith.count(180)), arith.count(360)),
        arith.count(180),
    );
    if wrapped.is_equal(&arith.ratio(-180, 1)) {
        arith.count(180)
    } else {
        wrapped
    }
}

/// The place that is so many steps to the north and to the east.
pub open spec fn moved(rules: Rules, from: Place, north: int, east: int, step: Double) -> Place {
    Place {
        latitude: latitude_within(
            rules,
            rules.add(from.latitude, rules.mul(rules.ratio(north, 1), step)),
        ),
        longitude: longitude_within(
            rules,
            rules.add(from.longitude, rules.mul(rules.ratio(east, 1), step)),
        ),
    }
}

/// The place that is so many steps to the north and to the east.
pub fn move_place<A: Fn(Calc) -> Double>(
    from: Place,
    north: i32,
    east: i32,
    step: Double,
    arith: &Arith<A>,
) -> (place: Place)
    requires
        arith.complete(),
    ensures
        forall|rules: Rules| #[trigger]
            arith.follows(rules) ==> place == moved(
                rules,
                from,
                north as int,
                east as int,
                step,
            ),
{
    let latitude = arith.add(from.latitude, arith.mul(arith.ratio(north, 1), step));
    let longitude = arith.add(from.longitude, arith.mul(arith.ratio(east, 1), step));
    Place {
        latitude: clamp_latitude(latitude, arith),
        longitude: normalize_longitude(longitude, arith),
    }
}

/// A sum of weighted directions, and the sum of the weights.
#[derive(Debug, Clone, Copy, PartialEq, Eq, Structural)]
pub struct Direction {
    pub x: Double,
    pub y: Double,
    pub z: Double,
    pub total: Double,
}

/// A sum of directions with one more.
pub open spec fn with_direction(
    rules: Rules,
    sum: Direction,
    place: Place,
    weight: Double,
) -> Direction {
    let latitude = rules.radians(place.latitude);
    let longitude = rules.radians(place.longitude);
    let flat = rules.mul(weight, rules.cos(latitude));
    Direction {
        x: rules.add(sum.x, rules.mul(flat, rules.cos(longitude))),
        y: rules.add(sum.y, rules.mul(flat, rules.sin(longitude))),
        z: rules.add(sum.z, rules.mul(weight, rules.sin(latitude))),
        total: rules.add(sum.total, weight),
    }
}

/// The sum of the directions of weighted places.
pub open spec fn directions(rules: Rules, items: Seq<(Place, Double)>) -> Direction
    decreases items.len(),
{
    if items.len() == 0 {
        Direction { x: zero(), y: zero(), z: zero(), total: zero() }
    } else {
        with_direction(
            rules,
            directions(rules, items.drop_last()),
            items.last().0,
            items.last().1,
        )
    }
}

/// The place that a sum of directions points at.
pub open spec fn pointed_at(rules: Rules, sum: Direction) -> Place {
    if sum.total.equals(zero()) {
        Place { latitude: zero(), longitude: zero() }
    } else {
        let x = rules.div(sum.x, sum.total);
        let y = rules.div(sum.y, sum.total);
        let z = rules.div(sum.z, sum.total);
        let flat = rules.sqrt(rules.add(rules.square(x), rules.square(y)));
        Place {
            latitude: rules.degrees(rules.atan2(z, flat)),
            longitude: rules.degrees(rules.atan2(y, x)),
        }
    }
}

/// The centre of weighted places.
pub open spec fn center_of(rules: Rules, items: Seq<(Place, Double)>) -> Place {
    pointed_at(rules, directions(rules, items))
}

fn add_direction<A: Fn(Calc) -> Double>(
    sum: Direction,
    place: Place,
    weight: Double,
    arith: &Arith<A>,
) -> (r: Direction)
    requires
        arith.complete(),
    ensures
        forall|rules: Rules| #[trigger]
            arith.follows(rules) ==> r == with_direction(rules, sum, place, weight),
{
    let latitude = arith.radians(place.latitude);
    let longitude = arith.radians(place.longitude);
    let flat = arith.mul(weight, arith.cos(latitude));
    Direction {
        x: arith.add(sum.x, arith.mul(flat, arith.cos(longitude))),
        y: arith.add(sum.y, arith.mul(flat, arith.sin(longitude))),
        z: arith.add(sum.z, arith.mul(weight, arith.sin(latitude))),
        total: arith.add(sum.total, weight),
    }
}

fn point_at<A: Fn(Calc) -> Double>(sum: Direction, arith: &Arith<A>) -> (place: Place)
    requires
        arith.complete(),
    ensures
        forall|rules: Rules| #[trigger] arith.follows(rules) ==> place == pointed_at(rules, sum),
{
    if sum.total.is_equal(&Double { bits: 0 }) {
        return Place { latitude: Double { bits: 0 }, longitude: Double { bits: 0 } };
    }
    let x = arith.div(sum.x, sum.total);
    let y = arith.div(sum.y, sum.total);
    let z = arith.div(sum.z, sum.total);
    let flat = arith.sqrt(arith.add(arith.square(x), arith.square(y)));
    Place {
        latitude: arith.degrees(arith.atan2(z, flat)),
        longitude: arith.degrees(arith.atan2(y, x)),
    }
}

/// The centre of weighted places.
pub fn weighted_center<A: Fn(Calc) -> Double>(
    items: &Vec<(Place, Double)>,
    arith: &Arith<A>,
) -> (place: Place)
    requires
        arith.complete(),
    ensures
        forall|rules: Rules| #[trigger] arith.follows(rules) ==> place == center_of(rules, items@),
{
    let nothing = Double { bits: 0 };
    let mut sum = Direction { x: nothing, y: nothing, z: nothing, total: nothing };
    let mut i: usize = 0;
    assert(items@.take(0) =~= Seq::<(Place, Double)>::empty());
    while i < items.len()
        invariant
            i <= items@.len(),
            arith.complete(),
            forall|rules: Rules| #[trigger]
                arith.follows(rules) ==> sum == directions(rules, items@.take(i as int)),
        decreases items@.len() - i,
    {
        assert(items@.take(i + 1).drop_last() =~= items@.take(i as int));
        assert(items@.take(i + 1).last() == items@[i as int]);
        sum = add_direction(sum, items[i].0, items[i].1, arith);
        i = i + 1;
    }
    assert(items@.take(items@.len() as int) =~= items@);
    point_at(sum, arith)
}

} // verus!
