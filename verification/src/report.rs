//! The report of a run, line by line. Numbers are written by a function of the
//! caller's, which is told how many decimals to write.

use crate::anchors::{
    anchor_label, anchor_list, anchor_views, builtin_anchors, Anchor, AnchorView,
};
use crate::calc::{Arith, Calc, Rules};
use crate::double::{nothing, shows_as, writes_all, zero, Double};
use crate::geometry::{anchor_distance_km, distance_to, Place};
use crate::posterior::{number_values, numbered_values};
use crate::probe::{
    measurement_views, method_name, reach_km, HopView, LocalFloorView, LocalRttFloor, Measurement,
    MeasurementView, TraceHop,
};
use crate::ranking::{ascending, lemma_ascending_members, lemma_ascending_orders, rank};
use crate::rounds::maybe_floor;
use crate::solver::{
    maybe_estimate, maybe_hint, Estimate, EstimateView, EvaluatedConstraint, EvaluatedHint,
    EvaluatedHintView,
};
use crate::text::{
    decimal, decimal_text, join, join_strings, push_string, push_strings, same, strings,
};
use vstd::prelude::*;
use vstd::string::*;

verus! {

/// What `show` writes, between two texts.
fn phrase<S: Fn(Double, u8) -> String>(
    before: &str,
    value: Double,
    decimals: u8,
    after: &str,
    show: &S,
) -> (text: String)
    requires
        writes_all(*show),
    ensures
        forall|written: spec_fn(Double, u8) -> Seq<char>| #[trigger]
            shows_as(*show, written) ==> text@ == before@ + written(value, decimals) + after@,
{
    let number = show(value, decimals);
    let mut text = before.to_owned();
    text.append(number.as_str());
    text.append(after);
    text
}

/// What `show` writes, behind a text.
fn ended<S: Fn(Double, u8) -> String>(
    before: &str,
    value: Double,
    decimals: u8,
    show: &S,
) -> (text: String)
    requires
        writes_all(*show),
    ensures
        forall|written: spec_fn(Double, u8) -> Seq<char>| #[trigger]
            shows_as(*show, written) ==> text@ == before@ + written(value, decimals),
{
    let number = show(value, decimals);
    let mut text = before.to_owned();
    text.append(number.as_str());
    text
}

/// The lines on how the local network was calibrated.
pub open spec fn calibration_lines(
    written: spec_fn(Double, u8) -> Seq<char>,
    floor: LocalFloorView,
    shared_rtt_floor_ms: Double,
    tcp_bias_ms: Double,
    cached_anchor_count: nat,
) -> Seq<Seq<char>> {
    let floor_lines = seq![
        "Calibration:"@,
        "  local RTT floor: "@ + written(floor.min_ms, 2) + " ms via "@ + floor.target + " ("@
            + floor.source + ")"@,
        "  shared floor used in bounds: "@ + written(shared_rtt_floor_ms, 2) + " ms"@,
    ];
    let bias_lines = if zero().below(tcp_bias_ms) {
        floor_lines.push("  TCP handshake bias correction: "@ + written(tcp_bias_ms, 2) + " ms"@)
    } else {
        floor_lines
    };
    let cache_lines = if cached_anchor_count > 0 {
        bias_lines.push("  historical anchor floors loaded: "@ + decimal(cached_anchor_count))
    } else {
        bias_lines
    };
    cache_lines.push(""@)
}

fn describe_calibration<S: Fn(Double, u8) -> String>(
    floor: &LocalRttFloor,
    shared_rtt_floor_ms: Double,
    tcp_bias_ms: Double,
    cached_anchor_count: usize,
    show: &S,
) -> (lines: Vec<String>)
    requires
        writes_all(*show),
    ensures
        forall|written: spec_fn(Double, u8) -> Seq<char>| #[trigger]
            shows_as(*show, written) ==> strings(lines@) == calibration_lines(
                written,
                floor@,
                shared_rtt_floor_ms,
                tcp_bias_ms,
                cached_anchor_count as nat,
            ),
{
    let mut lines: Vec<String> = Vec::new();
    assert(strings(lines@) =~= Seq::<Seq<char>>::empty());
    push_string(&mut lines, "Calibration:".to_owned());
    let mut line = phrase("  local RTT floor: ", floor.min_ms, 2, " ms via ", show);
    line.append(floor.target.as_str());
    line.append(" (");
    line.append(floor.source.as_str());
    line.append(")");
    push_string(&mut lines, line);
    push_string(
        &mut lines,
        phrase("  shared floor used in bounds: ", shared_rtt_floor_ms, 2, " ms", show),
    );
    if nothing().is_below(&tcp_bias_ms) {
        push_string(
            &mut lines,
            phrase("  TCP handshake bias correction: ", tcp_bias_ms, 2, " ms", show),
        );
    }
    if cached_anchor_count > 0 {
        let mut line = "  historical anchor floors loaded: ".to_owned();
        let count = decimal_text(cached_anchor_count as u64);
        line.append(count.as_str());
        push_string(&mut lines, line);
    }
    push_string(&mut lines, "".to_owned());
    assert forall|written: spec_fn(Double, u8) -> Seq<char>| #[trigger]
        shows_as(*show, written) implies strings(lines@) == calibration_lines(
        written,
        floor@,
        shared_rtt_floor_ms,
        tcp_bias_ms,
        cached_anchor_count as nat,
    ) by {
        assert(strings(lines@) =~= calibration_lines(
            written,
            floor@,
            shared_rtt_floor_ms,
            tcp_bias_ms,
            cached_anchor_count as nat,
        ));
    }
    lines
}

/// The position of the first of the lowest values.
pub open spec fn lowest(values: Seq<Double>) -> Option<int>
    decreases values.len(),
{
    if values.len() == 0 {
        None
    } else {
        match lowest(values.drop_last()) {
            Some(at) => if values.last().total_place() < values[at].total_place() {
                Some(values.len() - 1)
            } else {
                Some(at)
            },
            None => Some(0int),
        }
    }
}

/// The position of the first of the lowest values.
fn position_of_lowest(values: &Vec<Double>) -> (at: Option<usize>)
    ensures
        match at {
            Some(i) => i < values@.len() && lowest(values@) == Some(i as int),
            None => values@.len() == 0,
        },
{
    let mut best: Option<usize> = None;
    let mut i: usize = 0;
    assert(values@.take(0) =~= Seq::<Double>::empty());
    while i < values.len()
        invariant
            i <= values@.len(),
            match best {
                Some(at) => at < i && lowest(values@.take(i as int)) == Some(at as int),
                None => i == 0,
            },
        decreases values@.len() - i,
    {
        assert(values@.take(i + 1).drop_last() =~= values@.take(i as int));
        assert(values@.take(i + 1).last() == values@[i as int]);
        let replace = match best {
            Some(at) => values[at].is_after(&values[i]),
            None => true,
        };
        if replace {
            best = Some(i);
        }
        i = i + 1;
    }
    assert(values@.take(values@.len() as int) =~= values@);
    best
}

/// The bounds of evaluated constraints.
pub open spec fn bounds_of(constraints: Seq<EvaluatedConstraint>) -> Seq<Double> {
    Seq::new(constraints.len(), |i: int| constraints[i].upper_bound_km)
}

/// The greatest overflow of evaluated constraints.
pub open spec fn worst_overflow(constraints: Seq<EvaluatedConstraint>) -> Double
    decreases constraints.len(),
{
    if constraints.len() == 0 {
        zero()
    } else {
        worst_overflow(constraints.drop_last()).greater(constraints.last().overflow_km)
    }
}

fn collect_bounds(constraints: &Vec<EvaluatedConstraint>) -> (values: Vec<Double>)
    ensures
        values@ == bounds_of(constraints@),
{
    let mut values: Vec<Double> = Vec::new();
    let mut i: usize = 0;
    while i < constraints.len()
        invariant
            i <= constraints@.len(),
            values@ == bounds_of(constraints@).take(i as int),
        decreases constraints@.len() - i,
    {
        values.push(constraints[i].upper_bound_km);
        i = i + 1;
        assert(values@ =~= bounds_of(constraints@).take(i as int));
    }
    assert(values@ =~= bounds_of(constraints@));
    values
}

/// The distances of anchors from a place.
pub open spec fn anchor_distances(rules: Rules, place: Place, anchors: Seq<AnchorView>) -> Seq<
    Double,
> {
    Seq::new(anchors.len(), |i: int| distance_to(rules, place, anchors[i]))
}

fn measure_anchors<A: Fn(Calc) -> Double>(
    place: Place,
    anchors: &Vec<Anchor>,
    arith: &Arith<A>,
) -> (distances: Vec<Double>)
    requires
        arith.complete(),
    ensures
        distances@.len() == anchors@.len(),
        forall|rules: Rules| #[trigger]
            arith.follows(rules) ==> distances@ == anchor_distances(
                rules,
                place,
                anchor_views(anchors@),
            ),
{
    let ghost all = anchor_views(anchors@);
    let mut distances: Vec<Double> = Vec::new();
    let mut i: usize = 0;
    while i < anchors.len()
        invariant
            arith.complete(),
            all == anchor_views(anchors@),
            i <= anchors@.len(),
            distances@.len() == i,
            forall|rules: Rules, j: int|
                #![trigger arith.follows(rules), distances@[j]]
                arith.follows(rules) && 0 <= j < i ==> distances@[j] == distance_to(
                    rules,
                    place,
                    all[j],
                ),
        decreases anchors@.len() - i,
    {
        assert(all[i as int] == anchors@[i as int]@);
        distances.push(anchor_distance_km(place, &anchors[i], arith));
        i = i + 1;
    }
    assert forall|rules: Rules| #[trigger] arith.follows(rules) implies distances@
        == anchor_distances(rules, place, all) by {
        assert(distances@ =~= anchor_distances(rules, place, all));
    }
    distances
}

/// An anchor and how far it is.
pub struct Nearest {
    pub anchor: Anchor,
    pub distance_km: Double,
}

/// What a `Nearest` stands for.
#[verifier::ext_equal]
pub struct NearestView {
    pub anchor: AnchorView,
    pub distance_km: Double,
}

impl View for Nearest {
    type V = NearestView;

    open spec fn view(&self) -> NearestView {
        NearestView { anchor: self.anchor@, distance_km: self.distance_km }
    }
}

/// The anchor that is nearest to a place, and how far it is.
pub open spec fn nearest_to(
    rules: Rules,
    place: Place,
    anchors: Seq<AnchorView>,
) -> Option<NearestView> {
    let distances = anchor_distances(rules, place, anchors);
    match lowest(distances) {
        Some(at) => Some(NearestView { anchor: anchors[at], distance_km: distances[at] }),
        None => None,
    }
}

/// What the nearest anchor stands for, if there is one.
pub open spec fn maybe_nearest(nearest: Option<Nearest>) -> Option<NearestView> {
    match nearest {
        Some(found) => Some(found@),
        None => None,
    }
}

/// The built-in anchor that is nearest to a place.
pub fn nearest_anchor<A: Fn(Calc) -> Double>(
    place: Place,
    arith: &Arith<A>,
) -> (nearest: Option<Nearest>)
    requires
        arith.complete(),
    ensures
        forall|rules: Rules| #[trigger]
            arith.follows(rules) ==> maybe_nearest(nearest) == nearest_to(
                rules,
                place,
                anchor_list(),
            ),
{
    let anchors = builtin_anchors();
    let distances = measure_anchors(place, &anchors, arith);
    assert(anchor_list().len() == anchors@.len());
    match position_of_lowest(&distances) {
        Some(at) => {
            assert(anchor_list()[at as int] == anchors@[at as int]@);
            Some(Nearest { anchor: anchors[at], distance_km: distances[at] })
        },
        None => None,
    }
}

fn find_worst_overflow(constraints: &Vec<EvaluatedConstraint>) -> (worst: Double)
    ensures
        worst == worst_overflow(constraints@),
{
    let mut worst = nothing();
    let mut i: usize = 0;
    assert(constraints@.take(0) =~= Seq::<EvaluatedConstraint>::empty());
    while i < constraints.len()
        invariant
            i <= constraints@.len(),
            worst == worst_overflow(constraints@.take(i as int)),
        decreases constraints@.len() - i,
    {
        assert(constraints@.take(i + 1).drop_last() =~= constraints@.take(i as int));
        assert(constraints@.take(i + 1).last() == constraints@[i as int]);
        worst = worst.max(constraints[i].overflow_km);
        i = i + 1;
    }
    assert(constraints@.take(constraints@.len() as int) =~= constraints@);
    worst
}

/// The line on the posterior mode, if it can be told from the centre.
pub open spec fn mode_lines(
    written: spec_fn(Double, u8) -> Seq<char>,
    estimate: EstimateView,
) -> Seq<Seq<char>> {
    if written(estimate.mode.latitude, 4) == written(estimate.center.latitude, 4) && written(
        estimate.mode.longitude,
        4,
    ) == written(estimate.center.longitude, 4) {
        Seq::<Seq<char>>::empty()
    } else {
        seq![
            "  posterior mode: "@ + written(estimate.mode.latitude, 4) + ", "@ + written(
                estimate.mode.longitude,
                4,
            ) + " (score "@ + written(estimate.mode_score, 3) + ")"@,
        ]
    }
}

/// The line on the nearest anchor.
pub open spec fn nearest_lines(
    written: spec_fn(Double, u8) -> Seq<char>,
    nearest: Option<NearestView>,
) -> Seq<Seq<char>> {
    match nearest {
        Some(found) => seq![
            "  nearest bundled metro: "@ + anchor_label(found.anchor) + " ("@ + written(
                found.distance_km,
                0,
            ) + " km)"@,
        ],
        None => Seq::<Seq<char>>::empty(),
    }
}

/// The line on the tightest bound.
pub open spec fn tightest_lines(
    written: spec_fn(Double, u8) -> Seq<char>,
    constraints: Seq<EvaluatedConstraint>,
) -> Seq<Seq<char>> {
    match lowest(bounds_of(constraints)) {
        Some(at) => seq![
            "  tightest bound: "@ + anchor_label(constraints[at].anchor@) + " <= "@ + written(
                constraints[at].upper_bound_km,
                0,
            ) + " km"@,
        ],
        None => Seq::<Seq<char>>::empty(),
    }
}

/// The line on the hub that explains the times best.
pub open spec fn hub_lines(
    written: spec_fn(Double, u8) -> Seq<char>,
    hint: Option<EvaluatedHintView>,
) -> Seq<Seq<char>> {
    match hint {
        Some(hub) => seq![
            "  dominant corridor hub: "@ + anchor_label(hub.anchor) + " ("@ + written(
                hub.distance_km,
                0,
            ) + " km)"@,
        ],
        None => Seq::<Seq<char>>::empty(),
    }
}

/// The warning that there are too few anchors.
pub open spec fn warning_lines(n: nat) -> Seq<Seq<char>> {
    if n < 3 {
        seq!["  warning: geometry is underdetermined with fewer than 3 anchors"@]
    } else {
        Seq::<Seq<char>>::empty()
    }
}

/// The lines on the centre of an estimate.
pub open spec fn center_lines(
    written: spec_fn(Double, u8) -> Seq<char>,
    estimate: EstimateView,
) -> Seq<Seq<char>> {
    seq![
        "Estimate:"@,
        "  latitude:  "@ + written(estimate.center.latitude, 4),
        "  longitude: "@ + written(estimate.center.longitude, 4),
    ]
}

/// The lines on how well an estimate fits.
pub open spec fn score_lines(
    written: spec_fn(Double, u8) -> Seq<char>,
    estimate: EstimateView,
) -> Seq<Seq<char>> {
    seq![
        "  solver score: "@ + written(estimate.score, 3),
        "  fitted base overhead: "@ + written(estimate.fitted_overhead_ms, 2) + " ms"@,
        "  fitted effective speed: "@ + written(estimate.fitted_km_per_ms, 1) + " km/ms"@,
        "  weighted RTT residual: "@ + written(estimate.weighted_rmse_ms, 2) + " ms"@,
        "  confidence radius: "@ + written(estimate.confidence_radius_km, 1) + " km"@,
    ]
}

/// The lines on an estimate.
pub open spec fn estimate_lines(
    rules: Rules,
    written: spec_fn(Double, u8) -> Seq<char>,
    estimate: EstimateView,
) -> Seq<Seq<char>> {
    center_lines(written, estimate) + mode_lines(written, estimate) + seq![
        "  anchors used: "@ + decimal(estimate.constraints.len()),
    ] + nearest_lines(written, nearest_to(rules, estimate.center, anchor_list()))
        + tightest_lines(written, estimate.constraints) + score_lines(written, estimate)
        + hub_lines(written, estimate.dominant_corridor_hint) + seq![
        "  max constraint overflow: "@ + written(worst_overflow(estimate.constraints), 1)
            + " km"@,
    ] + warning_lines(estimate.constraints.len()) + seq![""@]
}

fn push_mode<S: Fn(Double, u8) -> String>(
    lines: &mut Vec<String>,
    estimate: &Estimate,
    show: &S,
)
    requires
        writes_all(*show),
    ensures
        forall|written: spec_fn(Double, u8) -> Seq<char>| #[trigger]
            shows_as(*show, written) ==> strings(final(lines)@) == strings(old(lines)@)
                + mode_lines(written, estimate@),
{
    let ghost before = strings(lines@);
    let latitude = show(estimate.mode_latitude, 4);
    let longitude = show(estimate.mode_longitude, 4);
    let center_latitude = show(estimate.latitude, 4);
    let center_longitude = show(estimate.longitude, 4);
    if !same(latitude.as_str(), center_latitude.as_str()) || !same(
        longitude.as_str(),
        center_longitude.as_str(),
    ) {
        let mut line = "  posterior mode: ".to_owned();
        line.append(latitude.as_str());
        line.append(", ");
        line.append(longitude.as_str());
        line.append(" (score ");
        let score = show(estimate.mode_score, 3);
        line.append(score.as_str());
        line.append(")");
        push_string(lines, line);
    }
    assert forall|written: spec_fn(Double, u8) -> Seq<char>| #[trigger]
        shows_as(*show, written) implies strings(lines@) == before
        + mode_lines(written, estimate@) by {
        assert(strings(lines@) =~= before + mode_lines(written, estimate@));
    }
}

fn push_nearest<S: Fn(Double, u8) -> String>(
    lines: &mut Vec<String>,
    nearest: &Option<Nearest>,
    show: &S,
)
    requires
        writes_all(*show),
    ensures
        forall|written: spec_fn(Double, u8) -> Seq<char>| #[trigger]
            shows_as(*show, written) ==> strings(final(lines)@) == strings(old(lines)@)
                + nearest_lines(written, maybe_nearest(*nearest)),
{
    let ghost before = strings(lines@);
    if let Some(found) = nearest {
        let label = found.anchor.label();
        let mut line = "  nearest bundled metro: ".to_owned();
        line.append(label.as_str());
        let distance = phrase(" (", found.distance_km, 0, " km)", show);
        line.append(distance.as_str());
        push_string(lines, line);
    }
    assert forall|written: spec_fn(Double, u8) -> Seq<char>| #[trigger]
        shows_as(*show, written) implies strings(lines@) == before
        + nearest_lines(written, maybe_nearest(*nearest)) by {
        if let Some(found) = nearest {
            let head = "  nearest bundled metro: "@ + anchor_label(found.anchor@);
            let number = written(found.distance_km, 0);
            assert(head + (" ("@ + number + " km)"@) =~= head + " ("@ + number + " km)"@);
        }
        assert(strings(lines@) =~= before + nearest_lines(written, maybe_nearest(*nearest)));
    }
}

fn push_tightest<S: Fn(Double, u8) -> String>(
    lines: &mut Vec<String>,
    constraints: &Vec<EvaluatedConstraint>,
    show: &S,
)
    requires
        writes_all(*show),
    ensures
        forall|written: spec_fn(Double, u8) -> Seq<char>| #[trigger]
            shows_as(*show, written) ==> strings(final(lines)@) == strings(old(lines)@)
                + tightest_lines(written, constraints@),
{
    let ghost before = strings(lines@);
    let bounds = collect_bounds(constraints);
    match position_of_lowest(&bounds) {
        Some(at) => {
            let tightest = constraints[at];
            let mut line = "  tightest bound: ".to_owned();
            let label = tightest.anchor.label();
            let bound = show(tightest.upper_bound_km, 0);
            line.append(label.as_str());
            line.append(" <= ");
            line.append(bound.as_str());
            line.append(" km");
            push_string(lines, line);
        },
        None => {},
    }
    assert forall|written: spec_fn(Double, u8) -> Seq<char>| #[trigger]
        shows_as(*show, written) implies strings(lines@) == before
        + tightest_lines(written, constraints@) by {
        assert(strings(lines@) =~= before + tightest_lines(written, constraints@));
    }
}

fn push_hub<S: Fn(Double, u8) -> String>(
    lines: &mut Vec<String>,
    hint: &Option<EvaluatedHint>,
    show: &S,
)
    requires
        writes_all(*show),
    ensures
        forall|written: spec_fn(Double, u8) -> Seq<char>| #[trigger]
            shows_as(*show, written) ==> strings(final(lines)@) == strings(old(lines)@)
                + hub_lines(written, maybe_hint(*hint)),
{
    let ghost before = strings(lines@);
    match hint {
        Some(hub) => {
            let mut line = "  dominant corridor hub: ".to_owned();
            let label = hub.anchor.label();
            let distance = show(hub.distance_km, 0);
            line.append(label.as_str());
            line.append(" (");
            line.append(distance.as_str());
            line.append(" km)");
            push_string(lines, line);
        },
        None => {},
    }
    assert forall|written: spec_fn(Double, u8) -> Seq<char>| #[trigger]
        shows_as(*show, written) implies strings(lines@) == before
        + hub_lines(written, maybe_hint(*hint)) by {
        assert(strings(lines@) =~= before + hub_lines(written, maybe_hint(*hint)));
    }
}

fn push_fit<S: Fn(Double, u8) -> String>(lines: &mut Vec<String>, estimate: &Estimate, show: &S)
    requires
        writes_all(*show),
    ensures
        forall|written: spec_fn(Double, u8) -> Seq<char>| #[trigger]
            shows_as(*show, written) ==> strings(final(lines)@) == strings(old(lines)@)
                + score_lines(written, estimate@),
{
    let ghost before = strings(lines@);
    push_string(lines, ended("  solver score: ", estimate.score, 3, show));
    push_string(
        lines,
        phrase("  fitted base overhead: ", estimate.fitted_overhead_ms, 2, " ms", show),
    );
    push_string(
        lines,
        phrase("  fitted effective speed: ", estimate.fitted_km_per_ms, 1, " km/ms", show),
    );
    push_string(
        lines,
        phrase("  weighted RTT residual: ", estimate.weighted_rmse_ms, 2, " ms", show),
    );
    push_string(
        lines,
        phrase("  confidence radius: ", estimate.confidence_radius_km, 1, " km", show),
    );
    assert forall|written: spec_fn(Double, u8) -> Seq<char>| #[trigger]
        shows_as(*show, written) implies strings(lines@) == before + score_lines(
        written,
        estimate@,
    ) by {
        assert(strings(lines@) =~= before + score_lines(written, estimate@));
    }
}

fn describe_estimate<A: Fn(Calc) -> Double, S: Fn(Double, u8) -> String>(
    estimate: &Estimate,
    arith: &Arith<A>,
    show: &S,
) -> (lines: Vec<String>)
    requires
        arith.complete(),
        writes_all(*show),
    ensures
        forall|rules: Rules, written: spec_fn(Double, u8) -> Seq<char>|
            #![trigger arith.follows(rules), shows_as(*show, written)]
            arith.follows(rules) && shows_as(*show, written) ==> strings(lines@) == estimate_lines(
                rules,
                written,
                estimate@,
            ),
{
    let mut lines: Vec<String> = Vec::new();
    assert(strings(lines@) =~= Seq::<Seq<char>>::empty());
    push_string(&mut lines, "Estimate:".to_owned());
    push_string(&mut lines, ended("  latitude:  ", estimate.latitude, 4, show));
    push_string(&mut lines, ended("  longitude: ", estimate.longitude, 4, show));
    assert forall|written: spec_fn(Double, u8) -> Seq<char>| #[trigger]
        shows_as(*show, written) implies strings(lines@) == center_lines(written, estimate@) by {
        assert(strings(lines@) =~= center_lines(written, estimate@));
    }
    push_mode(&mut lines, estimate, show);
    let mut used = "  anchors used: ".to_owned();
    let count = decimal_text(estimate.constraints.len() as u64);
    used.append(count.as_str());
    let ghost used_line = used@;
    let ghost now = strings(lines@);
    push_string(&mut lines, used);
    assert(strings(lines@) =~= now + seq![used_line]);
    let place = Place { latitude: estimate.latitude, longitude: estimate.longitude };
    let nearest = nearest_anchor(place, arith);
    push_nearest(&mut lines, &nearest, show);
    push_tightest(&mut lines, &estimate.constraints, show);
    push_fit(&mut lines, estimate, show);
    push_hub(&mut lines, &estimate.dominant_corridor_hint, show);
    let worst = find_worst_overflow(&estimate.constraints);
    let overflow = phrase("  max constraint overflow: ", worst, 1, " km", show);
    let ghost overflow_line = overflow@;
    let ghost now = strings(lines@);
    push_string(&mut lines, overflow);
    assert(strings(lines@) =~= now + seq![overflow_line]);
    let ghost now = strings(lines@);
    if estimate.constraints.len() < 3 {
        push_string(
            &mut lines,
            "  warning: geometry is underdetermined with fewer than 3 anchors".to_owned(),
        );
    }
    assert(strings(lines@) =~= now + warning_lines(estimate@.constraints.len()));
    let ghost now = strings(lines@);
    push_string(&mut lines, "".to_owned());
    assert(strings(lines@) =~= now + seq![""@]);
    lines
}

/// What a hop is called: by its name, its address, or a star.
pub open spec fn hop_name(hop: HopView) -> Seq<char> {
    match (hop.hostname, hop.address) {
        (Some(hostname), _) => hostname,
        (None, Some(address)) => address,
        (None, None) => "*"@,
    }
}

/// The address of a hop that is called by its name.
pub open spec fn hop_address(hop: HopView) -> Seq<char> {
    match (hop.hostname, hop.address) {
        (Some(_), Some(address)) => " ["@ + address + "]"@,
        _ => Seq::<char>::empty(),
    }
}

/// The time of a hop, or a question mark.
pub open spec fn hop_time(written: spec_fn(Double, u8) -> Seq<char>, hop: HopView) -> Seq<char> {
    match hop.rtt_ms {
        Some(time) => written(time, 2) + "ms"@,
        None => "?"@,
    }
}

/// The note on a hop, unless it only says that there was no reply.
pub open spec fn hop_note(hop: HopView) -> Seq<char> {
    match hop.note {
        Some(note) => if note == "no reply"@ {
            Seq::<char>::empty()
        } else {
            " "@ + note
        },
        None => Seq::<char>::empty(),
    }
}

/// How a hop is written.
pub open spec fn hop_text(written: spec_fn(Double, u8) -> Seq<char>, hop: HopView) -> Seq<char> {
    decimal(hop.hop as nat) + ":"@ + hop_name(hop) + hop_address(hop) + " "@ + hop_time(
        written,
        hop,
    ) + hop_note(hop)
}

fn append_hop_name(text: &mut String, hop: &TraceHop)
    ensures
        final(text)@ == old(text)@ + hop_name(hop@) + hop_address(hop@),
{
    match (&hop.hostname, &hop.address) {
        (Some(hostname), Some(address)) => {
            let ghost before = text@;
            text.append(hostname.as_str());
            text.append(" [");
            text.append(address.as_str());
            text.append("]");
            assert(text@ =~= before + hop_name(hop@) + hop_address(hop@));
        },
        (Some(hostname), None) => {
            let ghost before = text@;
            text.append(hostname.as_str());
            assert(text@ =~= before + hop_name(hop@) + hop_address(hop@));
        },
        (None, Some(address)) => {
            let ghost before = text@;
            text.append(address.as_str());
            assert(text@ =~= before + hop_name(hop@) + hop_address(hop@));
        },
        (None, None) => {
            let ghost before = text@;
            text.append("*");
            assert(text@ =~= before + hop_name(hop@) + hop_address(hop@));
        },
    }
}

fn append_hop_note(text: &mut String, hop: &TraceHop)
    ensures
        final(text)@ == old(text)@ + hop_note(hop@),
{
    let ghost before = text@;
    match &hop.note {
        Some(note) => {
            if !same(note.as_str(), "no reply") {
                text.append(" ");
                text.append(note.as_str());
            }
        },
        None => {},
    }
    assert(text@ =~= before + hop_note(hop@));
}

/// How a hop is written.
pub fn describe_hop<S: Fn(Double, u8) -> String>(hop: &TraceHop, show: &S) -> (text: String)
    requires
        writes_all(*show),
    ensures
        forall|written: spec_fn(Double, u8) -> Seq<char>| #[trigger]
            shows_as(*show, written) ==> text@ == hop_text(written, hop@),
{
    let mut text = decimal_text(hop.hop as u64);
    text.append(":");
    append_hop_name(&mut text, hop);
    text.append(" ");
    match hop.rtt_ms {
        Some(time) => {
            let ghost before = text@;
            let number = show(time, 2);
            text.append(number.as_str());
            text.append("ms");
            assert(text@ =~= before + (number@ + "ms"@));
        },
        None => {
            text.append("?");
        },
    }
    append_hop_note(&mut text, hop);
    text
}

/// How the hops of a route are written.
pub open spec fn hop_texts(
    written: spec_fn(Double, u8) -> Seq<char>,
    hops: Seq<HopView>,
) -> Seq<Seq<char>> {
    Seq::new(hops.len(), |i: int| hop_text(written, hops[i]))
}

fn describe_route<S: Fn(Double, u8) -> String>(hops: &Vec<TraceHop>, show: &S) -> (text: String)
    requires
        writes_all(*show),
    ensures
        forall|written: spec_fn(Double, u8) -> Seq<char>| #[trigger]
            shows_as(*show, written) ==> text@ == join(
                hop_texts(written, crate::probe::hop_views(hops@)),
                " | "@,
            ),
{
    let ghost all = crate::probe::hop_views(hops@);
    let mut parts: Vec<String> = Vec::new();
    let mut i: usize = 0;
    while i < hops.len()
        invariant
            writes_all(*show),
            all == crate::probe::hop_views(hops@),
            i <= hops@.len(),
            parts@.len() == i,
            forall|written: spec_fn(Double, u8) -> Seq<char>, j: int|
                #![trigger shows_as(*show, written), parts@[j]]
                shows_as(*show, written) && 0 <= j < i ==> parts@[j]@ == hop_text(written, all[j]),
        decreases hops@.len() - i,
    {
        parts.push(describe_hop(&hops[i], show));
        i = i + 1;
    }
    assert forall|written: spec_fn(Double, u8) -> Seq<char>| #[trigger]
        shows_as(*show, written) implies strings(parts@) == hop_texts(written, all) by {
        assert(strings(parts@) =~= hop_texts(written, all));
    }
    join_strings(&parts, " | ")
}

/// The line on the times of a measurement.
pub open spec fn ping_line(
    rules: Rules,
    written: spec_fn(Double, u8) -> Seq<char>,
    measurement: MeasurementView,
    km_per_ms: Double,
) -> Seq<char> {
    let head = "  "@ + anchor_label(measurement.anchor) + " ["@ + measurement.anchor.host;
    match measurement.ping {
        Some(ping) => head + "] "@ + method_name(ping.method) + " "@ + (
        match measurement.resolved_ip {
            Some(ip) => ip,
            None => "unresolved"@,
        }) + " min="@ + written(ping.min_ms, 2) + "ms avg="@ + written(ping.avg_ms, 2) + "ms max="@
            + written(ping.max_ms, 2) + "ms mdev="@ + written(ping.mdev_ms, 2) + "ms <= "@
            + written(reach_km(rules, ping, km_per_ms), 0) + " km"@,
        None => head + "] no usable ping sample"@,
    }
}

fn describe_ping<A: Fn(Calc) -> Double, S: Fn(Double, u8) -> String>(
    measurement: &Measurement,
    km_per_ms: Double,
    arith: &Arith<A>,
    show: &S,
) -> (line: String)
    requires
        arith.complete(),
        writes_all(*show),
    ensures
        forall|rules: Rules, written: spec_fn(Double, u8) -> Seq<char>|
            #![trigger arith.follows(rules), shows_as(*show, written)]
            arith.follows(rules) && shows_as(*show, written) ==> line@ == ping_line(
                rules,
                written,
                measurement@,
                km_per_ms,
            ),
{
    let label = measurement.anchor.label();
    let mut line = "  ".to_owned();
    line.append(label.as_str());
    line.append(" [");
    line.append(measurement.anchor.host);
    match &measurement.ping {
        Some(ping) => {
            let method = ping.method.label();
            let min = show(ping.min_ms, 2);
            let avg = show(ping.avg_ms, 2);
            let max = show(ping.max_ms, 2);
            let mdev = show(ping.mdev_ms, 2);
            let reach = show(ping.upper_bound_km(km_per_ms, arith), 0);
            line.append("] ");
            line.append(method.as_str());
            line.append(" ");
            match &measurement.resolved_ip {
                Some(ip) => {
                    line.append(ip.as_str());
                },
                None => {
                    line.append("unresolved");
                },
            }
            line.append(" min=");
            line.append(min.as_str());
            line.append("ms avg=");
            line.append(avg.as_str());
            line.append("ms max=");
            line.append(max.as_str());
            line.append("ms mdev=");
            line.append(mdev.as_str());
            line.append("ms <= ");
            line.append(reach.as_str());
            line.append(" km");
        },
        None => {
            line.append("] no usable ping sample");
        },
    }
    line
}

/// The lines with the notes on a measurement.
pub open spec fn note_lines(notes: Seq<Seq<char>>) -> Seq<Seq<char>> {
    Seq::new(notes.len(), |i: int| "    note: "@ + notes[i])
}

/// The line on the traced route of a measurement, if there is one.
pub open spec fn route_lines(
    written: spec_fn(Double, u8) -> Seq<char>,
    trace: Option<Seq<HopView>>,
) -> Seq<Seq<char>> {
    match trace {
        Some(hops) => seq!["    trace: "@ + join(hop_texts(written, hops), " | "@)],
        None => Seq::<Seq<char>>::empty(),
    }
}

/// The lines on a measurement.
pub open spec fn measurement_lines(
    rules: Rules,
    written: spec_fn(Double, u8) -> Seq<char>,
    measurement: MeasurementView,
    km_per_ms: Double,
) -> Seq<Seq<char>> {
    seq![ping_line(rules, written, measurement, km_per_ms)] + route_lines(
        written,
        measurement.trace,
    ) + note_lines(measurement.notes)
}

fn push_notes(lines: &mut Vec<String>, notes: &Vec<String>)
    ensures
        strings(final(lines)@) == strings(old(lines)@) + note_lines(strings(notes@)),
{
    let ghost before = strings(lines@);
    let ghost all = note_lines(strings(notes@));
    let mut i: usize = 0;
    assert(before + all.take(0) =~= before);
    while i < notes.len()
        invariant
            all == note_lines(strings(notes@)),
            i <= notes@.len(),
            strings(lines@) == before + all.take(i as int),
        decreases notes@.len() - i,
    {
        let mut line = "    note: ".to_owned();
        line.append(notes[i].as_str());
        push_string(lines, line);
        i = i + 1;
        assert(strings(lines@) =~= before + all.take(i as int));
    }
    assert(all.take(notes@.len() as int) =~= all);
}

fn push_measurement<A: Fn(Calc) -> Double, S: Fn(Double, u8) -> String>(
    lines: &mut Vec<String>,
    measurement: &Measurement,
    km_per_ms: Double,
    arith: &Arith<A>,
    show: &S,
)
    requires
        arith.complete(),
        writes_all(*show),
    ensures
        forall|rules: Rules, written: spec_fn(Double, u8) -> Seq<char>|
            #![trigger arith.follows(rules), shows_as(*show, written)]
            arith.follows(rules) && shows_as(*show, written) ==> strings(final(lines)@) == strings(
                old(lines)@,
            ) + measurement_lines(rules, written, measurement@, km_per_ms),
{
    let ghost before = strings(lines@);
    push_string(lines, describe_ping(measurement, km_per_ms, arith, show));
    match &measurement.trace {
        Some(trace) => {
            let mut line = "    trace: ".to_owned();
            let route = describe_route(&trace.hops, show);
            line.append(route.as_str());
            push_string(lines, line);
        },
        None => {},
    }
    push_notes(lines, &measurement.notes);
    assert forall|rules: Rules, written: spec_fn(Double, u8) -> Seq<char>|
        #![trigger arith.follows(rules), shows_as(*show, written)]
        arith.follows(rules) && shows_as(*show, written) implies strings(lines@) == before
        + measurement_lines(rules, written, measurement@, km_per_ms) by {
        assert(strings(lines@) =~= before + measurement_lines(
            rules,
            written,
            measurement@,
            km_per_ms,
        ));
    }
}

/// The lines on measurements.
pub open spec fn all_measurement_lines(
    rules: Rules,
    written: spec_fn(Double, u8) -> Seq<char>,
    measurements: Seq<MeasurementView>,
    km_per_ms: Double,
) -> Seq<Seq<char>>
    decreases measurements.len(),
{
    if measurements.len() == 0 {
        Seq::<Seq<char>>::empty()
    } else {
        all_measurement_lines(rules, written, measurements.drop_last(), km_per_ms)
            + measurement_lines(rules, written, measurements.last(), km_per_ms)
    }
}

fn describe_measurements<A: Fn(Calc) -> Double, S: Fn(Double, u8) -> String>(
    measurements: &Vec<Measurement>,
    km_per_ms: Double,
    arith: &Arith<A>,
    show: &S,
) -> (lines: Vec<String>)
    requires
        arith.complete(),
        writes_all(*show),
    ensures
        forall|rules: Rules, written: spec_fn(Double, u8) -> Seq<char>|
            #![trigger arith.follows(rules), shows_as(*show, written)]
            arith.follows(rules) && shows_as(*show, written) ==> strings(lines@)
                == all_measurement_lines(
                rules,
                written,
                measurement_views(measurements@),
                km_per_ms,
            ),
{
    let ghost all = measurement_views(measurements@);
    let mut lines: Vec<String> = Vec::new();
    let mut i: usize = 0;
    assert(strings(lines@) =~= Seq::<Seq<char>>::empty());
    assert(all.take(0) =~= Seq::<MeasurementView>::empty());
    while i < measurements.len()
        invariant
            arith.complete(),
            writes_all(*show),
            all == measurement_views(measurements@),
            i <= measurements@.len(),
            forall|rules: Rules, written: spec_fn(Double, u8) -> Seq<char>|
                #![trigger arith.follows(rules), shows_as(*show, written)]
                arith.follows(rules) && shows_as(*show, written) ==> strings(lines@)
                    == all_measurement_lines(rules, written, all.take(i as int), km_per_ms),
        decreases measurements@.len() - i,
    {
        assert(all.take(i + 1).drop_last() =~= all.take(i as int));
        assert(all.take(i + 1).last() == measurements@[i as int]@);
        push_measurement(&mut lines, &measurements[i], km_per_ms, arith, show);
        i = i + 1;
    }
    assert(all.take(measurements@.len() as int) =~= all);
    lines
}

/// How well an estimate meets a constraint, in words.
pub open spec fn fit_line(
    rules: Rules,
    written: spec_fn(Double, u8) -> Seq<char>,
    constraint: EvaluatedConstraint,
) -> Seq<char> {
    let delta = rules.sub(constraint.upper_bound_km, constraint.distance_km);
    "  "@ + anchor_label(constraint.anchor@) + " rtt="@ + written(constraint.min_rtt_ms, 2)
        + "ms bound="@ + written(constraint.upper_bound_km, 0) + " km distance="@ + written(
        constraint.distance_km,
        0,
    ) + (if zero().at_most(delta) {
        " km inside by "@
    } else {
        " km outside by "@
    }) + written(
        if zero().at_most(delta) {
            delta
        } else {
            delta.unsigned()
        },
        0,
    ) + " km"@
}

fn describe_fit<A: Fn(Calc) -> Double, S: Fn(Double, u8) -> String>(
    constraint: &EvaluatedConstraint,
    arith: &Arith<A>,
    show: &S,
) -> (line: String)
    requires
        arith.complete(),
        writes_all(*show),
    ensures
        forall|rules: Rules, written: spec_fn(Double, u8) -> Seq<char>|
            #![trigger arith.follows(rules), shows_as(*show, written)]
            arith.follows(rules) && shows_as(*show, written) ==> line@ == fit_line(
                rules,
                written,
                *constraint,
            ),
{
    let label = constraint.anchor.label();
    let rtt = show(constraint.min_rtt_ms, 2);
    let bound = show(constraint.upper_bound_km, 0);
    let distance = show(constraint.distance_km, 0);
    let delta = arith.sub(constraint.upper_bound_km, constraint.distance_km);
    let mut line = "  ".to_owned();
    line.append(label.as_str());
    line.append(" rtt=");
    line.append(rtt.as_str());
    line.append("ms bound=");
    line.append(bound.as_str());
    line.append(" km distance=");
    line.append(distance.as_str());
    if nothing().is_at_most(&delta) {
        let margin = show(delta, 0);
        line.append(" km inside by ");
        line.append(margin.as_str());
    } else {
        let margin = show(delta.abs(), 0);
        line.append(" km outside by ");
        line.append(margin.as_str());
    }
    line.append(" km");
    line
}

/// Evaluated constraints by ascending bound.
pub open spec fn by_bound(constraints: Seq<EvaluatedConstraint>) -> Seq<EvaluatedConstraint> {
    let order = ascending(numbered_values(bounds_of(constraints)));
    Seq::new(constraints.len(), |k: int| constraints[order[k].0 as int])
}

/// The lines on how well an estimate meets the constraints, tightest bound first.
pub open spec fn fit_lines(
    rules: Rules,
    written: spec_fn(Double, u8) -> Seq<char>,
    constraints: Seq<EvaluatedConstraint>,
) -> Seq<Seq<char>> {
    Seq::new(constraints.len(), |k: int| fit_line(rules, written, by_bound(constraints)[k]))
}

fn push_fits<A: Fn(Calc) -> Double, S: Fn(Double, u8) -> String>(
    lines: &mut Vec<String>,
    constraints: &Vec<EvaluatedConstraint>,
    arith: &Arith<A>,
    show: &S,
)
    requires
        arith.complete(),
        writes_all(*show),
    ensures
        forall|rules: Rules, written: spec_fn(Double, u8) -> Seq<char>|
            #![trigger arith.follows(rules), shows_as(*show, written)]
            arith.follows(rules) && shows_as(*show, written) ==> strings(final(lines)@) == strings(
                old(lines)@,
            ) + fit_lines(rules, written, constraints@),
{
    let ghost all = constraints@;
    let ghost before = strings(lines@);
    let bounds = collect_bounds(constraints);
    let items = number_values(&bounds);
    let order = rank(&items);
    proof {
        lemma_ascending_orders(items@);
    }
    let mut k: usize = 0;
    while k < order.len()
        invariant
            arith.complete(),
            writes_all(*show),
            all == constraints@,
            order@ == ascending(numbered_values(bounds_of(all))),
            order@.len() == all.len(),
            k <= order@.len(),
            strings(lines@).len() == before.len() + k,
            strings(lines@).take(before.len() as int) == before,
            forall|rules: Rules, written: spec_fn(Double, u8) -> Seq<char>, j: int|
                #![trigger arith.follows(rules), shows_as(*show, written), strings(lines@)[j]]
                arith.follows(rules) && shows_as(*show, written) && before.len() <= j
                    < before.len() + k ==> strings(lines@)[j] == fit_lines(rules, written, all)[j
                    - before.len()],
        decreases order@.len() - k,
    {
        proof {
            lemma_ascending_members(numbered_values(bounds_of(all)), k as int);
        }
        let ghost now = strings(lines@);
        let line = describe_fit(&constraints[order[k].0], arith, show);
        push_string(lines, line);
        assert(strings(lines@).take(before.len() as int) =~= now.take(before.len() as int));
        k = k + 1;
    }
    assert forall|rules: Rules, written: spec_fn(Double, u8) -> Seq<char>|
        #![trigger arith.follows(rules), shows_as(*show, written)]
        arith.follows(rules) && shows_as(*show, written) implies strings(lines@) == before
        + fit_lines(rules, written, all) by {
        assert forall|j: int| 0 <= j < before.len() implies strings(lines@)[j] == before[j] by {
            assert(strings(lines@).take(before.len() as int)[j] == strings(lines@)[j]);
        }
        assert(strings(lines@) =~= before + fit_lines(rules, written, all));
    }
}

/// The last lines on the nearest anchor.
pub open spec fn closest_lines(
    written: spec_fn(Double, u8) -> Seq<char>,
    nearest: Option<NearestView>,
) -> Seq<Seq<char>> {
    match nearest {
        Some(found) => seq![
            ""@,
            "Closest bundled city-center: "@ + anchor_label(found.anchor) + " at "@ + written(
                found.distance_km,
                0,
            ) + " km"@,
        ],
        None => Seq::<Seq<char>>::empty(),
    }
}

fn push_closest<S: Fn(Double, u8) -> String>(
    lines: &mut Vec<String>,
    nearest: &Option<Nearest>,
    show: &S,
)
    requires
        writes_all(*show),
    ensures
        forall|written: spec_fn(Double, u8) -> Seq<char>| #[trigger]
            shows_as(*show, written) ==> strings(final(lines)@) == strings(old(lines)@)
                + closest_lines(written, maybe_nearest(*nearest)),
{
    let ghost before = strings(lines@);
    if let Some(found) = nearest {
        let label = found.anchor.label();
        let mut line = "Closest bundled city-center: ".to_owned();
        line.append(label.as_str());
        let distance = phrase(" at ", found.distance_km, 0, " km", show);
        line.append(distance.as_str());
        push_string(lines, "".to_owned());
        push_string(lines, line);
    }
    assert forall|written: spec_fn(Double, u8) -> Seq<char>| #[trigger]
        shows_as(*show, written) implies strings(lines@) == before
        + closest_lines(written, maybe_nearest(*nearest)) by {
        if let Some(found) = nearest {
            let head = "Closest bundled city-center: "@ + anchor_label(found.anchor@);
            let number = written(found.distance_km, 0);
            assert(head + (" at "@ + number + " km"@) =~= head + " at "@ + number + " km"@);
        }
        assert(strings(lines@) =~= before + closest_lines(written, maybe_nearest(*nearest)));
    }
}

/// What a report is on.
pub struct Run<'a> {
    pub measurements: &'a Vec<Measurement>,
    pub estimate: &'a Option<Estimate>,
    pub km_per_ms: Double,
    pub local_rtt_floor: &'a Option<LocalRttFloor>,
    pub shared_rtt_floor_ms: Double,
    pub tcp_bias_ms: Double,
    pub cached_anchor_count: usize,
}

/// What a `Run` stands for.
pub struct RunView {
    pub measurements: Seq<MeasurementView>,
    pub estimate: Option<EstimateView>,
    pub km_per_ms: Double,
    pub local_rtt_floor: Option<LocalFloorView>,
    pub shared_rtt_floor_ms: Double,
    pub tcp_bias_ms: Double,
    pub cached_anchor_count: nat,
}

impl<'a> View for Run<'a> {
    type V = RunView;

    open spec fn view(&self) -> RunView {
        RunView {
            measurements: measurement_views(self.measurements@),
            estimate: maybe_estimate(*self.estimate),
            km_per_ms: self.km_per_ms,
            local_rtt_floor: maybe_floor(*self.local_rtt_floor),
            shared_rtt_floor_ms: self.shared_rtt_floor_ms,
            tcp_bias_ms: self.tcp_bias_ms,
            cached_anchor_count: self.cached_anchor_count as nat,
        }
    }
}

/// The first lines of a report.
pub open spec fn model_lines(
    written: spec_fn(Double, u8) -> Seq<char>,
    km_per_ms: Double,
) -> Seq<Seq<char>> {
    seq![
        "Model: RTT upper bound using "@ + written(km_per_ms, 1) + " km/ms"@,
        "Limits: anycast, asymmetric routing, and metro-level anchor placement dominate error"@,
        ""@,
    ]
}

/// The lines on the calibration of a run, if it was calibrated.
pub open spec fn maybe_calibration_lines(
    written: spec_fn(Double, u8) -> Seq<char>,
    run: RunView,
) -> Seq<Seq<char>> {
    match run.local_rtt_floor {
        Some(floor) => calibration_lines(
            written,
            floor,
            run.shared_rtt_floor_ms,
            run.tcp_bias_ms,
            run.cached_anchor_count,
        ),
        None => Seq::<Seq<char>>::empty(),
    }
}

/// The lines on the estimate of a run, or that there is none.
pub open spec fn maybe_estimate_lines(
    rules: Rules,
    written: spec_fn(Double, u8) -> Seq<char>,
    estimate: Option<EstimateView>,
) -> Seq<Seq<char>> {
    match estimate {
        Some(found) => estimate_lines(rules, written, found),
        None => seq![
            "Estimate: unavailable"@,
            "Reason: no anchors returned usable RTT samples"@,
            ""@,
        ],
    }
}

/// The last lines of a report: how the estimate fits the anchors.
pub open spec fn maybe_fit_lines(
    rules: Rules,
    written: spec_fn(Double, u8) -> Seq<char>,
    estimate: Option<EstimateView>,
) -> Seq<Seq<char>> {
    match estimate {
        Some(found) => seq![""@, "Anchor fit:"@] + fit_lines(rules, written, found.constraints)
            + closest_lines(written, nearest_to(rules, found.center, anchor_list())),
        None => Seq::<Seq<char>>::empty(),
    }
}

/// The report of a run.
pub open spec fn report_lines(
    rules: Rules,
    written: spec_fn(Double, u8) -> Seq<char>,
    run: RunView,
) -> Seq<Seq<char>> {
    model_lines(written, run.km_per_ms) + maybe_calibration_lines(written, run)
        + maybe_estimate_lines(rules, written, run.estimate) + seq!["Measurements:"@]
        + all_measurement_lines(rules, written, run.measurements, run.km_per_ms)
        + maybe_fit_lines(rules, written, run.estimate)
}

fn describe_model<S: Fn(Double, u8) -> String>(km_per_ms: Double, show: &S) -> (lines: Vec<String>)
    requires
        writes_all(*show),
    ensures
        forall|written: spec_fn(Double, u8) -> Seq<char>| #[trigger]
            shows_as(*show, written) ==> strings(lines@) == model_lines(written, km_per_ms),
{
    let mut lines: Vec<String> = Vec::new();
    lines.push(phrase("Model: RTT upper bound using ", km_per_ms, 1, " km/ms", show));
    let limits =
        "Limits: anycast, asymmetric routing, and metro-level anchor placement dominate error";
    lines.push(limits.to_owned());
    lines.push("".to_owned());
    assert forall|written: spec_fn(Double, u8) -> Seq<char>| #[trigger]
        shows_as(*show, written) implies strings(lines@) == model_lines(written, km_per_ms) by {
        assert(strings(lines@) =~= model_lines(written, km_per_ms));
    }
    lines
}

fn describe_no_estimate() -> (lines: Vec<String>)
    ensures
        strings(lines@) == seq![
            "Estimate: unavailable"@,
            "Reason: no anchors returned usable RTT samples"@,
            ""@,
        ],
{
    let mut lines: Vec<String> = Vec::new();
    lines.push("Estimate: unavailable".to_owned());
    lines.push("Reason: no anchors returned usable RTT samples".to_owned());
    lines.push("".to_owned());
    assert(strings(lines@) =~= seq![
        "Estimate: unavailable"@,
        "Reason: no anchors returned usable RTT samples"@,
        ""@,
    ]);
    lines
}

fn describe_fits<A: Fn(Calc) -> Double, S: Fn(Double, u8) -> String>(
    estimate: &Estimate,
    arith: &Arith<A>,
    show: &S,
) -> (lines: Vec<String>)
    requires
        arith.complete(),
        writes_all(*show),
    ensures
        forall|rules: Rules, written: spec_fn(Double, u8) -> Seq<char>|
            #![trigger arith.follows(rules), shows_as(*show, written)]
            arith.follows(rules) && shows_as(*show, written) ==> strings(lines@)
                == maybe_fit_lines(rules, written, Some(estimate@)),
{
    let mut lines: Vec<String> = Vec::new();
    lines.push("".to_owned());
    lines.push("Anchor fit:".to_owned());
    assert(strings(lines@) =~= seq![""@, "Anchor fit:"@]);
    push_fits(&mut lines, &estimate.constraints, arith, show);
    let place = Place { latitude: estimate.latitude, longitude: estimate.longitude };
    let nearest = nearest_anchor(place, arith);
    push_closest(&mut lines, &nearest, show);
    lines
}

fn describe_findings<A: Fn(Calc) -> Double, S: Fn(Double, u8) -> String>(
    run: &Run,
    arith: &Arith<A>,
    show: &S,
) -> (lines: Vec<String>)
    requires
        arith.complete(),
        writes_all(*show),
    ensures
        forall|rules: Rules, written: spec_fn(Double, u8) -> Seq<char>|
            #![trigger arith.follows(rules), shows_as(*show, written)]
            arith.follows(rules) && shows_as(*show, written) ==> strings(lines@) == model_lines(
                written,
                run.km_per_ms,
            ) + maybe_calibration_lines(written, run@) + maybe_estimate_lines(
                rules,
                written,
                run@.estimate,
            ) + seq!["Measurements:"@],
{
    let mut lines = describe_model(run.km_per_ms, show);
    match run.local_rtt_floor {
        Some(floor) => {
            let more = describe_calibration(
                floor,
                run.shared_rtt_floor_ms,
                run.tcp_bias_ms,
                run.cached_anchor_count,
                show,
            );
            push_strings(&mut lines, &more);
        },
        None => {
            assert(strings(lines@) + Seq::<Seq<char>>::empty() =~= strings(lines@));
        },
    }
    match run.estimate {
        Some(estimate) => {
            let more = describe_estimate(estimate, arith, show);
            push_strings(&mut lines, &more);
        },
        None => {
            push_strings(&mut lines, &describe_no_estimate());
        },
    }
    let ghost now = strings(lines@);
    push_string(&mut lines, "Measurements:".to_owned());
    assert(strings(lines@) =~= now + seq!["Measurements:"@]);
    lines
}

/// Writes the report of a run, line by line.
pub fn report<A: Fn(Calc) -> Double, S: Fn(Double, u8) -> String>(
    run: &Run,
    arith: &Arith<A>,
    show: &S,
) -> (lines: Vec<String>)
    requires
        arith.complete(),
        writes_all(*show),
    ensures
        forall|rules: Rules, written: spec_fn(Double, u8) -> Seq<char>|
            #![trigger arith.follows(rules), shows_as(*show, written)]
            arith.follows(rules) && shows_as(*show, written) ==> strings(lines@) == report_lines(
                rules,
                written,
                run@,
            ),
{
    let mut lines = describe_findings(run, arith, show);
    let measured = describe_measurements(run.measurements, run.km_per_ms, arith, show);
    push_strings(&mut lines, &measured);
    match run.estimate {
        Some(estimate) => {
            let fits = describe_fits(estimate, arith, show);
            push_strings(&mut lines, &fits);
        },
        None => {
            assert(strings(lines@) + Seq::<Seq<char>>::empty() =~= strings(lines@));
        },
    }
    lines
}

} // verus!
