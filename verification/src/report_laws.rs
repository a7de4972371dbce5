//! What a report says: the worst violation and the tightest bound are just that, the anchors
//! are told of by their bounds, and no measurement is left out.

use crate::anchors::anchor_label;
use crate::calc::Rules;
use crate::calc_laws::{capped, lemma_sizes, orderly, sized};
use crate::double::{zero, Double};
use crate::posterior::numbered_values;
use crate::probe::MeasurementView;
use crate::ranking::{ascending, lemma_ascending_members, lemma_ascending_orders};
use crate::report::{
    all_measurement_lines, bounds_of, by_bound, fit_line, lowest, maybe_calibration_lines,
    maybe_estimate_lines, maybe_fit_lines, measurement_lines, model_lines, note_lines, ping_line,
    report_lines, tightest_lines, worst_overflow, RunView,
};
use crate::run_laws::lemma_lowest;
use crate::solver::EvaluatedConstraint;
use vstd::prelude::*;

verus! {

/// No constraint is violated by more than the report says, and where any is violated, one is
/// violated by just that.
pub proof fn lemma_worst_overflow_is_worst(constraints: Seq<EvaluatedConstraint>)
    ensures
        zero().at_most(worst_overflow(constraints)),
        forall|i: int|
            0 <= i < constraints.len() && !(#[trigger] constraints[i]).overflow_km.nan()
                ==> constraints[i].overflow_km.at_most(worst_overflow(constraints)),
        worst_overflow(constraints) == zero() || exists|i: int|
            0 <= i < constraints.len() && (#[trigger] constraints[i]).overflow_km
                == worst_overflow(constraints),
    decreases constraints.len(),
{
    if constraints.len() > 0 {
        let shorter = constraints.drop_last();
        lemma_worst_overflow_is_worst(shorter);
        let before = worst_overflow(shorter);
        let after = worst_overflow(constraints);
        assert forall|i: int| 0 <= i < constraints.len() && !(
        #[trigger] constraints[i]).overflow_km.nan() implies constraints[i].overflow_km.at_most(
            after,
        ) by {
            if i < shorter.len() {
                assert(shorter[i] == constraints[i]);
            }
        }
        if after == before && before != zero() {
            let i = choose|i: int|
                0 <= i < shorter.len() && (#[trigger] shorter[i]).overflow_km == before;
            assert(constraints[i] == shorter[i]);
        } else if after != before {
            assert(constraints[constraints.len() - 1].overflow_km == after);
        }
    }
}

/// The anchors are told of by ascending bound, and each of them once.
pub proof fn lemma_by_bound(constraints: Seq<EvaluatedConstraint>)
    requires
        constraints.len() <= usize::MAX,
    ensures
        by_bound(constraints).len() == constraints.len(),
        forall|i: int, j: int|
            0 <= i <= j < constraints.len() ==> (#[trigger] by_bound(
                constraints,
            )[i]).upper_bound_km.total_place() <= (#[trigger] by_bound(
                constraints,
            )[j]).upper_bound_km.total_place(),
        forall|i: int|
            0 <= i < constraints.len() ==> by_bound(constraints).contains(
                #[trigger] constraints[i],
            ),
        forall|k: int|
            0 <= k < constraints.len() ==> constraints.contains(
                #[trigger] by_bound(constraints)[k],
            ),
{
    broadcast use vstd::seq_lib::group_to_multiset_ensures;

    let items = numbered_values(bounds_of(constraints));
    let order = ascending(items);
    let ranked = by_bound(constraints);
    lemma_ascending_orders(items);
    assert forall|k: int| 0 <= k < order.len() implies order[k].0 < constraints.len()
        && constraints[order[k].0 as int].upper_bound_km == order[k].1 && constraints.contains(
        #[trigger] ranked[k],
    ) by {
        lemma_ascending_members(items, k);
        let i = choose|i: int| 0 <= i < items.len() && items[i] == order[k];
        assert(constraints[i] == ranked[k]);
    }
    assert forall|i: int, j: int| 0 <= i <= j < constraints.len() implies (
    #[trigger] ranked[i]).upper_bound_km.total_place() <= (
    #[trigger] ranked[j]).upper_bound_km.total_place() by {
        assert(order[i].1.total_place() <= order[j].1.total_place());
    }
    assert forall|i: int| 0 <= i < constraints.len() implies ranked.contains(
        #[trigger] constraints[i],
    ) by {
        assert(items.contains(items[i]));
        assert(items.to_multiset().contains(items[i]));
        assert(order.contains(items[i]));
        let k = choose|k: int| 0 <= k < order.len() && order[k] == items[i];
        assert(ranked[k] == constraints[i]);
    }
}

/// The bound that is told of as the tightest is that of a constraint, with its anchor, and
/// no constraint has a tighter one.
pub proof fn lemma_tightest_bound_is_tightest(
    written: spec_fn(Double, u8) -> Seq<char>,
    constraints: Seq<EvaluatedConstraint>,
) -> (i: int)
    requires
        constraints.len() > 0,
    ensures
        0 <= i < constraints.len(),
        forall|j: int|
            0 <= j < constraints.len() ==> constraints[i].upper_bound_km.total_place() <= (
            #[trigger] constraints[j]).upper_bound_km.total_place(),
        tightest_lines(written, constraints) == seq![
            "  tightest bound: "@ + anchor_label(constraints[i].anchor@) + " <= "@ + written(
                constraints[i].upper_bound_km,
                0,
            ) + " km"@,
        ],
{
    let bounds = bounds_of(constraints);
    lemma_lowest(bounds);
    let at = lowest(bounds)->0;
    assert forall|j: int|
        0 <= j < constraints.len() implies constraints[at].upper_bound_km.total_place() <= (
    #[trigger] constraints[j]).upper_bound_km.total_place() by {
        assert(bounds[j] == constraints[j].upper_bound_km);
    }
    at
}

/// An anchor that is within its bound is told of as inside, and one beyond it as outside.
pub proof fn lemma_inside_and_outside(
    rules: Rules,
    written: spec_fn(Double, u8) -> Seq<char>,
    constraint: EvaluatedConstraint,
)
    requires
        orderly(rules),
        sized(constraint.distance_km, 30),
        sized(constraint.upper_bound_km, 30),
    ensures
        ({
            let head = "  "@ + anchor_label(constraint.anchor@) + " rtt="@ + written(
                constraint.min_rtt_ms,
                2,
            ) + "ms bound="@ + written(constraint.upper_bound_km, 0) + " km distance="@ + written(
                constraint.distance_km,
                0,
            );
            let line = fit_line(rules, written, constraint);
            &&& constraint.distance_km.at_most(constraint.upper_bound_km) ==> line == head
                + " km inside by "@ + written(
                rules.sub(constraint.upper_bound_km, constraint.distance_km),
                0,
            ) + " km"@
            &&& constraint.upper_bound_km.below(constraint.distance_km) ==> line == head
                + " km outside by "@ + written(
                rules.sub(constraint.distance_km, constraint.upper_bound_km),
                0,
            ) + " km"@
        }),
{
    reveal(orderly);
    let far = constraint.distance_km;
    let bound = constraint.upper_bound_km;
    lemma_sizes(far, 30);
    lemma_sizes(bound, 30);
    let delta = rules.sub(bound, far);
    if far.at_most(bound) {
        assert(capped(delta, 30));
        lemma_sizes(delta, 30);
    } else {
        let back = rules.sub(far, bound);
        assert(sized(back, 83));
        lemma_sizes(back, 83);
        assert(delta.turned().equals(back));
        assert(delta.unsigned() == back);
    }
}

proof fn lemma_all_measurement_lines(
    rules: Rules,
    written: spec_fn(Double, u8) -> Seq<char>,
    list: Seq<MeasurementView>,
    km_per_ms: Double,
    i: int,
)
    requires
        0 <= i < list.len(),
    ensures
        all_measurement_lines(rules, written, list, km_per_ms).contains(
            ping_line(rules, written, list[i], km_per_ms),
        ),
        forall|n: int|
            0 <= n < list[i].notes.len() ==> all_measurement_lines(
                rules,
                written,
                list,
                km_per_ms,
            ).contains("    note: "@ + #[trigger] list[i].notes[n]),
    decreases list.len(),
{
    let shorter = list.drop_last();
    let before = all_measurement_lines(rules, written, shorter, km_per_ms);
    let last = measurement_lines(rules, written, list.last(), km_per_ms);
    let all = all_measurement_lines(rules, written, list, km_per_ms);
    assert(all == before + last);
    assert forall|line: Seq<char>| before.contains(line) || last.contains(line) implies (
    #[trigger] all.contains(line)) by {
        if before.contains(line) {
            let k = choose|k: int| 0 <= k < before.len() && before[k] == line;
            assert(all[k] == line);
        } else {
            let k = choose|k: int| 0 <= k < last.len() && last[k] == line;
            assert(all[before.len() + k] == line);
        }
    }
    if i < shorter.len() {
        assert(shorter[i] == list[i]);
        lemma_all_measurement_lines(rules, written, shorter, km_per_ms, i);
        assert(all.contains(ping_line(rules, written, list[i], km_per_ms)));
        assert forall|n: int| 0 <= n < list[i].notes.len() implies all.contains(
            "    note: "@ + #[trigger] list[i].notes[n],
        ) by {
            assert(before.contains("    note: "@ + shorter[i].notes[n]));
        }
    } else {
        assert(last[0] == ping_line(rules, written, list[i], km_per_ms));
        assert(all.contains(last[0]));
        let notes = note_lines(list[i].notes);
        assert forall|n: int| 0 <= n < list[i].notes.len() implies all.contains(
            "    note: "@ + #[trigger] list[i].notes[n],
        ) by {
            let k = last.len() - notes.len() + n;
            assert(last[k] == notes[n]);
            assert(last.contains("    note: "@ + list[i].notes[n]));
        }
    }
}

/// Every measurement is reported, with all notes on it.
pub proof fn lemma_every_measurement_is_reported(
    rules: Rules,
    written: spec_fn(Double, u8) -> Seq<char>,
    run: RunView,
    i: int,
)
    requires
        0 <= i < run.measurements.len(),
    ensures
        report_lines(rules, written, run).contains(
            ping_line(rules, written, run.measurements[i], run.km_per_ms),
        ),
        forall|n: int|
            0 <= n < run.measurements[i].notes.len() ==> report_lines(
                rules,
                written,
                run,
            ).contains("    note: "@ + #[trigger] run.measurements[i].notes[n]),
{
    let middle = all_measurement_lines(rules, written, run.measurements, run.km_per_ms);
    let head = model_lines(written, run.km_per_ms)
        + maybe_calibration_lines(written, run)
        + maybe_estimate_lines(rules, written, run.estimate) + seq![
        "Measurements:"@,
    ];
    let tail = maybe_fit_lines(rules, written, run.estimate);
    let all = report_lines(rules, written, run);
    assert(all == head + middle + tail);
    lemma_all_measurement_lines(rules, written, run.measurements, run.km_per_ms, i);
    assert forall|line: Seq<char>| #[trigger] middle.contains(line) implies all.contains(line) by {
        let k = choose|k: int| 0 <= k < middle.len() && middle[k] == line;
        assert(all[head.len() + k] == line);
    }
    assert forall|n: int| 0 <= n < run.measurements[i].notes.len() implies all.contains(
        "    note: "@ + #[trigger] run.measurements[i].notes[n],
    ) by {
        assert(middle.contains("    note: "@ + run.measurements[i].notes[n]));
    }
    assert(middle.contains(ping_line(rules, written, run.measurements[i], run.km_per_ms)));
}

} // verus!
