//! What a run makes of its measurements: which to refine, how to correct them, and
//! what earlier runs add.

use crate::cache::{cached_ping_to_stats, floor_of, stats_of_floor, CacheView, ProbeCache};
use crate::calc::{Arith, Calc, Rules};
use crate::double::{nothing, shows_as, writes_all, zero, Double};
use crate::posterior::{sort_values, sorted};
use crate::probe::{
    measurement_views, method_name, LocalFloorView, LocalRttFloor, Measurement, MeasurementView,
    PingStats, ProbeConfig, ProbeMethod,
};
use crate::ranking::{ascending, lemma_ascending_members, rank};
use crate::rounds::{maybe_floor, target_of, traced_target};
use crate::text::push_string;
use vstd::prelude::*;
use vstd::string::*;

verus! {

/// The name of the file that holds the cache.
pub fn cache_path() -> (path: &'static str)
    ensures
        path@ == ".etherwhere-cache"@,
{
    ".etherwhere-cache"
}

/// The lowest times of the measurements that have one, each with its number.
pub open spec fn timed(list: Seq<MeasurementView>) -> Seq<(usize, Double)>
    decreases list.len(),
{
    if list.len() == 0 {
        Seq::<(usize, Double)>::empty()
    } else {
        let before = timed(list.drop_last());
        match list.last().ping {
            Some(ping) => before.push(((list.len() - 1) as usize, ping.min_ms)),
            None => before,
        }
    }
}

/// The measurements that have a time, by ascending time.
pub fn rank_measurements(measurements: &Vec<Measurement>) -> (ranked: Vec<(usize, Double)>)
    ensures
        ranked@ == ascending(timed(measurement_views(measurements@))),
{
    let ghost all = measurement_views(measurements@);
    let mut items: Vec<(usize, Double)> = Vec::new();
    let mut i: usize = 0;
    assert(all.take(0) =~= Seq::<MeasurementView>::empty());
    while i < measurements.len()
        invariant
            all == measurement_views(measurements@),
            i <= measurements@.len(),
            items@ == timed(all.take(i as int)),
        decreases measurements@.len() - i,
    {
        assert(all.take(i + 1).drop_last() =~= all.take(i as int));
        assert(all.take(i + 1).last() == measurements@[i as int]@);
        match &measurements[i].ping {
            Some(ping) => {
                items.push((i, ping.min_ms));
            },
            None => {},
        }
        i = i + 1;
    }
    assert(all.take(measurements@.len() as int) =~= all);
    rank(&items)
}

/// The first measurements of a ranking, at most so many.
pub open spec fn leading(ranked: Seq<(usize, Double)>, most: int) -> Seq<usize> {
    Seq::new(
        if ranked.len() < most {
            ranked.len()
        } else {
            most as nat
        },
        |i: int| ranked[i].0,
    )
}

/// The measurements to trace: the fastest, at most so many.
pub fn trace_indices(measurements: &Vec<Measurement>, trace_fastest: usize) -> (indices: Vec<usize>)
    ensures
        indices@ == leading(
            ascending(timed(measurement_views(measurements@))),
            trace_fastest as int,
        ),
{
    let ranked = rank_measurements(measurements);
    let n: usize = if ranked.len() < trace_fastest {
        ranked.len()
    } else {
        trace_fastest
    };
    let ghost all = leading(ranked@, trace_fastest as int);
    let mut indices: Vec<usize> = Vec::new();
    let mut i: usize = 0;
    while i < n
        invariant
            n == all.len(),
            n <= ranked@.len(),
            all == leading(ranked@, trace_fastest as int),
            i <= n,
            indices@ == all.take(i as int),
        decreases n - i,
    {
        indices.push(ranked[i].0);
        i = i + 1;
        assert(indices@ =~= all.take(i as int));
    }
    assert(indices@ =~= all);
    indices
}

/// The ranked measurements whose time is not above a limit.
pub open spec fn ranked_within(ranked: Seq<(usize, Double)>, limit: Double) -> Seq<(usize, Double)>
    decreases ranked.len(),
{
    if ranked.len() == 0 {
        ranked
    } else {
        let before = ranked_within(ranked.drop_last(), limit);
        if ranked.last().1.at_most(limit) {
            before.push(ranked.last())
        } else {
            before
        }
    }
}

/// The time up to which a measurement is worth refining: four times the lowest, and
/// twenty-five milliseconds at least.
pub open spec fn refine_limit(rules: Rules, lowest: Double) -> Double {
    rules.add(rules.mul(lowest, rules.count(4)), zero()).greater(rules.count(25))
}

/// The six fastest measurements that are worth refining.
pub open spec fn worth_refining(rules: Rules, ranked: Seq<(usize, Double)>) -> Seq<usize> {
    leading(ranked_within(ranked, refine_limit(rules, ranked[0].1)), 6)
}

/// The numbers below `n` of the measurements that are chosen or have no time.
pub open spec fn to_refine(list: Seq<MeasurementView>, chosen: Seq<usize>, n: nat) -> Seq<usize>
    decreases n,
{
    if n == 0 {
        Seq::<usize>::empty()
    } else {
        let before = to_refine(list, chosen, (n - 1) as nat);
        if list[n - 1].ping is None || chosen.contains((n - 1) as usize) {
            before.push((n - 1) as usize)
        } else {
            before
        }
    }
}

/// The measurements to refine: the fastest, and those without a time. If none has a
/// time, there is nothing to go by.
pub open spec fn refined_numbers(rules: Rules, list: Seq<MeasurementView>) -> Seq<usize> {
    let ranked = ascending(timed(list));
    if ranked.len() == 0 {
        Seq::<usize>::empty()
    } else {
        to_refine(list, worth_refining(rules, ranked), list.len())
    }
}

fn choose_fastest(ranked: &Vec<(usize, Double)>, limit: Double) -> (chosen: Vec<usize>)
    ensures
        chosen@ == leading(ranked_within(ranked@, limit), 6),
{
    let mut kept: Vec<(usize, Double)> = Vec::new();
    let mut i: usize = 0;
    assert(ranked@.take(0) =~= kept@);
    while i < ranked.len()
        invariant
            i <= ranked@.len(),
            kept@ == ranked_within(ranked@.take(i as int), limit),
        decreases ranked@.len() - i,
    {
        assert(ranked@.take(i + 1).drop_last() =~= ranked@.take(i as int));
        assert(ranked@.take(i + 1).last() == ranked@[i as int]);
        if ranked[i].1.is_at_most(&limit) {
            kept.push(ranked[i]);
        }
        i = i + 1;
    }
    assert(ranked@.take(ranked@.len() as int) =~= ranked@);
    let ghost all = leading(kept@, 6);
    let n: usize = if kept.len() < 6 {
        kept.len()
    } else {
        6
    };
    let mut chosen: Vec<usize> = Vec::new();
    let mut k: usize = 0;
    while k < n
        invariant
            n == all.len(),
            n <= kept@.len(),
            all == leading(kept@, 6),
            k <= n,
            chosen@ == all.take(k as int),
        decreases n - k,
    {
        chosen.push(kept[k].0);
        k = k + 1;
        assert(chosen@ =~= all.take(k as int));
    }
    assert(chosen@ =~= all);
    chosen
}

fn is_among(list: &Vec<usize>, item: usize) -> (yes: bool)
    ensures
        yes == list@.contains(item),
{
    let mut i: usize = 0;
    while i < list.len()
        invariant
            i <= list@.len(),
            forall|j: int| 0 <= j < i ==> #[trigger] list@[j] != item,
        decreases list@.len() - i,
    {
        if list[i] == item {
            return true;
        }
        i = i + 1;
    }
    false
}

/// The measurements to refine, in order.
pub fn refine_indices<A: Fn(Calc) -> Double>(
    measurements: &Vec<Measurement>,
    arith: &Arith<A>,
) -> (indices: Vec<usize>)
    requires
        arith.complete(),
    ensures
        forall|i: int| 0 <= i < indices@.len() ==> #[trigger] indices@[i] < measurements@.len(),
        forall|rules: Rules| #[trigger]
            arith.follows(rules) ==> indices@ == refined_numbers(
                rules,
                measurement_views(measurements@),
            ),
{
    let ghost all = measurement_views(measurements@);
    let mut indices: Vec<usize> = Vec::new();
    let ranked = rank_measurements(measurements);
    if ranked.len() == 0 {
        assert(indices@ =~= Seq::<usize>::empty());
        return indices;
    }
    let limit = arith.add(arith.mul(ranked[0].1, arith.count(4)), nothing()).max(arith.count(25));
    let chosen = choose_fastest(&ranked, limit);
    let mut i: usize = 0;
    while i < measurements.len()
        invariant
            all == measurement_views(measurements@),
            i <= measurements@.len(),
            forall|j: int| 0 <= j < indices@.len() ==> #[trigger] indices@[j] < i,
            indices@ == to_refine(all, chosen@, i as nat),
        decreases measurements@.len() - i,
    {
        assert(all[i as int] == measurements@[i as int]@);
        if measurements[i].ping.is_none() || is_among(&chosen, i) {
            indices.push(i);
        }
        i = i + 1;
    }
    indices
}

/// The settings for refining: at least five rounds, and at least one ping in each.
pub fn refine_config(config: &ProbeConfig) -> (refined: ProbeConfig)
    requires
        config.rounds <= 253,
    ensures
        refined == (ProbeConfig {
            rounds: (if config.rounds < 3 {
                5
            } else {
                config.rounds + 2
            }) as u8,
            ping_count: if config.ping_count == 0 {
                1
            } else {
                config.ping_count
            },
            ..*config
        }),
{
    let rounds: u8 = if config.rounds < 3 {
        5
    } else {
        config.rounds + 2
    };
    let ping_count: u8 = if config.ping_count == 0 {
        1
    } else {
        config.ping_count
    };
    ProbeConfig { rounds, ping_count, ..*config }
}

/// Tells whether a refined measurement is the better one: it has the first time, or
/// a lower one.
pub open spec fn better(current: MeasurementView, refined: MeasurementView) -> bool {
    match (current.ping, refined.ping) {
        (Some(before), Some(next)) => next.min_ms.below(before.min_ms),
        (None, Some(_)) => true,
        (_, None) => false,
    }
}

/// Tells whether a refined measurement is the better one.
pub fn should_replace_measurement(current: &Measurement, refined: &Measurement) -> (yes: bool)
    ensures
        yes == better(current@, refined@),
{
    match (&current.ping, &refined.ping) {
        (Some(before), Some(next)) => next.min_ms.is_below(&before.min_ms),
        (None, Some(_)) => true,
        _ => false,
    }
}

/// The measurements with a refined one in this place, if that is the better one.
pub open spec fn with_better(
    list: Seq<MeasurementView>,
    index: int,
    refined: MeasurementView,
) -> Seq<MeasurementView> {
    if better(list[index], refined) {
        list.update(index, refined)
    } else {
        list
    }
}

/// The measurements after refined ones, each with its place.
pub open spec fn with_all_better(
    list: Seq<MeasurementView>,
    refined: Seq<(int, MeasurementView)>,
) -> Seq<MeasurementView>
    decreases refined.len(),
{
    if refined.len() == 0 {
        list
    } else {
        let (index, last) = refined.last();
        with_better(with_all_better(list, refined.drop_last()), index, last)
    }
}

/// Puts a refined measurement in its place, if it is the better one.
pub fn keep_better(list: &mut Vec<Measurement>, index: usize, refined: Measurement)
    requires
        index < old(list)@.len(),
    ensures
        measurement_views(final(list)@) == with_better(
            measurement_views(old(list)@),
            index as int,
            refined@,
        ),
{
    let ghost before = measurement_views(list@);
    let ghost view = refined@;
    if should_replace_measurement(&list[index], &refined) {
        list.set(index, refined);
        assert(measurement_views(list@) =~= before.update(index as int, view));
    }
}

/// The lowest time of all measurements.
pub open spec fn fastest(list: Seq<MeasurementView>) -> Option<Double>
    decreases list.len(),
{
    if list.len() == 0 {
        None
    } else {
        let before = fastest(list.drop_last());
        match (before, list.last().ping) {
            (Some(time), Some(ping)) => if ping.min_ms.total_place() < time.total_place() {
                Some(ping.min_ms)
            } else {
                before
            },
            (None, Some(ping)) => Some(ping.min_ms),
            (_, None) => before,
        }
    }
}

fn fastest_rtt_ms(measurements: &Vec<Measurement>) -> (lowest: Option<Double>)
    ensures
        lowest == fastest(measurement_views(measurements@)),
{
    let ghost all = measurement_views(measurements@);
    let mut lowest: Option<Double> = None;
    let mut i: usize = 0;
    assert(all.take(0) =~= Seq::<MeasurementView>::empty());
    while i < measurements.len()
        invariant
            all == measurement_views(measurements@),
            i <= measurements@.len(),
            lowest == fastest(all.take(i as int)),
        decreases measurements@.len() - i,
    {
        assert(all.take(i + 1).drop_last() =~= all.take(i as int));
        assert(all.take(i + 1).last() == measurements@[i as int]@);
        match &measurements[i].ping {
            Some(ping) => {
                let replace = match lowest {
                    Some(time) => time.is_after(&ping.min_ms),
                    None => true,
                };
                if replace {
                    lowest = Some(ping.min_ms);
                }
            },
            None => {},
        }
        i = i + 1;
    }
    assert(all.take(measurements@.len() as int) =~= all);
    lowest
}

/// The time that all routes have in common: the local floor, and no more than three
/// quarters of the lowest time.
pub open spec fn shared_floor(
    rules: Rules,
    list: Seq<MeasurementView>,
    local: Option<LocalFloorView>,
) -> Double {
    match (local, fastest(list)) {
        (Some(floor), Some(time)) => floor.min_ms.lesser(rules.mul(time, rules.ratio(75, 100))),
        _ => zero(),
    }
}

/// The time that all routes have in common.
pub fn calibrated_shared_rtt_floor_ms<A: Fn(Calc) -> Double>(
    measurements: &Vec<Measurement>,
    local_rtt_floor: &Option<LocalRttFloor>,
    arith: &Arith<A>,
) -> (floor: Double)
    requires
        arith.complete(),
    ensures
        forall|rules: Rules| #[trigger]
            arith.follows(rules) ==> floor == shared_floor(
                rules,
                measurement_views(measurements@),
                maybe_floor(*local_rtt_floor),
            ),
{
    match (local_rtt_floor, fastest_rtt_ms(measurements)) {
        (Some(floor), Some(time)) => floor.min_ms.min(arith.mul(time, arith.ratio(75, 100))),
        _ => nothing(),
    }
}

/// The bias of TCP times, now and from the cache: the lower one, if there is one now.
pub open spec fn merged_bias(current: Double, cached: Option<Double>) -> Double {
    match cached {
        Some(earlier) => if zero().below(current) {
            current.lesser(earlier)
        } else {
            earlier
        },
        None => current,
    }
}

/// The bias of TCP times, now and from the cache.
pub fn merge_tcp_bias_ms(current_tcp_bias_ms: Double, cache: &ProbeCache) -> (bias: Double)
    ensures
        bias == merged_bias(current_tcp_bias_ms, cache@.tcp_bias_ms),
{
    match cache.tcp_bias_ms {
        Some(earlier) => if nothing().is_below(&current_tcp_bias_ms) {
            current_tcp_bias_ms.min(earlier)
        } else {
            earlier
        },
        None => current_tcp_bias_ms,
    }
}

/// The floor that the cache holds.
pub open spec fn historical_floor(min_ms: Double) -> LocalFloorView {
    LocalFloorView {
        target: ".etherwhere-cache"@,
        source: "historical lower envelope"@,
        min_ms,
    }
}

/// The local floor, now and from the cache: the lower one.
pub open spec fn merged_floor(
    current: Option<LocalFloorView>,
    cached: Option<Double>,
) -> Option<LocalFloorView> {
    match (current, cached) {
        (Some(floor), Some(earlier)) => if earlier.below(floor.min_ms) {
            Some(historical_floor(earlier))
        } else {
            current
        },
        (None, Some(earlier)) => Some(historical_floor(earlier)),
        (_, None) => current,
    }
}

fn floor_of_history(min_ms: Double) -> (floor: LocalRttFloor)
    ensures
        floor@ == historical_floor(min_ms),
{
    LocalRttFloor {
        target: cache_path().to_owned(),
        source: "historical lower envelope".to_owned(),
        min_ms,
    }
}

/// The local floor, now and from the cache.
pub fn merge_local_rtt_floor(
    current_local_rtt_floor: Option<LocalRttFloor>,
    cache: &ProbeCache,
) -> (floor: Option<LocalRttFloor>)
    ensures
        maybe_floor(floor) == merged_floor(
            maybe_floor(current_local_rtt_floor),
            cache@.local_rtt_floor_ms,
        ),
{
    match (current_local_rtt_floor, cache.local_rtt_floor_ms) {
        (Some(current), Some(earlier)) => if earlier.is_below(&current.min_ms) {
            Some(floor_of_history(earlier))
        } else {
            Some(current)
        },
        (None, Some(earlier)) => Some(floor_of_history(earlier)),
        (current, None) => current,
    }
}

/// The note that a time is one from the cache.
pub open spec fn cached_note(
    min_ms: Double,
    method: ProbeMethod,
    written: spec_fn(Double, u8) -> Seq<char>,
) -> Seq<char> {
    "used cached lower envelope "@ + written(min_ms, 2) + " ms via "@ + method_name(method)
}

/// How uncertain a floor has become with age, in milliseconds: by one for each day
/// since it was stored. A floor of unknown age is taken as it is.
pub open spec fn decay(age_days: Option<Double>) -> Double {
    match age_days {
        Some(days) => zero().greater(days),
        None => zero(),
    }
}

fn decay_of(age_days: Option<Double>) -> (uncertainty_ms: Double)
    ensures
        uncertainty_ms == decay(age_days),
{
    match age_days {
        Some(days) => nothing().max(days),
        None => nothing(),
    }
}

/// A measurement with the floor of its anchor in the cache, where that is lower. The
/// floor brings its age with it, and the uncertainty that goes with that age.
pub open spec fn with_cached_floor(
    measurement: MeasurementView,
    cache: CacheView,
    age_days: Option<Double>,
    written: spec_fn(Double, u8) -> Seq<char>,
) -> MeasurementView {
    match floor_of(cache.floors, measurement.anchor.id) {
        Some(cached) => if measurement.ping is None || cached.min_ms.below(
            measurement.ping->0.min_ms,
        ) {
            MeasurementView {
                ping: Some(stats_of_floor(cached)),
                cache_age_days: age_days,
                cache_uncertainty_ms: decay(age_days),
                notes: measurement.notes.push(
                    cached_note(cached.min_ms, cached.method, written),
                ),
                ..measurement
            }
        } else {
            measurement
        },
        None => measurement,
    }
}

fn apply_cached_floor<S: Fn(Double, u8) -> String>(
    measurement: &mut Measurement,
    cache: &ProbeCache,
    age_days: Option<Double>,
    show: &S,
)
    requires
        writes_all(*show),
    ensures
        forall|written: spec_fn(Double, u8) -> Seq<char>| #[trigger]
            shows_as(*show, written) ==> final(measurement)@ == with_cached_floor(
                old(measurement)@,
                cache@,
                age_days,
                written,
            ),
{
    match cache.anchor_floors.get(measurement.anchor.id) {
        Some(cached) => {
            let lower = match &measurement.ping {
                Some(current) => cached.min_ms.is_below(&current.min_ms),
                None => true,
            };
            if lower {
                measurement.ping = Some(cached_ping_to_stats(cached));
                measurement.cache_age_days = age_days;
                measurement.cache_uncertainty_ms = decay_of(age_days);
                let mut note = "used cached lower envelope ".to_owned();
                let time = show(cached.min_ms, 2);
                let method = cached.method.label();
                note.append(time.as_str());
                note.append(" ms via ");
                note.append(method.as_str());
                push_string(&mut measurement.notes, note);
            }
        },
        None => {},
    }
}

/// Lowers the times of measurements to the floors of their anchors in the cache, which
/// were stored this many days ago. The older they are the less certain is a time that
/// is one of them. The function `show` writes the times in the notes.
pub fn apply_cached_anchor_floors<S: Fn(Double, u8) -> String>(
    measurements: &mut Vec<Measurement>,
    cache: &ProbeCache,
    age_days: Option<Double>,
    show: &S,
)
    requires
        writes_all(*show),
    ensures
        forall|written: spec_fn(Double, u8) -> Seq<char>| #[trigger]
            shows_as(*show, written) ==> measurement_views(final(measurements)@)
                == measurement_views(old(measurements)@).map_values(
                |m: MeasurementView| with_cached_floor(m, cache@, age_days, written),
            ),
{
    let ghost before = measurement_views(measurements@);
    let n: usize = measurements.len();
    let mut i: usize = 0;
    while i < n
        invariant
            writes_all(*show),
            n == measurements@.len(),
            n == before.len(),
            i <= n,
            forall|written: spec_fn(Double, u8) -> Seq<char>, j: int|
                #![trigger shows_as(*show, written), measurements@[j]]
                shows_as(*show, written) && 0 <= j < i ==> measurements@[j]@ == with_cached_floor(
                    before[j],
                    cache@,
                    age_days,
                    written,
                ),
            forall|j: int| i <= j < n ==> (#[trigger] measurements@[j])@ == before[j],
        decreases n - i,
    {
        assert(measurements@[i as int]@ == before[i as int]);
        apply_cached_floor(&mut measurements[i], cache, age_days, show);
        i = i + 1;
    }
    assert forall|written: spec_fn(Double, u8) -> Seq<char>| #[trigger]
        shows_as(*show, written) implies measurement_views(measurements@) == before.map_values(
        |m: MeasurementView| with_cached_floor(m, cache@, age_days, written),
    ) by {
        assert(measurement_views(measurements@) =~= before.map_values(
            |m: MeasurementView| with_cached_floor(m, cache@, age_days, written),
        ));
    }
}

/// Tells whether a time is that of an echo, not of a TCP handshake.
pub open spec fn of_echo(ping: PingStats) -> bool {
    ping.method is Icmp
}

fn is_of_echo(ping: &PingStats) -> (yes: bool)
    ensures
        yes == of_echo(*ping),
{
    match ping.method {
        ProbeMethod::Icmp => true,
        _ => false,
    }
}

/// The lowest echo times of the measurements that have one, each with its number.
pub open spec fn echo_timed(list: Seq<MeasurementView>) -> Seq<(usize, Double)>
    decreases list.len(),
{
    if list.len() == 0 {
        Seq::<(usize, Double)>::empty()
    } else {
        let before = echo_timed(list.drop_last());
        match list.last().ping {
            Some(ping) => if of_echo(ping) {
                before.push(((list.len() - 1) as usize, ping.min_ms))
            } else {
                before
            },
            None => before,
        }
    }
}

/// A target whose TCP handshake is to be compared with its echo time.
#[derive(Debug, Clone)]
pub struct BiasTarget {
    pub target: String,
    pub echo_ms: Double,
}

/// What a `BiasTarget` stands for.
#[verifier::ext_equal]
pub struct BiasTargetView {
    pub target: Seq<char>,
    pub echo_ms: Double,
}

/// What a list of targets stands for.
pub open spec fn bias_target_views(list: Seq<BiasTarget>) -> Seq<BiasTargetView> {
    Seq::new(
        list.len(),
        |i: int| BiasTargetView { target: list[i].target@, echo_ms: list[i].echo_ms },
    )
}

/// The targets of the four fastest measurements by echo.
pub open spec fn bias_targets_of(list: Seq<MeasurementView>) -> Seq<BiasTargetView> {
    let ranked = ascending(echo_timed(list));
    Seq::new(
        if ranked.len() < 4 {
            ranked.len()
        } else {
            4
        },
        |k: int|
            BiasTargetView {
                target: traced_target(list[ranked[k].0 as int]),
                echo_ms: ranked[k].1,
            },
    )
}

fn rank_echoes(measurements: &Vec<Measurement>) -> (ranked: Vec<(usize, Double)>)
    ensures
        ranked@ == ascending(echo_timed(measurement_views(measurements@))),
        forall|k: int| 0 <= k < ranked@.len() ==> (#[trigger] ranked@[k]).0 < measurements@.len(),
{
    let ghost all = measurement_views(measurements@);
    let mut items: Vec<(usize, Double)> = Vec::new();
    let mut i: usize = 0;
    assert(all.take(0) =~= Seq::<MeasurementView>::empty());
    while i < measurements.len()
        invariant
            all == measurement_views(measurements@),
            i <= measurements@.len(),
            forall|k: int| 0 <= k < items@.len() ==> (#[trigger] items@[k]).0 < i,
            items@ == echo_timed(all.take(i as int)),
        decreases measurements@.len() - i,
    {
        assert(all.take(i + 1).drop_last() =~= all.take(i as int));
        assert(all.take(i + 1).last() == measurements@[i as int]@);
        match &measurements[i].ping {
            Some(ping) => {
                if is_of_echo(ping) {
                    items.push((i, ping.min_ms));
                }
            },
            None => {},
        }
        i = i + 1;
    }
    assert(all.take(measurements@.len() as int) =~= all);
    let ranked = rank(&items);
    assert forall|k: int| 0 <= k < ranked@.len() implies (#[trigger] ranked@[k]).0
        < measurements@.len() by {
        lemma_ascending_members(items@, k);
    }
    ranked
}

/// The targets whose TCP handshakes are to be compared with their echo times.
pub fn tcp_bias_targets(measurements: &Vec<Measurement>) -> (targets: Vec<BiasTarget>)
    ensures
        bias_target_views(targets@) == bias_targets_of(measurement_views(measurements@)),
{
    let ghost all = measurement_views(measurements@);
    let ranked = rank_echoes(measurements);
    let n: usize = if ranked.len() < 4 {
        ranked.len()
    } else {
        4
    };
    let mut targets: Vec<BiasTarget> = Vec::new();
    let mut k: usize = 0;
    while k < n
        invariant
            all == measurement_views(measurements@),
            ranked@ == ascending(echo_timed(all)),
            n <= ranked@.len(),
            n <= 4,
            forall|j: int|
                0 <= j < ranked@.len() ==> (#[trigger] ranked@[j]).0 < measurements@.len(),
            k <= n,
            targets@.len() == k,
            forall|j: int|
                0 <= j < k ==> (#[trigger] targets@[j]).target@ == traced_target(
                    all[ranked@[j].0 as int],
                ) && targets@[j].echo_ms == ranked@[j].1,
        decreases n - k,
    {
        let at = ranked[k].0;
        assert(all[at as int] == measurements@[at as int]@);
        let target = target_of(&measurements[at]);
        targets.push(BiasTarget { target, echo_ms: ranked[k].1 });
        k = k + 1;
    }
    assert(bias_target_views(targets@) =~= bias_targets_of(all));
    targets
}

/// Tells whether a difference can be the bias of a handshake: above zero, and less
/// than ten milliseconds.
pub open spec fn plausible(rules: Rules, delta: Double) -> bool {
    delta.finite() && zero().below(delta) && delta.below(rules.count(10))
}

/// The plausible differences between handshakes and echo times.
pub open spec fn bias_deltas(
    rules: Rules,
    samples: Seq<(Double, Option<PingStats>)>,
) -> Seq<Double>
    decreases samples.len(),
{
    if samples.len() == 0 {
        Seq::<Double>::empty()
    } else {
        let before = bias_deltas(rules, samples.drop_last());
        match samples.last().1 {
            Some(tcp) => {
                let delta = rules.sub(tcp.min_ms, samples.last().0);
                if plausible(rules, delta) {
                    before.push(delta)
                } else {
                    before
                }
            },
            None => before,
        }
    }
}

/// The middle of the differences between handshakes and echo times, or zero where
/// there are none.
pub open spec fn median_bias(rules: Rules, samples: Seq<(Double, Option<PingStats>)>) -> Double {
    let deltas = bias_deltas(rules, samples);
    if deltas.len() == 0 {
        zero()
    } else {
        sorted(deltas)[(deltas.len() / 2) as int]
    }
}

/// The bias of TCP times, from the echo times of targets and their handshakes, as far
/// as those succeeded.
pub fn calibrate_tcp_bias_ms<A: Fn(Calc) -> Double>(
    samples: &Vec<(Double, Option<PingStats>)>,
    arith: &Arith<A>,
) -> (bias: Double)
    requires
        arith.complete(),
    ensures
        forall|rules: Rules| #[trigger]
            arith.follows(rules) ==> bias == median_bias(rules, samples@),
{
    let mut deltas: Vec<Double> = Vec::new();
    let mut i: usize = 0;
    assert(samples@.take(0) =~= Seq::<(Double, Option<PingStats>)>::empty());
    while i < samples.len()
        invariant
            arith.complete(),
            i <= samples@.len(),
            forall|rules: Rules| #[trigger]
                arith.follows(rules) ==> deltas@ == bias_deltas(rules, samples@.take(i as int)),
        decreases samples@.len() - i,
    {
        assert(samples@.take(i + 1).drop_last() =~= samples@.take(i as int));
        assert(samples@.take(i + 1).last() == samples@[i as int]);
        match &samples[i].1 {
            Some(tcp) => {
                let delta = arith.sub(tcp.min_ms, samples[i].0);
                if delta.is_finite() && nothing().is_below(&delta) && delta.is_below(
                    &arith.count(10),
                ) {
                    deltas.push(delta);
                }
            },
            None => {},
        }
        i = i + 1;
    }
    assert(samples@.take(samples@.len() as int) =~= samples@);
    if deltas.len() == 0 {
        return nothing();
    }
    let ordered = sort_values(&deltas);
    ordered[deltas.len() / 2]
}

/// The times of a handshake without the bias. They stay positive and in order.
pub open spec fn unbiased(rules: Rules, ping: PingStats, bias_ms: Double) -> PingStats {
    let min_ms = rules.sub(ping.min_ms, bias_ms).greater(rules.ratio(5, 100));
    let avg_ms = rules.sub(ping.avg_ms, bias_ms).greater(min_ms);
    let max_ms = rules.sub(ping.max_ms, bias_ms).greater(avg_ms);
    PingStats { min_ms, avg_ms, max_ms, ..ping }
}

/// A measurement without the bias of TCP times, if its time is one.
pub open spec fn without_bias(
    rules: Rules,
    measurement: MeasurementView,
    bias_ms: Double,
    written: spec_fn(Double, u8) -> Seq<char>,
) -> MeasurementView {
    match measurement.ping {
        Some(ping) => if of_echo(ping) {
            measurement
        } else {
            MeasurementView {
                ping: Some(unbiased(rules, ping, bias_ms)),
                notes: measurement.notes.push(
                    "applied TCP bias correction of "@ + written(bias_ms, 2) + " ms"@,
                ),
                ..measurement
            }
        },
        None => measurement,
    }
}

fn remove_bias<A: Fn(Calc) -> Double, S: Fn(Double, u8) -> String>(
    measurement: &mut Measurement,
    bias_ms: Double,
    arith: &Arith<A>,
    show: &S,
)
    requires
        arith.complete(),
        writes_all(*show),
    ensures
        forall|rules: Rules, written: spec_fn(Double, u8) -> Seq<char>|
            #![trigger arith.follows(rules), shows_as(*show, written)]
            arith.follows(rules) && shows_as(*show, written) ==> final(measurement)@
                == without_bias(rules, old(measurement)@, bias_ms, written),
{
    match measurement.ping {
        Some(ping) => {
            if !is_of_echo(&ping) {
                let min_ms = arith.sub(ping.min_ms, bias_ms).max(arith.ratio(5, 100));
                let avg_ms = arith.sub(ping.avg_ms, bias_ms).max(min_ms);
                let max_ms = arith.sub(ping.max_ms, bias_ms).max(avg_ms);
                measurement.ping = Some(PingStats { min_ms, avg_ms, max_ms, ..ping });
                let mut note = "applied TCP bias correction of ".to_owned();
                let bias = show(bias_ms, 2);
                note.append(bias.as_str());
                note.append(" ms");
                push_string(&mut measurement.notes, note);
            }
        },
        None => {},
    }
}

/// Takes the bias of TCP times out of the measurements. A bias that is not positive
/// changes nothing.
pub fn apply_tcp_bias_correction<A: Fn(Calc) -> Double, S: Fn(Double, u8) -> String>(
    measurements: &mut Vec<Measurement>,
    tcp_bias_ms: Double,
    arith: &Arith<A>,
    show: &S,
)
    requires
        arith.complete(),
        writes_all(*show),
    ensures
        tcp_bias_ms.at_most(zero()) ==> final(measurements)@ == old(measurements)@,
        forall|rules: Rules, written: spec_fn(Double, u8) -> Seq<char>|
            #![trigger arith.follows(rules), shows_as(*show, written)]
            !tcp_bias_ms.at_most(zero()) && arith.follows(rules) && shows_as(*show, written)
                ==> measurement_views(final(measurements)@) == measurement_views(
                old(measurements)@,
            ).map_values(|m: MeasurementView| without_bias(rules, m, tcp_bias_ms, written)),
{
    if tcp_bias_ms.is_at_most(&nothing()) {
        return;
    }
    let ghost before = measurement_views(measurements@);
    let n: usize = measurements.len();
    let mut i: usize = 0;
    while i < n
        invariant
            arith.complete(),
            writes_all(*show),
            n == measurements@.len(),
            n == before.len(),
            i <= n,
            forall|rules: Rules, written: spec_fn(Double, u8) -> Seq<char>, j: int|
                #![trigger arith.follows(rules), shows_as(*show, written), measurements@[j]]
                arith.follows(rules) && shows_as(*show, written) && 0 <= j < i
                    ==> measurements@[j]@ == without_bias(rules, before[j], tcp_bias_ms, written),
            forall|j: int| i <= j < n ==> (#[trigger] measurements@[j])@ == before[j],
        decreases n - i,
    {
        assert(measurements@[i as int]@ == before[i as int]);
        remove_bias(&mut measurements[i], tcp_bias_ms, arith, show);
        i = i + 1;
    }
    assert forall|rules: Rules, written: spec_fn(Double, u8) -> Seq<char>|
        #![trigger arith.follows(rules), shows_as(*show, written)]
        arith.follows(rules) && shows_as(*show, written) implies measurement_views(measurements@)
        == before.map_values(
        |m: MeasurementView| without_bias(rules, m, tcp_bias_ms, written),
    ) by {
        assert(measurement_views(measurements@) =~= before.map_values(
            |m: MeasurementView| without_bias(rules, m, tcp_bias_ms, written),
        ));
    }
}

} // verus!
