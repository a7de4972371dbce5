//! What calibration goes by: the fastest measurements are traced and compared, the bias of
//! handshakes is the middle of what they take longer, and the floor is the lowest time near
//! the local host. And what is read from the commands that this takes.

use crate::calc::Rules;
use crate::calc_laws::{capped, lemma_sizes, orderly, sized};
use crate::calibrate::{
    bias_deltas, bias_targets_of, echo_timed, leading, median_bias, of_echo, plausible, timed,
    unbiased, BiasTargetView,
};
use crate::commands::{
    candidates_of_hops, distinct_ips, gateway_of_route, gateway_of_routes, has_target,
    name_in_entries, name_in_entry, timeout_secs, word_position, AddressView, CandidateView,
};
use crate::double::{zero, Double};
use crate::ping::ping_stats;
use crate::posterior::sorted;
use crate::probe::{CommandOutput, HopView, MeasurementView, PingStats};
use crate::ranking::{ascending, lemma_ascending_members, lemma_ascending_orders};
use crate::rounds::{local_floor, lowest_time, traced_target};
use crate::solver_laws::lemma_sorted_ascends;
use crate::text::words;
use vstd::prelude::*;

verus! {

proof fn lemma_timed(list: Seq<MeasurementView>)
    requires
        list.len() <= usize::MAX,
    ensures
        timed(list).len() <= list.len(),
        forall|k: int|
            0 <= k < timed(list).len() ==> {
                let item = #[trigger] timed(list)[k];
                item.0 < list.len() && list[item.0 as int].ping is Some
                    && list[item.0 as int].ping->0.min_ms == item.1
            },
        forall|i: int|
            0 <= i < list.len() && (#[trigger] list[i]).ping is Some ==> timed(list).contains(
                (i as usize, list[i].ping->0.min_ms),
            ),
    decreases list.len(),
{
    if list.len() > 0 {
        let shorter = list.drop_last();
        lemma_timed(shorter);
        let before = timed(shorter);
        let after = timed(list);
        let n = list.len() - 1;
        assert forall|k: int| 0 <= k < after.len() implies ({
            let item = #[trigger] after[k];
            item.0 < list.len() && list[item.0 as int].ping is Some
                && list[item.0 as int].ping->0.min_ms == item.1
        }) by {
            if k < before.len() {
                assert(after[k] == before[k]);
                assert(shorter[before[k].0 as int] == list[before[k].0 as int]);
            }
        }
        assert forall|i: int| 0 <= i < list.len() && (
        #[trigger] list[i]).ping is Some implies after.contains(
            (i as usize, list[i].ping->0.min_ms),
        ) by {
            if i < n {
                assert(shorter[i] == list[i]);
                let k = choose|k: int|
                    0 <= k < before.len() && before[k] == (i as usize, list[i].ping->0.min_ms);
                assert(after[k] == before[k]);
            } else {
                assert(after[before.len() as int] == (i as usize, list[i].ping->0.min_ms));
            }
        }
    }
}

proof fn lemma_ranked_has(items: Seq<(usize, Double)>, item: (usize, Double)) -> (k: int)
    requires
        items.contains(item),
    ensures
        0 <= k < ascending(items).len(),
        ascending(items)[k] == item,
{
    broadcast use vstd::seq_lib::group_to_multiset_ensures;

    lemma_ascending_orders(items);
    assert(items.to_multiset().contains(item));
    assert(ascending(items).contains(item));
    choose|k: int| 0 <= k < ascending(items).len() && ascending(items)[k] == item
}

/// The fastest measurements are the ones that are traced. Each that is has a time, and one
/// with a time that is not is no faster than any of them, and is only left out where there
/// are as many as are wanted.
pub proof fn lemma_fastest_are_traced(list: Seq<MeasurementView>, most: int)
    requires
        list.len() <= usize::MAX,
        0 <= most,
    ensures
        ({
            let chosen = leading(ascending(timed(list)), most);
            &&& chosen.len() <= most
            &&& forall|k: int|
                0 <= k < chosen.len() ==> (#[trigger] chosen[k]) < list.len()
                    && list[chosen[k] as int].ping is Some
            &&& forall|i: int|
                0 <= i < list.len() && (#[trigger] list[i]).ping is Some && !chosen.contains(
                    i as usize,
                ) ==> chosen.len() == most && forall|k: int|
                    0 <= k < chosen.len() ==> list[(
                    #[trigger] chosen[k]) as int].ping->0.min_ms.total_place()
                        <= list[i].ping->0.min_ms.total_place()
        }),
{
    lemma_timed(list);
    let items = timed(list);
    let ranked = ascending(items);
    lemma_ascending_orders(items);
    let chosen = leading(ranked, most);
    assert forall|k: int| 0 <= k < chosen.len() implies (#[trigger] chosen[k]) < list.len()
        && list[chosen[k] as int].ping is Some && list[chosen[k] as int].ping->0.min_ms
        == ranked[k].1 by {
        lemma_ascending_members(items, k);
        let m = choose|m: int| 0 <= m < items.len() && items[m] == ranked[k];
        assert(items[m].0 == chosen[k]);
    }
    assert forall|i: int| 0 <= i < list.len() && (#[trigger] list[i]).ping is Some
        && !chosen.contains(i as usize) implies chosen.len() == most && forall|k: int|
        0 <= k < chosen.len() ==> list[(
        #[trigger] chosen[k]) as int].ping->0.min_ms.total_place()
            <= list[i].ping->0.min_ms.total_place() by {
        let at = lemma_ranked_has(items, (i as usize, list[i].ping->0.min_ms));
        if at < chosen.len() {
            assert(chosen[at] == i as usize);
        }
        assert forall|k: int| 0 <= k < chosen.len() implies list[(
        #[trigger] chosen[k]) as int].ping->0.min_ms.total_place()
            <= list[i].ping->0.min_ms.total_place() by {
            assert(ranked[k].1.total_place() <= ranked[at].1.total_place());
        }
    }
}

proof fn lemma_echo_timed(list: Seq<MeasurementView>)
    requires
        list.len() <= usize::MAX,
    ensures
        forall|k: int|
            0 <= k < echo_timed(list).len() ==> {
                let item = #[trigger] echo_timed(list)[k];
                item.0 < list.len() && (list[item.0 as int].ping matches Some(ping) && of_echo(
                    ping,
                ) && ping.min_ms == item.1)
            },
        forall|i: int|
            0 <= i < list.len() && ((#[trigger] list[i]).ping matches Some(ping) && of_echo(ping))
                ==> echo_timed(list).contains((i as usize, list[i].ping->0.min_ms)),
    decreases list.len(),
{
    if list.len() > 0 {
        let shorter = list.drop_last();
        lemma_echo_timed(shorter);
        let before = echo_timed(shorter);
        let after = echo_timed(list);
        let n = list.len() - 1;
        assert forall|k: int| 0 <= k < after.len() implies ({
            let item = #[trigger] after[k];
            item.0 < list.len() && (list[item.0 as int].ping matches Some(ping) && of_echo(ping)
                && ping.min_ms == item.1)
        }) by {
            if k < before.len() {
                assert(after[k] == before[k]);
                assert(shorter[before[k].0 as int] == list[before[k].0 as int]);
            }
        }
        assert forall|i: int|
            0 <= i < list.len() && ((#[trigger] list[i]).ping matches Some(ping) && of_echo(
                ping,
            )) implies after.contains((i as usize, list[i].ping->0.min_ms)) by {
            if i < n {
                assert(shorter[i] == list[i]);
                let k = choose|k: int|
                    0 <= k < before.len() && before[k] == (i as usize, list[i].ping->0.min_ms);
                assert(after[k] == before[k]);
            } else {
                assert(after[before.len() as int] == (i as usize, list[i].ping->0.min_ms));
            }
        }
    }
}

/// Tells whether a target is that of a measurement by echo, with the time of that.
pub open spec fn compared(measurement: MeasurementView, target: BiasTargetView) -> bool {
    measurement.ping matches Some(ping) && of_echo(ping) && ping.min_ms == target.echo_ms
        && traced_target(measurement) == target.target
}

/// Tells whether there are four targets, none of them slower than this time.
pub open spec fn four_are_faster(targets: Seq<BiasTargetView>, time: Double) -> bool {
    targets.len() == 4 && forall|k: int|
        0 <= k < 4 ==> (#[trigger] targets[k]).echo_ms.total_place() <= time.total_place()
}

/// Handshakes are compared with echoes where the echoes are fastest. Every target is that of
/// a measurement by echo, with the time of that. A measurement by echo that gives no target
/// is only left out where there are four, none of them slower.
pub proof fn lemma_fastest_echoes_are_compared(list: Seq<MeasurementView>)
    requires
        list.len() <= usize::MAX,
    ensures
        bias_targets_of(list).len() <= 4,
        forall|k: int|
            0 <= k < bias_targets_of(list).len() ==> exists|i: int|
                0 <= i < list.len() && compared(
                    #[trigger] list[i],
                    #[trigger] bias_targets_of(list)[k],
                ),
        forall|i: int|
            0 <= i < list.len() && ((#[trigger] list[i]).ping matches Some(ping) && of_echo(ping))
                ==> four_are_faster(bias_targets_of(list), list[i].ping->0.min_ms) || exists|k: int|
                0 <= k < bias_targets_of(list).len() && compared(
                    list[i],
                    #[trigger] bias_targets_of(list)[k],
                ),
{
    lemma_echo_timed(list);
    let items = echo_timed(list);
    let ranked = ascending(items);
    lemma_ascending_orders(items);
    let targets = bias_targets_of(list);
    assert forall|k: int| 0 <= k < targets.len() implies exists|i: int|
        0 <= i < list.len() && compared(#[trigger] list[i], #[trigger] targets[k]) by {
        lemma_ascending_members(items, k);
        let m = choose|m: int| 0 <= m < items.len() && items[m] == ranked[k];
        let i = items[m].0 as int;
        assert(compared(list[i], targets[k]));
    }
    assert forall|i: int|
        0 <= i < list.len() && ((#[trigger] list[i]).ping matches Some(ping) && of_echo(
            ping,
        )) implies four_are_faster(targets, list[i].ping->0.min_ms) || exists|k: int|
        0 <= k < targets.len() && compared(list[i], #[trigger] targets[k]) by {
        lemma_compared(list, i);
    }
}

proof fn lemma_compared(list: Seq<MeasurementView>, i: int)
    requires
        list.len() <= usize::MAX,
        0 <= i < list.len(),
        list[i].ping is Some,
        of_echo(list[i].ping->0),
    ensures
        four_are_faster(bias_targets_of(list), list[i].ping->0.min_ms) || exists|k: int|
            0 <= k < bias_targets_of(list).len() && compared(
                list[i],
                #[trigger] bias_targets_of(list)[k],
            ),
{
    lemma_echo_timed(list);
    let items = echo_timed(list);
    let ranked = ascending(items);
    lemma_ascending_orders(items);
    let targets = bias_targets_of(list);
    let at = lemma_ranked_has(items, (i as usize, list[i].ping->0.min_ms));
    if at < targets.len() {
        assert(compared(list[i], targets[at]));
    } else {
        assert forall|k: int| 0 <= k < 4 implies (#[trigger] targets[k]).echo_ms.total_place()
            <= list[i].ping->0.min_ms.total_place() by {
            assert(ranked[k].1.total_place() <= ranked[at].1.total_place());
        }
    }
}

/// Tells whether a handshake took longer than an echo by so much.
pub open spec fn took_longer(
    rules: Rules,
    sample: (Double, Option<PingStats>),
    delta: Double,
) -> bool {
    sample.1 matches Some(tcp) && delta == rules.sub(tcp.min_ms, sample.0)
}

proof fn lemma_deltas(rules: Rules, samples: Seq<(Double, Option<PingStats>)>)
    ensures
        bias_deltas(rules, samples).len() <= samples.len(),
        forall|k: int|
            0 <= k < bias_deltas(rules, samples).len() ==> plausible(
                rules,
                #[trigger] bias_deltas(rules, samples)[k],
            ) && exists|i: int|
                0 <= i < samples.len() && took_longer(
                    rules,
                    #[trigger] samples[i],
                    bias_deltas(rules, samples)[k],
                ),
        forall|i: int, delta: Double|
            0 <= i < samples.len() && #[trigger] took_longer(rules, samples[i], delta)
                && plausible(rules, delta) ==> bias_deltas(rules, samples).contains(delta),
    decreases samples.len(),
{
    if samples.len() > 0 {
        let shorter = samples.drop_last();
        lemma_deltas(rules, shorter);
        let before = bias_deltas(rules, shorter);
        let after = bias_deltas(rules, samples);
        assert forall|k: int| 0 <= k < after.len() implies plausible(rules, #[trigger] after[k])
            && exists|i: int|
            0 <= i < samples.len() && took_longer(rules, #[trigger] samples[i], after[k]) by {
            if k < before.len() {
                assert(after[k] == before[k]);
                let i = choose|i: int|
                    0 <= i < shorter.len() && took_longer(rules, #[trigger] shorter[i], before[k]);
                assert(samples[i] == shorter[i]);
            } else {
                assert(took_longer(rules, samples[samples.len() - 1], after[k]));
            }
        }
        assert forall|i: int, delta: Double|
            0 <= i < samples.len() && #[trigger] took_longer(rules, samples[i], delta)
                && plausible(rules, delta) implies after.contains(delta) by {
            if i < shorter.len() {
                assert(took_longer(rules, shorter[i], delta));
                let k = choose|k: int| 0 <= k < before.len() && before[k] == delta;
                assert(after[k] == delta);
            } else {
                assert(after[before.len() as int] == delta);
            }
        }
    }
}

/// The bias is what some handshake took longer than the echo of its target, by more than
/// nothing and less than ten milliseconds. As many such differences, give or take one, are
/// below it as above it: by their order, it is the middle one. Where there is no such
/// difference there is no bias.
pub proof fn lemma_bias_is_the_middle(
    rules: Rules,
    samples: Seq<(Double, Option<PingStats>)>,
    k: int,
)
    requires
        samples.len() <= usize::MAX,
        0 <= k < bias_deltas(rules, samples).len() || bias_deltas(rules, samples).len() == 0,
    ensures
        ({
            let bias_ms = median_bias(rules, samples);
            let deltas = bias_deltas(rules, samples);
            &&& deltas.len() == 0 ==> bias_ms == zero()
            &&& (exists|i: int, delta: Double|
                0 <= i < samples.len() && #[trigger] took_longer(rules, samples[i], delta)
                    && plausible(rules, delta)) ==> plausible(rules, bias_ms)
            &&& deltas.len() > 0 ==> {
                &&& plausible(rules, bias_ms)
                &&& exists|i: int|
                    0 <= i < samples.len() && took_longer(rules, #[trigger] samples[i], bias_ms)
                &&& 2 * k <= deltas.len() ==> sorted(deltas)[k].total_place()
                    <= bias_ms.total_place()
                &&& 2 * k + 1 >= deltas.len() ==> bias_ms.total_place() <= sorted(
                    deltas,
                )[k].total_place()
            }
        }),
{
    let deltas = bias_deltas(rules, samples);
    lemma_deltas(rules, samples);
    lemma_sorted_ascends(deltas);
    if deltas.len() > 0 {
        let bias_ms = median_bias(rules, samples);
        let at = (deltas.len() / 2) as int;
        assert(sorted(deltas)[at] == bias_ms);
        assert(deltas.contains(sorted(deltas)[at]));
        let m = choose|m: int| 0 <= m < deltas.len() && deltas[m] == bias_ms;
        assert(plausible(rules, deltas[m]));
    }
    if exists|i: int, delta: Double|
        0 <= i < samples.len() && #[trigger] took_longer(rules, samples[i], delta) && plausible(
            rules,
            delta,
        ) {
        let (i, delta) = choose|i: int, delta: Double|
            0 <= i < samples.len() && #[trigger] took_longer(rules, samples[i], delta)
                && plausible(rules, delta);
        assert(deltas.contains(delta));
    }
}

/// Taking out a bias lowers a time, but not below a twentieth of a millisecond, and a time
/// that was lower stays so.
pub proof fn lemma_bias_is_taken_out(
    rules: Rules,
    fast: PingStats,
    slow: PingStats,
    bias_ms: Double,
)
    requires
        orderly(rules),
        sized(fast.min_ms, 20),
        sized(slow.min_ms, 20),
        capped(bias_ms, 20),
        fast.min_ms.at_most(slow.min_ms),
    ensures
        rules.ratio(5, 100).at_most(unbiased(rules, fast, bias_ms).min_ms),
        unbiased(rules, fast, bias_ms).min_ms.at_most(unbiased(rules, slow, bias_ms).min_ms),
        rules.ratio(5, 100).at_most(fast.min_ms) ==> unbiased(rules, fast, bias_ms).min_ms.at_most(
            fast.min_ms,
        ),
        rules.ratio(5, 100).at_most(rules.sub(fast.min_ms, bias_ms)) ==> unbiased(
            rules,
            fast,
            bias_ms,
        ).min_ms == rules.sub(fast.min_ms, bias_ms),
        unbiased(rules, fast, bias_ms).method == fast.method,
{
    reveal(orderly);
    lemma_sizes(fast.min_ms, 20);
    lemma_sizes(slow.min_ms, 20);
    lemma_sizes(bias_ms, 20);
    let least = rules.ratio(5, 100);
    assert(sized(least, 14));
    lemma_sizes(least, 14);
    assert(rules.sub(fast.min_ms, bias_ms).at_most(rules.sub(slow.min_ms, bias_ms)));
    assert(rules.sub(fast.min_ms, bias_ms).at_most(rules.sub(fast.min_ms, zero())));
    assert(rules.sub(fast.min_ms, zero()).equals(fast.min_ms));
}

/// A command may wait for whole seconds: long enough, but not a second longer than it takes
/// to be that, except that it is one second at least.
pub proof fn lemma_timeout_is_long_enough(timeout_ms: u64)
    ensures
        timeout_secs(timeout_ms) >= 1,
        timeout_secs(timeout_ms) * 1000 >= timeout_ms,
        timeout_secs(timeout_ms) > 1 ==> (timeout_secs(timeout_ms) - 1) * 1000 < timeout_ms,
{
}

proof fn lemma_word_position(found: Seq<Seq<char>>, word: Seq<char>, at: int)
    requires
        0 <= at < found.len(),
        found[at] == word,
        forall|i: int| 0 <= i < at ==> #[trigger] found[i] != word,
    ensures
        word_position(found, word) == at,
    decreases found.len(),
{
    if at > 0 {
        assert(found[0] != word);
        let rest = found.skip(1);
        assert forall|i: int| 0 <= i < at - 1 implies #[trigger] rest[i] != word by {
            assert(rest[i] == found[i + 1]);
        }
        lemma_word_position(rest, word, at - 1);
    }
}

proof fn lemma_word_missing(found: Seq<Seq<char>>, word: Seq<char>)
    requires
        !found.contains(word),
    ensures
        word_position(found, word) == found.len(),
    decreases found.len(),
{
    if found.len() > 0 {
        assert(found.contains(found[0]));
        let rest = found.skip(1);
        assert(!rest.contains(word)) by {
            if rest.contains(word) {
                let i = choose|i: int| 0 <= i < rest.len() && rest[i] == word;
                assert(found[i + 1] == word);
            }
        }
        lemma_word_missing(rest, word);
    }
}

/// The gateway of a route is the word behind its first `via`. A route without that word, or
/// with nothing behind it, names none.
pub proof fn lemma_gateway_stands_behind_via(
    head: Seq<Seq<char>>,
    gateway: Seq<char>,
    rest: Seq<Seq<char>>,
)
    requires
        !head.contains("via"@),
    ensures
        gateway_of_route(head + seq!["via"@, gateway] + rest) == Some(gateway),
        gateway_of_route(head) is None,
        gateway_of_route(head + seq!["via"@]) is None,
{
    let all = head + seq!["via"@, gateway] + rest;
    assert(all[head.len() as int] == "via"@);
    assert(all[head.len() as int + 1] == gateway);
    assert forall|i: int| 0 <= i < head.len() implies #[trigger] all[i] != "via"@ by {
        assert(all[i] == head[i]);
        assert(head.contains(head[i]));
    }
    lemma_word_position(all, "via"@, head.len() as int);
    lemma_word_missing(head, "via"@);
    let short = head + seq!["via"@];
    assert forall|i: int| 0 <= i < head.len() implies #[trigger] short[i] != "via"@ by {
        assert(short[i] == head[i]);
        assert(head.contains(head[i]));
    }
    lemma_word_position(short, "via"@, head.len() as int);
}

/// The default gateway is that of the first route that names one.
pub proof fn lemma_first_gateway_counts(routes: Seq<Seq<char>>, at: int)
    requires
        0 <= at <= routes.len(),
        forall|i: int|
            0 <= i < at ==> gateway_of_route(words(#[trigger] routes[i])) is None,
        at < routes.len() ==> gateway_of_route(words(routes[at])) is Some,
    ensures
        at < routes.len() ==> gateway_of_routes(routes) == gateway_of_route(words(routes[at])),
        at == routes.len() ==> gateway_of_routes(routes) is None,
    decreases routes.len(),
{
    if at > 0 {
        assert(gateway_of_route(words(routes[0])) is None);
        let rest = routes.skip(1);
        assert forall|i: int| 0 <= i < at - 1 implies gateway_of_route(
            words(#[trigger] rest[i]),
        ) is None by {
            assert(rest[i] == routes[i + 1]);
        }
        lemma_first_gateway_counts(rest, at - 1);
    }
}

/// The name of an address is the second word of the first entry whose first word is the
/// address, and there is none without such an entry.
pub proof fn lemma_first_name_counts(entries: Seq<Seq<char>>, ip: Seq<char>, at: int)
    requires
        0 <= at <= entries.len(),
        forall|i: int|
            0 <= i < at ==> words(#[trigger] entries[i]).len() < 2 || words(entries[i])[0] != ip,
        at < entries.len() ==> words(entries[at]).len() >= 2 && words(entries[at])[0] == ip,
    ensures
        at < entries.len() ==> name_in_entries(entries, ip) == Some(words(entries[at])[1]),
        at == entries.len() ==> name_in_entries(entries, ip) is None,
    decreases entries.len(),
{
    if at > 0 {
        assert(name_in_entry(words(entries[0]), ip) is None);
        let rest = entries.skip(1);
        assert forall|i: int| 0 <= i < at - 1 implies words(#[trigger] rest[i]).len() < 2 || words(
            rest[i],
        )[0] != ip by {
            assert(rest[i] == entries[i + 1]);
        }
        lemma_first_name_counts(rest, ip, at - 1);
    }
}

/// Tells whether an address is listed and not left out on demand.
pub open spec fn is_wanted(list: Seq<AddressView>, ipv4_only: bool, ip: Seq<char>) -> bool {
    exists|i: int|
        0 <= i < list.len() && (#[trigger] list[i]).ip == ip && (!ipv4_only || list[i].is_ipv4)
}

/// All addresses are kept that are not left out on demand, and no others. The first one is
/// kept first.
pub proof fn lemma_addresses_are_kept(list: Seq<AddressView>, ipv4_only: bool)
    ensures
        forall|ip: Seq<char>|
            #[trigger] distinct_ips(list, ipv4_only).contains(ip) <==> is_wanted(
                list,
                ipv4_only,
                ip,
            ),
        list.len() > 0 && (!ipv4_only || list[0].is_ipv4) ==> distinct_ips(list, ipv4_only).len()
            > 0 && distinct_ips(list, ipv4_only)[0] == list[0].ip,
    decreases list.len(),
{
    assert forall|ip: Seq<char>| #[trigger] distinct_ips(
        list,
        ipv4_only,
    ).contains(ip) <==> is_wanted(list, ipv4_only, ip) by {
        lemma_address_is_kept(list, ipv4_only, ip);
    }
    if list.len() > 1 {
        assert(list.drop_last()[0] == list[0]);
        lemma_addresses_are_kept(list.drop_last(), ipv4_only);
    } else if list.len() == 1 {
        assert(distinct_ips(list.drop_last(), ipv4_only) =~= Seq::<Seq<char>>::empty());
    }
}

proof fn lemma_address_is_kept(list: Seq<AddressView>, ipv4_only: bool, ip: Seq<char>)
    ensures
        distinct_ips(list, ipv4_only).contains(ip) <==> is_wanted(list, ipv4_only, ip),
    decreases list.len(),
{
    if list.len() > 0 {
        let shorter = list.drop_last();
        lemma_address_is_kept(shorter, ipv4_only, ip);
        let before = distinct_ips(shorter, ipv4_only);
        let after = distinct_ips(list, ipv4_only);
        let last = list[list.len() - 1];
        if is_wanted(shorter, ipv4_only, ip) {
            let i = choose|i: int|
                0 <= i < shorter.len() && (#[trigger] shorter[i]).ip == ip && (!ipv4_only
                    || shorter[i].is_ipv4);
            assert(list[i] == shorter[i]);
            let k = choose|k: int| 0 <= k < before.len() && before[k] == ip;
            assert(after[k] == ip);
        } else if is_wanted(list, ipv4_only, ip) {
            let i = choose|i: int|
                0 <= i < list.len() && (#[trigger] list[i]).ip == ip && (!ipv4_only
                    || list[i].is_ipv4);
            if i < shorter.len() {
                assert(shorter[i] == list[i]);
            }
            assert(last.ip == ip);
            assert(after == before.push(ip));
            assert(after[before.len() as int] == ip);
        } else if after.contains(ip) {
            let k = choose|k: int| 0 <= k < after.len() && after[k] == ip;
            if k < before.len() {
                assert(before[k] == ip);
            } else {
                assert(list[list.len() - 1].ip == ip);
            }
        }
    }
}

/// Every hop with an address gives a target, every target is the address of a hop, and none
/// is given twice.
pub proof fn lemma_hops_give_targets(hops: Seq<HopView>)
    ensures
        forall|i: int|
            0 <= i < hops.len() && (#[trigger] hops[i]).address is Some ==> has_target(
                candidates_of_hops(hops),
                hops[i].address->0,
            ),
        forall|k: int|
            0 <= k < candidates_of_hops(hops).len() ==> exists|i: int|
                0 <= i < hops.len() && (#[trigger] hops[i]).address == Some(
                    (#[trigger] candidates_of_hops(hops)[k]).target,
                ),
        forall|j: int, k: int|
            0 <= j < k < candidates_of_hops(hops).len() ==> (
            #[trigger] candidates_of_hops(hops)[j]).target != (
            #[trigger] candidates_of_hops(hops)[k]).target,
    decreases hops.len(),
{
    if hops.len() > 0 {
        let shorter = hops.drop_last();
        lemma_hops_give_targets(shorter);
        let before = candidates_of_hops(shorter);
        let after = candidates_of_hops(hops);
        let last = hops[hops.len() - 1];
        assert forall|i: int|
            0 <= i < hops.len() && (#[trigger] hops[i]).address is Some implies has_target(
            after,
            hops[i].address->0,
        ) by {
            if i < shorter.len() {
                assert(shorter[i] == hops[i]);
                let k = choose|k: int|
                    0 <= k < before.len() && (#[trigger] before[k]).target == hops[i].address->0;
                assert(after[k] == before[k]);
            } else if !has_target(before, last.address->0) {
                assert(after[before.len() as int].target == last.address->0);
            }
        }
        assert forall|k: int| 0 <= k < after.len() implies exists|i: int|
            0 <= i < hops.len() && (#[trigger] hops[i]).address == Some(
                (#[trigger] after[k]).target,
            ) by {
            if k < before.len() {
                assert(after[k] == before[k]);
                let i = choose|i: int|
                    0 <= i < shorter.len() && (#[trigger] shorter[i]).address == Some(
                        before[k].target,
                    );
                assert(hops[i] == shorter[i]);
            } else {
                assert(hops[hops.len() - 1].address == Some(after[k].target));
            }
        }
    }
}

/// Tells whether a ping gives this time.
pub open spec fn gives_time(
    output: CommandOutput,
    meaning: spec_fn(Seq<char>) -> Option<Double>,
    time: Double,
) -> bool {
    ping_stats(output.stdout@, meaning) matches Some(stats) && stats.min_ms == time
}

/// The time of a target is the lowest that any of its pings gives, and there is none if and
/// only if none gives one.
pub proof fn lemma_lowest_of_pings(
    outputs: Seq<CommandOutput>,
    meaning: spec_fn(Seq<char>) -> Option<Double>,
)
    requires
        forall|i: int, time: Double|
            0 <= i < outputs.len() && #[trigger] gives_time(outputs[i], meaning, time)
                ==> !time.nan(),
    ensures
        forall|i: int, time: Double|
            0 <= i < outputs.len() && #[trigger] gives_time(outputs[i], meaning, time) ==> (
            lowest_time(outputs, meaning) matches Some(least) && least.at_most(time)),
        lowest_time(outputs, meaning) matches Some(least) ==> exists|i: int|
            0 <= i < outputs.len() && gives_time(#[trigger] outputs[i], meaning, least),
    decreases outputs.len(),
{
    if outputs.len() > 0 {
        let shorter = outputs.drop_last();
        let last = outputs[outputs.len() - 1];
        assert forall|i: int, time: Double|
            0 <= i < shorter.len() && #[trigger] gives_time(
                shorter[i],
                meaning,
                time,
            ) implies !time.nan() by {
            assert(gives_time(outputs[i], meaning, time));
        }
        lemma_lowest_of_pings(shorter, meaning);
        let before = lowest_time(shorter, meaning);
        let after = lowest_time(outputs, meaning);
        if let Some(stats) = ping_stats(last.stdout@, meaning) {
            assert(gives_time(outputs[outputs.len() - 1], meaning, stats.min_ms));
        }
        if let Some(least) = before {
            let i = choose|i: int|
                0 <= i < shorter.len() && gives_time(#[trigger] shorter[i], meaning, least);
            assert(gives_time(outputs[i], meaning, least));
        }
        assert forall|i: int, time: Double|
            0 <= i < outputs.len() && #[trigger] gives_time(outputs[i], meaning, time) implies (
        after matches Some(least) && least.at_most(time)) by {
            if i < shorter.len() {
                assert(gives_time(shorter[i], meaning, time));
            }
        }
    }
}

/// The local floor is the lowest time of any target near the local host, with that target
/// and how it was found. There is one if and only if a target has a time.
pub proof fn lemma_local_floor_is_lowest(
    candidates: Seq<CandidateView>,
    outputs: Seq<Vec<CommandOutput>>,
    meaning: spec_fn(Seq<char>) -> Option<Double>,
)
    requires
        candidates.len() == outputs.len(),
        forall|i: int|
            0 <= i < outputs.len() ==> (lowest_time((#[trigger] outputs[i])@, meaning) matches Some(
                time,
            ) ==> !time.nan()),
    ensures
        forall|i: int|
            0 <= i < outputs.len() ==> (lowest_time((#[trigger] outputs[i])@, meaning) matches Some(
                time,
            ) ==> (local_floor(candidates, outputs, meaning) matches Some(floor)
                && floor.min_ms.at_most(time))),
        local_floor(candidates, outputs, meaning) matches Some(floor) ==> exists|i: int|
            0 <= i < outputs.len() && lowest_time((#[trigger] outputs[i])@, meaning) == Some(
                floor.min_ms,
            ) && candidates[i].target == floor.target && candidates[i].source == floor.source,
    decreases candidates.len(),
{
    if candidates.len() > 0 {
        let fewer = candidates.drop_last();
        let shorter = outputs.drop_last();
        assert forall|i: int| 0 <= i < shorter.len() implies (lowest_time(
            (#[trigger] shorter[i])@,
            meaning,
        ) matches Some(time) ==> !time.nan()) by {
            assert(shorter[i] == outputs[i]);
        }
        lemma_local_floor_is_lowest(fewer, shorter, meaning);
        let before = local_floor(fewer, shorter, meaning);
        let after = local_floor(candidates, outputs, meaning);
        let n = outputs.len() - 1;
        assert(lowest_time(outputs[n]@, meaning) matches Some(time) ==> !time.nan());
        if let Some(floor) = before {
            let i = choose|i: int|
                0 <= i < shorter.len() && lowest_time((#[trigger] shorter[i])@, meaning) == Some(
                    floor.min_ms,
                ) && fewer[i].target == floor.target && fewer[i].source == floor.source;
            assert(outputs[i] == shorter[i]);
            assert(candidates[i] == fewer[i]);
            assert(!floor.min_ms.nan());
        }
        assert forall|i: int| 0 <= i < outputs.len() implies (lowest_time(
            (#[trigger] outputs[i])@,
            meaning,
        ) matches Some(time) ==> (after matches Some(floor) && floor.min_ms.at_most(time))) by {
            if i < n {
                assert(shorter[i] == outputs[i]);
            }
        }
    }
}

} // verus!
