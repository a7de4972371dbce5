//! What a measurement amounts to as a constraint, which constraints count for which part of
//! the score, and what the names that were seen amount to as hints.

use crate::anchors::{anchor_list, anchor_of};
use crate::calc::Rules;
use crate::calc_laws::{capped, lemma_sizes, nonneg, orderly, sized};
use crate::cluster::cluster_members;
use crate::double::{zero, Double};
use crate::fit_laws::{exact_on_wholes, quotient, told_apart};
use crate::geometry::{distance_to, Place};
use crate::hints::{anchors_of, hint_of, EntryView};
use crate::prior_laws::{comparable, lemma_every_pair_counts, lemma_spreads_count};
use crate::priors::{
    first, local_constraints, next_four, order_score, spread_score, spread_term, with_pair, within,
};
use crate::probe::{reach_km, PingStats, ProbeMethod};
use crate::score_laws::lemma_left;
use crate::solver::{jitter, quality, Constraint};
use vstd::prelude::*;

verus! {

/// Tells whether the numbers of a ping are of a size that measured ones have.
pub open spec fn measurable(ping: PingStats) -> bool {
    capped(ping.min_ms, 20) && capped(ping.avg_ms, 20) && capped(ping.mdev_ms, 20)
}

/// A time varies by what it deviates by at least, by three quarters of what the average is
/// above the lowest time, and by what the cache leaves uncertain. Where there is nothing of
/// all that it does not vary.
#[verifier::rlimit(60)]
pub proof fn lemma_jitter_counts(rules: Rules, ping: PingStats, cache_uncertainty_ms: Double)
    requires
        orderly(rules),
        measurable(ping),
        capped(cache_uncertainty_ms, 20),
    ensures
        ({
            let jitter_ms = jitter(rules, ping, cache_uncertainty_ms);
            let spread_ms = rules.sub(ping.avg_ms, ping.min_ms);
            &&& ping.mdev_ms.at_most(jitter_ms)
            &&& cache_uncertainty_ms.at_most(jitter_ms)
            &&& ping.min_ms.at_most(ping.avg_ms) ==> rules.mul(
                spread_ms,
                rules.ratio(75, 100),
            ).at_most(jitter_ms)
            &&& ping.mdev_ms.equals(zero()) && ping.avg_ms.at_most(ping.min_ms)
                && cache_uncertainty_ms.equals(zero()) ==> jitter_ms.equals(zero())
        }),
{
    reveal(orderly);
    lemma_sizes(ping.mdev_ms, 20);
    lemma_sizes(ping.min_ms, 20);
    lemma_sizes(ping.avg_ms, 20);
    lemma_sizes(cache_uncertainty_ms, 20);
    lemma_left(rules, ping.avg_ms, ping.min_ms, 20);
    let spread_ms = rules.sub(ping.avg_ms, ping.min_ms).greater(zero());
    lemma_sizes(spread_ms, 20);
    lemma_sizes(rules.ratio(75, 100), 14);
    let part = rules.mul(spread_ms, rules.ratio(75, 100));
    assert(capped(part, 34));
    lemma_sizes(part, 34);
    let most = ping.mdev_ms.greater(part);
    assert(nonneg(most));
    assert(most.at_most(rules.add(most, cache_uncertainty_ms)));
    if ping.min_ms.at_most(ping.avg_ms) {
        let raw = rules.sub(ping.avg_ms, ping.min_ms);
        assert(capped(raw, 20));
        lemma_sizes(raw, 20);
        assert(raw.at_most(spread_ms));
        assert(rules.mul(raw, rules.ratio(75, 100)).at_most(part));
    }
}

/// The more a time deviates, or the less certain the cache is, the more it varies.
#[verifier::rlimit(60)]
pub proof fn lemma_jitter_grows(
    rules: Rules,
    one: PingStats,
    less: Double,
    other: PingStats,
    more: Double,
)
    requires
        orderly(rules),
        measurable(one),
        measurable(other),
        nonneg(less),
        less.at_most(more),
        one.mdev_ms.at_most(other.mdev_ms),
        one.avg_ms.at_most(other.avg_ms),
        other.min_ms.at_most(one.min_ms),
    ensures
        jitter(rules, one, less).at_most(jitter(rules, other, more)),
{
    reveal(orderly);
    lemma_sizes(one.mdev_ms, 20);
    lemma_sizes(other.mdev_ms, 20);
    lemma_sizes(one.min_ms, 20);
    lemma_sizes(one.avg_ms, 20);
    lemma_sizes(other.min_ms, 20);
    lemma_sizes(other.avg_ms, 20);
    lemma_left(rules, one.avg_ms, one.min_ms, 20);
    lemma_left(rules, other.avg_ms, other.min_ms, 20);
    assert(rules.sub(one.avg_ms, one.min_ms).at_most(rules.sub(other.avg_ms, other.min_ms)));
    let a = rules.sub(one.avg_ms, one.min_ms).greater(zero());
    let b = rules.sub(other.avg_ms, other.min_ms).greater(zero());
    lemma_sizes(a, 20);
    lemma_sizes(b, 20);
    assert(a.at_most(b));
    lemma_sizes(rules.ratio(75, 100), 14);
    let c = rules.mul(a, rules.ratio(75, 100));
    let d = rules.mul(b, rules.ratio(75, 100));
    assert(capped(c, 34) && capped(d, 34));
    lemma_sizes(c, 34);
    lemma_sizes(d, 34);
    assert(c.at_most(d));
}

spec fn transport(rules: Rules, handshake: bool) -> Double {
    if handshake {
        rules.ratio(25, 100)
    } else {
        zero()
    }
}

spec fn slowed(rules: Rules, handshake: bool, jitter_ms: Double) -> Double {
    rules.add(
        rules.add(rules.count(1), transport(rules, handshake)),
        rules.div(jitter_ms, rules.count(3)),
    )
}

#[verifier::rlimit(60)]
proof fn lemma_slowed(rules: Rules, handshake: bool, jitter_ms: Double)
    requires
        orderly(rules),
        capped(jitter_ms, 40),
    ensures
        sized(slowed(rules, handshake, jitter_ms), 55),
        rules.count(1).at_most(slowed(rules, handshake, jitter_ms)),
        sized(rules.div(rules.count(1), slowed(rules, handshake, jitter_ms)), 69),
        !handshake && jitter_ms.equals(zero()) ==> slowed(rules, handshake, jitter_ms)
            == rules.count(1),
{
    reveal(orderly);
    let one = rules.count(1);
    lemma_sizes(one, 14);
    lemma_sizes(rules.count(3), 14);
    lemma_sizes(rules.ratio(25, 100), 14);
    lemma_sizes(zero(), 14);
    lemma_sizes(jitter_ms, 40);
    let extra = transport(rules, handshake);
    assert(capped(extra, 14) && nonneg(extra));
    let base = rules.add(one, extra);
    assert(capped(base, 15));
    lemma_sizes(base, 15);
    assert(one.at_most(base));
    let a = rules.div(jitter_ms, rules.count(3));
    assert(capped(a, 54));
    lemma_sizes(a, 54);
    assert(capped(base, 54));
    let x = rules.add(base, a);
    assert(capped(x, 55));
    assert(base.at_most(x));
    assert(sized(x, 55));
    assert(sized(rules.div(one, x), 69));
    if !handshake && jitter_ms.equals(zero()) {
        assert(a.equals(zero()));
        assert(base.equals(one));
        assert(x.equals(base));
    }
}

#[verifier::rlimit(60)]
proof fn lemma_slowed_grows(
    rules: Rules,
    handshake: bool,
    steady: Double,
    other: bool,
    shaky: Double,
)
    requires
        orderly(rules),
        capped(steady, 40),
        capped(shaky, 40),
        steady.at_most(shaky),
        handshake ==> other,
    ensures
        slowed(rules, handshake, steady).at_most(slowed(rules, other, shaky)),
        rules.div(rules.count(1), slowed(rules, other, shaky)).at_most(
            rules.div(rules.count(1), slowed(rules, handshake, steady)),
        ),
{
    lemma_slowed(rules, handshake, steady);
    lemma_slowed(rules, other, shaky);
    lemma_sizes(slowed(rules, handshake, steady), 55);
    lemma_sizes(slowed(rules, other, shaky), 55);
    assert(slowed(rules, handshake, steady).at_most(slowed(rules, other, shaky))) by {
        reveal(orderly);
        let one = rules.count(1);
        lemma_sizes(one, 14);
        lemma_sizes(rules.count(3), 14);
        lemma_sizes(rules.ratio(25, 100), 14);
        lemma_sizes(steady, 40);
        lemma_sizes(shaky, 40);
        let less = transport(rules, handshake);
        let more = transport(rules, other);
        assert(nonneg(less) && less.at_most(more));
        assert(rules.add(one, less).at_most(rules.add(one, more)));
        assert(one.at_most(rules.add(one, less)));
        let a = rules.div(steady, rules.count(3));
        let b = rules.div(shaky, rules.count(3));
        assert(a.at_most(b));
        assert(capped(a, 54));
        lemma_sizes(a, 54);
    }
    assert(rules.div(rules.count(1), slowed(rules, other, shaky)).at_most(
        rules.div(rules.count(1), slowed(rules, handshake, steady)),
    )) by {
        reveal(orderly);
        lemma_sizes(rules.count(1), 14);
    }
}

/// The more a time varies the less it counts, and a handshake counts no more than an echo
/// that varies as much. Nothing counts for less than twelve hundredths, nor for more than
/// one, and an echo that does not vary counts for one.
#[verifier::rlimit(60)]
pub proof fn lemma_quality_falls(rules: Rules, method: ProbeMethod, steady: Double, shaky: Double)
    requires
        orderly(rules),
        capped(steady, 40),
        capped(shaky, 40),
        steady.at_most(shaky),
        rules.div(rules.count(1), rules.count(1)) == rules.count(1),
    ensures
        quality(rules, method, shaky).at_most(quality(rules, method, steady)),
        method is Tcp ==> quality(rules, method, steady).at_most(
            quality(rules, ProbeMethod::Icmp, steady),
        ),
        rules.ratio(12, 100).at_most(quality(rules, method, steady)),
        quality(rules, method, steady).at_most(rules.count(1)),
        method is Icmp && steady.equals(zero()) ==> quality(rules, method, steady).equals(
            rules.count(1),
        ),
{
    let handshake = method is Tcp;
    lemma_slowed(rules, handshake, steady);
    lemma_slowed(rules, handshake, shaky);
    lemma_slowed(rules, false, steady);
    lemma_slowed_grows(rules, handshake, steady, handshake, shaky);
    lemma_slowed_grows(rules, false, steady, handshake, steady);
    let a = rules.div(rules.count(1), slowed(rules, handshake, steady));
    let b = rules.div(rules.count(1), slowed(rules, handshake, shaky));
    let c = rules.div(rules.count(1), slowed(rules, false, steady));
    lemma_sizes(a, 69);
    lemma_sizes(b, 69);
    lemma_sizes(c, 69);
    assert(rules.ratio(12, 100).below(rules.count(1))) by {
        reveal(orderly);
    }
}

/// The way that a time allows is the time times the speed.
pub proof fn lemma_reach_is_time_times_speed(
    rules: Rules,
    ping: PingStats,
    ms: int,
    km_per_ms: int,
)
    requires
        exact_on_wholes(rules),
        ping.min_ms == rules.count(ms),
        told_apart(ms),
        told_apart(km_per_ms),
        told_apart(ms * km_per_ms),
    ensures
        reach_km(rules, ping, rules.count(km_per_ms)) == rules.count(ms * km_per_ms),
{
}

/// What is not above a limit is kept, no farther back than it was.
pub proof fn lemma_within_keeps(constraints: Seq<Constraint>, cutoff_ms: Double, k: int) -> (p: int)
    requires
        0 <= k < constraints.len(),
        constraints[k].min_rtt_ms.at_most(cutoff_ms),
    ensures
        0 <= p <= k,
        p < within(constraints, cutoff_ms).len(),
        within(constraints, cutoff_ms)[p] == constraints[k],
    decreases constraints.len(),
{
    let shorter = constraints.drop_last();
    lemma_within_length(shorter, cutoff_ms);
    if k < shorter.len() {
        assert(shorter[k] == constraints[k]);
        lemma_within_keeps(shorter, cutoff_ms, k)
    } else {
        within(shorter, cutoff_ms).len() as int
    }
}

proof fn lemma_within_length(constraints: Seq<Constraint>, cutoff_ms: Double)
    ensures
        within(constraints, cutoff_ms).len() <= constraints.len(),
    decreases constraints.len(),
{
    if constraints.len() > 0 {
        lemma_within_length(constraints.drop_last(), cutoff_ms);
    }
}

/// Of the twelve fastest constraints, all that are within forty-five milliseconds of the
/// fastest are compared pair by pair. Of the five fastest, all that are within twenty-five
/// may form a cluster.
pub proof fn lemma_close_ones_are_compared(rules: Rules, ranked: Seq<Constraint>, k: int)
    requires
        0 <= k < ranked.len(),
    ensures
        k < 12 && ranked[k].min_rtt_ms.at_most(rules.add(ranked[0].min_rtt_ms, rules.count(45)))
            ==> local_constraints(rules, ranked).contains(ranked[k]),
        k < 5 && ranked[k].min_rtt_ms.at_most(rules.add(ranked[0].min_rtt_ms, rules.count(25)))
            ==> cluster_members(rules, ranked).contains(ranked[k]),
{
    let wide = rules.add(ranked[0].min_rtt_ms, rules.count(45));
    let close = rules.add(ranked[0].min_rtt_ms, rules.count(25));
    if k < 12 && ranked[k].min_rtt_ms.at_most(wide) {
        let p = lemma_within_keeps(ranked, wide, k);
        assert(local_constraints(rules, ranked)[p] == ranked[k]);
    }
    if k < 5 && ranked[k].min_rtt_ms.at_most(close) {
        let fastest = first(ranked, 5);
        assert(fastest[k] == ranked[k]);
        let p = lemma_within_keeps(fastest, close, k);
        assert(cluster_members(rules, ranked)[p] == ranked[k]);
    }
}

proof fn lemma_within_prefix(constraints: Seq<Constraint>, cutoff_ms: Double, n: int)
    requires
        0 <= n <= constraints.len(),
        forall|k: int|
            0 <= k < n ==> (#[trigger] constraints[k]).min_rtt_ms.at_most(cutoff_ms),
    ensures
        n <= within(constraints, cutoff_ms).len(),
        forall|k: int|
            0 <= k < n ==> #[trigger] within(constraints, cutoff_ms)[k] == constraints[k],
    decreases constraints.len(),
{
    if constraints.len() > 0 {
        let shorter = constraints.drop_last();
        let m = if n < constraints.len() {
            n
        } else {
            n - 1
        };
        assert forall|k: int| 0 <= k < m implies (
        #[trigger] shorter[k]).min_rtt_ms.at_most(cutoff_ms) by {
            assert(shorter[k] == constraints[k]);
        }
        lemma_within_prefix(shorter, cutoff_ms, m);
        lemma_within_length(shorter, cutoff_ms);
        if n == constraints.len() {
            assert(constraints[n - 1].min_rtt_ms.at_most(cutoff_ms));
        }
    }
}

/// The order of two anchors counts wherever both are among the twelve fastest and close to
/// the fastest: what their pair costs, the score for the order of all is not below.
#[verifier::rlimit(60)]
pub proof fn lemma_order_of_close_ones_counts(
    rules: Rules,
    place: Place,
    ranked: Seq<Constraint>,
    i: int,
    j: int,
)
    requires
        orderly(rules),
        0 <= i < j < ranked.len(),
        j < 12,
        forall|k: int|
            0 <= k <= j ==> (#[trigger] ranked[k]).min_rtt_ms.at_most(
                rules.add(ranked[0].min_rtt_ms, rules.count(45)),
            ),
        comparable(rules, place, local_constraints(rules, ranked)),
    ensures
        with_pair(
            rules,
            zero(),
            ranked[i],
            distance_to(rules, place, ranked[i].anchor@),
            ranked[j],
            distance_to(rules, place, ranked[j].anchor@),
        ).at_most(order_score(rules, place, ranked)),
{
    let cutoff_ms = rules.add(ranked[0].min_rtt_ms, rules.count(45));
    let local = local_constraints(rules, ranked);
    lemma_within_prefix(ranked, cutoff_ms, j + 1);
    let all = within(ranked, cutoff_ms);
    assert(all[i] == ranked[i] && all[j] == ranked[j]);
    assert(local[i] == ranked[i] && local[j] == ranked[j]);
    lemma_every_pair_counts(rules, place, local, local.len());
}

/// The four constraints behind a local fastest one count where they are within forty
/// milliseconds of it: what one of them costs by being too close, the score for the spread
/// is not below. Where the fastest one takes more than ten milliseconds, none counts.
#[verifier::rlimit(60)]
pub proof fn lemma_spread_of_next_four_counts(
    rules: Rules,
    place: Place,
    ranked: Seq<Constraint>,
    k: int,
)
    requires
        orderly(rules),
        1 <= k < ranked.len(),
        k <= 4,
        forall|m: int|
            1 <= m < ranked.len() && m <= 4 ==> nonneg(
                spread_term(
                    rules,
                    place,
                    ranked[0],
                    distance_to(rules, place, ranked[0].anchor@),
                    #[trigger] ranked[m],
                ),
            ),
    ensures
        rules.count(10).below(ranked[0].min_rtt_ms) ==> spread_score(rules, place, ranked)
            == zero(),
        !rules.count(10).below(ranked[0].min_rtt_ms) && ranked[k].min_rtt_ms.at_most(
            rules.add(ranked[0].min_rtt_ms, rules.count(40)),
        ) ==> spread_term(
            rules,
            place,
            ranked[0],
            distance_to(rules, place, ranked[0].anchor@),
            ranked[k],
        ).at_most(spread_score(rules, place, ranked)),
{
    let near = distance_to(rules, place, ranked[0].anchor@);
    let next = next_four(ranked);
    assert forall|m: int| 0 <= m < next.len() implies nonneg(
        spread_term(rules, place, ranked[0], near, #[trigger] next[m]),
    ) by {
        assert(next[m] == ranked[m + 1]);
    }
    lemma_spreads_count(rules, place, ranked[0], next);
    assert(next[k - 1] == ranked[k]);
}

/// What was seen in halves weighs as many halves, up to twelve whole ones, and more weighs
/// no more.
pub proof fn lemma_hint_weighs_its_halves(rules: Rules, entry: EntryView, n: int)
    requires
        exact_on_wholes(rules),
        0 <= n,
        entry.weight_halves == 2 * n,
    ensures
        n <= 12 ==> hint_of(rules, entry).weight == rules.count(n),
        n >= 12 ==> hint_of(rules, entry).weight == rules.count(12),
        hint_of(rules, entry).anchor == entry.anchor,
{
    if n <= 12 {
        assert(quotient(rules, n, 2) == rules.count(n));
    }
    assert(quotient(rules, 12, 2) == rules.count(12));
}

/// The anchors that support a hint are the listed ones of those that were seen to, and all
/// of them.
pub proof fn lemma_supporters_are_listed(ids: Seq<Seq<char>>)
    ensures
        forall|i: int|
            0 <= i < ids.len() ==> (anchor_of(anchor_list(), #[trigger] ids[i]) matches Some(
                anchor,
            ) ==> anchors_of(ids).contains(anchor)),
        forall|k: int|
            0 <= k < anchors_of(ids).len() ==> exists|i: int|
                0 <= i < ids.len() && anchor_of(anchor_list(), #[trigger] ids[i]) == Some(
                    #[trigger] anchors_of(ids)[k],
                ),
    decreases ids.len(),
{
    if ids.len() > 0 {
        let shorter = ids.drop_last();
        lemma_supporters_are_listed(shorter);
        let before = anchors_of(shorter);
        let after = anchors_of(ids);
        assert forall|i: int| 0 <= i < ids.len() implies (anchor_of(
            anchor_list(),
            #[trigger] ids[i],
        ) matches Some(anchor) ==> after.contains(anchor)) by {
            if let Some(anchor) = anchor_of(anchor_list(), ids[i]) {
                if i < shorter.len() {
                    assert(shorter[i] == ids[i]);
                    let k = choose|k: int| 0 <= k < before.len() && before[k] == anchor;
                    assert(after[k] == anchor);
                } else {
                    assert(after[before.len() as int] == anchor);
                }
            }
        }
        assert forall|k: int| 0 <= k < after.len() implies exists|i: int|
            0 <= i < ids.len() && anchor_of(anchor_list(), #[trigger] ids[i]) == Some(
                #[trigger] after[k],
            ) by {
            if k < before.len() {
                assert(after[k] == before[k]);
                let i = choose|i: int|
                    0 <= i < shorter.len() && anchor_of(anchor_list(), #[trigger] shorter[i])
                        == Some(before[k]);
                assert(ids[i] == shorter[i]);
            } else {
                assert(anchor_of(anchor_list(), ids[ids.len() - 1]) == Some(after[k]));
            }
        }
    }
}

} // verus!
