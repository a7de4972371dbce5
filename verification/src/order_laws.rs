//! What the order of the times promises: it does not matter in which order constraints
//! are given, and what is slower than the fastest few does not count.

use crate::calc::Rules;
use crate::cluster::{cluster_of, cluster_score, stands_out};
use crate::double::{zero, Double};
use crate::fit::{by_time, fit_samples, latency_fit, numbered_times};
use crate::geometry::Place;
use crate::posterior::subsets_of;
use crate::priors::{dominant_score, first, order_score, spread_score, within};
use crate::ranking::{
    ascending, in_order, lemma_ascending_is_stable, lemma_ascending_members, lemma_ascending_orders,
    placed,
};
use crate::solver::Constraint;
use crate::solver_laws::{lemma_by_time_orders, lemma_within_shrinks};
use vstd::prelude::*;

verus! {

/// Tells whether no two constraints have the same time.
pub open spec fn distinct_times(constraints: Seq<Constraint>) -> bool {
    forall|i: int, j: int|
        0 <= i < j < constraints.len() ==> (#[trigger] constraints[i]).min_rtt_ms.total_place() != (
        #[trigger] constraints[j]).min_rtt_ms.total_place()
}

/// Tells whether the times ascend.
pub open spec fn times_ascend(constraints: Seq<Constraint>) -> bool {
    forall|i: int, j: int|
        0 <= i <= j < constraints.len() ==> (#[trigger] constraints[i]).min_rtt_ms.total_place()
            <= (#[trigger] constraints[j]).min_rtt_ms.total_place()
}

proof fn lemma_mapped_multiset<T, U>(a: Seq<T>, b: Seq<T>, f: spec_fn(T) -> U)
    requires
        a.to_multiset() == b.to_multiset(),
    ensures
        a.map_values(f).to_multiset() == b.map_values(f).to_multiset(),
    decreases a.len(),
{
    a.to_multiset_ensures();
    b.to_multiset_ensures();
    if a.len() == 0 {
        assert(b.len() == 0);
        assert(a.map_values(f) =~= b.map_values(f));
    } else {
        let end = a.len() - 1;
        let last = a[end];
        assert(a.contains(last));
        assert(b.to_multiset().count(last) > 0);
        assert(b.contains(last));
        let at = choose|at: int| 0 <= at < b.len() && b[at] == last;
        let left = a.remove(end);
        let right = b.remove(at);
        assert(left.to_multiset() == right.to_multiset());
        lemma_mapped_multiset(left, right, f);
        assert(a.map_values(f).remove(end) =~= left.map_values(f));
        assert(b.map_values(f).remove(at) =~= right.map_values(f));
        assert(a.map_values(f) =~= left.map_values(f).insert(end, f(last)));
        assert(b.map_values(f) =~= right.map_values(f).insert(at, f(last)));
        vstd::seq_lib::to_multiset_insert(left.map_values(f), end, f(last));
        vstd::seq_lib::to_multiset_insert(right.map_values(f), at, f(last));
    }
}

proof fn lemma_number_of_place(constraints: Seq<Constraint>, k: int)
    requires
        constraints.len() <= usize::MAX,
        0 <= k < constraints.len(),
    ensures
        ({
            let order = ascending(numbered_times(constraints));
            &&& order.len() == constraints.len()
            &&& order[k].0 < constraints.len()
            &&& order[k].1 == constraints[order[k].0 as int].min_rtt_ms
        }),
{
    let items = numbered_times(constraints);
    lemma_ascending_orders(items);
    lemma_ascending_members(items, k);
    let i = choose|i: int| 0 <= i < items.len() && items[i] == ascending(items)[k];
    assert(ascending(items)[k].0 == i);
}

/// Ordering constraints by time keeps each of them as often as it was given.
pub proof fn lemma_by_time_permutes(constraints: Seq<Constraint>)
    requires
        constraints.len() <= usize::MAX,
    ensures
        by_time(constraints).to_multiset() == constraints.to_multiset(),
        times_ascend(by_time(constraints)),
{
    let items = numbered_times(constraints);
    let order = ascending(items);
    let f = |item: (usize, Double)| constraints[item.0 as int];
    lemma_ascending_orders(items);
    lemma_mapped_multiset(order, items, f);
    assert(order.map_values(f) =~= by_time(constraints));
    assert(items.map_values(f) =~= constraints);
    lemma_by_time_orders(constraints);
}

proof fn lemma_by_time_distinct(constraints: Seq<Constraint>)
    requires
        constraints.len() <= usize::MAX,
        distinct_times(constraints),
    ensures
        distinct_times(by_time(constraints)),
{
    let items = numbered_times(constraints);
    let order = ascending(items);
    let ranked = by_time(constraints);
    lemma_ascending_is_stable(items);
    lemma_ascending_orders(items);
    assert forall|i: int, j: int| 0 <= i < j < ranked.len() implies (
    #[trigger] ranked[i]).min_rtt_ms.total_place() != (
    #[trigger] ranked[j]).min_rtt_ms.total_place() by {
        lemma_number_of_place(constraints, i);
        lemma_number_of_place(constraints, j);
        assert(ranked[i] == constraints[order[i].0 as int]);
        assert(ranked[j] == constraints[order[j].0 as int]);
        if order[i].1.total_place() == order[j].1.total_place() {
            assert(order[i].0 < order[j].0);
        }
    }
}

proof fn lemma_same_order(a: Seq<Constraint>, b: Seq<Constraint>)
    requires
        a.to_multiset() == b.to_multiset(),
        times_ascend(a),
        times_ascend(b),
        distinct_times(a),
    ensures
        a == b,
    decreases a.len(),
{
    a.to_multiset_ensures();
    b.to_multiset_ensures();
    if a.len() == 0 {
        assert(a =~= b);
    } else {
        let n = a.len() - 1;
        let last = a[n];
        let end = b[n];
        assert(b.len() == a.len());
        assert(a.contains(last));
        assert(b.to_multiset().count(last) > 0);
        let j = choose|j: int| 0 <= j < b.len() && b[j] == last;
        assert(b.contains(end));
        assert(a.to_multiset().count(end) > 0);
        let i = choose|i: int| 0 <= i < a.len() && a[i] == end;
        assert(a[i].min_rtt_ms.total_place() <= a[n].min_rtt_ms.total_place());
        assert(b[j].min_rtt_ms.total_place() <= b[n].min_rtt_ms.total_place());
        assert(i == n);
        let left = a.drop_last();
        let right = b.drop_last();
        assert(a.remove(n) =~= left);
        assert(b.remove(n) =~= right);
        assert(left.to_multiset() == right.to_multiset());
        lemma_same_order(left, right);
        assert(a =~= left.push(last));
        assert(b =~= right.push(last));
    }
}

/// As long as no two times are equal, the same constraints in another order are ordered
/// the same. So are the line that is fitted, the cluster, the terms of the score, and the
/// subsets.
pub proof fn lemma_order_given_does_not_matter(
    rules: Rules,
    place: Place,
    a: Seq<Constraint>,
    b: Seq<Constraint>,
    shared_rtt_floor_ms: Double,
)
    requires
        a.len() <= usize::MAX,
        a.to_multiset() == b.to_multiset(),
        distinct_times(a),
    ensures
        by_time(a) == by_time(b),
        latency_fit(rules, place, by_time(a)) == latency_fit(rules, place, by_time(b)),
        order_score(rules, place, by_time(a)) == order_score(rules, place, by_time(b)),
        spread_score(rules, place, by_time(a)) == spread_score(rules, place, by_time(b)),
        dominant_score(rules, place, by_time(a), shared_rtt_floor_ms) == dominant_score(
            rules,
            place,
            by_time(b),
            shared_rtt_floor_ms,
        ),
        cluster_of(rules, by_time(a)) == cluster_of(rules, by_time(b)),
        cluster_score(rules, place, by_time(a)) == cluster_score(rules, place, by_time(b)),
        subsets_of(a) == subsets_of(b),
{
    a.to_multiset_ensures();
    b.to_multiset_ensures();
    lemma_by_time_permutes(a);
    lemma_by_time_permutes(b);
    lemma_by_time_distinct(a);
    lemma_same_order(by_time(a), by_time(b));
}

proof fn lemma_placed_behind(ranked: Seq<(usize, Double)>, item: (usize, Double), m: int)
    requires
        in_order(ranked),
        0 < m <= ranked.len(),
        ranked[m - 1].1.total_place() <= item.1.total_place(),
    ensures
        placed(ranked, item).len() == ranked.len() + 1,
        placed(ranked, item).take(m) == ranked.take(m),
    decreases ranked.len(),
{
    if ranked.last().1.total_place() <= item.1.total_place() {
        assert(placed(ranked, item).take(m) =~= ranked.take(m));
    } else {
        let shorter = ranked.drop_last();
        assert(in_order(shorter));
        lemma_placed_behind(shorter, item, m);
        let inner = placed(shorter, item);
        assert(placed(ranked, item).take(m) =~= inner.take(m));
        assert(shorter.take(m) =~= ranked.take(m));
    }
}

/// A constraint that is no faster than the first so many changes nothing among them.
pub proof fn lemma_slower_comes_behind(
    constraints: Seq<Constraint>,
    slower: Constraint,
    m: int,
)
    requires
        constraints.len() < usize::MAX,
        0 < m <= constraints.len(),
        by_time(constraints)[m - 1].min_rtt_ms.total_place()
            <= slower.min_rtt_ms.total_place(),
    ensures
        by_time(constraints.push(slower)).take(m) == by_time(constraints).take(m),
{
    let more = constraints.push(slower);
    let items = numbered_times(constraints);
    let all = numbered_times(more);
    let order = ascending(items);
    assert(all.drop_last() =~= items);
    assert(all.last() == (constraints.len() as usize, slower.min_rtt_ms));
    lemma_ascending_orders(items);
    lemma_ascending_orders(all);
    lemma_number_of_place(constraints, m - 1);
    assert(by_time(constraints)[m - 1] == constraints[order[m - 1].0 as int]);
    lemma_placed_behind(order, all.last(), m);
    assert forall|k: int| 0 <= k < m implies #[trigger] by_time(more)[k] == by_time(
        constraints,
    )[k] by {
        lemma_number_of_place(constraints, k);
        assert(ascending(all).take(m)[k] == order.take(m)[k]);
    }
    assert(by_time(more).take(m) =~= by_time(constraints).take(m));
}

/// The line is fitted to the six fastest constraints. One that is no faster than those
/// has no effect on it.
pub proof fn lemma_slower_does_not_move_the_line(
    rules: Rules,
    place: Place,
    constraints: Seq<Constraint>,
    slower: Constraint,
)
    requires
        6 <= constraints.len() < usize::MAX,
        by_time(constraints)[5].min_rtt_ms.total_place() <= slower.min_rtt_ms.total_place(),
    ensures
        latency_fit(rules, place, by_time(constraints.push(slower))) == latency_fit(
            rules,
            place,
            by_time(constraints),
        ),
{
    let before = by_time(constraints);
    let after = by_time(constraints.push(slower));
    lemma_slower_comes_behind(constraints, slower, 6);
    assert(fit_samples(rules, place, after) =~= fit_samples(rules, place, before)) by {
        assert forall|k: int| 0 <= k < 6 implies #[trigger] after[k] == before[k] by {
            assert(after.take(6)[k] == before.take(6)[k]);
        }
    }
}

proof fn lemma_within_ascends(constraints: Seq<Constraint>, cutoff_ms: Double)
    requires
        times_ascend(constraints),
    ensures
        times_ascend(within(constraints, cutoff_ms)),
        forall|k: int|
            0 <= k < within(constraints, cutoff_ms).len() ==> constraints.contains(
                #[trigger] within(constraints, cutoff_ms)[k],
            ),
        constraints.len() > 0 && constraints[0].min_rtt_ms.at_most(cutoff_ms) ==> within(
            constraints,
            cutoff_ms,
        ).len() > 0 && within(constraints, cutoff_ms)[0] == constraints[0],
    decreases constraints.len(),
{
    if constraints.len() > 0 {
        let shorter = constraints.drop_last();
        let last = constraints[constraints.len() - 1];
        lemma_within_ascends(shorter, cutoff_ms);
        let before = within(shorter, cutoff_ms);
        let kept = within(constraints, cutoff_ms);
        assert forall|k: int| 0 <= k < kept.len() implies constraints.contains(
            #[trigger] kept[k],
        ) && kept[k].min_rtt_ms.total_place() <= last.min_rtt_ms.total_place() by {
            if k < before.len() {
                assert(kept[k] == before[k]);
                let i = choose|i: int| 0 <= i < shorter.len() && shorter[i] == before[k];
                assert(constraints[i] == kept[k]);
            } else {
                assert(kept[k] == last);
            }
        }
        assert forall|i: int, j: int| 0 <= i <= j < kept.len() implies (
        #[trigger] kept[i]).min_rtt_ms.total_place() <= (
        #[trigger] kept[j]).min_rtt_ms.total_place() by {
            if j < before.len() {
                assert(kept[i] == before[i] && kept[j] == before[j]);
            } else {
                assert(kept[j] == last);
            }
        }
    }
}

/// A cluster holds three to five of the fastest constraints, by ascending time from the
/// fastest of all, none much slower than that one. It spans no more than 2200 kilometres
/// and pulls, but not without limit. Fewer than three constraints form none, nor do
/// constraints of which the fastest stands out.
pub proof fn lemma_cluster_is_regional(rules: Rules, constraints: Seq<Constraint>)
    requires
        constraints.len() <= usize::MAX,
    ensures
        constraints.len() < 3 || stands_out(rules, by_time(constraints)) ==> cluster_of(
            rules,
            by_time(constraints),
        ) is None,
        cluster_of(rules, by_time(constraints)) matches Some(cluster) ==> {
            let cutoff_ms = rules.add(cluster.fastest.min_rtt_ms, rules.count(25));
            &&& 3 <= cluster.members.len() <= 5
            &&& times_ascend(cluster.members)
            &&& forall|k: int|
                0 <= k < cluster.members.len() ==> first(by_time(constraints), 5).contains(
                    #[trigger] cluster.members[k],
                ) && cluster.members[k].min_rtt_ms.at_most(cutoff_ms)
            &&& constraints.contains(cluster.fastest)
            &&& forall|i: int|
                0 <= i < constraints.len() ==> cluster.fastest.min_rtt_ms.total_place() <= (
                #[trigger] constraints[i]).min_rtt_ms.total_place()
            &&& cluster.fastest.min_rtt_ms.at_most(cutoff_ms) ==> cluster.members[0]
                == cluster.fastest
            &&& !rules.count(2200).below(cluster.span_km)
            &&& !cluster.strength.at_most(zero())
            &&& !rules.ratio(25, 10).nan() ==> cluster.strength.at_most(rules.ratio(25, 10))
        },
{
    let ranked = by_time(constraints);
    lemma_by_time_orders(constraints);
    if let Some(cluster) = cluster_of(rules, ranked) {
        let fastest = first(ranked, 5);
        let cutoff_ms = rules.add(ranked[0].min_rtt_ms, rules.count(25));
        assert(times_ascend(fastest)) by {
            assert forall|i: int, j: int| 0 <= i <= j < fastest.len() implies (
            #[trigger] fastest[i]).min_rtt_ms.total_place() <= (
            #[trigger] fastest[j]).min_rtt_ms.total_place() by {
                assert(fastest[i] == ranked[i] && fastest[j] == ranked[j]);
            }
        }
        lemma_within_shrinks(fastest, cutoff_ms);
        lemma_within_ascends(fastest, cutoff_ms);
        assert(cluster.members == within(fastest, cutoff_ms));
        assert(constraints.contains(ranked[0]));
        assert(fastest[0] == ranked[0]);
        assert forall|i: int| 0 <= i < constraints.len() implies ranked[0].min_rtt_ms.total_place()
            <= (#[trigger] constraints[i]).min_rtt_ms.total_place() by {
            assert(ranked.contains(constraints[i]));
            let k = choose|k: int| 0 <= k < ranked.len() && ranked[k] == constraints[i];
            assert(ranked[0].min_rtt_ms.total_place() <= ranked[k].min_rtt_ms.total_place());
        }
    }
}

} // verus!
