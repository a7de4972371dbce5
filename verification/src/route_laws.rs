//! What the hints do not depend on: the order in which routes were traced, and a local
//! name that says nothing.

use crate::anchors::{anchor_list, anchor_of, AnchorView};
use crate::calc::Rules;
use crate::hint_laws::{
    in_order, lemma_hints_in_order, lemma_rest_in_order, lemma_with_aliases_in_order,
    lemma_with_hops_in_order, lemma_with_traces_in_order,
};
use crate::hints::{
    alias_found, alias_list, bare_entry, first_ten, hint_of, hints_of, hop_source, hop_weight,
    lowercase, name_tokens, strengthened, weight_sum, with_aliases, with_hops, with_local_name,
    with_observation, with_traces, AliasView, EntryView, HintView, Observation,
};
use crate::probe::{HopView, MeasurementView};
use crate::text::{
    ascending_texts, lemma_ascending_unique, lemma_precedes_irreflexive, lemma_precedes_transitive,
    lemma_with_text, occurs_at, precedes,
};
use vstd::prelude::*;

verus! {

/// The entry of this anchor.
pub open spec fn entry_of(entries: Seq<EntryView>, id: Seq<char>) -> Option<EntryView>
    decreases entries.len(),
{
    if entries.len() == 0 {
        None
    } else if entries[0].id == id {
        Some(entries[0])
    } else {
        entry_of(entries.skip(1), id)
    }
}

proof fn lemma_entry_is_listed(entries: Seq<EntryView>, id: Seq<char>) -> (at: int)
    ensures
        entry_of(entries, id) is Some ==> 0 <= at < entries.len() && entry_of(entries, id) == Some(
            entries[at],
        ) && entries[at].id == id,
    decreases entries.len(),
{
    if entries.len() == 0 || entries[0].id == id {
        0
    } else {
        1 + lemma_entry_is_listed(entries.skip(1), id)
    }
}

proof fn lemma_entry_at(entries: Seq<EntryView>, at: int)
    requires
        in_order(entries),
        0 <= at < entries.len(),
    ensures
        entry_of(entries, entries[at].id) == Some(entries[at]),
    decreases entries.len(),
{
    if at > 0 {
        lemma_rest_in_order(entries);
        lemma_entry_at(entries.skip(1), at - 1);
        assert(precedes(entries[0].id, entries[at].id));
        lemma_precedes_irreflexive(entries[0].id);
    }
}

/// The entry that an observation for this anchor is added to.
pub open spec fn found_or_bare(
    found: Option<EntryView>,
    id: Seq<char>,
    anchor: AnchorView,
) -> EntryView {
    match found {
        Some(entry) => entry,
        None => bare_entry(id, anchor),
    }
}

proof fn lemma_observed_entry(
    entries: Seq<EntryView>,
    id: Seq<char>,
    anchor: AnchorView,
    seen: Observation,
    other: Seq<char>,
)
    requires
        in_order(entries),
    ensures
        entry_of(with_observation(entries, id, anchor, seen), id) == Some(
            strengthened(found_or_bare(entry_of(entries, id), id, anchor), seen),
        ),
        other != id ==> entry_of(with_observation(entries, id, anchor, seen), other) == entry_of(
            entries,
            other,
        ),
    decreases entries.len(),
{
    let all = with_observation(entries, id, anchor, seen);
    if entries.len() == 0 {
        assert(all.skip(1) =~= entries);
    } else if precedes(id, entries[0].id) {
        assert(all.skip(1) =~= entries);
        let at = lemma_entry_is_listed(entries, id);
        if entry_of(entries, id) is Some {
            if at > 0 {
                lemma_precedes_transitive(id, entries[0].id, entries[at].id);
            }
            lemma_precedes_irreflexive(id);
        }
    } else if entries[0].id == id {
        assert(all.skip(1) =~= entries.skip(1));
    } else {
        lemma_rest_in_order(entries);
        lemma_observed_entry(entries.skip(1), id, anchor, seen, other);
        assert(all.skip(1) =~= with_observation(entries.skip(1), id, anchor, seen));
    }
}

/// How much the aliases that are found in a name add for this anchor.
pub open spec fn alias_weight(
    aliases: Seq<AliasView>,
    haystack: Seq<char>,
    weight: int,
    id: Seq<char>,
) -> int
    decreases aliases.len(),
{
    if aliases.len() == 0 {
        0
    } else {
        let before = alias_weight(aliases.drop_last(), haystack, weight, id);
        let alias = aliases.last();
        if alias.id == id && anchor_of(anchor_list(), id) is Some && alias_found(alias, haystack) {
            before + weight
        } else {
            before
        }
    }
}

/// How much the names of hops add for this anchor.
pub open spec fn hops_weight(hops: Seq<HopView>, id: Seq<char>) -> int
    decreases hops.len(),
{
    if hops.len() == 0 {
        0
    } else {
        let before = hops_weight(hops.drop_last(), id);
        match hops.last().hostname {
            Some(hostname) => before + alias_weight(
                alias_list(),
                lowercase(hostname),
                hop_weight(hops.last().hop) as int,
                id,
            ),
            None => before,
        }
    }
}

/// How much the route of a measurement adds for this anchor.
pub open spec fn trace_weight(measurement: MeasurementView, id: Seq<char>) -> int {
    match measurement.trace {
        Some(hops) => hops_weight(first_ten(hops), id),
        None => 0,
    }
}

/// How much the routes of measurements add for this anchor.
pub open spec fn traces_weight(list: Seq<MeasurementView>, id: Seq<char>) -> int
    decreases list.len(),
{
    if list.len() == 0 {
        0
    } else {
        traces_weight(list.drop_last(), id) + trace_weight(list.last(), id)
    }
}

/// Tells whether a route to the anchor `supporter` adds something for this anchor.
pub open spec fn backed(list: Seq<MeasurementView>, id: Seq<char>, supporter: Seq<char>) -> bool {
    exists|i: int|
        0 <= i < list.len() && (#[trigger] list[i]).anchor.id == supporter && trace_weight(
            list[i],
            id,
        ) > 0
}

/// Tells whether an entry has grown by a weight, and has this supporter afterwards if
/// it had it before or is backed by it.
spec fn grown(
    before: Option<EntryView>,
    after: Option<EntryView>,
    id: Seq<char>,
    added: int,
    supporter: Seq<char>,
    by_supporter: bool,
) -> bool {
    let start = found_or_bare(before, id, anchor_of(anchor_list(), id)->0);
    &&& added >= 0
    &&& added == 0 ==> after == before && !by_supporter
    &&& added > 0 ==> {
        &&& after is Some
        &&& after->0.anchor == start.anchor
        &&& after->0.weight_halves == weight_sum(start.weight_halves, added)
        &&& after->0.supporters.contains(supporter) <==> start.supporters.contains(supporter)
            || by_supporter
    }
}

proof fn lemma_grown_twice(
    before: Option<EntryView>,
    between: Option<EntryView>,
    after: Option<EntryView>,
    id: Seq<char>,
    first: int,
    second: int,
    supporter: Seq<char>,
    by_first: bool,
    by_second: bool,
)
    requires
        grown(before, between, id, first, supporter, by_first),
        grown(between, after, id, second, supporter, by_second),
    ensures
        grown(before, after, id, first + second, supporter, by_first || by_second),
{
}

proof fn lemma_aliases_grow(
    entries: Seq<EntryView>,
    aliases: Seq<AliasView>,
    haystack: Seq<char>,
    seen: Observation,
    id: Seq<char>,
    supporter: Seq<char>,
)
    requires
        in_order(entries),
        seen.weight_halves > 0,
    ensures
        ({
            let added = alias_weight(aliases, haystack, seen.weight_halves, id);
            grown(
                entry_of(entries, id),
                entry_of(with_aliases(entries, aliases, haystack, seen), id),
                id,
                added,
                supporter,
                added > 0 && seen.supporter == Some(supporter),
            )
        }),
    decreases aliases.len(),
{
    if aliases.len() > 0 {
        let shorter = aliases.drop_last();
        let alias = aliases.last();
        lemma_aliases_grow(entries, shorter, haystack, seen, id, supporter);
        lemma_with_aliases_in_order(entries, shorter, haystack, seen);
        let before = with_aliases(entries, shorter, haystack, seen);
        let first = alias_weight(shorter, haystack, seen.weight_halves, id);
        let by_seen = seen.supporter == Some(supporter);
        if let Some(anchor) = anchor_of(anchor_list(), alias.id) {
            if alias_found(alias, haystack) {
                lemma_observed_entry(before, alias.id, anchor, seen, id);
                if alias.id == id {
                    let after = with_observation(before, id, anchor, seen);
                    let start = found_or_bare(entry_of(before, id), id, anchor);
                    let at = lemma_entry_is_listed(before, id);
                    assert(ascending_texts(start.supporters));
                    if let Some(by) = seen.supporter {
                        lemma_with_text(start.supporters, by);
                    }
                    assert(grown(
                        entry_of(before, id),
                        entry_of(after, id),
                        id,
                        seen.weight_halves,
                        supporter,
                        by_seen,
                    ));
                    lemma_grown_twice(
                        entry_of(entries, id),
                        entry_of(before, id),
                        entry_of(after, id),
                        id,
                        first,
                        seen.weight_halves,
                        supporter,
                        first > 0 && by_seen,
                        by_seen,
                    );
                }
            }
        }
    }
}

proof fn lemma_hops_grow(
    entries: Seq<EntryView>,
    anchor: AnchorView,
    hops: Seq<HopView>,
    id: Seq<char>,
    supporter: Seq<char>,
)
    requires
        in_order(entries),
    ensures
        grown(
            entry_of(entries, id),
            entry_of(with_hops(entries, anchor, hops), id),
            id,
            hops_weight(hops, id),
            supporter,
            hops_weight(hops, id) > 0 && anchor.id == supporter,
        ),
    decreases hops.len(),
{
    if hops.len() > 0 {
        let shorter = hops.drop_last();
        let hop = hops.last();
        lemma_hops_grow(entries, anchor, shorter, id, supporter);
        lemma_with_hops_in_order(entries, anchor, shorter);
        let before = with_hops(entries, anchor, shorter);
        if let Some(hostname) = hop.hostname {
            let seen = Observation {
                weight_halves: hop_weight(hop.hop) as int,
                supporter: Some(anchor.id),
                source: hop_source(anchor, hop.hop, hostname),
            };
            let haystack = lowercase(hostname);
            lemma_aliases_grow(before, alias_list(), haystack, seen, id, supporter);
            let first = hops_weight(shorter, id);
            let second = alias_weight(alias_list(), haystack, seen.weight_halves, id);
            lemma_grown_twice(
                entry_of(entries, id),
                entry_of(before, id),
                entry_of(with_aliases(before, alias_list(), haystack, seen), id),
                id,
                first,
                second,
                supporter,
                first > 0 && anchor.id == supporter,
                second > 0 && anchor.id == supporter,
            );
        }
    }
}

proof fn lemma_backed_by_parts(list: Seq<MeasurementView>, id: Seq<char>, supporter: Seq<char>)
    requires
        list.len() > 0,
    ensures
        backed(list, id, supporter) <==> backed(list.drop_last(), id, supporter) || (
        list.last().anchor.id == supporter && trace_weight(list.last(), id) > 0),
{
    let shorter = list.drop_last();
    if backed(shorter, id, supporter) {
        let k = choose|k: int|
            0 <= k < shorter.len() && (#[trigger] shorter[k]).anchor.id == supporter
                && trace_weight(shorter[k], id) > 0;
        assert(list[k] == shorter[k]);
    }
    if list.last().anchor.id == supporter && trace_weight(list.last(), id) > 0 {
        assert(list[list.len() - 1] == list.last());
    }
    if backed(list, id, supporter) {
        let k = choose|k: int|
            0 <= k < list.len() && (#[trigger] list[k]).anchor.id == supporter && trace_weight(
                list[k],
                id,
            ) > 0;
        if k < shorter.len() {
            assert(shorter[k] == list[k]);
        }
    }
}

proof fn lemma_traces_grow(
    entries: Seq<EntryView>,
    list: Seq<MeasurementView>,
    id: Seq<char>,
    supporter: Seq<char>,
)
    requires
        in_order(entries),
    ensures
        grown(
            entry_of(entries, id),
            entry_of(with_traces(entries, list), id),
            id,
            traces_weight(list, id),
            supporter,
            backed(list, id, supporter),
        ),
    decreases list.len(),
{
    if list.len() > 0 {
        let shorter = list.drop_last();
        let last = list.last();
        lemma_traces_grow(entries, shorter, id, supporter);
        lemma_with_traces_in_order(entries, shorter);
        lemma_backed_by_parts(list, id, supporter);
        let before = with_traces(entries, shorter);
        let by_last = last.anchor.id == supporter && trace_weight(last, id) > 0;
        if let Some(hops) = last.trace {
            lemma_hops_grow(before, last.anchor, first_ten(hops), id, supporter);
        }
        lemma_grown_twice(
            entry_of(entries, id),
            entry_of(before, id),
            entry_of(with_traces(entries, list), id),
            id,
            traces_weight(shorter, id),
            trace_weight(last, id),
            supporter,
            backed(shorter, id, supporter),
            by_last,
        );
    }
}

proof fn lemma_weight_without(list: Seq<MeasurementView>, at: int, id: Seq<char>)
    requires
        0 <= at < list.len(),
    ensures
        traces_weight(list, id) == traces_weight(list.remove(at), id) + trace_weight(list[at], id),
    decreases list.len(),
{
    let without = list.remove(at);
    if at < list.len() - 1 {
        let shorter = list.drop_last();
        lemma_weight_without(shorter, at, id);
        assert(without.drop_last() =~= shorter.remove(at));
        assert(without.last() == list.last());
    } else {
        assert(without =~= list.drop_last());
    }
}

proof fn lemma_same_members(first: Seq<MeasurementView>, second: Seq<MeasurementView>)
    requires
        first.to_multiset() == second.to_multiset(),
    ensures
        first.len() == second.len(),
        forall|m: MeasurementView| #[trigger] first.contains(m) <==> second.contains(m),
{
    first.to_multiset_ensures();
    second.to_multiset_ensures();
    assert forall|m: MeasurementView| #[trigger] first.contains(m) <==> second.contains(m) by {
        assert(first.contains(m) <==> first.to_multiset().count(m) > 0);
        assert(second.contains(m) <==> second.to_multiset().count(m) > 0);
    }
}

proof fn lemma_weight_in_any_order(
    first: Seq<MeasurementView>,
    second: Seq<MeasurementView>,
    id: Seq<char>,
)
    requires
        first.to_multiset() == second.to_multiset(),
    ensures
        traces_weight(first, id) == traces_weight(second, id),
    decreases first.len(),
{
    lemma_same_members(first, second);
    if first.len() > 0 {
        let end = first.len() - 1;
        let last = first[end];
        assert(first.contains(last));
        let at = choose|at: int| 0 <= at < second.len() && second[at] == last;
        first.to_multiset_ensures();
        second.to_multiset_ensures();
        assert(first.remove(end).to_multiset() == second.remove(at).to_multiset());
        lemma_weight_without(first, end, id);
        lemma_weight_without(second, at, id);
        lemma_weight_in_any_order(first.remove(end), second.remove(at), id);
    }
}

proof fn lemma_backed_in_any_order(
    first: Seq<MeasurementView>,
    second: Seq<MeasurementView>,
    id: Seq<char>,
    supporter: Seq<char>,
)
    requires
        forall|m: MeasurementView| #[trigger] first.contains(m) <==> second.contains(m),
        backed(first, id, supporter),
    ensures
        backed(second, id, supporter),
{
    let k = choose|k: int|
        0 <= k < first.len() && (#[trigger] first[k]).anchor.id == supporter && trace_weight(
            first[k],
            id,
        ) > 0;
    assert(first.contains(first[k]));
    let at = choose|at: int| 0 <= at < second.len() && second[at] == first[k];
    assert(second[at].anchor.id == supporter);
}

/// Tells whether entries are the same but for where they were seen.
pub open spec fn same_but_sources(a: Seq<EntryView>, b: Seq<EntryView>) -> bool {
    &&& a.len() == b.len()
    &&& forall|i: int|
        #![trigger a[i]]
        #![trigger b[i]]
        0 <= i < a.len() ==> a[i].id == b[i].id && a[i].anchor == b[i].anchor && a[i].weight_halves
            == b[i].weight_halves && a[i].supporters == b[i].supporters
}

spec fn ids_of(entries: Seq<EntryView>) -> Seq<Seq<char>> {
    Seq::new(entries.len(), |i: int| entries[i].id)
}

proof fn lemma_id_is_listed(entries: Seq<EntryView>, id: Seq<char>)
    requires
        in_order(entries),
    ensures
        ids_of(entries).contains(id) <==> entry_of(entries, id) is Some,
{
    let ids = ids_of(entries);
    let at = lemma_entry_is_listed(entries, id);
    if entry_of(entries, id) is Some {
        assert(ids[at] == id);
    }
    if ids.contains(id) {
        let k = choose|k: int| 0 <= k < ids.len() && ids[k] == id;
        lemma_entry_at(entries, k);
    }
}

proof fn lemma_one_entry(
    entries: Seq<EntryView>,
    first: Seq<MeasurementView>,
    second: Seq<MeasurementView>,
    id: Seq<char>,
)
    requires
        in_order(entries),
        first.to_multiset() == second.to_multiset(),
    ensures
        ({
            let a = entry_of(with_traces(entries, first), id);
            let b = entry_of(with_traces(entries, second), id);
            &&& a is Some <==> b is Some
            &&& a is Some ==> a->0.anchor == b->0.anchor && a->0.weight_halves
                == b->0.weight_halves && a->0.supporters == b->0.supporters
        }),
{
    let left = with_traces(entries, first);
    let right = with_traces(entries, second);
    let a = entry_of(left, id);
    let b = entry_of(right, id);
    lemma_with_traces_in_order(entries, first);
    lemma_with_traces_in_order(entries, second);
    lemma_weight_in_any_order(first, second, id);
    lemma_same_members(first, second);
    lemma_traces_grow(entries, first, id, id);
    lemma_traces_grow(entries, second, id, id);
    if a is Some {
        let i = lemma_entry_is_listed(left, id);
        let j = lemma_entry_is_listed(right, id);
        assert forall|x: Seq<char>| #[trigger] a->0.supporters.contains(x)
            <==> b->0.supporters.contains(x) by {
            lemma_traces_grow(entries, first, id, x);
            lemma_traces_grow(entries, second, id, x);
            if backed(first, id, x) {
                lemma_backed_in_any_order(first, second, id, x);
            }
            if backed(second, id, x) {
                lemma_backed_in_any_order(second, first, id, x);
            }
        }
        lemma_ascending_unique(a->0.supporters, b->0.supporters);
    }
}

/// The order in which routes were traced does not matter to what they add: which
/// anchors they speak for, how much, and by which supporters.
pub proof fn lemma_traces_in_any_order(
    entries: Seq<EntryView>,
    first: Seq<MeasurementView>,
    second: Seq<MeasurementView>,
)
    requires
        in_order(entries),
        first.to_multiset() == second.to_multiset(),
    ensures
        same_but_sources(with_traces(entries, first), with_traces(entries, second)),
{
    let left = with_traces(entries, first);
    let right = with_traces(entries, second);
    lemma_with_traces_in_order(entries, first);
    lemma_with_traces_in_order(entries, second);
    let a = ids_of(left);
    let b = ids_of(right);
    assert forall|i: int, j: int| 0 <= i < j < a.len() implies precedes(
        #[trigger] a[i],
        #[trigger] a[j],
    ) by {
        assert(precedes(left[i].id, left[j].id));
    }
    assert forall|i: int, j: int| 0 <= i < j < b.len() implies precedes(
        #[trigger] b[i],
        #[trigger] b[j],
    ) by {
        assert(precedes(right[i].id, right[j].id));
    }
    assert forall|id: Seq<char>| #[trigger] a.contains(id) <==> b.contains(id) by {
        lemma_id_is_listed(left, id);
        lemma_id_is_listed(right, id);
        lemma_one_entry(entries, first, second, id);
    }
    lemma_ascending_unique(a, b);
    assert forall|i: int|
        #![trigger left[i]]
        #![trigger right[i]]
        0 <= i < left.len() implies left[i].id == right[i].id && left[i].anchor == right[i].anchor
        && left[i].weight_halves == right[i].weight_halves && left[i].supporters
        == right[i].supporters by {
        assert(a[i] == b[i]);
        lemma_entry_at(left, i);
        lemma_entry_at(right, i);
        lemma_one_entry(entries, first, second, left[i].id);
    }
}

/// Tells whether hints are the same but for where they were seen.
pub open spec fn same_hints_but_sources(a: Seq<HintView>, b: Seq<HintView>) -> bool {
    &&& a.len() == b.len()
    &&& forall|i: int|
        #![trigger a[i]]
        #![trigger b[i]]
        0 <= i < a.len() ==> a[i].anchor == b[i].anchor && a[i].weight == b[i].weight
            && a[i].supporting_anchors == b[i].supporting_anchors
}

/// Measurements in another order give the same hints: as many, on the same anchors in
/// the same order, with the same weights and the same supporting anchors. Only the
/// order of the sources may differ. That holds with and without a local name.
pub proof fn lemma_hints_in_any_order(
    rules: Rules,
    hostname: Option<Seq<char>>,
    first: Seq<MeasurementView>,
    second: Seq<MeasurementView>,
)
    requires
        first.to_multiset() == second.to_multiset(),
    ensures
        same_hints_but_sources(
            hints_of(rules, with_traces(Seq::<EntryView>::empty(), first)),
            hints_of(rules, with_traces(Seq::<EntryView>::empty(), second)),
        ),
        same_hints_but_sources(
            hints_of(rules, with_traces(with_local_name(hostname), first)),
            hints_of(rules, with_traces(with_local_name(hostname), second)),
        ),
{
    let none = Seq::<MeasurementView>::empty();
    lemma_hints_in_order(hostname, none);
    assert(in_order(with_local_name(hostname)));
    lemma_traces_in_any_order(Seq::<EntryView>::empty(), first, second);
    lemma_traces_in_any_order(with_local_name(hostname), first, second);
    lemma_same_hints(
        rules,
        with_traces(Seq::<EntryView>::empty(), first),
        with_traces(Seq::<EntryView>::empty(), second),
    );
    lemma_same_hints(
        rules,
        with_traces(with_local_name(hostname), first),
        with_traces(with_local_name(hostname), second),
    );
}

proof fn lemma_same_hints(rules: Rules, a: Seq<EntryView>, b: Seq<EntryView>)
    requires
        same_but_sources(a, b),
    ensures
        same_hints_but_sources(hints_of(rules, a), hints_of(rules, b)),
{
    let left = hints_of(rules, a);
    let right = hints_of(rules, b);
    assert forall|i: int|
        #![trigger left[i]]
        #![trigger right[i]]
        0 <= i < left.len() implies left[i].anchor == right[i].anchor && left[i].weight
        == right[i].weight && left[i].supporting_anchors == right[i].supporting_anchors by {
        assert(left[i] == hint_of(rules, a[i]));
        assert(right[i] == hint_of(rules, b[i]));
    }
}

/// Tells whether a local name says nothing: there is none, or no alias is found in it.
pub open spec fn says_nothing(hostname: Option<Seq<char>>) -> bool {
    hostname matches Some(name) ==> forall|i: int|
        0 <= i < alias_list().len() ==> !alias_found(
            #[trigger] alias_list()[i],
            lowercase(name),
        )
}

proof fn lemma_no_alias_adds_nothing(
    entries: Seq<EntryView>,
    aliases: Seq<AliasView>,
    haystack: Seq<char>,
    seen: Observation,
)
    requires
        forall|i: int| 0 <= i < aliases.len() ==> !alias_found(#[trigger] aliases[i], haystack),
    ensures
        with_aliases(entries, aliases, haystack, seen) == entries,
    decreases aliases.len(),
{
    if aliases.len() > 0 {
        let shorter = aliases.drop_last();
        assert forall|i: int| 0 <= i < shorter.len() implies !alias_found(
            #[trigger] shorter[i],
            haystack,
        ) by {
            assert(shorter[i] == aliases[i]);
        }
        lemma_no_alias_adds_nothing(entries, shorter, haystack, seen);
        assert(!alias_found(aliases[aliases.len() - 1], haystack));
    }
}

/// Without a local name, or with one in which no alias is found, the hints are those
/// of the routes alone.
pub proof fn lemma_silent_name_adds_nothing(
    rules: Rules,
    hostname: Option<Seq<char>>,
    list: Seq<MeasurementView>,
)
    requires
        says_nothing(hostname),
    ensures
        with_local_name(hostname) == Seq::<EntryView>::empty(),
        hints_of(rules, with_traces(with_local_name(hostname), list)) == hints_of(
            rules,
            with_traces(Seq::<EntryView>::empty(), list),
        ),
{
    if let Some(name) = hostname {
        lemma_no_alias_adds_nothing(
            Seq::<EntryView>::empty(),
            alias_list(),
            lowercase(name),
            Observation {
                weight_halves: 3,
                supporter: None,
                source: "local hostname="@ + name,
            },
        );
    }
}

/// Tells whether a name in lower case shows an alias: a partial one wherever its text
/// occurs in the name, any other where its text is one of the tokens of the name.
pub open spec fn shows(name: Seq<char>, alias: AliasView) -> bool {
    ||| alias.partial && exists|i: int|
        0 <= i && i + alias.token.len() <= name.len() && #[trigger] name.subrange(
            i,
            i + alias.token.len(),
        ) == alias.token
    ||| !alias.partial && name_tokens(name).contains(alias.token)
}

proof fn lemma_shows_is_found(name: Seq<char>, alias: AliasView)
    ensures
        shows(name, alias) <==> alias_found(alias, name),
{
    if alias.partial {
        if shows(name, alias) {
            let i = choose|i: int|
                0 <= i && i + alias.token.len() <= name.len() && #[trigger] name.subrange(
                    i,
                    i + alias.token.len(),
                ) == alias.token;
            assert(occurs_at(alias.token, name, i));
        }
        if alias_found(alias, name) {
            let i = choose|i: int| occurs_at(alias.token, name, i);
            assert(name.subrange(i, i + alias.token.len()) == alias.token);
        }
    }
}

proof fn lemma_alias_adds(
    aliases: Seq<AliasView>,
    haystack: Seq<char>,
    weight: int,
    a: int,
)
    requires
        0 <= a < aliases.len(),
        weight > 0,
        shows(haystack, aliases[a]),
        anchor_of(anchor_list(), aliases[a].id) is Some,
    ensures
        alias_weight(aliases, haystack, weight, aliases[a].id) >= weight,
    decreases aliases.len(),
{
    let id = aliases[a].id;
    lemma_shows_is_found(haystack, aliases[a]);
    lemma_alias_weight(aliases.drop_last(), haystack, weight, id);
    if a < aliases.len() - 1 {
        assert(aliases.drop_last()[a] == aliases[a]);
        lemma_alias_adds(aliases.drop_last(), haystack, weight, a);
    }
}

proof fn lemma_alias_weight(
    aliases: Seq<AliasView>,
    haystack: Seq<char>,
    weight: int,
    id: Seq<char>,
)
    requires
        weight > 0,
    ensures
        alias_weight(aliases, haystack, weight, id) >= 0,
        alias_weight(aliases, haystack, weight, id) > 0 ==> exists|a: int|
            0 <= a < aliases.len() && shows(haystack, #[trigger] aliases[a]) && aliases[a].id == id,
    decreases aliases.len(),
{
    if aliases.len() > 0 {
        let shorter = aliases.drop_last();
        lemma_alias_weight(shorter, haystack, weight, id);
        let last = aliases[aliases.len() - 1];
        lemma_shows_is_found(haystack, last);
        if alias_weight(aliases, haystack, weight, id) > 0 {
            if alias_weight(shorter, haystack, weight, id) > 0 {
                let a = choose|a: int|
                    0 <= a < shorter.len() && shows(haystack, #[trigger] shorter[a])
                        && shorter[a].id == id;
                assert(aliases[a] == shorter[a]);
            } else {
                assert(shows(haystack, aliases[aliases.len() - 1]));
            }
        }
    }
}

/// Tells whether the name of a hop shows an alias for this anchor.
pub open spec fn hop_shows(hop: HopView, id: Seq<char>) -> bool {
    hop.hostname matches Some(name) && exists|a: int|
        0 <= a < alias_list().len() && shows(lowercase(name), #[trigger] alias_list()[a])
            && alias_list()[a].id == id
}

proof fn lemma_hops_weight(hops: Seq<HopView>, id: Seq<char>)
    ensures
        hops_weight(hops, id) >= 0,
        hops_weight(hops, id) > 0 ==> exists|h: int|
            0 <= h < hops.len() && hop_shows(#[trigger] hops[h], id),
    decreases hops.len(),
{
    if hops.len() > 0 {
        let shorter = hops.drop_last();
        let last = hops[hops.len() - 1];
        lemma_hops_weight(shorter, id);
        if let Some(name) = last.hostname {
            lemma_alias_weight(alias_list(), lowercase(name), hop_weight(last.hop) as int, id);
            if alias_weight(alias_list(), lowercase(name), hop_weight(last.hop) as int, id) > 0 {
                assert(hop_shows(hops[hops.len() - 1], id));
            }
        }
        if hops_weight(shorter, id) > 0 {
            let h = choose|h: int| 0 <= h < shorter.len() && hop_shows(#[trigger] shorter[h], id);
            assert(hops[h] == shorter[h]);
        }
    }
}

proof fn lemma_hop_adds(hops: Seq<HopView>, h: int, a: int)
    requires
        0 <= h < hops.len(),
        0 <= a < alias_list().len(),
        hops[h].hostname is Some,
        shows(lowercase(hops[h].hostname->0), alias_list()[a]),
        anchor_of(anchor_list(), alias_list()[a].id) is Some,
    ensures
        hops_weight(hops, alias_list()[a].id) >= hop_weight(hops[h].hop),
    decreases hops.len(),
{
    let id = alias_list()[a].id;
    let shorter = hops.drop_last();
    let last = hops[hops.len() - 1];
    lemma_hops_weight(shorter, id);
    if h < shorter.len() {
        assert(shorter[h] == hops[h]);
        lemma_hop_adds(shorter, h, a);
        if let Some(name) = last.hostname {
            lemma_alias_weight(alias_list(), lowercase(name), hop_weight(last.hop) as int, id);
        }
    } else {
        lemma_alias_adds(
            alias_list(),
            lowercase(last.hostname->0),
            hop_weight(last.hop) as int,
            a,
        );
    }
}

proof fn lemma_traces_weight(list: Seq<MeasurementView>, id: Seq<char>)
    ensures
        traces_weight(list, id) >= 0,
        forall|m: int|
            0 <= m < list.len() ==> traces_weight(list, id) >= trace_weight(#[trigger] list[m], id),
        traces_weight(list, id) > 0 ==> exists|m: int|
            0 <= m < list.len() && trace_weight(#[trigger] list[m], id) > 0,
    decreases list.len(),
{
    if list.len() > 0 {
        let shorter = list.drop_last();
        let last = list[list.len() - 1];
        lemma_traces_weight(shorter, id);
        if let Some(hops) = last.trace {
            lemma_hops_weight(first_ten(hops), id);
        }
        assert forall|m: int| 0 <= m < list.len() implies traces_weight(list, id) >= trace_weight(
            #[trigger] list[m],
            id,
        ) by {
            if m < shorter.len() {
                assert(shorter[m] == list[m]);
            }
        }
        if traces_weight(shorter, id) > 0 {
            let m = choose|m: int|
                0 <= m < shorter.len() && trace_weight(#[trigger] shorter[m], id) > 0;
            assert(list[m] == shorter[m]);
        }
    }
}

/// Tells whether an entry is at the listed anchor of this id, counts so many halves at
/// least, and is supported by this anchor, if one is given.
pub open spec fn hint_at(
    entries: Seq<EntryView>,
    id: Seq<char>,
    halves: int,
    supporter: Option<Seq<char>>,
    k: int,
) -> bool {
    &&& 0 <= k < entries.len()
    &&& entries[k].id == id
    &&& Some(entries[k].anchor) == anchor_of(anchor_list(), id)
    &&& entries[k].weight_halves >= halves
    &&& supporter matches Some(by) ==> entries[k].supporters.contains(by)
}

/// Tells whether the anchors of entries are the listed ones of their ids, and their weights
/// are counted up from zero.
pub open spec fn listed_entries(entries: Seq<EntryView>) -> bool {
    forall|k: int|
        0 <= k < entries.len() ==> Some((#[trigger] entries[k]).anchor) == anchor_of(
            anchor_list(),
            entries[k].id,
        ) && 0 <= entries[k].weight_halves <= u64::MAX
}

/// Wherever the name of one of the first ten hops of a route shows an alias of a listed
/// anchor, there is a hint at that anchor. It weighs as much as a name at that hop does at
/// least, and the anchor that the route leads to supports it. A partial alias is shown
/// wherever its text occurs in the lower-case name, be it a token of the name or not.
pub proof fn lemma_alias_gives_a_hint(
    entries: Seq<EntryView>,
    list: Seq<MeasurementView>,
    m: int,
    h: int,
    a: int,
) -> (k: int)
    requires
        in_order(entries),
        listed_entries(entries),
        0 <= m < list.len(),
        list[m].trace is Some,
        0 <= h < list[m].trace->0.len(),
        h < 10,
        list[m].trace->0[h].hostname is Some,
        0 <= a < alias_list().len(),
        anchor_of(anchor_list(), alias_list()[a].id) is Some,
        shows(lowercase(list[m].trace->0[h].hostname->0), alias_list()[a]),
    ensures
        hint_at(
            with_traces(entries, list),
            alias_list()[a].id,
            hop_weight(list[m].trace->0[h].hop) as int,
            Some(list[m].anchor.id),
            k,
        ),
{
    let id = alias_list()[a].id;
    let hops = list[m].trace->0;
    let supporter = list[m].anchor.id;
    assert(first_ten(hops)[h] == hops[h]);
    lemma_hop_adds(first_ten(hops), h, a);
    lemma_traces_weight(list, id);
    assert(trace_weight(list[m], id) > 0);
    assert(backed(list, id, supporter));
    lemma_traces_grow(entries, list, id, supporter);
    lemma_with_traces_in_order(entries, list);
    let at = lemma_entry_is_listed(entries, id);
    lemma_entry_is_listed(with_traces(entries, list), id)
}

/// Every hint has a reason: a hint that was not there before the routes is at an anchor for
/// which an alias is shown by the name of one of the first ten hops of some route.
pub proof fn lemma_hint_has_a_reason(
    entries: Seq<EntryView>,
    list: Seq<MeasurementView>,
    k: int,
)
    requires
        in_order(entries),
        0 <= k < with_traces(entries, list).len(),
        entry_of(entries, with_traces(entries, list)[k].id) is None,
    ensures
        exists|m: int, h: int|
            0 <= m < list.len() && list[m].trace is Some && 0 <= h < list[m].trace->0.len() && h
                < 10 && hop_shows(
                #[trigger] list[m].trace->0[h],
                with_traces(entries, list)[k].id,
            ),
{
    let id = with_traces(entries, list)[k].id;
    lemma_with_traces_in_order(entries, list);
    lemma_entry_at(with_traces(entries, list), k);
    lemma_traces_grow(entries, list, id, id);
    lemma_traces_weight(list, id);
    let m = choose|m: int| 0 <= m < list.len() && trace_weight(#[trigger] list[m], id) > 0;
    let hops = list[m].trace->0;
    lemma_hops_weight(first_ten(hops), id);
    let h = choose|h: int|
        0 <= h < first_ten(hops).len() && hop_shows(#[trigger] first_ten(hops)[h], id);
    assert(first_ten(hops)[h] == hops[h]);
    assert(hop_shows(list[m].trace->0[h], id));
}

/// A local name that shows an alias of a listed anchor gives a hint at that anchor that
/// weighs three halves at least, and one that gives a hint shows an alias for it.
pub proof fn lemma_local_name_gives_a_hint(name: Seq<char>)
    ensures
        in_order(with_local_name(Some(name))),
        listed_entries(with_local_name(Some(name))),
        forall|a: int|
            0 <= a < alias_list().len() && shows(lowercase(name), #[trigger] alias_list()[a])
                && anchor_of(anchor_list(), alias_list()[a].id) is Some ==> exists|k: int|
                #[trigger] hint_at(
                    with_local_name(Some(name)),
                    alias_list()[a].id,
                    3,
                    None,
                    k,
                ),
        forall|k: int|
            0 <= k < with_local_name(Some(name)).len() ==> exists|a: int|
                0 <= a < alias_list().len() && shows(lowercase(name), #[trigger] alias_list()[a])
                    && alias_list()[a].id == (#[trigger] with_local_name(Some(name))[k]).id,
{
    let nothing = Seq::<EntryView>::empty();
    let seen = Observation {
        weight_halves: 3,
        supporter: None,
        source: "local hostname="@ + name,
    };
    let haystack = lowercase(name);
    let entries = with_local_name(Some(name));
    lemma_with_aliases_in_order(nothing, alias_list(), haystack, seen);
    lemma_listed_after_aliases(nothing, alias_list(), haystack, seen);
    assert forall|a: int|
        0 <= a < alias_list().len() && shows(haystack, #[trigger] alias_list()[a]) && anchor_of(
            anchor_list(),
            alias_list()[a].id,
        ) is Some implies exists|k: int| #[trigger] hint_at(
        entries,
        alias_list()[a].id,
        3,
        None,
        k,
    ) by {
        let id = alias_list()[a].id;
        lemma_alias_adds(alias_list(), haystack, 3, a);
        lemma_aliases_grow(nothing, alias_list(), haystack, seen, id, id);
        let k = lemma_entry_is_listed(entries, id);
        assert(hint_at(entries, id, 3, None, k));
    }
    assert forall|k: int| 0 <= k < entries.len() implies exists|a: int|
        0 <= a < alias_list().len() && shows(haystack, #[trigger] alias_list()[a])
            && alias_list()[a].id == (#[trigger] entries[k]).id by {
        let id = entries[k].id;
        lemma_entry_at(entries, k);
        lemma_aliases_grow(nothing, alias_list(), haystack, seen, id, id);
        lemma_alias_weight(alias_list(), haystack, 3, id);
    }
}

proof fn lemma_listed_after_aliases(
    entries: Seq<EntryView>,
    aliases: Seq<AliasView>,
    haystack: Seq<char>,
    seen: Observation,
)
    requires
        in_order(entries),
        listed_entries(entries),
        seen.weight_halves > 0,
    ensures
        listed_entries(with_aliases(entries, aliases, haystack, seen)),
{
    let after = with_aliases(entries, aliases, haystack, seen);
    lemma_with_aliases_in_order(entries, aliases, haystack, seen);
    assert forall|k: int| 0 <= k < after.len() implies Some((#[trigger] after[k]).anchor)
        == anchor_of(anchor_list(), after[k].id) && 0 <= after[k].weight_halves <= u64::MAX by {
        let id = after[k].id;
        lemma_entry_at(after, k);
        lemma_aliases_grow(entries, aliases, haystack, seen, id, id);
        let at = lemma_entry_is_listed(entries, id);
        if entry_of(entries, id) is Some {
            assert(entries[at].id == id);
        } else {
            lemma_alias_weight_is_listed(aliases, haystack, seen.weight_halves, id);
        }
    }
}

proof fn lemma_alias_weight_is_listed(
    aliases: Seq<AliasView>,
    haystack: Seq<char>,
    weight: int,
    id: Seq<char>,
)
    ensures
        alias_weight(aliases, haystack, weight, id) != 0 ==> anchor_of(
            anchor_list(),
            id,
        ) is Some,
    decreases aliases.len(),
{
    if aliases.len() > 0 {
        lemma_alias_weight_is_listed(aliases.drop_last(), haystack, weight, id);
    }
}

} // verus!
