//! Putting items in order by a measured value.

use crate::double::Double;
use vstd::prelude::*;

verus! {

/// `ranked` with `item` put behind all items whose value is not above its own.
pub open spec fn placed(ranked: Seq<(usize, Double)>, item: (usize, Double)) -> Seq<(usize, Double)>
    decreases ranked.len(),
{
    if ranked.len() == 0 || ranked.last().1.total_place() <= item.1.total_place() {
        ranked.push(item)
    } else {
        placed(ranked.drop_last(), item).push(ranked.last())
    }
}

/// The items by ascending value. Items of equal value keep their order.
pub open spec fn ascending(items: Seq<(usize, Double)>) -> Seq<(usize, Double)>
    decreases items.len(),
{
    if items.len() == 0 {
        items
    } else {
        placed(ascending(items.drop_last()), items.last())
    }
}

/// Tells whether no item stands before one of lower value.
pub open spec fn in_order(items: Seq<(usize, Double)>) -> bool {
    forall|i: int, j: int|
        0 <= i <= j < items.len() ==> (#[trigger] items[i]).1.total_place() <= (
        #[trigger] items[j]).1.total_place()
}

proof fn lemma_placed(ranked: Seq<(usize, Double)>, item: (usize, Double))
    requires
        in_order(ranked),
    ensures
        in_order(placed(ranked, item)),
        placed(ranked, item).len() == ranked.len() + 1,
        placed(ranked, item).to_multiset() == ranked.to_multiset().insert(item),
        forall|k: int|
            0 <= k < ranked.len() + 1 ==> (#[trigger] placed(ranked, item)[k]).1.total_place()
                <= item.1.total_place() || (ranked.len() > 0
                && placed(ranked, item)[k].1.total_place()
                <= ranked.last().1.total_place()),
    decreases ranked.len(),
{
    broadcast use vstd::seq_lib::group_to_multiset_ensures;

    if ranked.len() == 0 || ranked.last().1.total_place() <= item.1.total_place() {
    } else {
        let shorter = ranked.drop_last();
        lemma_placed(shorter, item);
        let inner = placed(shorter, item);
        let all = placed(ranked, item);
        assert(ranked =~= shorter.push(ranked.last()));
        assert forall|i: int, j: int| 0 <= i <= j < all.len() implies (
        #[trigger] all[i]).1.total_place() <= (#[trigger] all[j]).1.total_place() by {
            if j == all.len() - 1 && i < j {
                assert(all[i] == inner[i]);
                if shorter.len() > 0 {
                    assert(shorter.last() == ranked[ranked.len() - 2]);
                }
            } else if j < all.len() - 1 {
                assert(all[i] == inner[i]);
                assert(all[j] == inner[j]);
            }
        }
        assert(all.to_multiset() =~= ranked.to_multiset().insert(item));
    }
}

/// Ranking items orders them by value and neither adds nor loses one.
pub proof fn lemma_ascending_orders(items: Seq<(usize, Double)>)
    ensures
        in_order(ascending(items)),
        ascending(items).len() == items.len(),
        ascending(items).to_multiset() == items.to_multiset(),
    decreases items.len(),
{
    broadcast use vstd::seq_lib::group_to_multiset_ensures;

    if items.len() > 0 {
        let shorter = items.drop_last();
        lemma_ascending_orders(shorter);
        lemma_placed(ascending(shorter), items.last());
        assert(items =~= shorter.push(items.last()));
    }
}

/// Every ranked item is one of the items.
pub proof fn lemma_ascending_members(items: Seq<(usize, Double)>, k: int)
    requires
        0 <= k < ascending(items).len(),
    ensures
        items.contains(ascending(items)[k]),
{
    broadcast use vstd::seq_lib::group_to_multiset_ensures;

    lemma_ascending_orders(items);
    let item = ascending(items)[k];
    assert(ascending(items).contains(item));
    assert(ascending(items).to_multiset().contains(item));
}

/// Tells whether the numbers of the items ascend.
pub open spec fn numbered(items: Seq<(usize, Double)>) -> bool {
    forall|i: int, j: int|
        0 <= i < j < items.len() ==> (#[trigger] items[i]).0 < (#[trigger] items[j]).0
}

/// Tells whether items of equal value stand in the order of their numbers.
pub open spec fn stable(items: Seq<(usize, Double)>) -> bool {
    forall|i: int, j: int|
        0 <= i < j < items.len() && (#[trigger] items[i]).1.total_place() == (
        #[trigger] items[j]).1.total_place() ==> items[i].0 < items[j].0
}

proof fn lemma_placed_stable(ranked: Seq<(usize, Double)>, item: (usize, Double))
    requires
        in_order(ranked),
        stable(ranked),
        forall|k: int| 0 <= k < ranked.len() ==> (#[trigger] ranked[k]).0 < item.0,
    ensures
        stable(placed(ranked, item)),
        forall|k: int|
            0 <= k < placed(ranked, item).len() ==> {
                ||| #[trigger] placed(ranked, item)[k] == item
                ||| ranked.contains(placed(ranked, item)[k])
            },
    decreases ranked.len(),
{
    let all = placed(ranked, item);
    if ranked.len() == 0 || ranked.last().1.total_place() <= item.1.total_place() {
        assert forall|k: int| 0 <= k < all.len() implies #[trigger] all[k] == item
            || ranked.contains(all[k]) by {
            if k < ranked.len() {
                assert(all[k] == ranked[k]);
            }
        }
    } else {
        let shorter = ranked.drop_last();
        lemma_placed_stable(shorter, item);
        lemma_placed(shorter, item);
        let inner = placed(shorter, item);
        assert forall|k: int| 0 <= k < all.len() implies #[trigger] all[k] == item
            || ranked.contains(all[k]) by {
            if k < inner.len() {
                assert(all[k] == inner[k]);
                if inner[k] != item {
                    let j = choose|j: int| 0 <= j < shorter.len() && shorter[j] == inner[k];
                    assert(ranked[j] == inner[k]);
                }
            } else {
                assert(all[k] == ranked[ranked.len() - 1]);
            }
        }
        assert forall|i: int, j: int|
            0 <= i < j < all.len() && (#[trigger] all[i]).1.total_place() == (
            #[trigger] all[j]).1.total_place() implies all[i].0 < all[j].0 by {
            assert(all[i] == inner[i]);
            if j < inner.len() {
                assert(all[j] == inner[j]);
            } else if inner[i] != item {
                let k = choose|k: int| 0 <= k < shorter.len() && shorter[k] == inner[i];
                assert(ranked[k] == inner[i]);
                assert(ranked[ranked.len() - 1] == all[j]);
            }
        }
    }
}

/// Ranking numbered items keeps the order of those with equal values.
pub proof fn lemma_ascending_is_stable(items: Seq<(usize, Double)>)
    requires
        numbered(items),
    ensures
        stable(ascending(items)),
    decreases items.len(),
{
    if items.len() > 0 {
        let shorter = items.drop_last();
        let ranked = ascending(shorter);
        assert(numbered(shorter));
        lemma_ascending_is_stable(shorter);
        lemma_ascending_orders(shorter);
        assert forall|k: int| 0 <= k < ranked.len() implies (#[trigger] ranked[k]).0
            < items.last().0 by {
            lemma_ascending_members(shorter, k);
            let j = choose|j: int| 0 <= j < shorter.len() && shorter[j] == ranked[k];
            assert(items[j] == ranked[k]);
            assert(items[items.len() - 1] == items.last());
        }
        lemma_placed_stable(ranked, items.last());
    }
}

/// Puts `item` behind all items whose value is not above its own.
fn place(ranked: &mut Vec<(usize, Double)>, item: (usize, Double))
    ensures
        final(ranked)@ == placed(old(ranked)@, item),
{
    let ghost whole = ranked@;
    let mut at: usize = ranked.len();
    assert(whole.take(at as int) =~= whole);
    assert(placed(whole, item) + whole.skip(at as int) =~= placed(whole, item));
    while at > 0 && ranked[at - 1].1.is_after(&item.1)
        invariant
            ranked@ == whole,
            at <= whole.len(),
            placed(whole, item) == placed(whole.take(at as int), item) + whole.skip(at as int),
        decreases at,
    {
        let ghost now = whole.take(at as int);
        assert(now.drop_last() =~= whole.take(at - 1));
        assert(now.last() == whole[at - 1]);
        assert(placed(now, item) == placed(now.drop_last(), item).push(now.last()));
        assert(placed(now.drop_last(), item).push(now.last()) + whole.skip(at as int) =~= placed(
            whole.take(at - 1),
            item,
        ) + whole.skip(at - 1));
        at = at - 1;
    }
    proof {
        let now = whole.take(at as int);
        if now.len() > 0 {
            assert(now.last() == whole[at - 1]);
        }
        assert(placed(now, item) == now.push(item));
        assert(now.push(item) + whole.skip(at as int) =~= whole.insert(at as int, item));
    }
    ranked.insert(at, item);
}

/// The items by ascending value. Items of equal value keep their order.
pub fn rank(items: &Vec<(usize, Double)>) -> (ranked: Vec<(usize, Double)>)
    ensures
        ranked@ == ascending(items@),
{
    let mut ranked: Vec<(usize, Double)> = Vec::new();
    let mut i: usize = 0;
    assert(items@.take(0) =~= ranked@);
    while i < items.len()
        invariant
            i <= items@.len(),
            ranked@ == ascending(items@.take(i as int)),
        decreases items@.len() - i,
    {
        assert(items@.take(i + 1).drop_last() =~= items@.take(i as int));
        place(&mut ranked, items[i]);
        i = i + 1;
    }
    assert(items@.take(items@.len() as int) =~= items@);
    ranked
}

} // verus!
