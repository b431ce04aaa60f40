//! Stable sorting.

use vstd::prelude::*;

verus! {

/// Something that has a place in an order.
pub trait Ranked: Sized {
    /// `self` must stand before `other`.
    spec fn before(&self, other: &Self) -> bool;

    /// Whether `self` must stand before `other`.
    fn is_before(&self, other: &Self) -> (r: bool)
        ensures
            r == self.before(other),
    ;
}

/// Items in order with one more, behind all that it need not stand before.
pub open spec fn with_item<T: Ranked>(ordered: Seq<T>, item: T) -> Seq<T>
    decreases ordered.len(),
{
    if ordered.len() == 0 || !item.before(&ordered.last()) {
        ordered.push(item)
    } else {
        with_item(ordered.drop_last(), item).push(ordered.last())
    }
}

/// Items in order; those of the same rank stay in the order they came in.
pub open spec fn in_order<T: Ranked>(items: Seq<T>) -> Seq<T>
    decreases items.len(),
{
    if items.len() == 0 {
        Seq::empty()
    } else {
        with_item(in_order(items.drop_last()), items.last())
    }
}

/// `before` orders all values: it is transitive, and so is standing in no order.
pub open spec fn is_weak_order<T: Ranked>() -> bool {
    &&& forall|a: T, b: T, c: T| #[trigger] a.before(&b) && #[trigger] b.before(&c) ==> a.before(&c)
    &&& forall|a: T, b: T| #[trigger] a.before(&b) ==> !b.before(&a)
    &&& forall|a: T, b: T, c: T| #[trigger] a.before(&c) ==> #[trigger] a.before(&b) || b.before(&c)
}

/// No item stands behind one that it must stand before.
pub open spec fn is_ordered<T: Ranked>(items: Seq<T>) -> bool {
    forall|i: int, j: int|
        #![trigger items[i], items[j]]
        0 <= i < j < items.len() ==> !items[j].before(&items[i])
}

/// An item comes before none of some others.
spec fn before_none<T: Ranked>(item: T, others: Seq<T>) -> bool {
    forall|k: int| 0 <= k < others.len() ==> !item.before(#[trigger] &others[k])
}

proof fn lemma_with_item_is_ordered<T: Ranked>(ordered: Seq<T>, item: T)
    requires
        is_weak_order::<T>(),
        is_ordered(ordered),
    ensures
        with_item(ordered, item).to_multiset() =~= ordered.to_multiset().insert(item),
        with_item(ordered, item).len() == ordered.len() + 1,
        is_ordered(with_item(ordered, item)),
        forall|z: T|
            (ordered.len() == 0 || !z.before(&ordered.last())) && !z.before(&item)
                ==> before_none(z, with_item(ordered, item)),
    decreases ordered.len(),
{
    broadcast use vstd::seq_lib::group_to_multiset_ensures;

    let all = with_item(ordered, item);
    if ordered.len() == 0 || !item.before(&ordered.last()) {
        assert forall|i: int, j: int|
            #![trigger all[i], all[j]]
            0 <= i < j < all.len() implies !all[j].before(&all[i]) by {
            if j == ordered.len() && i < ordered.len() - 1 {
                let last = ordered[ordered.len() - 1];
                assert(!last.before(&ordered[i]));
                assert(!item.before(&last));
                assert(item.before(&ordered[i]) ==> item.before(&last) || last.before(&ordered[i]));
            }
        }
        assert forall|z: T|
            (ordered.len() == 0 || !z.before(&ordered.last())) && !z.before(
                &item,
            ) implies before_none(z, all) by {
            assert forall|k: int| 0 <= k < all.len() implies !z.before(#[trigger] &all[k]) by {
                if k < ordered.len() - 1 {
                    let last = ordered[ordered.len() - 1];
                    assert(!last.before(&ordered[k]));
                    assert(z.before(&ordered[k]) ==> z.before(&last) || last.before(&ordered[k]));
                }
            }
        }
    } else {
        let rest = ordered.drop_last();
        let last = ordered.last();
        lemma_with_item_is_ordered(rest, item);
        assert(ordered =~= rest.push(last));
        assert(rest.len() > 0 ==> !last.before(&rest.last()));
        assert(!last.before(&item));
        assert(before_none(last, with_item(rest, item)));
        assert forall|i: int, j: int|
            #![trigger all[i], all[j]]
            0 <= i < j < all.len() implies !all[j].before(&all[i]) by {
            if j < ordered.len() {
                assert(!with_item(rest, item)[j].before(&with_item(rest, item)[i]));
            }
        }
        assert forall|z: T| !z.before(&last) && !z.before(&item) implies before_none(z, all) by {
            if rest.len() > 0 {
                assert(!last.before(&rest.last()));
                assert(z.before(&rest.last()) ==> z.before(&last) || last.before(&rest.last()));
            }
            assert(before_none(z, with_item(rest, item)));
            assert forall|k: int| 0 <= k < all.len() implies !z.before(#[trigger] &all[k]) by {
                if k < ordered.len() {
                    assert(!z.before(&with_item(rest, item)[k]));
                }
            }
        }
    }
}

/// Putting items in order loses none and adds none, and afterwards they are in order.
pub proof fn in_order_is_a_sort<T: Ranked>(items: Seq<T>)
    requires
        is_weak_order::<T>(),
    ensures
        in_order(items).to_multiset() =~= items.to_multiset(),
        in_order(items).len() == items.len(),
        is_ordered(in_order(items)),
    decreases items.len(),
{
    broadcast use vstd::seq_lib::group_to_multiset_ensures;

    if items.len() > 0 {
        in_order_is_a_sort(items.drop_last());
        lemma_with_item_is_ordered(in_order(items.drop_last()), items.last());
        assert(items =~= items.drop_last().push(items.last()));
    }
}

/// Items that already are in order keep their places.
pub proof fn in_order_keeps_ordered_items<T: Ranked>(items: Seq<T>)
    requires
        is_ordered(items),
    ensures
        in_order(items) == items,
    decreases items.len(),
{
    if items.len() > 0 {
        in_order_keeps_ordered_items(items.drop_last());
        assert(items =~= items.drop_last().push(items.last()));
    } else {
        assert(in_order(items) =~= items);
    }
}

/// Puts an item into its place.
pub fn insert_in_order<T: Ranked>(ordered: &mut Vec<T>, item: T)
    ensures
        final(ordered)@ == with_item(old(ordered)@, item),
{
    let ghost before = ordered@;
    let mut i: usize = ordered.len();
    assert(before.take(i as int) =~= before);
    assert(with_item(before, item) =~= with_item(before.take(i as int), item) + before.skip(i as int));
    while i > 0 && item.is_before(&ordered[i - 1])
        invariant
            i <= ordered@.len(),
            before == ordered@,
            with_item(before, item) == with_item(before.take(i as int), item) + before.skip(
                i as int,
            ),
        decreases i,
    {
        assert(before.take(i as int).drop_last() =~= before.take(i - 1));
        assert(with_item(before.take(i - 1), item).push(before[i - 1]) + before.skip(i as int)
            =~= with_item(before.take(i - 1), item) + before.skip(i - 1));
        i -= 1;
    }
    ordered.insert(i, item);
    assert(ordered@ =~= before.take(i as int).push(item) + before.skip(i as int));
}

/// The items in order.
pub fn put_in_order<T: Ranked>(items: Vec<T>) -> (r: Vec<T>)
    ensures
        r@ == in_order(items@),
{
    let ghost all = items@;
    let mut out: Vec<T> = Vec::new();
    assert(out@ =~= in_order(all.take(0)));
    for item in it: items
        invariant
            it.seq() == all,
            out@ == in_order(all.take(it.index() as int)),
    {
        assert(all.take(it.index() + 1).drop_last() =~= all.take(it.index() as int));
        insert_in_order(&mut out, item);
    }
    assert(all.take(all.len() as int) =~= all);
    out
}

proof fn lemma_with_item_is_stable<T: Ranked>(ordered: Seq<T>, item: T, x: T)
    requires
        is_weak_order::<T>(),
    ensures
        with_item(ordered, item).filter(|y: T| !x.before(&y) && !y.before(&x)) == ordered.push(
            item,
        ).filter(|y: T| !x.before(&y) && !y.before(&x)),
    decreases ordered.len(),
{
    reveal(Seq::filter);
    let same = |y: T| !x.before(&y) && !y.before(&x);
    if ordered.len() > 0 && item.before(&ordered.last()) {
        let rest = ordered.drop_last();
        let last = ordered.last();
        lemma_with_item_is_stable(rest, item, x);
        assert(with_item(ordered, item).drop_last() =~= with_item(rest, item));
        assert(with_item(ordered, item).last() == last);
        assert(rest.push(item).drop_last() =~= rest);
        assert(ordered.push(item).drop_last() =~= ordered);
        if same(item) && same(last) {
            assert(item.before(&last) ==> item.before(&x) || x.before(&last));
        }
        assert(ordered.filter(same) == if same(last) {
            rest.filter(same).push(last)
        } else {
            rest.filter(same)
        });
        assert(rest.push(item).filter(same) == if same(item) {
            rest.filter(same).push(item)
        } else {
            rest.filter(same)
        });
        assert(ordered.push(item).filter(same) == if same(item) {
            ordered.filter(same).push(item)
        } else {
            ordered.filter(same)
        });
    }
}

/// Items of the same rank stay in the order they came in.
pub proof fn in_order_is_stable<T: Ranked>(items: Seq<T>, x: T)
    requires
        is_weak_order::<T>(),
    ensures
        in_order(items).filter(|y: T| !x.before(&y) && !y.before(&x)) == items.filter(
            |y: T| !x.before(&y) && !y.before(&x),
        ),
    decreases items.len(),
{
    reveal(Seq::filter);
    if items.len() > 0 {
        let rest = items.drop_last();
        let last = items.last();
        in_order_is_stable(rest, x);
        lemma_with_item_is_stable(in_order(rest), last, x);
        assert(in_order(rest).push(last).drop_last() =~= in_order(rest));
    }
}

} // verus!
