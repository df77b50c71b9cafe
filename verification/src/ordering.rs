//! Ordering by key: a stable sort of keyed items, for page lists and for
//! files by their modification time.

use vstd::prelude::*;

verus! {

/// A key by which items are put in order.
pub trait SortKey: Copy {
    /// The place of the key in the order: a smaller rank comes first.
    spec fn rank(&self) -> int;

    /// Whether this key comes after `other`.
    fn exceeds(&self, other: &Self) -> (after: bool)
        ensures
            after == (self.rank() > other.rank()),
    ;
}

impl SortKey for u32 {
    open spec fn rank(&self) -> int {
        *self as int
    }

    fn exceeds(&self, other: &u32) -> (after: bool) {
        *self > *other
    }
}

impl SortKey for i128 {
    open spec fn rank(&self) -> int {
        *self as int
    }

    fn exceeds(&self, other: &i128) -> (after: bool) {
        *self > *other
    }
}

/// A list in ascending order of keys, after `item` has gone behind every
/// item whose key is not greater than its own.
pub open spec fn placed<K: SortKey, T>(ordered: Seq<(K, T)>, item: (K, T)) -> Seq<(K, T)>
    decreases ordered.len(),
{
    if ordered.len() > 0 && ordered.last().0.rank() > item.0.rank() {
        placed(ordered.drop_last(), item).push(ordered.last())
    } else {
        ordered.push(item)
    }
}

/// The items in ascending order of their keys; items of equal key keep the
/// order in which they were given.
pub open spec fn in_key_order<K: SortKey, T>(items: Seq<(K, T)>) -> Seq<(K, T)>
    decreases items.len(),
{
    if items.len() == 0 {
        items
    } else {
        placed(in_key_order(items.drop_last()), items.last())
    }
}

/// Whether the keys of `items` never descend.
pub open spec fn keys_ascend<K: SortKey, T>(items: Seq<(K, T)>) -> bool {
    forall|i: int, j: int| 0 <= i < j < items.len() ==> (#[trigger] items[i]).0.rank() <= (
    #[trigger] items[j]).0.rank()
}

/// Placing an item is inserting it behind the last item whose key is not
/// greater.
pub proof fn lemma_placed_at<K: SortKey, T>(ordered: Seq<(K, T)>, item: (K, T), at: int)
    requires
        0 <= at <= ordered.len(),
        forall|t: int| at <= t < ordered.len() ==> (#[trigger] ordered[t]).0.rank() > item.0.rank(),
        at == 0 || ordered[at - 1].0.rank() <= item.0.rank(),
    ensures
        placed(ordered, item) == ordered.insert(at, item),
    decreases ordered.len() - at,
{
    if at == ordered.len() {
        assert(ordered.push(item) =~= ordered.insert(at, item));
    } else {
        let front = ordered.drop_last();
        assert(ordered.last().0.rank() > item.0.rank());
        lemma_placed_at(front, item, at);
        assert(front.insert(at, item).push(ordered.last()) =~= ordered.insert(at, item));
    }
}

/// Placing an item keeps an ascending list ascending, and adds that item
/// and no other.
pub proof fn lemma_placed_ascends<K: SortKey, T>(ordered: Seq<(K, T)>, item: (K, T))
    requires
        keys_ascend(ordered),
    ensures
        keys_ascend(placed(ordered, item)),
        placed(ordered, item).to_multiset() == ordered.to_multiset().insert(item),
        placed(ordered, item).len() == ordered.len() + 1,
    decreases ordered.len(),
{
    broadcast use vstd::seq_lib::group_to_multiset_ensures;

    if ordered.len() > 0 && ordered.last().0.rank() > item.0.rank() {
        let front = ordered.drop_last();
        assert forall|i: int, j: int| 0 <= i < j < front.len() implies (#[trigger] front[i]).0.rank()
            <= (#[trigger] front[j]).0.rank() by {
            assert(ordered[i].0.rank() <= ordered[j].0.rank());
        }
        lemma_placed_ascends(front, item);
        let inner = placed(front, item);
        let result = inner.push(ordered.last());
        assert forall|i: int, j: int| 0 <= i < j < result.len() implies (#[trigger] result[i]).0.rank()
            <= (#[trigger] result[j]).0.rank() by {
            if j < inner.len() {
                assert(inner[i].0.rank() <= inner[j].0.rank());
            } else {
                assert(inner.to_multiset().count(inner[i]) > 0);
                if inner[i] != item {
                    assert(front.to_multiset().count(inner[i]) > 0);
                    assert(front.contains(inner[i]));
                    let w = choose|w: int| 0 <= w < front.len() && front[w] == inner[i];
                    assert(ordered[w].0.rank() <= ordered[ordered.len() - 1].0.rank());
                }
            }
        }
        assert(ordered =~= front.push(ordered.last()));
    } else {
        let result = ordered.push(item);
        assert forall|i: int, j: int| 0 <= i < j < result.len() implies (#[trigger] result[i]).0.rank()
            <= (#[trigger] result[j]).0.rank() by {
            if j < ordered.len() {
                assert(ordered[i].0.rank() <= ordered[j].0.rank());
            } else {
                assert(ordered[i].0.rank() <= ordered[ordered.len() - 1].0.rank());
            }
        }
    }
}

/// The key order is ascending in its keys and holds exactly the items
/// given, each as often as it was given.
pub proof fn lemma_key_order_sorts<K: SortKey, T>(items: Seq<(K, T)>)
    ensures
        keys_ascend(in_key_order(items)),
        in_key_order(items).to_multiset() == items.to_multiset(),
        in_key_order(items).len() == items.len(),
    decreases items.len(),
{
    broadcast use vstd::seq_lib::group_to_multiset_ensures;

    if items.len() > 0 {
        lemma_key_order_sorts(items.drop_last());
        lemma_placed_ascends(in_key_order(items.drop_last()), items.last());
        assert(items =~= items.drop_last().push(items.last()));
    }
}

/// The items whose key has the given rank, in the order of the list.
pub open spec fn of_rank<K: SortKey, T>(items: Seq<(K, T)>, rank: int) -> Seq<(K, T)>
    decreases items.len(),
{
    if items.len() == 0 {
        items
    } else if items.last().0.rank() == rank {
        of_rank(items.drop_last(), rank).push(items.last())
    } else {
        of_rank(items.drop_last(), rank)
    }
}

/// Placing an item puts it behind the items of its own rank and leaves the
/// items of every rank in their order.
pub proof fn lemma_placed_stable<K: SortKey, T>(ordered: Seq<(K, T)>, item: (K, T), rank: int)
    ensures
        of_rank(placed(ordered, item), rank) == (if item.0.rank() == rank {
            of_rank(ordered, rank).push(item)
        } else {
            of_rank(ordered, rank)
        }),
    decreases ordered.len(),
{
    if ordered.len() > 0 && ordered.last().0.rank() > item.0.rank() {
        let front = ordered.drop_last();
        lemma_placed_stable(front, item, rank);
        let result = placed(front, item).push(ordered.last());
        assert(result.drop_last() =~= placed(front, item));
        assert(result.last() == ordered.last());
    } else {
        let result = ordered.push(item);
        assert(result.drop_last() =~= ordered);
        assert(result.last() == item);
    }
}

/// The key order is stable: the items of each rank stand in it in the
/// order in which they were given.
pub proof fn lemma_key_order_stable<K: SortKey, T>(items: Seq<(K, T)>, rank: int)
    ensures
        of_rank(in_key_order(items), rank) == of_rank(items, rank),
    decreases items.len(),
{
    if items.len() > 0 {
        lemma_key_order_stable(items.drop_last(), rank);
        lemma_placed_stable(in_key_order(items.drop_last()), items.last(), rank);
    }
}

/// A list whose keys already ascend is its own key order.
pub proof fn lemma_key_order_of_ascending<K: SortKey, T>(items: Seq<(K, T)>)
    requires
        keys_ascend(items),
    ensures
        in_key_order(items) == items,
    decreases items.len(),
{
    if items.len() > 0 {
        let front = items.drop_last();
        assert forall|i: int, j: int| 0 <= i < j < front.len() implies (#[trigger] front[i]).0.rank()
            <= (#[trigger] front[j]).0.rank() by {
            assert(items[i].0.rank() <= items[j].0.rank());
        }
        lemma_key_order_of_ascending(front);
        if front.len() > 0 {
            assert(items[front.len() - 1].0.rank() <= items[items.len() - 1].0.rank());
        }
        assert(front.push(items.last()) =~= items);
    }
}

/// Puts a list in ascending order of its keys, keeping items of equal key
/// in the order given.
pub fn sort_by_key<K: SortKey, T: Copy>(items: &Vec<(K, T)>) -> (ordered: Vec<(K, T)>)
    ensures
        ordered@ == in_key_order(items@),
{
    let n: usize = items.len();
    let mut ordered: Vec<(K, T)> = Vec::with_capacity(n);
    let mut i: usize = 0;
    assert(items@.take(0) =~= Seq::<(K, T)>::empty());
    while i < n
        invariant
            n == items.len(),
            i <= n,
            ordered.len() == i,
            ordered@ == in_key_order(items@.take(i as int)),
        decreases n - i,
    {
        let item = items[i];
        let mut at: usize = ordered.len();
        while at > 0 && ordered[at - 1].0.exceeds(&item.0)
            invariant
                at <= ordered.len(),
                forall|t: int| at <= t < ordered.len() ==> (#[trigger] ordered@[t]).0.rank() > item.0.rank(),
            decreases at,
        {
            at = at - 1;
        }
        proof {
            lemma_placed_at(ordered@, item, at as int);
            assert(items@.take(i as int + 1).drop_last() =~= items@.take(i as int));
        }
        ordered.insert(at, item);
        i = i + 1;
    }
    assert(items@.take(n as int) =~= items@);
    ordered
}

} // verus!
