//! Ordering items by an integer key.

use vstd::prelude::*;

use crate::index::forward_index::Postings;

verus! {

/// An item that is ordered by an integer key.
pub trait Keyed: Sized {
    /// The key.
    spec fn key_spec(&self) -> u32;

    /// The key.
    fn key(&self) -> (key: u32)
        ensures
            key == self.key_spec(),
    ;
}

impl Keyed for (u32, u32) {
    open spec fn key_spec(&self) -> u32 {
        self.0
    }

    fn key(&self) -> (key: u32) {
        self.0
    }
}

impl Keyed for (u32, u32, u32) {
    open spec fn key_spec(&self) -> u32 {
        self.0
    }

    fn key(&self) -> (key: u32) {
        self.0
    }
}

impl Keyed for (u8, u8) {
    open spec fn key_spec(&self) -> u32 {
        self.0 as u32
    }

    fn key(&self) -> (key: u32) {
        self.0 as u32
    }
}

impl Keyed for (u16, Postings) {
    open spec fn key_spec(&self) -> u32 {
        self.0 as u32
    }

    fn key(&self) -> (key: u32) {
        self.0 as u32
    }
}

/// The items of `items` that have the key `key`, in the order they stand in.
pub open spec fn with_key<T: Keyed>(items: Seq<T>, key: u32) -> Seq<T>
    decreases items.len(),
{
    if items.len() == 0 {
        Seq::empty()
    } else {
        let rest = with_key(items.drop_last(), key);
        if items.last().key_spec() == key {
            rest.push(items.last())
        } else {
            rest
        }
    }
}

/// The items stand in ascending order of their keys.
pub open spec fn sorted_by_key<T: Keyed>(items: Seq<T>) -> bool {
    forall|i: int, j: int|
        0 <= i <= j < items.len() ==> (#[trigger] items[i]).key_spec() <= (
        #[trigger] items[j]).key_spec()
}

/// `after` holds the items of `before` in ascending order of their keys, those
/// of one key in the order in which they stood.
pub open spec fn is_stable_sort<T: Keyed>(before: Seq<T>, after: Seq<T>) -> bool {
    &&& sorted_by_key(after)
    &&& forall|key: u32| #[trigger] with_key(after, key) == with_key(before, key)
}

/// Sorts by key with `slice::sort_by_key` of the standard library.
///
/// Trusted of it: the items come out in ascending order of their keys, and those
/// with one key keep the order in which they stood.
#[verifier::external_body]
pub(crate) fn stable_sort_by_key<T: Keyed>(items: &mut Vec<T>)
    ensures
        is_stable_sort(old(items)@, final(items)@),
{
    items.sort_by_key(|item| item.key());
}

/// Sorts by key with `slice::sort_unstable_by_key` of the standard library.
///
/// Trusted of it: the same items come out, in ascending order of their keys. In
/// what order items with one key come out is left open.
#[verifier::external_body]
pub(crate) fn unstable_sort_by_key<T: Keyed>(items: &mut Vec<T>)
    ensures
        sorted_by_key(final(items)@),
        final(items)@.to_multiset() == old(items)@.to_multiset(),
{
    items.sort_unstable_by_key(|item| item.key());
}

/// An item is among those of its own key exactly where it is among all.
pub proof fn lemma_with_key_contains<T: Keyed>(items: Seq<T>, key: u32, item: T)
    ensures
        with_key(items, key).contains(item) <==> items.contains(item) && item.key_spec() == key,
    decreases items.len(),
{
    if items.len() > 0 {
        let rest = items.drop_last();
        lemma_with_key_contains(rest, key, item);
        assert(items =~= rest.push(items.last()));
        broadcast use vstd::seq_lib::group_seq_properties;

        assert(items.contains(item) <==> rest.contains(item) || item == items.last());
        assert(with_key(rest, key).push(items.last()).contains(item) <==> with_key(
            rest,
            key,
        ).contains(item) || item == items.last());
    }
}

/// Of an item with the key `key` as many copies are kept as there are; of any
/// other item none.
proof fn lemma_with_key_count<T: Keyed>(items: Seq<T>, key: u32, item: T)
    ensures
        with_key(items, key).to_multiset().count(item) == if item.key_spec() == key {
            items.to_multiset().count(item)
        } else {
            0
        },
    decreases items.len(),
{
    broadcast use vstd::seq_lib::group_to_multiset_ensures;

    if items.len() > 0 {
        let rest = items.drop_last();
        lemma_with_key_count(rest, key, item);
        assert(items =~= rest.push(items.last()));
        assert(items.to_multiset() =~= rest.to_multiset().insert(items.last()));
        if items.last().key_spec() == key {
            let kept = with_key(rest, key);
            assert(kept.push(items.last()).to_multiset() =~= kept.to_multiset().insert(
                items.last(),
            ));
        }
    } else {
        assert(items =~= Seq::<T>::empty());
    }
}

/// A stable sort neither loses nor adds an item.
pub proof fn law_stable_sort_permutes<T: Keyed>(before: Seq<T>, after: Seq<T>)
    requires
        is_stable_sort(before, after),
    ensures
        after.to_multiset() == before.to_multiset(),
        after.len() == before.len(),
        forall|item: T| #[trigger] after.contains(item) <==> before.contains(item),
{
    assert forall|item: T| after.to_multiset().count(item) == before.to_multiset().count(
        item,
    ) by {
        lemma_with_key_count(before, item.key_spec(), item);
        lemma_with_key_count(after, item.key_spec(), item);
        assert(with_key(after, item.key_spec()) == with_key(before, item.key_spec()));
    }
    assert(after.to_multiset() =~= before.to_multiset());
    before.to_multiset_ensures();
    after.to_multiset_ensures();
    assert forall|item: T| #[trigger] after.contains(item) <==> before.contains(item) by {
        lemma_with_key_contains(before, item.key_spec(), item);
        lemma_with_key_contains(after, item.key_spec(), item);
        assert(with_key(after, item.key_spec()) == with_key(before, item.key_spec()));
    }
}

/// Items have one stable sort only.
pub proof fn law_stable_sort_is_unique<T: Keyed>(before: Seq<T>, one: Seq<T>, other: Seq<T>)
    requires
        is_stable_sort(before, one),
        is_stable_sort(before, other),
    ensures
        one == other,
{
    assert forall|key: u32| #[trigger] with_key(one, key) == with_key(other, key) by {
        assert(with_key(one, key) == with_key(before, key));
        assert(with_key(other, key) == with_key(before, key));
    }
    lemma_sorted_with_equal_keys(one, other);
}

proof fn lemma_sorted_with_equal_keys<T: Keyed>(one: Seq<T>, other: Seq<T>)
    requires
        sorted_by_key(one),
        sorted_by_key(other),
        forall|key: u32| #[trigger] with_key(one, key) == with_key(other, key),
    ensures
        one == other,
    decreases one.len(),
{
    if one.len() == 0 {
        if other.len() > 0 {
            let key = other.last().key_spec();
            assert(with_key(one, key).len() == 0);
            assert(with_key(other, key).last() == other.last());
            assert(with_key(other, key) == with_key(one, key));
        }
        assert(one =~= other);
    } else {
        let key = one.last().key_spec();
        assert(with_key(one, key).last() == one.last());
        assert(with_key(one, key).len() > 0);
        assert(with_key(other, key) == with_key(one, key));
        lemma_with_key_contains(other, key, one.last());
        assert(with_key(other, key)[with_key(other, key).len() - 1] == one.last());
        assert(other.contains(one.last()));
        assert(other.len() > 0);
        let high = other.last().key_spec();
        assert(with_key(other, high).last() == other.last());
        assert(with_key(one, high) == with_key(other, high));
        lemma_with_key_contains(one, high, other.last());
        assert(with_key(one, high)[with_key(one, high).len() - 1] == other.last());
        assert(one.contains(other.last()));
        assert(key == high);
        let (a, b) = (one.drop_last(), other.drop_last());
        assert forall|k: u32| #[trigger] with_key(a, k) == with_key(b, k) by {
            assert(with_key(one, k) == with_key(other, k));
            if k == key {
                assert(with_key(one, k).drop_last() =~= with_key(a, k));
                assert(with_key(other, k).drop_last() =~= with_key(b, k));
            }
        }
        lemma_sorted_with_equal_keys(a, b);
        assert(one =~= a.push(one.last()));
        assert(other =~= b.push(other.last()));
    }
}

/// Items of the same key are the same item.
pub open spec fn ties_are_equal<T: Keyed>(items: Seq<T>) -> bool {
    forall|i: int, j: int|
        0 <= i < j < items.len() && (#[trigger] items[i]).key_spec() == (
        #[trigger] items[j]).key_spec() ==> items[i] == items[j]
}

/// Where items of the same key are the same item, there is one order only in which
/// the keys ascend: a sort that is not stable leaves nothing open.
pub proof fn law_equal_ties_sort_uniquely<T: Keyed>(one: Seq<T>, other: Seq<T>)
    requires
        sorted_by_key(one),
        sorted_by_key(other),
        one.to_multiset() == other.to_multiset(),
        ties_are_equal(one),
    ensures
        one == other,
{
    assert forall|key: u32| #[trigger] with_key(one, key) == with_key(other, key) by {
        let (a, b) = (with_key(one, key), with_key(other, key));
        assert forall|item: T| a.to_multiset().count(item) == b.to_multiset().count(item) by {
            lemma_with_key_count(one, key, item);
            lemma_with_key_count(other, key, item);
        }
        assert(a.to_multiset() =~= b.to_multiset());
        a.to_multiset_ensures();
        b.to_multiset_ensures();
        assert forall|i: int| 0 <= i < a.len() implies a[i] == b[i] by {
            assert(a.contains(a[i]) && b.contains(b[i]));
            assert(b.to_multiset().count(b[i]) > 0);
            assert(a.contains(b[i]));
            lemma_with_key_contains(one, key, a[i]);
            lemma_with_key_contains(one, key, b[i]);
            let m = choose|m: int| 0 <= m < one.len() && one[m] == a[i];
            let n = choose|n: int| 0 <= n < one.len() && one[n] == b[i];
            assert(one[m].key_spec() == one[n].key_spec());
        }
        assert(a =~= b);
    }
    lemma_sorted_with_equal_keys(one, other);
}

/// Of items with distinct keys at most one has a given key.
pub proof fn lemma_distinct_keys<T: Keyed>(items: Seq<T>, key: u32)
    requires
        forall|i: int, j: int|
            0 <= i < j < items.len() ==> (#[trigger] items[i]).key_spec() != (
            #[trigger] items[j]).key_spec(),
    ensures
        with_key(items, key).len() <= 1,
    decreases items.len(),
{
    if items.len() > 0 {
        let rest = items.drop_last();
        lemma_distinct_keys(rest, key);
        if items.last().key_spec() == key && with_key(rest, key).len() > 0 {
            let item = with_key(rest, key)[0];
            assert(with_key(rest, key).contains(item));
            lemma_with_key_contains(rest, key, item);
            let i = choose|i: int| 0 <= i < rest.len() && rest[i] == item;
            assert(items[i].key_spec() != items[items.len() - 1].key_spec());
        }
    }
}

/// What is ordered is ordered by its first part: a posting and a placed posting by
/// the term, a pair by the place, an entry of a block by the term.
pub proof fn law_keys_are_first_parts(
    posting: (u32, u32),
    placed: (u32, u32, u32),
    pair: (u8, u8),
    entry: (u16, Postings),
)
    ensures
        posting.key_spec() == posting.0,
        placed.key_spec() == placed.0,
        pair.key_spec() == pair.0,
        entry.key_spec() == entry.0,
{
}

/// The items of a key are all items of that key, as often and in the order in which
/// they stand.
pub proof fn law_with_key_filters<T: Keyed>(items: Seq<T>, key: u32)
    ensures
        with_key(items, key) == items.filter(|item: T| item.key_spec() == key),
    decreases items.len(),
{
    reveal(Seq::filter);
    if items.len() > 0 {
        law_with_key_filters(items.drop_last(), key);
    }
}

/// A document that was sorted stably has its terms in ascending order, and the
/// postings of each term are those that it had, as often and in the same order.
pub proof fn law_sorted_documents_ascend(
    before: Seq<(u32, u32)>,
    after: Seq<(u32, u32)>,
    term: u32,
)
    requires
        is_stable_sort(before, after),
    ensures
        forall|i: int, j: int|
            0 <= i <= j < after.len() ==> (#[trigger] after[i]).0 <= (#[trigger] after[j]).0,
        after.to_multiset() == before.to_multiset(),
        after.filter(|p: (u32, u32)| p.0 == term) == before.filter(|p: (u32, u32)| p.0 == term),
{
    law_stable_sort_permutes(before, after);
    assert forall|i: int, j: int| 0 <= i <= j < after.len() implies (#[trigger] after[i]).0 <= (
    #[trigger] after[j]).0 by {
        assert(after[i].key_spec() <= after[j].key_spec());
    }
    assert(with_key(after, term) == with_key(before, term));
    law_with_key_filters(before, term);
    law_with_key_filters(after, term);
    assert((|p: (u32, u32)| p.0 == term) =~= (|item: (u32, u32)| item.key_spec() == term));
}

/// Pairs that stand in order of their keys ascend by place, and entries by term.
pub proof fn law_sorted_parts_ascend(pairs: Seq<(u8, u8)>, entries: Seq<(u16, Postings)>)
    ensures
        sorted_by_key(pairs) <==> forall|i: int, j: int|
            0 <= i <= j < pairs.len() ==> (#[trigger] pairs[i]).0 <= (#[trigger] pairs[j]).0,
        sorted_by_key(entries) <==> forall|i: int, j: int|
            0 <= i <= j < entries.len() ==> (#[trigger] entries[i]).0 <= (#[trigger] entries[j]).0,
{
    if sorted_by_key(pairs) {
        assert forall|i: int, j: int| 0 <= i <= j < pairs.len() implies (#[trigger] pairs[i]).0
            <= (#[trigger] pairs[j]).0 by {
            assert(pairs[i].key_spec() <= pairs[j].key_spec());
        }
    }
    if sorted_by_key(entries) {
        assert forall|i: int, j: int| 0 <= i <= j < entries.len() implies (#[trigger] entries[i]).0
            <= (#[trigger] entries[j]).0 by {
            assert(entries[i].key_spec() <= entries[j].key_spec());
        }
    }
}

} // verus!
