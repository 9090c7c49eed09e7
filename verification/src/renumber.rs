//! What becomes of the indices into a list when some of its entries are taken out.

use vstd::prelude::*;

verus! {

/// How many of the indices below `i` are taken out.
pub open spec fn removed_below(removed: Set<int>, i: int) -> nat
    decreases i,
{
    if i <= 0 {
        0
    } else if removed.contains(i - 1) {
        removed_below(removed, i - 1) + 1
    } else {
        removed_below(removed, i - 1)
    }
}

/// The index of entry `i` among those that stay.
pub open spec fn new_index(removed: Set<int>, i: int) -> int {
    i - removed_below(removed, i)
}

/// Of the first `count` entries of a list those that stay, in order.
pub open spec fn kept<T>(list: Seq<T>, removed: Set<int>, count: int) -> Seq<T>
    decreases count,
{
    if count <= 0 {
        Seq::empty()
    } else if removed.contains(count - 1) {
        kept(list, removed, count - 1)
    } else {
        kept(list, removed, count - 1).push(list[count - 1])
    }
}

/// The entry that stands for entry `i` afterwards: the one that `replaced` names, or itself.
pub open spec fn stand_in(replaced: Map<u8, u8>, i: u8) -> u8 {
    if replaced.contains_key(i) {
        replaced[i]
    } else {
        i
    }
}

/// The map of old indexes to new ones, for all that move in a list of `count` entries: those that
/// another entry replaces, and those behind an entry that is taken out.
pub open spec fn moved(count: int, removed: Set<int>, replaced: Map<u8, u8>) -> Map<u8, u8> {
    Map::new(
        |i: u8| replaced.contains_key(i) || (i < count && removed_below(removed, i as int) > 0),
        |i: u8| new_index(removed, stand_in(replaced, i) as int) as u8,
    )
}

pub proof fn lemma_removed_below_bound(removed: Set<int>, i: int)
    ensures
        removed_below(removed, i) <= if i <= 0 {
            0
        } else {
            i
        },
    decreases i,
{
    if i > 0 {
        lemma_removed_below_bound(removed, i - 1);
    }
}

pub proof fn lemma_removed_below_mono(removed: Set<int>, i: int, j: int)
    requires
        0 <= i <= j,
    ensures
        removed_below(removed, i) <= removed_below(removed, j) <= removed_below(removed, i) + (j
            - i),
    decreases j - i,
{
    if i < j {
        lemma_removed_below_mono(removed, i, j - 1);
    }
}

/// Nothing is counted below the smallest index taken out, and less than the distance above it.
pub proof fn lemma_removed_above(removed: Set<int>, idx: int, i: int)
    requires
        0 <= idx,
        forall|r: int| #[trigger] removed.contains(r) ==> r > idx,
    ensures
        i <= idx + 1 ==> removed_below(removed, i) == 0,
        i > idx ==> removed_below(removed, i) <= i - idx - 1,
    decreases i,
{
    if i > 0 {
        lemma_removed_above(removed, idx, i - 1);
    }
}

pub proof fn lemma_removed_insert(removed: Set<int>, idx: int, i: int)
    requires
        0 <= idx,
        !removed.contains(idx),
    ensures
        removed_below(removed.insert(idx), i) == removed_below(removed, i) + (if idx < i {
            1nat
        } else {
            0
        }),
    decreases i,
{
    if i > 0 {
        lemma_removed_insert(removed, idx, i - 1);
    }
}

pub proof fn lemma_removed_none(removed: Set<int>, i: int)
    requires
        forall|r: int| 0 <= r < i ==> !#[trigger] removed.contains(r),
    ensures
        removed_below(removed, i) == 0,
    decreases i,
{
    if i > 0 {
        lemma_removed_none(removed, i - 1);
    }
}

pub proof fn lemma_kept_len<T>(list: Seq<T>, removed: Set<int>, count: int)
    requires
        0 <= count <= list.len(),
    ensures
        kept(list, removed, count).len() == count - removed_below(removed, count),
    decreases count,
{
    if count > 0 {
        lemma_kept_len(list, removed, count - 1);
    }
}

/// An entry that stays is found at its new index.
pub proof fn lemma_kept_index<T>(list: Seq<T>, removed: Set<int>, count: int, i: int)
    requires
        0 <= i < count <= list.len(),
        !removed.contains(i),
    ensures
        0 <= new_index(removed, i) < kept(list, removed, count).len(),
        kept(list, removed, count)[new_index(removed, i)] == list[i],
    decreases count,
{
    lemma_kept_len(list, removed, count);
    lemma_kept_len(list, removed, count - 1);
    lemma_removed_below_bound(removed, i);
    if i < count - 1 {
        lemma_kept_index(list, removed, count - 1, i);
    }
}

/// Each entry that stays comes from an entry of the list that is not taken out, and whose new index
/// is its place.
pub proof fn lemma_kept_source<T>(list: Seq<T>, removed: Set<int>, count: int, j: int) -> (i: int)
    requires
        0 <= count <= list.len(),
        0 <= j < kept(list, removed, count).len(),
    ensures
        0 <= i < count,
        !removed.contains(i),
        new_index(removed, i) == j,
        kept(list, removed, count)[j] == list[i],
    decreases count,
{
    lemma_kept_len(list, removed, count);
    lemma_kept_len(list, removed, count - 1);
    if removed.contains(count - 1) {
        lemma_kept_source(list, removed, count - 1, j)
    } else if j == kept(list, removed, count).len() - 1 {
        count - 1
    } else {
        lemma_kept_source(list, removed, count - 1, j)
    }
}

pub proof fn lemma_kept_all<T>(list: Seq<T>, removed: Set<int>, count: int)
    requires
        0 <= count <= list.len(),
        forall|r: int| 0 <= r < count ==> !#[trigger] removed.contains(r),
    ensures
        kept(list, removed, count) == list.take(count),
    decreases count,
{
    if count > 0 {
        lemma_kept_all(list, removed, count - 1);
        assert(list.take(count) =~= list.take(count - 1).push(list[count - 1]));
    } else {
        assert(list.take(count) =~= Seq::<T>::empty());
    }
}

/// Taking out one more entry, in front of all that were taken out before.
pub proof fn lemma_kept_remove<T>(list: Seq<T>, removed: Set<int>, idx: int, count: int)
    requires
        0 <= idx < count <= list.len(),
        forall|r: int| #[trigger] removed.contains(r) ==> r > idx,
    ensures
        idx < kept(list, removed, count).len(),
        kept(list, removed.insert(idx), count) == kept(list, removed, count).remove(idx),
    decreases count,
{
    lemma_kept_len(list, removed, count);
    lemma_removed_above(removed, idx, count);
    if count == idx + 1 {
        lemma_kept_all(list, removed, count);
        lemma_kept_all(list, removed.insert(idx), idx);
        assert(list.take(count).remove(idx) =~= list.take(idx));
    } else {
        lemma_kept_remove(list, removed, idx, count - 1);
        assert(removed.insert(idx).contains(count - 1) == removed.contains(count - 1));
        let before = kept(list, removed, count - 1);
        if !removed.contains(count - 1) {
            assert(before.push(list[count - 1]).remove(idx) =~= before.remove(idx).push(
                list[count - 1],
            ));
        }
    }
}

/// An index behind the list takes nothing out of it.
pub proof fn lemma_kept_beyond<T>(list: Seq<T>, removed: Set<int>, idx: int, count: int)
    requires
        0 <= count <= idx,
    ensures
        kept(list, removed.insert(idx), count) == kept(list, removed, count),
    decreases count,
{
    if count > 0 {
        lemma_kept_beyond(list, removed, idx, count - 1);
    }
}

/// No entry moves up, if none is replaced by a later one.
pub proof fn lemma_moved_down(count: int, removed: Set<int>, replaced: Map<u8, u8>, i: u8)
    requires
        replaced.contains_key(i) ==> replaced[i] < i,
    ensures
        stand_in(moved(count, removed, replaced), i) <= i,
{
    lemma_removed_below_bound(removed, stand_in(replaced, i) as int);
}

/// Taking out one more entry in front of all that were taken out before moves each index behind it
/// down by one, where it was not below that entry already.
pub proof fn lemma_moved_step(
    count: int,
    removed: Set<int>,
    replaced: Map<u8, u8>,
    idx: int,
    i: u8,
)
    requires
        0 <= idx < count <= 256,
        forall|r: int| #[trigger] removed.contains(r) ==> idx < r < count,
        i < count,
        replaced.contains_key(i) ==> replaced[i] < i && replaced[i] != idx
            && !removed.contains(replaced[i] as int),
    ensures
        ({
            let before = moved(count, removed, replaced);
            let after = moved(count, removed.insert(idx), replaced);
            let value = stand_in(before, i);
            &&& i > idx ==> {
                &&& after.contains_key(i)
                &&& after[i] == if value >= idx {
                    (value - 1) as u8
                } else {
                    value
                }
                &&& value >= idx ==> value >= 1
            }
            &&& i <= idx ==> {
                &&& after.contains_key(i) == before.contains_key(i)
                &&& after.contains_key(i) ==> after[i] == before[i]
            }
        }),
{
    let before = moved(count, removed, replaced);
    let after = moved(count, removed.insert(idx), replaced);
    let rep = stand_in(replaced, i) as int;
    assert(!removed.contains(idx));
    lemma_removed_insert(removed, idx, rep);
    lemma_removed_insert(removed, idx, i as int);
    lemma_removed_above(removed, idx, rep);
    lemma_removed_above(removed, idx, i as int);
    lemma_removed_below_bound(removed, rep);
    lemma_removed_below_bound(removed.insert(idx), rep);
    if i > idx {
        let value = stand_in(before, i);
        assert(value == new_index(removed, rep)) by {
            if !before.contains_key(i) {
                assert(removed_below(removed, i as int) == 0);
            }
        }
    }
}

} // verus!
