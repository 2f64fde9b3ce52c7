//! Calls that look up, insert and remove elements.
use crate::allocator::{Allocator, TryReserveError};
use crate::raw::bucket::Bucket;
use crate::raw::laws;
use crate::raw::layout;
use crate::raw::model;
use crate::raw::storage::RawTableInner;
use crate::raw::table::RawTable;
use vstd::prelude::*;

verus! {

/// The elements of a table are what its buckets hold.
pub proof fn lemma_elements_are_what_buckets_hold<T>(table: &RawTableInner<T>, value: T)
    ensures
        table.elements().count(value) == table.data@.to_multiset().count(Some(value)),
        table.elements().contains(value) <==> table.data@.contains(Some(value)),
{
    lemma_bag_counts(table.data@, value);
    table.data@.to_multiset_ensures();
}

/// The elements of buckets, counted.
proof fn lemma_bag_counts<T>(data: Seq<Option<T>>, value: T)
    ensures
        model::bag(data).count(value) == data.to_multiset().count(Some(value)),
    decreases data.len(),
{
    broadcast use vstd::multiset::group_multiset_axioms;

    data.to_multiset_ensures();
    if data.len() > 0 {
        lemma_bag_counts(data.drop_last(), value);
        assert(data =~= data.drop_last().push(data.last()));
        data.drop_last().to_multiset_ensures();
    }
}

/// `len` counts the buckets that hold something.
pub proof fn lemma_len_counts_the_elements<T, A: Allocator>(table: &RawTable<T, A>, r: usize)
    requires
        table.wf(),
        call_ensures(RawTable::<T, A>::len, (table,), r),
    ensures
        r == table.table.data@.filter(|held: Option<T>| held is Some).len(),
        r == table.elements().len(),
        r == table.table.items,
{
    table.table.lemma_items_are_elements();
    lemma_bag_len(table.table.data@);
}

/// There are as many elements as occupied buckets.
proof fn lemma_bag_len<T>(data: Seq<Option<T>>)
    ensures
        model::bag(data).len() == data.filter(|held: Option<T>| held is Some).len(),
    decreases data.len(),
{
    broadcast use vstd::multiset::group_multiset_axioms;

    reveal(Seq::filter);
    if data.len() > 0 {
        lemma_bag_len(data.drop_last());
    }
}

/// `get` returns an element of the table that `eq` accepts. If it returns none, `eq` has
/// rejected every element that the table holds under the hash.
pub proof fn lemma_get<T, A: Allocator, F: Fn(&T) -> bool>(
    table: &RawTable<T, A>,
    hash: u64,
    eq: F,
    r: Option<&T>,
)
    requires
        table.wf(),
        call_ensures(RawTable::<T, A>::get, (table, hash, eq), r),
    ensures
        r matches Some(value) ==> {
            &&& call_ensures(&eq, (value,), true)
            &&& table.table.data@.contains(Some(*value))
        },
        r is None ==> forall|i: int|
            0 <= i < table.table.data@.len() && #[trigger] table.table.data@[i] is Some
                && table.table.hashes@[i] == hash ==> call_ensures(
                &eq,
                (&table.table.data@[i]->0,),
                false,
            ),
{
    if r is None {
        lemma_absent(&table.table, hash, &eq);
    } else {
        let i = choose|i: int| #[trigger]
            table.table.picks(hash, &eq, i) && table.table.data@[i] == Some(*(r->0));
        assert(table.table.data@[i] == Some(*(r->0)));
    }
}

/// A lookup that picks nothing has rejected what is held under the hash.
proof fn lemma_absent<T, F: Fn(&T) -> bool>(table: &RawTableInner<T>, hash: u64, eq: &F)
    requires
        table.wf(),
        table.picks_none(hash, eq),
    ensures
        forall|i: int|
            0 <= i < table.data@.len() && #[trigger] table.data@[i] is Some && table.hashes@[i]
                == hash ==> call_ensures(eq, (&table.data@[i]->0,), false),
{
    assert forall|i: int|
        0 <= i < table.data@.len() && #[trigger] table.data@[i] is Some && table.hashes@[i]
            == hash implies call_ensures(eq, (&table.data@[i]->0,), false) by {
        assert(table.tags()[i] is Full);
        table.lemma_entry_is_candidate(i, hash, table.data@[i]->0);
    }
}

/// `find` returns the bucket of an element that `eq` accepts. If it returns none, `eq` has
/// rejected every element that the table holds under the hash.
pub proof fn lemma_find<T, A: Allocator, F: Fn(&T) -> bool>(
    table: &RawTable<T, A>,
    hash: u64,
    eq: F,
    r: Option<Bucket<T>>,
)
    requires
        table.wf(),
        call_ensures(RawTable::<T, A>::find, (table, hash, eq), r),
    ensures
        r matches Some(bucket) ==> exists|i: int|
            {
                &&& 0 <= i < table.table.data@.len()
                &&& #[trigger] bucket.is_at(table.table.ctrl_offset as int, i)
                &&& table.table.data@[i] is Some
                &&& call_ensures(&eq, (&table.table.data@[i]->0,), true)
            },
        r is None ==> forall|i: int|
            0 <= i < table.table.data@.len() && #[trigger] table.table.data@[i] is Some
                && table.table.hashes@[i] == hash ==> call_ensures(
                &eq,
                (&table.table.data@[i]->0,),
                false,
            ),
{
    if r is None {
        lemma_absent(&table.table, hash, &eq);
    } else {
        let bucket = r->0;
        let i = choose|i: int| #[trigger]
            table.is_bucket(&bucket, i) && table.table.picks(hash, &eq, i);
        assert(bucket.is_at(table.table.ctrl_offset as int, i));
        assert(table.table.data@[i] is Some);
    }
}

/// `get_mut` returns a reference to an element of the table that `eq` accepts; what is written
/// through it goes into the bucket of the element, and nothing else changes. If it returns
/// none, `eq` has rejected every element that the table holds under the hash.
pub proof fn lemma_get_mut<T, A: Allocator, F: Fn(&T) -> bool>(
    before: RawTable<T, A>,
    hash: u64,
    eq: F,
    r: Option<&mut T>,
    after: RawTable<T, A>,
)
    requires
        before.wf(),
        exists|m: &mut RawTable<T, A>|
            *m == before && *final(m) == after && #[trigger] call_ensures(
                RawTable::<T, A>::get_mut,
                (m, hash, eq),
                r,
            ),
    ensures
        after.wf(),
        after.alloc == before.alloc,
        after.table.bucket_mask == before.table.bucket_mask,
        after.table.items == before.table.items,
        after.table.growth_left == before.table.growth_left,
        after.table.hashes == before.table.hashes,
        r matches Some(value) ==> {
            &&& call_ensures(&eq, (&*value,), true)
            &&& exists|i: int|
                0 <= i < before.table.data@.len() && #[trigger] before.table.data@[i] == Some(
                    *value,
                ) && after.table.data@ == before.table.data@.update(i, Some(*final(value)))
        },
        r is None ==> after.table.data@ == before.table.data@ && forall|i: int|
            0 <= i < before.table.data@.len() && #[trigger] before.table.data@[i] is Some
                && before.table.hashes@[i] == hash ==> call_ensures(
                &eq,
                (&before.table.data@[i]->0,),
                false,
            ),
{
    if r is None {
        lemma_absent(&before.table, hash, &eq);
    } else {
        let value = r->0;
        let i = choose|i: int|
            {
                &&& #[trigger] before.table.picks(hash, &eq, i)
                &&& before.table.data@[i] == Some(*value)
                &&& after.table.data@ == before.table.data@.update(i, Some(*final(value)))
            };
        assert(before.table.data@[i] == Some(*value));
    }
}

/// `remove_entry` takes an element that `eq` accepts out of its bucket, and leaves every other
/// one where it is. If it returns none, `eq` has rejected every element that the table holds
/// under the hash, and the table is as it was.
pub proof fn lemma_remove_entry<T, A: Allocator, F: Fn(&T) -> bool>(
    before: RawTable<T, A>,
    hash: u64,
    eq: F,
    r: Option<T>,
    after: RawTable<T, A>,
)
    requires
        before.wf(),
        exists|m: &mut RawTable<T, A>|
            *m == before && *final(m) == after && #[trigger] call_ensures(
                RawTable::<T, A>::remove_entry,
                (m, hash, eq),
                r,
            ),
    ensures
        after.wf(),
        after.alloc == before.alloc,
        r matches Some(value) ==> {
            &&& call_ensures(&eq, (&value,), true)
            &&& after.table.items == before.table.items - 1
            &&& after.table.bucket_mask == before.table.bucket_mask
            &&& after.table.hashes == before.table.hashes
            &&& after.table.growth_left >= before.table.growth_left
            &&& after.table.block == before.table.block
            &&& exists|i: int|
                0 <= i < before.table.data@.len() && #[trigger] before.table.data@[i] == Some(
                    value,
                ) && after.table.data@ == before.table.data@.update(i, None)
        },
        r is None ==> after == before && forall|i: int|
            0 <= i < before.table.data@.len() && #[trigger] before.table.data@[i] is Some
                && before.table.hashes@[i] == hash ==> call_ensures(
                &eq,
                (&before.table.data@[i]->0,),
                false,
            ),
{
    if r is None {
        lemma_absent(&before.table, hash, &eq);
    } else {
        let value = r->0;
        let i = choose|i: int|
            {
                &&& #[trigger] before.table.picks(hash, &eq, i)
                &&& before.table.data@[i] == Some(value)
                &&& after.table.erased_from(&before.table, i)
            };
        assert(before.table.data@[i] == Some(value));
    }
}

/// A removed element is not found again: if `eq` accepts just one of the elements of a table,
/// a lookup after its removal finds nothing.
pub proof fn lemma_removed_entry_is_gone<T, A: Allocator, F: Fn(&T) -> bool>(
    before: RawTable<T, A>,
    hash: u64,
    eq: F,
    value: T,
    after: RawTable<T, A>,
    found: Option<&T>,
)
    requires
        before.wf(),
        exists|m: &mut RawTable<T, A>|
            *m == before && *final(m) == after && #[trigger] call_ensures(
                RawTable::<T, A>::remove_entry,
                (m, hash, eq),
                Some(value),
            ),
        call_ensures(RawTable::<T, A>::get, (&after, hash, eq), found),
        forall|i: int, j: int|
            #![trigger before.table.data@[i], before.table.data@[j]]
            {
                &&& 0 <= i < before.table.data@.len()
                &&& 0 <= j < before.table.data@.len()
                &&& before.table.data@[i] is Some
                &&& before.table.data@[j] is Some
                &&& call_ensures(&eq, (&before.table.data@[i]->0,), true)
                &&& call_ensures(&eq, (&before.table.data@[j]->0,), true)
            } ==> i == j,
    ensures
        found is None,
        after.elements() == before.elements().remove(value),
        before.elements().contains(value),
{
    lemma_remove_entry(before, hash, eq, Some(value), after);
    lemma_get(&after, hash, eq, found);
    let i = choose|i: int|
        0 <= i < before.table.data@.len() && #[trigger] before.table.data@[i] == Some(value)
            && after.table.data@ == before.table.data@.update(i, None);
    model::lemma_bag_take(before.table.data@, i);
    if found is Some {
        let j = after.table.data@.index_of(Some(*(found->0)));
        assert(before.table.data@[j] == Some(*(found->0)));
        assert(i == j);
    }
}

/// `insert` puts the element into a bucket under its hash, which is the bucket that it
/// returns, and adds it to the elements. If the table has room, every other element stays
/// where it is, and so does the memory.
pub proof fn lemma_insert<T, A: Allocator, F: Fn(&T) -> u64>(
    before: RawTable<T, A>,
    hash: u64,
    value: T,
    hasher: F,
    r: Bucket<T>,
    after: RawTable<T, A>,
) -> (i: int)
    requires
        before.wf(),
        exists|m: &mut RawTable<T, A>|
            *m == before && *final(m) == after && #[trigger] call_ensures(
                RawTable::<T, A>::insert,
                (m, hash, value, hasher),
                r,
            ),
    ensures
        after.wf(),
        after.alloc == before.alloc,
        0 <= i < after.table.data@.len(),
        r.is_at(after.table.ctrl_offset as int, i),
        after.table.data@[i] == Some(value),
        after.table.hashes@[i] == hash,
        after.table.items == before.table.items + 1,
        after.elements() == before.elements().insert(value),
        before.table.growth_left > 0 ==> {
            &&& after.table.bucket_mask == before.table.bucket_mask
            &&& after.table.block == before.table.block
            &&& after.table.growth_left >= before.table.growth_left - 1
            &&& before.table.data@[i] is None
            &&& after.table.data@ == before.table.data@.update(i, Some(value))
            &&& after.table.hashes@ == before.table.hashes@.update(i, hash)
        },
{
    let i = choose|i: int| #[trigger]
        after.is_bucket(&r, i) && after.inserted(&before, i, hash, value, &hasher);
    assert(after.holds(i, hash, value));
    let grown = choose|grown: RawTableInner<T>|
        {
            &&& if before.table.is_out_of_room(hash) {
                grown.grown_from(
                    &before.table,
                    1,
                    &hasher,
                    &before.alloc,
                    layout::table_layout_of::<T>(),
                )
            } else {
                grown == before.table
            }
            &&& grown.wf()
            &&& model::is_insert_slot(grown.tags(), hash, i)
            &&& #[trigger] after.table.inserted_from(&grown, i, hash, value)
        };
    assert(after.table.items == grown.items + 1);
    i
}

/// `insert` loses no element, even if the table grows for it: if the hash function computes a
/// function of the element, every element is still held under its hash.
pub proof fn lemma_insert_loses_nothing<T, A: Allocator, F: Fn(&T) -> u64>(
    before: RawTable<T, A>,
    hash: u64,
    value: T,
    hasher: F,
    r: Bucket<T>,
    after: RawTable<T, A>,
    hash_of: spec_fn(T) -> u64,
    j: int,
) -> (k: int)
    requires
        before.wf(),
        exists|m: &mut RawTable<T, A>|
            *m == before && *final(m) == after && #[trigger] call_ensures(
                RawTable::<T, A>::insert,
                (m, hash, value, hasher),
                r,
            ),
        forall|v: T, h: u64| #[trigger] call_ensures(&hasher, (&v,), h) ==> h == hash_of(v),
        hash == hash_of(value),
        0 <= j < before.table.data@.len(),
        before.table.data@[j] is Some,
        before.table.hashes@[j] == hash_of(before.table.data@[j]->0),
    ensures
        0 <= k < after.table.data@.len(),
        after.table.data@[k] == before.table.data@[j],
        after.table.hashes@[k] == before.table.hashes@[j],
{
    let i = choose|i: int| #[trigger]
        after.is_bucket(&r, i) && after.inserted(&before, i, hash, value, &hasher);
    assert(before.table.tags()[j] is Full);
    let other = before.table.data@[j]->0;
    let k = laws::lemma_insert_keeps_entries(
        &before,
        &after,
        i,
        value,
        &hasher,
        hash_of,
        j,
        other,
    );
    assert(after.holds(k, hash_of(other), other));
    k
}

/// What was inserted is found: a lookup under its hash that accepts it does not come back
/// empty, and returns it if it accepts nothing else.
pub proof fn lemma_get_after_insert<T, A: Allocator, F: Fn(&T) -> u64, G: Fn(&T) -> bool>(
    before: RawTable<T, A>,
    hash: u64,
    value: T,
    hasher: F,
    r: Bucket<T>,
    after: RawTable<T, A>,
    eq: G,
    found: Option<&T>,
)
    requires
        before.wf(),
        exists|m: &mut RawTable<T, A>|
            *m == before && *final(m) == after && #[trigger] call_ensures(
                RawTable::<T, A>::insert,
                (m, hash, value, hasher),
                r,
            ),
        call_ensures(RawTable::<T, A>::get, (&after, hash, eq), found),
        forall|answer: bool| #[trigger] call_ensures(&eq, (&value,), answer) ==> answer,
    ensures
        found is Some,
        (forall|v: T| #[trigger]
            before.elements().contains(v) && call_ensures(&eq, (&v,), true) ==> v == value)
            ==> *(found->0) == value,
{
    let i = lemma_insert(before, hash, value, hasher, r, after);
    lemma_get(&after, hash, eq, found);
    if found is None {
        assert(call_ensures(&eq, (&after.table.data@[i]->0,), false));
    } else {
        lemma_elements_are_what_buckets_hold(&after.table, *(found->0));
        broadcast use vstd::multiset::group_multiset_axioms;

        let v = *(found->0);
        assert(after.elements().contains(v));
        if v != value {
            assert(before.elements().count(v) == after.elements().count(v));
            assert(before.elements().contains(v));
        }
    }
}

/// An element that is held is found and can be removed, whatever else the table holds.
pub proof fn lemma_held_entry_is_removed<T, A: Allocator, F: Fn(&T) -> bool>(
    before: RawTable<T, A>,
    i: int,
    eq: F,
    r: Option<T>,
    after: RawTable<T, A>,
)
    requires
        before.wf(),
        0 <= i < before.table.data@.len(),
        before.table.data@[i] is Some,
        forall|answer: bool| #[trigger]
            call_ensures(&eq, (&before.table.data@[i]->0,), answer) ==> answer,
        exists|m: &mut RawTable<T, A>|
            *m == before && *final(m) == after && #[trigger] call_ensures(
                RawTable::<T, A>::remove_entry,
                (m, before.table.hashes@[i], eq),
                r,
            ),
    ensures
        r is Some,
        after.table.items == before.table.items - 1,
        before.elements() == after.elements().insert(r->0),
{
    lemma_remove_entry(before, before.table.hashes@[i], eq, r, after);
    if r is None {
        assert(call_ensures(&eq, (&before.table.data@[i]->0,), false));
    } else {
        let j = choose|j: int|
            0 <= j < before.table.data@.len() && #[trigger] before.table.data@[j] == r
                && after.table.data@ == before.table.data@.update(j, None);
        model::lemma_bag_take(before.table.data@, j);
    }
}

/// Making room loses no element: if the hash function computes a function of the element,
/// every element is held under its hash afterwards.
pub proof fn lemma_try_reserve_loses_nothing<T, A: Allocator, F: Fn(&T) -> u64>(
    before: RawTable<T, A>,
    additional: usize,
    hasher: F,
    after: RawTable<T, A>,
    r: Result<(), TryReserveError>,
    hash_of: spec_fn(T) -> u64,
    j: int,
) -> (k: int)
    requires
        before.wf(),
        exists|m: &mut RawTable<T, A>|
            *m == before && *final(m) == after && #[trigger] call_ensures(
                RawTable::<T, A>::try_reserve,
                (m, additional, hasher),
                r,
            ),
        forall|v: T, h: u64| #[trigger] call_ensures(&hasher, (&v,), h) ==> h == hash_of(v),
        0 <= j < before.table.data@.len(),
        before.table.data@[j] is Some,
        before.table.hashes@[j] == hash_of(before.table.data@[j]->0),
    ensures
        0 <= k < after.table.data@.len(),
        after.table.data@[k] == before.table.data@[j],
        after.table.hashes@[k] == before.table.hashes@[j],
{
    if after == before {
        j
    } else {
        lemma_rehashed_is_held(&before.table, &after.table, &hasher, hash_of, j)
    }
}

/// A table with the same elements, each under the hash of a hash function, holds an element
/// under its hash.
proof fn lemma_rehashed_is_held<T, F: Fn(&T) -> u64>(
    before: &RawTableInner<T>,
    after: &RawTableInner<T>,
    hasher: &F,
    hash_of: spec_fn(T) -> u64,
    j: int,
) -> (k: int)
    requires
        after.wf(),
        after.elements() == before.elements(),
        after.hashed_with(hasher),
        forall|v: T, h: u64| #[trigger] call_ensures(hasher, (&v,), h) ==> h == hash_of(v),
        0 <= j < before.data@.len(),
        before.data@[j] is Some,
    ensures
        0 <= k < after.data@.len(),
        after.data@[k] == before.data@[j],
        after.hashes@[k] == hash_of(before.data@[j]->0),
{
    model::lemma_bag_take(before.data@, j);
    let value = before.data@[j]->0;
    let k = laws::lemma_hashed_elements_are_reachable(after, hasher, hash_of, value);
    assert(after.holds(k, hash_of(value), value));
    k
}

/// `reserve` loses no element: if the hash function computes a function of the element, every
/// element is held under its hash afterwards.
pub proof fn lemma_reserve_loses_nothing<T, A: Allocator, F: Fn(&T) -> u64>(
    before: RawTable<T, A>,
    additional: usize,
    hasher: F,
    after: RawTable<T, A>,
    hash_of: spec_fn(T) -> u64,
    j: int,
) -> (k: int)
    requires
        before.wf(),
        exists|m: &mut RawTable<T, A>|
            *m == before && *final(m) == after && #[trigger] call_ensures(
                RawTable::<T, A>::reserve,
                (m, additional, hasher),
                (),
            ),
        forall|v: T, h: u64| #[trigger] call_ensures(&hasher, (&v,), h) ==> h == hash_of(v),
        0 <= j < before.table.data@.len(),
        before.table.data@[j] is Some,
        before.table.hashes@[j] == hash_of(before.table.data@[j]->0),
    ensures
        0 <= k < after.table.data@.len(),
        after.table.data@[k] == before.table.data@[j],
        after.table.hashes@[k] == before.table.hashes@[j],
{
    if after == before {
        j
    } else {
        lemma_rehashed_is_held(&before.table, &after.table, &hasher, hash_of, j)
    }
}

/// `shrink_to` loses no element: if the hash function computes a function of the element,
/// every element is held under its hash afterwards.
pub proof fn lemma_shrink_to_loses_nothing<T, A: Allocator, F: Fn(&T) -> u64>(
    before: RawTable<T, A>,
    min_size: usize,
    hasher: F,
    after: RawTable<T, A>,
    hash_of: spec_fn(T) -> u64,
    j: int,
) -> (k: int)
    requires
        before.wf(),
        exists|m: &mut RawTable<T, A>|
            *m == before && *final(m) == after && #[trigger] call_ensures(
                RawTable::<T, A>::shrink_to,
                (m, min_size, hasher),
                (),
            ),
        forall|v: T, h: u64| #[trigger] call_ensures(&hasher, (&v,), h) ==> h == hash_of(v),
        0 <= j < before.table.data@.len(),
        before.table.data@[j] is Some,
        before.table.hashes@[j] == hash_of(before.table.data@[j]->0),
    ensures
        0 <= k < after.table.data@.len(),
        after.table.data@[k] == before.table.data@[j],
        after.table.hashes@[k] == before.table.hashes@[j],
{
    if after == before {
        j
    } else {
        before.table.lemma_items_are_elements();
        model::lemma_bag_take(before.table.data@, j);
        if before.shrink_size(min_size) == 0 {
            before.lemma_no_items_no_elements();
        }
        lemma_rehashed_is_held(&before.table, &after.table, &hasher, hash_of, j)
    }
}


/// `find_or_find_insert_index` loses no element, even if the table grows: if the hash function
/// computes a function of the element, every element is held under its hash afterwards.
pub proof fn lemma_find_or_find_insert_index_loses_nothing<
    T,
    A: Allocator,
    F: Fn(&T) -> bool,
    G: Fn(&T) -> u64,
>(
    before: RawTable<T, A>,
    hash: u64,
    eq: F,
    hasher: G,
    r: Result<Bucket<T>, usize>,
    after: RawTable<T, A>,
    hash_of: spec_fn(T) -> u64,
    j: int,
) -> (k: int)
    requires
        before.wf(),
        exists|m: &mut RawTable<T, A>|
            *m == before && *final(m) == after && #[trigger] call_ensures(
                RawTable::<T, A>::find_or_find_insert_index,
                (m, hash, eq, hasher),
                r,
            ),
        forall|v: T, h: u64| #[trigger] call_ensures(&hasher, (&v,), h) ==> h == hash_of(v),
        0 <= j < before.table.data@.len(),
        before.table.data@[j] is Some,
        before.table.hashes@[j] == hash_of(before.table.data@[j]->0),
    ensures
        0 <= k < after.table.data@.len(),
        after.table.data@[k] == before.table.data@[j],
        after.table.hashes@[k] == before.table.hashes@[j],
{
    if after == before {
        j
    } else {
        lemma_rehashed_is_held(&before.table, &after.table, &hasher, hash_of, j)
    }
}

/// What is held is found by `find_or_find_insert_index`: it does not return an index for an
/// element that is held under the hash and that `eq` accepts.
pub proof fn lemma_held_entry_is_found_again<
    T,
    A: Allocator,
    F: Fn(&T) -> bool,
    G: Fn(&T) -> u64,
>(
    before: RawTable<T, A>,
    eq: F,
    hasher: G,
    r: Result<Bucket<T>, usize>,
    after: RawTable<T, A>,
    hash_of: spec_fn(T) -> u64,
    j: int,
)
    requires
        before.wf(),
        0 <= j < before.table.data@.len(),
        before.table.data@[j] is Some,
        before.table.hashes@[j] == hash_of(before.table.data@[j]->0),
        exists|m: &mut RawTable<T, A>|
            *m == before && *final(m) == after && #[trigger] call_ensures(
                RawTable::<T, A>::find_or_find_insert_index,
                (m, before.table.hashes@[j], eq, hasher),
                r,
            ),
        forall|v: T, h: u64| #[trigger] call_ensures(&hasher, (&v,), h) ==> h == hash_of(v),
        forall|answer: bool| #[trigger]
            call_ensures(&eq, (&before.table.data@[j]->0,), answer) ==> answer,
    ensures
        r is Ok,
{
    let hash = before.table.hashes@[j];
    let k = lemma_find_or_find_insert_index_loses_nothing(
        before,
        hash,
        eq,
        hasher,
        r,
        after,
        hash_of,
        j,
    );
    if r is Err {
        assert(after.table.picks_none(hash, &eq));
        lemma_absent(&after.table, hash, &eq);
        assert(call_ensures(&eq, (&after.table.data@[k]->0,), false));
    }
}


/// `insert_entry` loses no element, even if the table grows for it: if the hash function
/// computes a function of the element, every element is still held under its hash.
pub proof fn lemma_insert_entry_loses_nothing<T, A: Allocator, F: Fn(&T) -> u64>(
    before: RawTable<T, A>,
    hash: u64,
    value: T,
    hasher: F,
    r: &mut T,
    after: RawTable<T, A>,
    hash_of: spec_fn(T) -> u64,
    j: int,
)
    requires
        before.wf(),
        exists|m: &mut RawTable<T, A>|
            *m == before && *final(m) == after && #[trigger] call_ensures(
                RawTable::<T, A>::insert_entry,
                (m, hash, value, hasher),
                r,
            ),
        forall|v: T, h: u64| #[trigger] call_ensures(&hasher, (&v,), h) ==> h == hash_of(v),
        0 <= j < before.table.data@.len(),
        before.table.data@[j] is Some,
        before.table.hashes@[j] == hash_of(before.table.data@[j]->0),
    ensures
        exists|k: int|
            {
                &&& 0 <= k < after.table.data@.len()
                &&& #[trigger] after.table.data@[k] == before.table.data@[j]
                &&& after.table.hashes@[k] == before.table.hashes@[j]
            },
{
    let v = *final(r);
    let i = choose|i: int| #[trigger]
        after.holds(i, hash, v) && exists|grown: RawTableInner<T>|
            {
                &&& if before.table.is_out_of_room(hash) {
                    grown.grown_from(
                        &before.table,
                        1,
                        &hasher,
                        &before.alloc,
                        layout::table_layout_of::<T>(),
                    )
                } else {
                    grown == before.table
                }
                &&& grown.wf()
                &&& model::is_insert_slot(grown.tags(), hash, i)
                &&& #[trigger] after.table.inserted_from(&grown, i, hash, v)
            };
    let grown = choose|grown: RawTableInner<T>|
        {
            &&& if before.table.is_out_of_room(hash) {
                grown.grown_from(
                    &before.table,
                    1,
                    &hasher,
                    &before.alloc,
                    layout::table_layout_of::<T>(),
                )
            } else {
                grown == before.table
            }
            &&& grown.wf()
            &&& model::is_insert_slot(grown.tags(), hash, i)
            &&& #[trigger] after.table.inserted_from(&grown, i, hash, v)
        };
    let k = if before.table.is_out_of_room(hash) {
        lemma_rehashed_is_held(&before.table, &grown, &hasher, hash_of, j)
    } else {
        j
    };
    assert(grown.tags()[k] is Full);
    assert(k != i);
    assert(after.table.data@[k] == before.table.data@[j]);
}

} // verus!
