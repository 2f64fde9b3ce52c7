//! Which calls are accepted.
use crate::allocator::Allocator;
use crate::raw::bucket::Bucket;
use crate::raw::calls::memory;
use crate::raw::layout::Fallibility;
use crate::raw::table::RawTable;
use vstd::prelude::*;

verus! {

/// Room for any number of elements may be asked for, if the hash function takes every element.
pub proof fn lemma_try_reserve_is_accepted<T, A: Allocator, F: Fn(&T) -> u64>(
    table: RawTable<T, A>,
    additional: usize,
    hasher: F,
)
    requires
        table.wf(),
        forall|v: T| #[trigger] call_requires(&hasher, (&v,)),
    ensures
        forall|m: &mut RawTable<T, A>|
            *m == table ==> #[trigger] call_requires(
                RawTable::<T, A>::try_reserve,
                (m, additional, hasher),
            ),
{
}

/// Any size may be given to shrink to, if the hash function takes every element and the
/// allocator refuses nothing.
pub proof fn lemma_shrink_to_is_accepted<T, A: Allocator, F: Fn(&T) -> u64>(
    table: RawTable<T, A>,
    min_size: usize,
    hasher: F,
)
    requires
        table.wf(),
        table.alloc.never_refuses(),
        forall|v: T| #[trigger] call_requires(&hasher, (&v,)),
    ensures
        forall|m: &mut RawTable<T, A>|
            *m == table ==> #[trigger] call_requires(
                RawTable::<T, A>::shrink_to,
                (m, min_size, hasher),
            ),
{
}

/// Every hash may be looked up, if `eq` takes every element.
pub proof fn lemma_lookups_are_accepted<T, A: Allocator, F: Fn(&T) -> bool>(
    table: RawTable<T, A>,
    hash: u64,
    eq: F,
)
    requires
        table.wf(),
        forall|v: T| #[trigger] call_requires(&eq, (&v,)),
    ensures
        call_requires(RawTable::<T, A>::get, (&table, hash, eq)),
        call_requires(RawTable::<T, A>::find, (&table, hash, eq)),
        forall|m: &mut RawTable<T, A>|
            *m == table ==> #[trigger] call_requires(RawTable::<T, A>::get_mut, (m, hash, eq)),
        forall|m: &mut RawTable<T, A>|
            *m == table ==> #[trigger] call_requires(
                RawTable::<T, A>::remove_entry,
                (m, hash, eq),
            ),
{
}

/// Every element may be inserted into a table that has room, and into one with the default
/// allocator that is moderately large.
pub proof fn lemma_insert_is_accepted<T, F: Fn(&T) -> u64>(
    table: RawTable<T>,
    hash: u64,
    value: T,
    hasher: F,
)
    requires
        memory::addressable::<T>(),
        table.wf(),
        forall|v: T| #[trigger] call_requires(&hasher, (&v,)),
        table.table.growth_left > 0 || (vstd::layout::size_of::<T>() + 1) * (4 * (
        table.table.bucket_mask + 2) + 16) + 2 * memory::alignment::<T>() + 16 <= isize::MAX,
    ensures
        forall|m: &mut RawTable<T>|
            *m == table ==> #[trigger] call_requires(
                RawTable::<T>::insert,
                (m, hash, value, hasher),
            ),
{
    if table.table.growth_left == 0 {
        let n = table.table.n();
        let size = vstd::layout::size_of::<T>() as int;
        memory::lemma_plain_sizes::<T>(n);
        crate::raw::laws::lemma_load_factor(&table.table);
        let need = crate::raw::growth::grown_capacity(table.table.items as int, 1, n);
        assert(need <= n + 1);
        assert((size + 1) * (4 * need + 16) <= (size + 1) * (4 * (n + 1) + 16)) by (nonlinear_arith)
            requires
                size >= 0,
                need <= n + 1,
        ;
        assert(4 * need + 16 <= (size + 1) * (4 * need + 16)) by (nonlinear_arith)
            requires
                size >= 0,
                need >= 0,
        ;
        crate::raw::laws::lemma_moderate_capacity_fits(
            need as usize,
            crate::raw::layout::table_layout_of::<T>(),
        );
    }
}

/// Several elements may be looked up at once under any hashes, if `eq` takes every element.
pub proof fn lemma_disjoint_lookups_are_accepted<
    T,
    A: Allocator,
    const N: usize,
    F: Fn(usize, &T) -> bool,
>(table: RawTable<T, A>, hashes: [u64; N], eq: &F)
    requires
        table.wf(),
        forall|q: usize, v: T| #[trigger] call_requires(eq, (q, &v)),
    ensures
        call_requires(
            RawTable::<T, A>::get_disjoint_mut_pointers::<N, F>,
            (&table, hashes, eq),
        ),
        forall|m: &mut RawTable<T, A>|
            *m == table ==> #[trigger] call_requires(
                RawTable::<T, A>::get_disjoint_mut::<N, F>,
                (m, hashes, eq),
            ),
{
}

/// Every table may be cloned over every other one. Failing is up to the allocator and the heap.
pub proof fn lemma_clone_from_is_accepted<T: Clone, A: Allocator + Clone>(
    table: RawTable<T, A>,
    source: &RawTable<T, A>,
)
    requires
        table.wf(),
        source.wf(),
    ensures
        forall|m: &mut RawTable<T, A>|
            *m == table ==> #[trigger] call_requires(
                RawTable::<T, A>::try_clone_from,
                (m, source, Fallibility::Fallible),
            ),
        table.alloc.never_refuses() ==> forall|m: &mut RawTable<T, A>|
            *m == table ==> #[trigger] call_requires(RawTable::<T, A>::clone_from, (m, source)),
{
}

/// Every table may be counted, walked over, cleared, drained, consumed and dropped.
pub proof fn lemma_every_table_can_be_used<T, A: Allocator>(table: RawTable<T, A>, index: usize)
    requires
        table.wf(),
    ensures
        call_requires(RawTable::<T, A>::len, (&table,)),
        call_requires(RawTable::<T, A>::is_empty, (&table,)),
        call_requires(RawTable::<T, A>::capacity, (&table,)),
        call_requires(RawTable::<T, A>::num_buckets, (&table,)),
        call_requires(RawTable::<T, A>::allocation_size, (&table,)),
        call_requires(RawTable::<T, A>::iter, (&table,)),
        call_requires(RawTable::<T, A>::full_buckets_indices, (&table,)),
        call_requires(RawTable::<T, A>::get_bucket, (&table, index)),
        call_requires(RawTable::<T, A>::checked_bucket, (&table, index)),
        call_requires(RawTable::<T, A>::into_iter, (table,)),
        call_requires(RawTable::<T, A>::into_allocation, (table,)),
        forall|m: &mut RawTable<T, A>|
            *m == table ==> #[trigger] call_requires(RawTable::<T, A>::clear, (m,)),
        forall|m: &mut RawTable<T, A>|
            *m == table ==> #[trigger] call_requires(RawTable::<T, A>::clear_no_drop, (m,)),
        forall|m: &mut RawTable<T, A>|
            *m == table ==> #[trigger] call_requires(RawTable::<T, A>::drain, (m,)),
        forall|m: &mut RawTable<T, A>|
            *m == table ==> #[trigger] call_requires(RawTable::<T, A>::drop, (m,)),
{
}

/// The bucket of an element may be erased, removed and read.
pub proof fn lemma_held_buckets_can_be_used<T, A: Allocator>(
    table: RawTable<T, A>,
    bucket: Bucket<T>,
    i: int,
)
    requires
        table.wf(),
        0 <= i < table.table.data@.len(),
        table.table.data@[i] is Some,
        bucket.is_at(table.table.ctrl_offset as int, i),
    ensures
        call_requires(RawTable::<T, A>::bucket_index, (&table, &bucket)),
        call_requires(Bucket::<T>::as_ref, (&bucket, &table.table)),
        forall|m: &mut RawTable<T, A>|
            *m == table ==> #[trigger] call_requires(RawTable::<T, A>::erase, (m, bucket)),
        forall|m: &mut RawTable<T, A>|
            *m == table ==> #[trigger] call_requires(RawTable::<T, A>::remove, (m, bucket)),
        forall|m: &mut RawTable<T, A>|
            *m == table ==> #[trigger] call_requires(RawTable::<T, A>::remove_tagged, (m, bucket)),
{
    assert(table.table.tags()[i] is Full);
    assert(table.is_bucket(&bucket, i));
    assert(table.table.is_full_at(i));
}

} // verus!
