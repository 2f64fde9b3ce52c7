//! Growth as a transaction: the calls that a table grows by.
use crate::allocator::Allocator;
use crate::control::Tag;
use crate::raw::calls::memory;
use crate::raw::growth::{GrowthTransaction, HashFailed};
use crate::raw::layout;
use crate::raw::layout::{Fallibility, TableLayout};
use crate::raw::model;
use crate::raw::storage::RawTableInner;
use vstd::prelude::*;

verus! {

/// A transaction that begins, migrates and commits leaves the elements of the source in a table
/// with the room that was asked for, and gives the block of the source back.
pub proof fn lemma_committed_transaction<'a, T, A: Allocator, F: Fn(&T) -> Option<u64>>(
    alloc: &'a A,
    capacity: usize,
    fallibility: Fallibility,
    source: RawTableInner<T>,
    hasher: &F,
    begun: GrowthTransaction<'a, T, A>,
    migrated: GrowthTransaction<'a, T, A>,
    after: RawTableInner<T>,
)
    requires
        memory::addressable::<T>(),
        source.wf(),
        source.items <= capacity,
        source.block_wf(layout::table_layout_of::<T>()),
        call_ensures(
            GrowthTransaction::<T, A>::begin,
            (alloc, layout::table_layout_of::<T>(), capacity, fallibility),
            Ok(begun),
        ),
        exists|m: &mut GrowthTransaction<'a, T, A>|
            *m == begun && *final(m) == migrated && #[trigger] call_ensures(
                GrowthTransaction::<T, A>::migrate,
                (m, &source, hasher),
                Ok::<(), HashFailed>(()),
            ),
        exists|m: &mut RawTableInner<T>|
            *m == source && *final(m) == after && #[trigger] call_ensures(
                GrowthTransaction::<T, A>::commit,
                (migrated, m),
                (),
            ),
    ensures
        after.wf(),
        after.elements() == source.elements(),
        after.items == source.items,
        after.items + after.growth_left >= capacity,
        after.items + after.growth_left == memory::room(after.bucket_mask + 1),
        capacity == 0 ==> after.bucket_mask == 0,
        capacity > 0 && alloc.is_exact() ==> memory::fits_tightly::<T>(
            capacity as int,
            after.bucket_mask + 1,
        ),
        capacity > 0 ==> after.block is Some && call_ensures(
            A::allocate,
            (alloc, after.block->0.requested_spec()),
            Ok(after.block->0),
        ),
        source.bucket_mask > 0 ==> source.block is Some && call_ensures(
            A::deallocate,
            (
                alloc,
                source.block->0,
                layout::table_layout_of::<T>().layout_spec(source.bucket_mask + 1),
            ),
            (),
        ),
{
    memory::lemma_plain_sizes::<T>(begun.new_table.n());
    memory::lemma_plain_sizes::<T>(after.n());
    if capacity > 0 {
        memory::lemma_chosen_is_tight::<T>(capacity);
    }
}

/// A transaction that is released after any migration gives the block of the new table back.
pub proof fn lemma_released_transaction<'a, T, A: Allocator, F: Fn(&T) -> Option<u64>>(
    alloc: &'a A,
    table_layout: TableLayout,
    capacity: usize,
    fallibility: Fallibility,
    source: RawTableInner<T>,
    hasher: &F,
    begun: GrowthTransaction<'a, T, A>,
    migrated: GrowthTransaction<'a, T, A>,
    r: Result<(), HashFailed>,
    released: GrowthTransaction<'a, T, A>,
)
    requires
        table_layout.valid(),
        source.wf(),
        source.items <= capacity,
        call_ensures(
            GrowthTransaction::<T, A>::begin,
            (alloc, table_layout, capacity, fallibility),
            Ok(begun),
        ),
        exists|m: &mut GrowthTransaction<'a, T, A>|
            *m == begun && *final(m) == migrated && #[trigger] call_ensures(
                GrowthTransaction::<T, A>::migrate,
                (m, &source, hasher),
                r,
            ),
        exists|m: &mut GrowthTransaction<'a, T, A>|
            *m == migrated && *final(m) == released && #[trigger] call_ensures(
                GrowthTransaction::<T, A>::release,
                (m,),
                (),
            ),
    ensures
        released.new_table.block is None,
        r is Err ==> exists|v: T| #[trigger]
            source.elements().contains(v) && call_ensures(hasher, (&v,), None),
        capacity > 0 ==> begun.new_table.block is Some && call_ensures(
            A::deallocate,
            (
                alloc,
                begun.new_table.block->0,
                table_layout.layout_spec(begun.new_table.bucket_mask + 1),
            ),
            (),
        ),
{
}

/// Preparing a rehash makes every full bucket deleted and every other one empty, and moves
/// nothing.
pub proof fn lemma_prepared_rehash<T>(
    before: RawTableInner<T>,
    after: RawTableInner<T>,
    i: int,
)
    requires
        before.wf(),
        before.bucket_mask > 0,
        0 <= i <= before.bucket_mask,
        exists|m: &mut RawTableInner<T>|
            *m == before && *final(m) == after && #[trigger] call_ensures(
                RawTableInner::<T>::prepare_rehash_in_place,
                (m,),
                (),
            ),
    ensures
        after.data == before.data,
        after.items == before.items,
        after.growth_left == before.growth_left,
        after.ctrl@[i] == if before.data@[i] is Some {
            Tag::Deleted
        } else {
            Tag::Empty
        },
{
    assert(after.ctrl@[i] == after.tags()[i]);
    assert(before.data@[i] is Some <==> before.tags()[i] is Full);
}

/// Reclaiming what a rehash left pending empties the deleted buckets, and leaves the full ones.
pub proof fn lemma_reclaimed_rehash<T>(
    before: RawTableInner<T>,
    after: RawTableInner<T>,
    i: int,
)
    requires
        before.ctrl_wf(),
        before.bucket_mask > 0,
        0 <= i <= before.bucket_mask,
        exists|m: &mut RawTableInner<T>|
            *m == before && *final(m) == after && #[trigger] call_ensures(
                RawTableInner::<T>::reclaim_pending,
                (m,),
                (),
            ),
    ensures
        after.bucket_mask == before.bucket_mask,
        after.block == before.block,
        after.ctrl@[i] == if before.ctrl@[i] == Tag::Deleted {
            Tag::Empty
        } else {
            before.ctrl@[i]
        },
        after.data@[i] == if before.ctrl@[i] == Tag::Deleted {
            None
        } else {
            before.data@[i]
        },
        after.items + after.growth_left == layout::capacity_of(before.bucket_mask + 1),
        after.items == model::count(before.ctrl@.take(before.bucket_mask + 1), model::Kind::Full),
{
    assert(after.ctrl@[i] == after.tags()[i]);
    assert(before.ctrl@[i] == before.tags()[i]);
    assert(before.tags() =~= before.ctrl@.take(before.bucket_mask + 1));
}

} // verus!
