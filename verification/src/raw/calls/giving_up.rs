//! Calls that make room with a hash function that may give up.
use crate::allocator::{Allocator, Block, Layout, TryReserveError};
use crate::raw::calls::memory;
use crate::raw::growth;
use crate::raw::growth::GrowthError;
use crate::raw::layout;
use crate::raw::layout::Fallibility;
use crate::raw::storage;
use crate::raw::table::RawTable;
use vstd::arithmetic::power2::*;
use vstd::prelude::*;

verus! {

/// A capacity that does not fit is beyond the limits of the machine.
proof fn lemma_unfit<T>(capacity: usize, buckets: int)
    requires
        memory::addressable::<T>(),
        layout::table_layout_of::<T>().valid(),
        !storage::capacity_fits(capacity, layout::table_layout_of::<T>()),
        is_pow2(buckets),
        buckets >= 16,
        memory::room(buckets) >= capacity,
    ensures
        capacity > 0,
        8 * capacity > usize::MAX || memory::bytes::<T>(buckets) + memory::alignment::<T>() - 1
            > isize::MAX,
{
    let table_layout = layout::table_layout_of::<T>();
    memory::lemma_plain_sizes::<T>(buckets);
    layout::lemma_buckets_for_is_smallest(capacity, table_layout, buckets);
    layout::lemma_len_monotone(table_layout, layout::buckets_for(capacity, table_layout), buckets);
}

/// `reserve_rehash` makes the room that was asked for and keeps the elements, each under what
/// the hash function returned for it. If there is too little memory, the table is as it was,
/// and that is an error only of a fallible call.
pub proof fn lemma_reserve_rehash<T, A: Allocator, F: Fn(&T) -> Option<u64>>(
    before: RawTable<T, A>,
    additional: usize,
    hasher: &F,
    fallibility: Fallibility,
    after: RawTable<T, A>,
    r: Result<(), GrowthError>,
)
    requires
        memory::addressable::<T>(),
        before.wf(),
        exists|m: &mut RawTable<T, A>|
            *m == before && *final(m) == after && #[trigger] call_ensures(
                RawTable::<T, A>::reserve_rehash,
                (m, additional, hasher, fallibility),
                r,
            ),
    ensures
        after.wf(),
        after.alloc == before.alloc,
        r is Ok ==> {
            &&& after.table.growth_left >= additional
            &&& after.table.items == before.table.items
            &&& after.elements() == before.elements()
            &&& forall|i: int|
                0 <= i < after.table.data@.len() && #[trigger] after.table.data@[i] is Some
                    ==> call_ensures(
                    hasher,
                    (&after.table.data@[i]->0,),
                    Some(after.table.hashes@[i]),
                )
            &&& after.table.items + after.table.growth_left == memory::room(
                after.table.bucket_mask + 1,
            )
            &&& before.alloc.is_exact() ==> {
                let need = before.table.items + additional;
                let full = memory::room(before.table.bucket_mask + 1);
                if need <= full / 2 {
                    after.table.bucket_mask == before.table.bucket_mask
                } else {
                    memory::fits_tightly::<T>(
                        if need > full {
                            need
                        } else {
                            full + 1
                        },
                        after.table.bucket_mask + 1,
                    )
                }
            }
        },
        r matches Err(GrowthError::Reserve(_)) ==> after == before && fallibility is Fallible,
{
    let n = before.table.n();
    memory::lemma_plain_sizes::<T>(n);
    memory::lemma_plain_sizes::<T>(after.table.n());
    if r is Ok {
        let need = growth::grown_capacity(before.table.items as int, additional as int, n);
        memory::lemma_chosen_is_tight::<T>(need as usize);
        assert forall|i: int|
            0 <= i < after.table.data@.len() && #[trigger] after.table.data@[i] is Some implies call_ensures(
            hasher,
            (&after.table.data@[i]->0,),
            Some(after.table.hashes@[i]),
        ) by {
            assert(after.table.tags()[i] is Full);
            assert(after.table.is_full_at(i));
        }
    }
}

/// `reserve_rehash` reports an overflow only if the number of elements overflows, or if every
/// table with room for them, and with more room than this one, is larger than the largest
/// allocation.
pub proof fn lemma_reserve_rehash_overflows_only_at_the_limit<
    T,
    A: Allocator,
    F: Fn(&T) -> Option<u64>,
>(
    before: RawTable<T, A>,
    additional: usize,
    hasher: &F,
    fallibility: Fallibility,
    after: RawTable<T, A>,
    r: Result<(), GrowthError>,
    buckets: int,
)
    requires
        memory::addressable::<T>(),
        before.wf(),
        exists|m: &mut RawTable<T, A>|
            *m == before && *final(m) == after && #[trigger] call_ensures(
                RawTable::<T, A>::reserve_rehash,
                (m, additional, hasher, fallibility),
                r,
            ),
        r == Err::<(), GrowthError>(GrowthError::Reserve(TryReserveError::CapacityOverflow)),
        is_pow2(buckets),
        buckets >= 16,
        memory::room(buckets) >= before.table.items + additional,
        memory::room(buckets) > memory::room(before.table.bucket_mask + 1),
    ensures
        before.table.items + additional > memory::room(before.table.bucket_mask + 1) / 2,
        ({
            ||| 8 * (before.table.items + additional) > usize::MAX
            ||| 8 * (memory::room(before.table.bucket_mask + 1) + 1) > usize::MAX
            ||| memory::bytes::<T>(buckets) + memory::alignment::<T>() - 1 > isize::MAX
        }),
{
    let n = before.table.n();
    memory::lemma_plain_sizes::<T>(n);
    if before.table.items + additional <= usize::MAX {
        let need = growth::grown_capacity(before.table.items as int, additional as int, n);
        if need <= usize::MAX {
            lemma_unfit::<T>(need as usize, buckets);
        }
    }
}

/// `reserve_rehash` fails because of the hash function only if that gave up on an element of
/// the table. A table that was to grow is as it was then. One that was rehashed in place holds
/// fewer elements, but none that it did not hold, each under what the hash function returned
/// for it.
pub proof fn lemma_reserve_rehash_gives_up<T, A: Allocator, F: Fn(&T) -> Option<u64>>(
    before: RawTable<T, A>,
    additional: usize,
    hasher: &F,
    fallibility: Fallibility,
    after: RawTable<T, A>,
)
    requires
        memory::addressable::<T>(),
        before.wf(),
        exists|m: &mut RawTable<T, A>|
            *m == before && *final(m) == after && #[trigger] call_ensures(
                RawTable::<T, A>::reserve_rehash,
                (m, additional, hasher, fallibility),
                Err(GrowthError::HashFailed),
            ),
    ensures
        exists|v: T| #[trigger]
            before.elements().contains(v) && call_ensures(hasher, (&v,), None),
        before.table.items + additional > memory::room(before.table.bucket_mask + 1) / 2 ==> after
            == before,
        after != before ==> {
            &&& after.wf()
            &&& after.table.bucket_mask == before.table.bucket_mask
            &&& after.table.block == before.table.block
            &&& after.table.items < before.table.items
            &&& after.elements().subset_of(before.elements())
            &&& after.table.items + after.table.growth_left == memory::room(
                after.table.bucket_mask + 1,
            )
            &&& forall|i: int|
                0 <= i < after.table.data@.len() && #[trigger] after.table.data@[i] is Some
                    ==> call_ensures(
                    hasher,
                    (&after.table.data@[i]->0,),
                    Some(after.table.hashes@[i]),
                )
        },
{
    memory::lemma_plain_sizes::<T>(before.table.n());
    assert(before.table.hash_gave_up(hasher));
    let v = choose|v: T| #[trigger]
        before.table.elements().contains(v) && call_ensures(hasher, (&v,), None);
    assert(before.elements().contains(v));
    if after != before {
        assert forall|i: int|
            0 <= i < after.table.data@.len() && #[trigger] after.table.data@[i] is Some implies call_ensures(
            hasher,
            (&after.table.data@[i]->0,),
            Some(after.table.hashes@[i]),
        ) by {
            assert(after.table.tags()[i] is Full);
            assert(after.table.is_full_at(i));
        }
    }
}

/// `resize` moves the elements into a table with room for the capacity, each under what the
/// hash function returned for it; on any error the table is as it was. It fails because of the
/// hash function only if that gave up on an element.
pub proof fn lemma_resize<T, A: Allocator, F: Fn(&T) -> Option<u64>>(
    before: RawTable<T, A>,
    capacity: usize,
    hasher: &F,
    fallibility: Fallibility,
    after: RawTable<T, A>,
    r: Result<(), GrowthError>,
    buckets: int,
)
    requires
        memory::addressable::<T>(),
        before.wf(),
        exists|m: &mut RawTable<T, A>|
            *m == before && *final(m) == after && #[trigger] call_ensures(
                RawTable::<T, A>::resize,
                (m, capacity, hasher, fallibility),
                r,
            ),
        is_pow2(buckets),
        buckets >= 16,
        memory::room(buckets) >= capacity,
    ensures
        after.wf(),
        after.alloc == before.alloc,
        r is Ok ==> {
            &&& after.table.items == before.table.items
            &&& after.elements() == before.elements()
            &&& after.table.items + after.table.growth_left >= capacity
            &&& after.table.items + after.table.growth_left == memory::room(
                after.table.bucket_mask + 1,
            )
            &&& capacity == 0 ==> after.table.bucket_mask == 0
            &&& capacity > 0 && before.alloc.is_exact() ==> memory::fits_tightly::<T>(
                capacity as int,
                after.table.bucket_mask + 1,
            )
            &&& forall|i: int|
                0 <= i < after.table.data@.len() && #[trigger] after.table.data@[i] is Some
                    ==> call_ensures(
                    hasher,
                    (&after.table.data@[i]->0,),
                    Some(after.table.hashes@[i]),
                )
        },
        r is Err ==> after == before,
        r matches Err(GrowthError::Reserve(_)) ==> fallibility is Fallible && capacity > 0,
        r == Err::<(), GrowthError>(GrowthError::Reserve(TryReserveError::CapacityOverflow)) ==> 8
            * capacity > usize::MAX || memory::bytes::<T>(buckets) + memory::alignment::<T>() - 1
            > isize::MAX,
        r == Err::<(), GrowthError>(GrowthError::HashFailed) ==> exists|v: T| #[trigger]
            before.elements().contains(v) && call_ensures(hasher, (&v,), None),
{
    memory::lemma_plain_sizes::<T>(after.table.n());
    if capacity > 0 {
        memory::lemma_chosen_is_tight::<T>(capacity);
    }
    if r is Ok {
        assert forall|i: int|
            0 <= i < after.table.data@.len() && #[trigger] after.table.data@[i] is Some implies call_ensures(
            hasher,
            (&after.table.data@[i]->0,),
            Some(after.table.hashes@[i]),
        ) by {
            assert(after.table.tags()[i] is Full);
            assert(after.table.is_full_at(i));
        }
    } else if r == Err::<(), GrowthError>(
        GrowthError::Reserve(TryReserveError::CapacityOverflow),
    ) {
        lemma_unfit::<T>(capacity, buckets);
    } else if r == Err::<(), GrowthError>(GrowthError::HashFailed) {
        assert(before.table.hash_gave_up(hasher));
        let v = choose|v: T| #[trigger]
            before.table.elements().contains(v) && call_ensures(hasher, (&v,), None);
        assert(before.elements().contains(v));
    }
}

/// After `shrink_rehash`, the elements are the same, and the table is either just as it was or
/// has room for as many elements as the call names. It never reports an overflow, fails for
/// want of memory only if it is fallible, and because of the hash function only if that gave
/// up on an element; on any error the table is as it was.
pub proof fn lemma_shrink_rehash<T, A: Allocator, F: Fn(&T) -> Option<u64>>(
    before: RawTable<T, A>,
    min_size: usize,
    hasher: &F,
    fallibility: Fallibility,
    after: RawTable<T, A>,
    r: Result<(), GrowthError>,
)
    requires
        before.wf(),
        exists|m: &mut RawTable<T, A>|
            *m == before && *final(m) == after && #[trigger] call_ensures(
                RawTable::<T, A>::shrink_rehash,
                (m, min_size, hasher, fallibility),
                r,
            ),
    ensures
        after.wf(),
        after.alloc == before.alloc,
        after.table.items == before.table.items,
        after.elements() == before.elements(),
        after == before || after.table.items + after.table.growth_left >= min_size,
        r is Err ==> after == before,
        r matches Err(GrowthError::Reserve(_)) ==> fallibility is Fallible,
        r != Err::<(), GrowthError>(GrowthError::Reserve(TryReserveError::CapacityOverflow)),
        r == Err::<(), GrowthError>(GrowthError::HashFailed) ==> exists|v: T| #[trigger]
            before.elements().contains(v) && call_ensures(hasher, (&v,), None),
        after != before ==> forall|i: int|
            0 <= i < after.table.data@.len() && #[trigger] after.table.data@[i] is Some
                ==> call_ensures(
                hasher,
                (&after.table.data@[i]->0,),
                Some(after.table.hashes@[i]),
            ),
{
    if after != before {
        assert forall|i: int|
            0 <= i < after.table.data@.len() && #[trigger] after.table.data@[i] is Some implies call_ensures(
            hasher,
            (&after.table.data@[i]->0,),
            Some(after.table.hashes@[i]),
        ) by {
            assert(after.table.tags()[i] is Full);
            assert(after.table.is_full_at(i));
        }
    }
}

/// If an allocator grants just what it is asked for, `shrink_rehash` leaves the smallest number
/// of buckets with room for the elements and for as many as the call names, unless the table
/// has no more than that.
pub proof fn lemma_shrink_rehash_chooses_buckets<T, A: Allocator, F: Fn(&T) -> Option<u64>>(
    before: RawTable<T, A>,
    min_size: usize,
    hasher: &F,
    fallibility: Fallibility,
    after: RawTable<T, A>,
    buckets: int,
)
    requires
        memory::addressable::<T>(),
        before.wf(),
        before.alloc.is_exact(),
        exists|m: &mut RawTable<T, A>|
            *m == before && *final(m) == after && #[trigger] call_ensures(
                RawTable::<T, A>::shrink_rehash,
                (m, min_size, hasher, fallibility),
                Ok(()),
            ),
        memory::fits_tightly::<T>(
            if before.table.items > min_size {
                before.table.items as int
            } else {
                min_size as int
            },
            buckets,
        ),
    ensures
        ({
            let size = if before.table.items > min_size {
                before.table.items
            } else {
                min_size
            };
            if size == 0 {
                after.table.bucket_mask == 0
            } else if buckets < before.table.bucket_mask + 1 && 8 * size <= usize::MAX {
                &&& after.table.bucket_mask + 1 == buckets
                &&& after.table.items + after.table.growth_left == memory::room(buckets)
            } else {
                buckets < before.table.bucket_mask + 1 || after == before
            }
        }),
        after.table.bucket_mask <= before.table.bucket_mask,
{
    let size = if before.table.items > min_size {
        before.table.items
    } else {
        min_size
    };
    if size > 0 {
        memory::lemma_chosen_is_tight::<T>(size);
        memory::lemma_tight_is_unique::<T>(
            size as int,
            buckets,
            layout::buckets_for(size, layout::table_layout_of::<T>()),
        );
        memory::lemma_plain_sizes::<T>(buckets);
        memory::lemma_plain_sizes::<T>(after.table.n());
    }
}


/// If the hash function gives up while a table grows, the block that was granted for the larger
/// table goes back to the allocator.
pub proof fn lemma_giving_up_gives_memory_back<T, A: Allocator, F: Fn(&T) -> Option<u64>>(
    before: RawTable<T, A>,
    additional: usize,
    hasher: &F,
    fallibility: Fallibility,
    after: RawTable<T, A>,
)
    requires
        memory::addressable::<T>(),
        before.wf(),
        exists|m: &mut RawTable<T, A>|
            *m == before && *final(m) == after && #[trigger] call_ensures(
                RawTable::<T, A>::reserve_rehash,
                (m, additional, hasher, fallibility),
                Err(GrowthError::HashFailed),
            ),
        before.table.items + additional > memory::room(before.table.bucket_mask + 1) / 2,
    ensures
        exists|block: Block, layout: Layout|
            {
                &&& call_ensures(
                    A::allocate,
                    (&before.alloc, block.requested_spec()),
                    Ok(block),
                )
                &&& layout.size <= block.len_spec()
                &&& #[trigger] call_ensures(A::deallocate, (&before.alloc, block, layout), ())
            },
{
    let n = before.table.n();
    let table_layout = layout::table_layout_of::<T>();
    memory::lemma_plain_sizes::<T>(n);
    let need = growth::grown_capacity(before.table.items as int, additional as int, n) as usize;
    assert(growth::rolled_back(&before.alloc, need, table_layout));
    let (block, chosen) = choose|block: Block, chosen: int|
        {
            &&& #[trigger] crate::allocator::given_back(
                &before.alloc,
                block,
                table_layout.layout_spec(chosen),
            )
            &&& crate::allocator::granted(
                &before.alloc,
                table_layout.layout_spec(layout::buckets_for(need, table_layout)),
                block,
            )
            &&& storage::fills(
                block,
                table_layout,
                layout::buckets_for(need, table_layout),
                chosen,
            )
        };
    let size = table_layout.size as int;
    crate::math::lemma_pow2_positive(chosen);
    crate::math::lemma_pow2_positive(table_layout.ctrl_align as int);
    assert(size * chosen >= 0) by (nonlinear_arith)
        requires
            size >= 0,
            chosen >= 0,
    ;
    layout::lemma_round_up(size * chosen, table_layout.ctrl_align as int);
    assert(call_ensures(
        A::deallocate,
        (&before.alloc, block, table_layout.layout_spec(chosen)),
        (),
    ));
}

} // verus!
