//! Calls that create, inspect, empty and drop tables.
use crate::allocator::{AllocError, Allocator, Block, Layout, TryReserveError};
use crate::control::Tag;
use crate::raw::calls::memory;
use crate::raw::layout;
use crate::raw::layout::Fallibility;
use crate::raw::storage;
use crate::raw::storage::RawTableInner;
use crate::raw::table::RawTable;
use vstd::arithmetic::power2::*;
use vstd::multiset::Multiset;
use vstd::prelude::*;

verus! {

/// A new table holds nothing and has no memory.
pub proof fn lemma_new<T, A: Allocator>(alloc: A, r: RawTable<T, A>, s: RawTable<T>)
    requires
        call_ensures(RawTable::<T, A>::new_in, (alloc,), r),
        call_ensures(RawTable::<T>::new, (), s),
    ensures
        r.wf(),
        r.alloc == alloc,
        r.table.bucket_mask == 0,
        r.table.items == 0,
        r.table.growth_left == 0,
        r.table.data@.len() == 0,
        r.table.block is None,
        r.elements() == Multiset::<T>::empty(),
        s.wf(),
        s.table.bucket_mask == 0,
        s.table.items == 0,
        s.table.growth_left == 0,
        s.table.data@.len() == 0,
        s.table.block is None,
        s.elements() == Multiset::<T>::empty(),
{
}

/// `with_capacity` creates a table that holds nothing, with room for as many elements as were
/// asked for, in the smallest number of buckets that has it.
pub proof fn lemma_with_capacity<T>(capacity: usize, r: RawTable<T>)
    requires
        memory::addressable::<T>(),
        call_ensures(RawTable::<T>::with_capacity, (capacity,), r),
    ensures
        r.wf(),
        r.table.items == 0,
        r.table.growth_left >= capacity,
        r.table.growth_left == memory::room(r.table.bucket_mask + 1),
        r.elements() == Multiset::<T>::empty(),
        forall|i: int| 0 <= i < r.table.data@.len() ==> #[trigger] r.table.data@[i] is None,
        capacity == 0 ==> r.table.bucket_mask == 0,
        capacity > 0 ==> memory::fits_tightly::<T>(capacity as int, r.table.bucket_mask + 1),
{
    lemma_holds_nothing(&r.table);
    memory::lemma_plain_sizes::<T>(r.table.n());
    if capacity > 0 {
        memory::lemma_chosen_is_tight::<T>(capacity);
    }
}

/// `with_capacity_in` creates a table that holds nothing, with room for as many elements as
/// were asked for. If the allocator grants just what it is asked for, it has the smallest
/// number of buckets for that.
pub proof fn lemma_with_capacity_in<T, A: Allocator>(
    capacity: usize,
    alloc: A,
    r: RawTable<T, A>,
)
    requires
        memory::addressable::<T>(),
        call_ensures(RawTable::<T, A>::with_capacity_in, (capacity, alloc), r),
    ensures
        r.wf(),
        r.alloc == alloc,
        r.table.items == 0,
        r.table.growth_left >= capacity,
        r.table.growth_left == memory::room(r.table.bucket_mask + 1),
        r.elements() == Multiset::<T>::empty(),
        forall|i: int| 0 <= i < r.table.data@.len() ==> #[trigger] r.table.data@[i] is None,
        capacity == 0 ==> r.table.bucket_mask == 0,
        capacity > 0 && alloc.is_exact() ==> memory::fits_tightly::<T>(
            capacity as int,
            r.table.bucket_mask + 1,
        ),
{
    lemma_holds_nothing(&r.table);
    memory::lemma_plain_sizes::<T>(r.table.n());
    if capacity > 0 {
        memory::lemma_chosen_is_tight::<T>(capacity);
    }
}

/// A table without full buckets holds nothing.
proof fn lemma_holds_nothing<T>(table: &RawTableInner<T>)
    requires
        table.is_cleared(),
    ensures
        forall|i: int| 0 <= i < table.data@.len() ==> #[trigger] table.data@[i] is None,
{
    assert forall|i: int| 0 <= i < table.data@.len() implies #[trigger] table.data@[i] is None by {
        assert(table.tags()[i] == Tag::Empty);
    }
}

/// `new_uninitialized` creates a table that holds nothing, with the given number of buckets,
/// or with more if the allocator grants more. It fails for a size beyond the largest
/// allocation, or if memory is refused.
pub proof fn lemma_new_uninitialized<T, A: Allocator>(
    alloc: A,
    buckets: usize,
    fallibility: Fallibility,
    r: Result<RawTable<T, A>, TryReserveError>,
)
    requires
        memory::addressable::<T>(),
        is_pow2(buckets as int),
        call_ensures(RawTable::<T, A>::new_uninitialized, (alloc, buckets, fallibility), r),
    ensures
        r matches Ok(table) ==> {
            &&& table.wf()
            &&& table.alloc == alloc
            &&& table.table.items == 0
            &&& table.table.bucket_mask + 1 >= buckets
            &&& alloc.is_exact() ==> table.table.bucket_mask + 1 == buckets
            &&& table.table.growth_left == memory::room(table.table.bucket_mask + 1)
            &&& table.table.block matches Some(block) && {
                let n = table.table.bucket_mask + 1;
                &&& call_ensures(A::allocate, (&alloc, block.requested_spec()), Ok(block))
                &&& block.requested_spec().size == memory::bytes::<T>(buckets as int)
                &&& block.requested_spec().align == memory::alignment::<T>()
                &&& memory::bytes::<T>(n) <= block.len_spec()
                // A block that is larger than what was asked for is made use of.
                &&& block.len_spec() > block.requested_spec().size ==> memory::bytes::<T>(2 * n)
                    > block.len_spec() || memory::bytes::<T>(2 * n) + memory::alignment::<T>() - 1
                    > isize::MAX
            }
            &&& forall|i: int|
                0 <= i < table.table.data@.len() ==> #[trigger] table.table.data@[i] is None
        },
        r == Err::<RawTable<T, A>, TryReserveError>(TryReserveError::CapacityOverflow)
            ==> memory::bytes::<T>(buckets as int) + memory::alignment::<T>() - 1 > isize::MAX,
        r is Ok ==> memory::bytes::<T>(buckets as int) + memory::alignment::<T>() - 1
            <= isize::MAX,
        fallibility is Infallible ==> r is Ok,
        r matches Err(TryReserveError::AllocError { layout }) ==> {
            &&& layout.size == memory::bytes::<T>(buckets as int)
            &&& layout.align == memory::alignment::<T>()
            &&& {
                ||| call_ensures(A::allocate, (&alloc, layout), Err(AllocError))
                ||| exists|v: &mut Vec<Tag>, len: usize, answer: Result<
                    (),
                    std::collections::TryReserveError,
                >|
                    len >= buckets + 16 && answer is Err && #[trigger] call_ensures(
                        Vec::<Tag>::try_reserve,
                        (v, len),
                        answer,
                    )
                ||| exists|v: &mut Vec<Option<T>>, len: usize, answer: Result<
                    (),
                    std::collections::TryReserveError,
                >|
                    len >= buckets && answer is Err && #[trigger] call_ensures(
                        Vec::<Option<T>>::try_reserve,
                        (v, len),
                        answer,
                    )
            }
        },
{
    memory::lemma_plain_sizes::<T>(buckets as int);
    if r is Ok {
        let table = r->Ok_0.table;
        let n = table.n();
        let table_layout = layout::table_layout_of::<T>();
        lemma_holds_nothing(&table);
        memory::lemma_plain_sizes::<T>(n);
        crate::math::lemma_pow2_double(n);
        crate::math::lemma_pow2_positive(n);
        memory::lemma_plain_sizes::<T>(2 * n);
        if table_layout.fits_in(2 * n, table.block->0.len_spec() as int) {
            assert(2 * n <= n);
        }
    } else if let Err(TryReserveError::AllocError { layout }) = r {
        if !call_ensures(A::allocate, (&alloc, layout), Err(AllocError)) {
            let (block, n) = choose|block: Block, n: usize|
                {
                    &&& #[trigger] storage::returned_unused::<T, A>(&alloc, layout, block, n)
                    &&& storage::fills(
                        block,
                        layout::table_layout_of::<T>(),
                        buckets as int,
                        n as int,
                    )
                };
            assert(n + 16 <= isize::MAX) by {
                let table_layout = layout::table_layout_of::<T>();
                let size = table_layout.size as int;
                crate::math::lemma_pow2_positive(n as int);
                assert(size * n >= 0) by (nonlinear_arith)
                    requires
                        size >= 0,
                        n >= 0,
                ;
                assert(table_layout.ctrl_align >= 16);
                layout::lemma_round_up(size * n, table_layout.ctrl_align as int);
            }
            assert(storage::heap_refused::<T>(n));
        }
    }
}

/// What the counters of a table say: `capacity` is the number of elements and how many more
/// there is room for, `num_buckets` is the number of buckets, `is_empty` says whether there is
/// no element, and the load factor is kept.
pub proof fn lemma_counters<T, A: Allocator>(
    table: &RawTable<T, A>,
    len: usize,
    empty: bool,
    capacity: usize,
    buckets: usize,
)
    requires
        memory::addressable::<T>(),
        table.wf(),
        call_ensures(RawTable::<T, A>::len, (table,), len),
        call_ensures(RawTable::<T, A>::is_empty, (table,), empty),
        call_ensures(RawTable::<T, A>::capacity, (table,), capacity),
        call_ensures(RawTable::<T, A>::num_buckets, (table,), buckets),
    ensures
        len == table.table.items,
        len == table.elements().len(),
        empty == (len == 0),
        capacity == len + table.table.growth_left,
        buckets == table.table.bucket_mask + 1,
        is_pow2(buckets as int),
        capacity <= memory::room(buckets as int),
        table.table.data@.len() == if buckets == 1 {
            0
        } else {
            buckets as int
        },
{
    memory::lemma_plain_sizes::<T>(table.table.n());
    assert(table.table.items + table.table.growth_left <= layout::capacity_of(table.table.n()));
}

/// `allocation_size` is the number of bytes of a table, and `data_start` and `data_end` are
/// where its elements are.
pub proof fn lemma_addresses<T, A: Allocator>(
    table: &RawTable<T, A>,
    size: usize,
    start: usize,
    end: usize,
)
    requires
        memory::addressable::<T>(),
        table.wf(),
        call_ensures(RawTable::<T, A>::allocation_size, (table,), size),
        call_ensures(RawTable::<T, A>::data_end, (table,), end),
        table.table.bucket_mask > 0 ==> call_ensures(
            RawTable::<T, A>::data_start,
            (table,),
            start,
        ),
    ensures
        table.table.bucket_mask == 0 ==> size == 0,
        table.table.bucket_mask > 0 ==> {
            let n = table.table.bucket_mask + 1;
            &&& size == memory::bytes::<T>(n)
            &&& size == end + n + 16
            &&& start == end - n * vstd::layout::size_of::<T>()
        },
{
    memory::lemma_plain_sizes::<T>(table.table.n());
}

/// `clear` and `clear_no_drop` leave no element, and keep the buckets and the memory. All the
/// room is there again, unless there was nothing to clear.
pub proof fn lemma_clear<T, A: Allocator>(
    before: RawTable<T, A>,
    after: RawTable<T, A>,
    no_drop: RawTable<T, A>,
)
    requires
        memory::addressable::<T>(),
        before.wf(),
        exists|m: &mut RawTable<T, A>|
            *m == before && *final(m) == after && #[trigger] call_ensures(
                RawTable::<T, A>::clear,
                (m,),
                (),
            ),
        exists|m: &mut RawTable<T, A>|
            *m == before && *final(m) == no_drop && #[trigger] call_ensures(
                RawTable::<T, A>::clear_no_drop,
                (m,),
                (),
            ),
    ensures
        after.wf(),
        after.alloc == before.alloc,
        after.table.items == 0,
        after.elements() == Multiset::<T>::empty(),
        after.table.bucket_mask == before.table.bucket_mask,
        after.table.block == before.table.block,
        forall|i: int| 0 <= i < after.table.data@.len() ==> #[trigger] after.table.data@[i] is None,
        before.table.items > 0 ==> after.table.growth_left == memory::room(
            before.table.bucket_mask + 1,
        ),
        before.table.items == 0 ==> after == before,
        no_drop.wf(),
        no_drop.alloc == before.alloc,
        no_drop.table.items == 0,
        no_drop.elements() == Multiset::<T>::empty(),
        no_drop.table.bucket_mask == before.table.bucket_mask,
        no_drop.table.block == before.table.block,
        forall|i: int|
            0 <= i < no_drop.table.data@.len() ==> #[trigger] no_drop.table.data@[i] is None,
        no_drop.table.growth_left == memory::room(before.table.bucket_mask + 1),
{
    memory::lemma_plain_sizes::<T>(before.table.n());
    lemma_holds_nothing(&no_drop.table);
    assert forall|i: int| 0 <= i < after.table.data@.len() implies #[trigger] after.table.data@[i] is None by {
        if after.table.data@[i] is Some {
            crate::raw::model::lemma_bag_take(after.table.data@, i);
            broadcast use vstd::multiset::group_multiset_axioms;

            assert(after.elements().contains(after.table.data@[i]->0));
        }
    }
}

/// `drop` leaves a table without elements and without memory, and gives the block of the
/// table back to the allocator that granted it, with the layout of the table.
pub proof fn lemma_drop<T, A: Allocator>(before: RawTable<T, A>, after: RawTable<T, A>)
    requires
        memory::addressable::<T>(),
        before.wf(),
        exists|m: &mut RawTable<T, A>|
            *m == before && *final(m) == after && #[trigger] call_ensures(
                RawTable::<T, A>::drop,
                (m,),
                (),
            ),
    ensures
        after.wf(),
        after.alloc == before.alloc,
        after.table.bucket_mask == 0,
        after.table.items == 0,
        after.table.block is None,
        after.elements() == Multiset::<T>::empty(),
        before.table.bucket_mask > 0 ==> {
            &&& before.table.block is Some
            &&& exists|layout: Layout|
                {
                    &&& layout.size == memory::bytes::<T>(before.table.bucket_mask + 1)
                    &&& layout.align == memory::alignment::<T>()
                    &&& #[trigger] call_ensures(
                        A::deallocate,
                        (&before.alloc, before.table.block->0, layout),
                        (),
                    )
                }
        },
{
    memory::lemma_plain_sizes::<T>(before.table.n());
    after.table.lemma_items_are_elements();
    if before.table.bucket_mask > 0 {
        let layout = layout::table_layout_of::<T>().layout_spec(before.table.n());
        assert(call_ensures(
            A::deallocate,
            (&before.alloc, before.table.block->0, layout),
            (),
        ));
    }
}

/// `into_allocation` returns the block of a table with memory, with its layout and its
/// allocator.
pub proof fn lemma_into_allocation<T, A: Allocator>(
    table: RawTable<T, A>,
    r: Option<(Block, Layout, A)>,
)
    requires
        memory::addressable::<T>(),
        table.wf(),
        call_ensures(RawTable::<T, A>::into_allocation, (table,), r),
    ensures
        r is Some <==> table.table.bucket_mask > 0,
        r matches Some((block, layout, alloc)) ==> {
            &&& table.table.block == Some(block)
            &&& layout.size == memory::bytes::<T>(table.table.bucket_mask + 1)
            &&& layout.align == memory::alignment::<T>()
            &&& alloc == table.alloc
        },
{
    memory::lemma_plain_sizes::<T>(table.table.n());
}


/// The default table holds nothing and has no memory, and its allocator is the default one.
pub proof fn lemma_default<T, A: Allocator + Default>(r: RawTable<T, A>)
    requires
        call_ensures(RawTable::<T, A>::default, (), r),
    ensures
        r.wf(),
        r.table.bucket_mask == 0,
        r.table.items == 0,
        r.table.growth_left == 0,
        r.table.data@.len() == 0,
        r.table.block is None,
        call_ensures(A::default, (), r.alloc),
{
}

/// `allocator` lends the allocator of a table.
pub proof fn lemma_allocator<T, A: Allocator>(table: &RawTable<T, A>, r: &A)
    requires
        call_ensures(RawTable::<T, A>::allocator, (table,), r),
    ensures
        *r == table.alloc,
{
}

} // verus!
