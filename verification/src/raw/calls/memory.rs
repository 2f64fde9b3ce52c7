//! Calls that make room in a table, or give room back.
use crate::allocator::{AllocError, Allocator, Block, Global, Layout, TryReserveError};
use crate::control::Tag;
use crate::math;
use crate::raw::layout;
use crate::raw::storage;
use crate::raw::table::RawTable;
use vstd::arithmetic::power2::*;
use vstd::prelude::*;

verus! {

/// How many elements that many buckets take at most: all but one in a small table, and
/// seven eighths of them in a larger one.
pub open spec fn room(buckets: int) -> int {
    if buckets <= 8 {
        buckets - 1
    } else {
        7 * buckets / 8
    }
}

/// How many bytes a table of that many buckets takes: the elements, padded, and a control
/// byte for each bucket and for each byte of a group.
pub open spec fn bytes<T>(buckets: int) -> int {
    let align = alignment::<T>();
    ((vstd::layout::size_of::<T>() * buckets + align - 1) / align) * align + buckets + 16
}

/// The alignment of a table: that of its elements, or that of a group.
pub open spec fn alignment<T>() -> int {
    if vstd::layout::align_of::<T>() > 16 {
        vstd::layout::align_of::<T>() as int
    } else {
        16
    }
}

/// Whether the machine has addresses enough for elements of a type, as it has for the
/// elements of every type.
pub open spec fn addressable<T>() -> bool {
    &&& vstd::layout::size_of::<T>() <= usize::MAX
    &&& vstd::layout::align_of::<T>() <= usize::MAX
}

/// The sizes in numbers.
pub proof fn lemma_sizes_in_numbers<T>(capacity: int, buckets: int)
    ensures
        buckets <= 8 ==> room(buckets) == buckets - 1,
        buckets > 8 ==> 8 * room(buckets) <= 7 * buckets < 8 * room(buckets) + 8,
        alignment::<T>() >= 16,
        alignment::<T>() >= vstd::layout::align_of::<T>(),
        alignment::<T>() == 16 || alignment::<T>() == vstd::layout::align_of::<T>(),
        buckets >= 0 ==> {
            let data = bytes::<T>(buckets) - buckets - 16;
            let size = vstd::layout::size_of::<T>() * buckets;
            size <= data < size + alignment::<T>() && data % alignment::<T>() == 0
        },
        fewest::<T>() == if vstd::layout::size_of::<T>() <= 1 {
            16int
        } else if vstd::layout::size_of::<T>() <= 3 {
            8
        } else {
            4
        },
        fits_tightly::<T>(capacity, buckets) <==> {
            &&& is_pow2(buckets)
            &&& buckets >= fewest::<T>()
            &&& room(buckets) >= capacity
            &&& buckets == fewest::<T>() || room(buckets / 2) < capacity
        },
        addressable::<T>() <==> vstd::layout::size_of::<T>() <= usize::MAX
            && vstd::layout::align_of::<T>() <= usize::MAX,
{
    if buckets >= 0 {
        let size = vstd::layout::size_of::<T>() as int;
        assert(size * buckets >= 0) by (nonlinear_arith)
            requires
                size >= 0,
                buckets >= 0,
        ;
        layout::lemma_round_up(size * buckets, alignment::<T>());
    }
}

/// The capacity of a number of buckets, and their size, in plain terms.
pub proof fn lemma_plain_sizes<T>(buckets: int)
    requires
        addressable::<T>(),
        is_pow2(buckets),
    ensures
        room(buckets) == layout::capacity_of(buckets),
        bytes::<T>(buckets) == layout::table_layout_of::<T>().len_spec(buckets),
        alignment::<T>() == layout::table_layout_of::<T>().ctrl_align,
{
    assert(is_pow2(8)) by {
        reveal_with_fuel(is_pow2, 6);
    }
    if buckets > 8 {
        math::lemma_pow2_divides(8, buckets);
    }
}

/// The fewest buckets of a table with memory: as many as make up a group, but no fewer than
/// four.
pub open spec fn fewest<T>() -> int {
    if vstd::layout::size_of::<T>() <= 1 {
        16
    } else if vstd::layout::size_of::<T>() <= 3 {
        8
    } else {
        4
    }
}

/// Whether this is the smallest number of buckets with room for that many elements.
pub open spec fn fits_tightly<T>(capacity: int, buckets: int) -> bool {
    &&& is_pow2(buckets)
    &&& buckets >= fewest::<T>()
    &&& room(buckets) >= capacity
    &&& buckets == fewest::<T>() || room(buckets / 2) < capacity
}

/// There is one smallest number of buckets.
pub proof fn lemma_tight_is_unique<T>(capacity: int, a: int, b: int)
    requires
        fits_tightly::<T>(capacity, a),
        fits_tightly::<T>(capacity, b),
    ensures
        a == b,
{
    if a < b {
        math::lemma_pow2_gap(a, b);
        lemma_room_grows(a, b / 2);
    } else if b < a {
        math::lemma_pow2_gap(b, a);
        lemma_room_grows(b, a / 2);
    }
}

/// More buckets have no less room.
pub proof fn lemma_room_grows(a: int, b: int)
    requires
        0 < a <= b,
    ensures
        room(a) <= room(b),
{
}

/// The number of buckets for a capacity is the smallest with room for it.
pub proof fn lemma_chosen_is_tight<T>(capacity: usize)
    requires
        addressable::<T>(),
        capacity > 0,
        layout::table_layout_of::<T>().valid(),
    ensures
        fits_tightly::<T>(
            capacity as int,
            layout::buckets_for(capacity, layout::table_layout_of::<T>()),
        ),
{
    let table_layout = layout::table_layout_of::<T>();
    let b = layout::buckets_for(capacity, table_layout);
    layout::lemma_buckets_for(capacity, table_layout);
    layout::lemma_buckets_for_is_smallest(capacity, table_layout, b);
    lemma_plain_sizes::<T>(b);
    assert(is_pow2(4) && is_pow2(8) && is_pow2(16)) by {
        reveal_with_fuel(is_pow2, 6);
    }
    if b > fewest::<T>() {
        math::lemma_pow2_gap(fewest::<T>(), b);
        math::lemma_pow2_half(b);
        lemma_plain_sizes::<T>(b / 2);
        if room(b / 2) >= capacity {
            layout::lemma_buckets_for_is_smallest(capacity, table_layout, b / 2);
        }
    }
}

/// `try_reserve` reports an overflow only if the number of elements overflows, or if every
/// table with room for them, and with more room than this one, is larger than the largest
/// allocation.
pub proof fn lemma_try_reserve_overflows_only_at_the_limit<T, A: Allocator, F: Fn(&T) -> u64>(
    before: RawTable<T, A>,
    additional: usize,
    hasher: F,
    after: RawTable<T, A>,
    r: Result<(), TryReserveError>,
    buckets: int,
)
    requires
        addressable::<T>(),
        before.wf(),
        exists|m: &mut RawTable<T, A>|
            *m == before && *final(m) == after && #[trigger] call_ensures(
                RawTable::<T, A>::try_reserve,
                (m, additional, hasher),
                r,
            ),
        r == Err::<(), TryReserveError>(TryReserveError::CapacityOverflow),
        // The grown table has this many buckets, at least.
        is_pow2(buckets),
        buckets >= 16,
        room(buckets) >= before.table.items + additional,
        room(buckets) > room(before.table.bucket_mask + 1),
    ensures
        additional > before.table.growth_left,
        before.table.items + additional > room(before.table.bucket_mask + 1) / 2,
        ({
            ||| 8 * (before.table.items + additional) > usize::MAX
            ||| 8 * (room(before.table.bucket_mask + 1) + 1) > usize::MAX
            ||| bytes::<T>(buckets) + alignment::<T>() - 1 > isize::MAX
        }),
{
    let n = before.table.n();
    let table_layout = layout::table_layout_of::<T>();
    lemma_plain_sizes::<T>(n);
    lemma_plain_sizes::<T>(buckets);
    if before.table.items + additional <= usize::MAX {
        let need = crate::raw::growth::grown_capacity(
            before.table.items as int,
            additional as int,
            n,
        );
        if need <= usize::MAX {
            layout::lemma_buckets_for_is_smallest(need as usize, table_layout, buckets);
            layout::lemma_len_monotone(
                table_layout,
                layout::buckets_for(need as usize, table_layout),
                buckets,
            );
        }
    }
}

/// `try_reserve` makes the room that was asked for and keeps the elements, or leaves the table
/// as it was. A table that has the room is not touched. One that has not has no deleted
/// buckets afterwards; it keeps its memory if half of its room is enough.
pub proof fn lemma_try_reserve_makes_room<T, A: Allocator, F: Fn(&T) -> u64>(
    before: RawTable<T, A>,
    additional: usize,
    hasher: F,
    after: RawTable<T, A>,
    r: Result<(), TryReserveError>,
)
    requires
        addressable::<T>(),
        before.wf(),
        exists|m: &mut RawTable<T, A>|
            *m == before && *final(m) == after && #[trigger] call_ensures(
                RawTable::<T, A>::try_reserve,
                (m, additional, hasher),
                r,
            ),
    ensures
        after.wf(),
        r is Ok ==> {
            &&& after.table.growth_left >= additional
            &&& after.table.items == before.table.items
            &&& after.elements() == before.elements()
            &&& after.alloc == before.alloc
        },
        r is Err ==> after == before,
        additional <= before.table.growth_left ==> r is Ok && after == before,
        r is Ok && additional > before.table.growth_left ==> {
            &&& after.table.items + after.table.growth_left == room(after.table.bucket_mask + 1)
            &&& if before.table.items + additional <= room(before.table.bucket_mask + 1) / 2 {
                &&& after.table.bucket_mask == before.table.bucket_mask
                &&& after.table.block == before.table.block
            } else {
                after.table.bucket_mask > before.table.bucket_mask
            }
        },
{
    let n = before.table.n();
    lemma_plain_sizes::<T>(n);
    lemma_plain_sizes::<T>(after.table.n());
    if r is Ok && additional > before.table.growth_left {
        let need = crate::raw::growth::grown_capacity(
            before.table.items as int,
            additional as int,
            n,
        );
        lemma_chosen_is_tight::<T>(need as usize);
        if after.table.n() <= n {
            lemma_room_grows(after.table.n(), n);
        }
    }
}

/// `try_reserve` fails for want of memory only if the allocator refused the smallest table with
/// room for the elements and with more room than before, or if the heap refused its buckets.
pub proof fn lemma_try_reserve_fails_only_without_memory<T, A: Allocator, F: Fn(&T) -> u64>(
    before: RawTable<T, A>,
    additional: usize,
    hasher: F,
    after: RawTable<T, A>,
    layout: Layout,
    buckets: int,
)
    requires
        addressable::<T>(),
        before.wf(),
        exists|m: &mut RawTable<T, A>|
            *m == before && *final(m) == after && #[trigger] call_ensures(
                RawTable::<T, A>::try_reserve,
                (m, additional, hasher),
                Err(TryReserveError::AllocError { layout }),
            ),
        ({
            let need = before.table.items + additional;
            let full = room(before.table.bucket_mask + 1);
            fits_tightly::<T>(
                if need > full {
                    need
                } else {
                    full + 1
                },
                buckets,
            )
        }),
    ensures
        after == before,
        additional > before.table.growth_left,
        layout.size == bytes::<T>(buckets),
        layout.align == alignment::<T>(),
        ({
            ||| call_ensures(A::allocate, (&before.alloc, layout), Err(AllocError))
            ||| exists|v: &mut Vec<Tag>, len: usize, answer: Result<
                (),
                std::collections::TryReserveError,
            >|
                len >= buckets + 16 && answer is Err && #[trigger] call_ensures(
                    Vec::<Tag>::try_reserve,
                    (v, len),
                    answer,
                )
            ||| exists|v: &mut Vec<Option<T>>, len: usize, answer: Result<
                (),
                std::collections::TryReserveError,
            >|
                len >= buckets && answer is Err && #[trigger] call_ensures(
                    Vec::<Option<T>>::try_reserve,
                    (v, len),
                    answer,
                )
        }),
{
    let n = before.table.n();
    let table_layout = layout::table_layout_of::<T>();
    lemma_plain_sizes::<T>(n);
    lemma_plain_sizes::<T>(buckets);
    let need = crate::raw::growth::grown_capacity(before.table.items as int, additional as int, n);
    lemma_chosen_is_tight::<T>(need as usize);
    lemma_tight_is_unique::<T>(need, buckets, layout::buckets_for(need as usize, table_layout));
    assert(storage::out_of_memory::<T, A>(&before.alloc, table_layout, buckets));
    if !call_ensures(A::allocate, (&before.alloc, layout), Err(AllocError)) {
        let (block, chosen) = choose|block: Block, chosen: usize|
            {
                &&& #[trigger] storage::returned_unused::<T, A>(
                    &before.alloc,
                    layout,
                    block,
                    chosen,
                )
                &&& storage::fills(block, table_layout, buckets, chosen as int)
            };
        assert(chosen + 16 <= isize::MAX) by {
            lemma_plain_sizes::<T>(chosen as int);
            let size = table_layout.size as int;
            math::lemma_pow2_positive(chosen as int);
            assert(size * chosen >= 0) by (nonlinear_arith)
                requires
                    size >= 0,
                    chosen >= 0,
            ;
            math::lemma_pow2_positive(table_layout.ctrl_align as int);
            layout::lemma_round_up(size * chosen, table_layout.ctrl_align as int);
        }
        assert(storage::heap_refused::<T>(chosen));
    }
}

/// If an allocator grants just what it is asked for, `try_reserve` leaves the number of
/// buckets alone as long as half of their room is enough, and else chooses the smallest
/// number with room for the elements and with more room than before.
pub proof fn lemma_try_reserve_chooses_buckets<T, A: Allocator, F: Fn(&T) -> u64>(
    before: RawTable<T, A>,
    additional: usize,
    hasher: F,
    after: RawTable<T, A>,
    r: Result<(), TryReserveError>,
)
    requires
        addressable::<T>(),
        before.wf(),
        before.alloc.is_exact(),
        exists|m: &mut RawTable<T, A>|
            *m == before && *final(m) == after && #[trigger] call_ensures(
                RawTable::<T, A>::try_reserve,
                (m, additional, hasher),
                r,
            ),
        r is Ok,
        additional > before.table.growth_left,
    ensures
        ({
            let need = before.table.items + additional;
            let full = room(before.table.bucket_mask + 1);
            if need <= full / 2 {
                after.table.bucket_mask == before.table.bucket_mask
            } else {
                fits_tightly::<T>(
                    if need > full {
                        need
                    } else {
                        full + 1
                    },
                    after.table.bucket_mask + 1,
                )
            }
        }),
        // No bucket is deleted any more.
        after.table.items + after.table.growth_left == room(after.table.bucket_mask + 1),
{
    let n = before.table.n();
    lemma_plain_sizes::<T>(n);
    lemma_plain_sizes::<T>(after.table.n());
    let need = crate::raw::growth::grown_capacity(before.table.items as int, additional as int, n);
    lemma_chosen_is_tight::<T>(need as usize);
}

/// A table with the default allocator that asks for moderately many elements gets the room,
/// unless the heap refuses it.
pub proof fn lemma_try_reserve_succeeds<T, F: Fn(&T) -> u64>(
    before: RawTable<T>,
    additional: usize,
    hasher: F,
    after: RawTable<T>,
    r: Result<(), TryReserveError>,
)
    requires
        addressable::<T>(),
        before.wf(),
        exists|m: &mut RawTable<T>|
            *m == before && *final(m) == after && #[trigger] call_ensures(
                RawTable::<T>::try_reserve,
                (m, additional, hasher),
                r,
            ),
        ({
            let need = before.table.items + additional;
            let full = room(before.table.bucket_mask + 1);
            (vstd::layout::size_of::<T>() + 1) * (4 * if need > full {
                need
            } else {
                full + 1
            } + 16) + 2 * alignment::<T>() + 16 <= isize::MAX
        }),
        forall|v: &mut Vec<Tag>, len: usize, answer: Result<(), std::collections::TryReserveError>|
         #[trigger]
            call_ensures(Vec::<Tag>::try_reserve, (v, len), answer) ==> answer is Ok,
        forall|
            v: &mut Vec<Option<T>>,
            len: usize,
            answer: Result<(), std::collections::TryReserveError>,
        | #[trigger]
            call_ensures(Vec::<Option<T>>::try_reserve, (v, len), answer) ==> answer is Ok,
    ensures
        r is Ok,
        after.table.growth_left >= additional,
{
    let n = before.table.n();
    let table_layout = layout::table_layout_of::<T>();
    lemma_plain_sizes::<T>(n);
    let need = crate::raw::growth::grown_capacity(before.table.items as int, additional as int, n);
    let size = vstd::layout::size_of::<T>() as int;
    assert(4 * need + 16 <= (size + 1) * (4 * need + 16)) by (nonlinear_arith)
        requires
            size >= 0,
            need >= 0,
    ;
    crate::raw::laws::lemma_moderate_capacity_fits(need as usize, table_layout);
}

/// `reserve` makes the room that was asked for and keeps the elements. A table that has the
/// room is not touched.
pub proof fn lemma_reserve_makes_room<T, A: Allocator, F: Fn(&T) -> u64>(
    before: RawTable<T, A>,
    additional: usize,
    hasher: F,
    after: RawTable<T, A>,
)
    requires
        addressable::<T>(),
        before.wf(),
        exists|m: &mut RawTable<T, A>|
            *m == before && *final(m) == after && #[trigger] call_ensures(
                RawTable::<T, A>::reserve,
                (m, additional, hasher),
                (),
            ),
    ensures
        after.wf(),
        after.alloc == before.alloc,
        after.table.growth_left >= additional,
        after.table.items == before.table.items,
        after.elements() == before.elements(),
        additional <= before.table.growth_left ==> after == before,
        before.alloc.is_exact() && additional > before.table.growth_left ==> {
            let need = before.table.items + additional;
            let full = room(before.table.bucket_mask + 1);
            if need <= full / 2 {
                after.table.bucket_mask == before.table.bucket_mask
            } else {
                fits_tightly::<T>(
                    if need > full {
                        need
                    } else {
                        full + 1
                    },
                    after.table.bucket_mask + 1,
                )
            }
        },
{
    let n = before.table.n();
    lemma_plain_sizes::<T>(n);
    let need = crate::raw::growth::grown_capacity(before.table.items as int, additional as int, n);
    if need <= usize::MAX {
        lemma_chosen_is_tight::<T>(need as usize);
    }
}

/// After `shrink_to`, the elements are the same, and the table is either just as it was or has
/// room for as many elements as the call names, and for those that it holds.
pub proof fn lemma_shrink_to_leaves_room<T, A: Allocator, F: Fn(&T) -> u64>(
    before: RawTable<T, A>,
    min_size: usize,
    hasher: F,
    after: RawTable<T, A>,
)
    requires
        before.wf(),
        exists|m: &mut RawTable<T, A>|
            *m == before && *final(m) == after && #[trigger] call_ensures(
                RawTable::<T, A>::shrink_to,
                (m, min_size, hasher),
                (),
            ),
    ensures
        after.wf(),
        after.alloc == before.alloc,
        after.table.items == before.table.items,
        after.elements() == before.elements(),
        after == before || after.table.items + after.table.growth_left >= min_size,
        after.table.items + after.table.growth_left >= after.table.items,
{
}

/// If an allocator grants just what it is asked for, `shrink_to` leaves the smallest number
/// of buckets with room for the elements and for as many as the call names, unless the table
/// has no more than that. A table without elements, of which no room is asked, has no memory
/// then.
pub proof fn lemma_shrink_to_chooses_buckets<T, A: Allocator, F: Fn(&T) -> u64>(
    before: RawTable<T, A>,
    min_size: usize,
    hasher: F,
    after: RawTable<T, A>,
    buckets: int,
)
    requires
        addressable::<T>(),
        before.wf(),
        before.alloc.is_exact(),
        exists|m: &mut RawTable<T, A>|
            *m == before && *final(m) == after && #[trigger] call_ensures(
                RawTable::<T, A>::shrink_to,
                (m, min_size, hasher),
                (),
            ),
        fits_tightly::<T>(
            if before.table.items > min_size {
                before.table.items as int
            } else {
                min_size as int
            },
            buckets,
        ),
    ensures
        ({
            let size = if before.table.items > min_size {
                before.table.items
            } else {
                min_size
            };
            if size == 0 {
                after.table.bucket_mask == 0
            } else if buckets < before.table.bucket_mask + 1 && 8 * size <= usize::MAX {
                &&& after.table.bucket_mask + 1 == buckets
                &&& after.table.items + after.table.growth_left == room(buckets)
            } else {
                buckets < before.table.bucket_mask + 1 || after == before
            }
        }),
        // It never grows.
        after.table.bucket_mask <= before.table.bucket_mask,
{
    let size = if before.table.items > min_size {
        before.table.items
    } else {
        min_size
    };
    if size > 0 {
        lemma_chosen_is_tight::<T>(size);
        lemma_tight_is_unique::<T>(
            size as int,
            buckets,
            layout::buckets_for(size, layout::table_layout_of::<T>()),
        );
        lemma_plain_sizes::<T>(buckets);
        lemma_plain_sizes::<T>(after.table.n());
    }
}


/// The default allocator grants every request, with just the size that is asked for.
pub proof fn lemma_default_allocator_grants(layout: Layout, r: Result<Block, AllocError>)
    requires
        call_ensures(Global::allocate, (&Global, layout), r),
    ensures
        r is Ok,
        r->Ok_0.requested_spec() == layout,
        r->Ok_0.len_spec() == layout.size,
        Global.never_refuses(),
        Global.is_exact(),
{
}

/// A table that grows takes a block that its allocator granted, and gives the one that it had
/// back, with the layout of as many buckets as it had.
pub proof fn lemma_growing_gives_memory_back<T, A: Allocator, F: Fn(&T) -> u64>(
    before: RawTable<T, A>,
    additional: usize,
    hasher: F,
    after: RawTable<T, A>,
    r: Result<(), TryReserveError>,
)
    requires
        addressable::<T>(),
        before.wf(),
        exists|m: &mut RawTable<T, A>|
            *m == before && *final(m) == after && #[trigger] call_ensures(
                RawTable::<T, A>::try_reserve,
                (m, additional, hasher),
                r,
            ),
        r is Ok,
        additional > before.table.growth_left,
        before.table.items + additional > room(before.table.bucket_mask + 1) / 2,
    ensures
        after.table.block is Some,
        call_ensures(
            A::allocate,
            (&before.alloc, after.table.block->0.requested_spec()),
            Ok(after.table.block->0),
        ),
        bytes::<T>(after.table.bucket_mask + 1) <= after.table.block->0.len_spec(),
        before.table.bucket_mask > 0 ==> before.table.block is Some && call_ensures(
            A::deallocate,
            (
                &before.alloc,
                before.table.block->0,
                (Layout {
                    size: bytes::<T>(before.table.bucket_mask + 1) as usize,
                    align: alignment::<T>() as usize,
                }),
            ),
            (),
        ),
{
    lemma_plain_sizes::<T>(before.table.n());
    lemma_plain_sizes::<T>(after.table.n());
}

/// A table that shrinks gives the block that it had back, with the layout of as many buckets
/// as it had.
pub proof fn lemma_shrinking_gives_memory_back<T, A: Allocator, F: Fn(&T) -> u64>(
    before: RawTable<T, A>,
    min_size: usize,
    hasher: F,
    after: RawTable<T, A>,
)
    requires
        addressable::<T>(),
        before.wf(),
        exists|m: &mut RawTable<T, A>|
            *m == before && *final(m) == after && #[trigger] call_ensures(
                RawTable::<T, A>::shrink_to,
                (m, min_size, hasher),
                (),
            ),
        after != before,
        before.table.bucket_mask > 0,
    ensures
        before.table.block is Some,
        call_ensures(
            A::deallocate,
            (
                &before.alloc,
                before.table.block->0,
                (Layout {
                    size: bytes::<T>(before.table.bucket_mask + 1) as usize,
                    align: alignment::<T>() as usize,
                }),
            ),
            (),
        ),
{
    lemma_plain_sizes::<T>(before.table.n());
}

} // verus!
