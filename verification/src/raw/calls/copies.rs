//! Calls that make one table a copy of another.
use crate::allocator::{AllocError, Allocator, Block, Layout, TryReserveError};
use crate::control::Tag;
use crate::raw::calls::memory;
use crate::raw::layout;
use crate::raw::layout::Fallibility;
use crate::raw::storage;
use crate::raw::storage::RawTableInner;
use crate::raw::table::RawTable;
use vstd::prelude::*;

verus! {

/// A table without memory is a copy of every other one without memory.
proof fn lemma_new_is_copy<T: Clone>(copy: &RawTableInner<T>, source: &RawTableInner<T>)
    requires
        copy.is_new(),
        source.wf(),
        source.bucket_mask == 0,
    ensures
        copy.bucket_mask == source.bucket_mask,
        copy.items == source.items,
        copy.growth_left == source.growth_left,
        copy.data@.len() == source.data@.len(),
        forall|i: int|
            0 <= i < source.data@.len() ==> match (
                source.data@[i],
                #[trigger] copy.data@[i],
            ) {
                (Some(value), Some(held)) => cloned(value, held) && copy.hashes@[i]
                    == source.hashes@[i],
                (None, None) => true,
                _ => false,
            },
{
    crate::raw::model::lemma_count_none(source.tags(), crate::raw::model::Kind::Full);
}

/// `clone_from` leaves a copy of the source, whatever the table was before.
pub proof fn lemma_clone_from_copies<T: Clone, A: Allocator + Clone>(
    before: RawTable<T, A>,
    source: &RawTable<T, A>,
    after: RawTable<T, A>,
)
    requires
        before.wf(),
        source.wf(),
        exists|m: &mut RawTable<T, A>|
            *m == before && *final(m) == after && #[trigger] call_ensures(
                RawTable::<T, A>::clone_from,
                (m, source),
                (),
            ),
    ensures
        after.wf(),
        after.alloc == before.alloc,
        after.table.bucket_mask == source.table.bucket_mask,
        after.table.items == source.table.items,
        after.table.growth_left == source.table.growth_left,
        after.table.data@.len() == source.table.data@.len(),
        forall|i: int|
            0 <= i < source.table.data@.len() ==> match (
                source.table.data@[i],
                #[trigger] after.table.data@[i],
            ) {
                (Some(value), Some(held)) => cloned(value, held) && after.table.hashes@[i]
                    == source.table.hashes@[i],
                (None, None) => true,
                _ => false,
            },
{
    if source.table.bucket_mask == 0 {
        lemma_new_is_copy(&after.table, &source.table);
    }
}

/// `try_clone_from` leaves a copy of the source, whatever the table was before, or fails for
/// want of memory and leaves a table without elements. It does not fail if the memory of the
/// table can be used again, or if the source has none.
pub proof fn lemma_try_clone_from_copies<T: Clone, A: Allocator + Clone>(
    before: RawTable<T, A>,
    source: &RawTable<T, A>,
    fallibility: Fallibility,
    after: RawTable<T, A>,
    r: Result<(), TryReserveError>,
)
    requires
        before.wf(),
        source.wf(),
        exists|m: &mut RawTable<T, A>|
            *m == before && *final(m) == after && #[trigger] call_ensures(
                RawTable::<T, A>::try_clone_from,
                (m, source, fallibility),
                r,
            ),
    ensures
        after.wf(),
        after.alloc == before.alloc,
        r is Ok ==> {
            &&& after.table.bucket_mask == source.table.bucket_mask
            &&& after.table.items == source.table.items
            &&& after.table.growth_left == source.table.growth_left
            &&& after.table.data@.len() == source.table.data@.len()
            &&& forall|i: int|
                0 <= i < source.table.data@.len() ==> match (
                    source.table.data@[i],
                    #[trigger] after.table.data@[i],
                ) {
                    (Some(value), Some(held)) => cloned(value, held) && after.table.hashes@[i]
                        == source.table.hashes@[i],
                    (None, None) => true,
                    _ => false,
                }
        },
        r is Err ==> {
            &&& fallibility is Fallible
            &&& after.table.items == 0
            &&& forall|i: int| 0 <= i < after.table.data@.len() ==> after.table.data@[i] is None
            &&& after.table.bucket_mask == before.table.bucket_mask
        },
        source.table.bucket_mask == before.table.bucket_mask ==> r is Ok,
        source.table.bucket_mask == 0 ==> r is Ok,
{
    if r is Ok && source.table.bucket_mask == 0 {
        lemma_new_is_copy(&after.table, &source.table);
    }
    if r is Err {
        assert forall|i: int| 0 <= i < after.table.data@.len() implies after.table.data@[i] is None by {
            assert(after.table.tags()[i] == crate::control::Tag::Empty);
        }
    }
}

/// `clone` makes a copy.
pub proof fn lemma_clone_copies<T: Clone, A: Allocator + Clone>(
    source: &RawTable<T, A>,
    r: RawTable<T, A>,
)
    requires
        source.wf(),
        call_ensures(RawTable::<T, A>::clone, (source,), r),
    ensures
        r.wf(),
        cloned(source.alloc, r.alloc),
        r.table.bucket_mask == source.table.bucket_mask,
        r.table.items == source.table.items,
        r.table.growth_left == source.table.growth_left,
        r.table.data@.len() == source.table.data@.len(),
        forall|i: int|
            0 <= i < source.table.data@.len() ==> match (
                source.table.data@[i],
                #[trigger] r.table.data@[i],
            ) {
                (Some(value), Some(held)) => cloned(value, held) && r.table.hashes@[i]
                    == source.table.hashes@[i],
                (None, None) => true,
                _ => false,
            },
{
    if source.table.bucket_mask == 0 {
        lemma_new_is_copy(&r.table, &source.table);
    }
}

/// If a clone equals what it is a clone of, `clone_from` leaves the elements of the source, in
/// the same buckets and under the same hashes.
pub proof fn lemma_clone_from_holds_the_same<T: Clone, A: Allocator + Clone>(
    before: RawTable<T, A>,
    source: &RawTable<T, A>,
    after: RawTable<T, A>,
)
    requires
        before.wf(),
        source.wf(),
        exists|m: &mut RawTable<T, A>|
            *m == before && *final(m) == after && #[trigger] call_ensures(
                RawTable::<T, A>::clone_from,
                (m, source),
                (),
            ),
        forall|v: T, w: T| #[trigger] cloned(v, w) ==> v == w,
    ensures
        after.table.data@ == source.table.data@,
        after.elements() == source.elements(),
        forall|i: int|
            0 <= i < source.table.data@.len() && #[trigger] source.table.data@[i] is Some
                ==> after.table.hashes@[i] == source.table.hashes@[i],
{
    lemma_clone_from_copies(before, source, after);
    assert forall|i: int| 0 <= i < source.table.data@.len() implies after.table.data@[i]
        == source.table.data@[i] by {}
    assert(after.table.data@ =~= source.table.data@);
}


/// `clone_from` uses the memory of the table again if it has as many buckets as the source, and
/// gives it back if not, with the layout of as many buckets as it had.
pub proof fn lemma_clone_from_gives_memory_back<T: Clone, A: Allocator + Clone>(
    before: RawTable<T, A>,
    source: &RawTable<T, A>,
    after: RawTable<T, A>,
)
    requires
        memory::addressable::<T>(),
        before.wf(),
        source.wf(),
        exists|m: &mut RawTable<T, A>|
            *m == before && *final(m) == after && #[trigger] call_ensures(
                RawTable::<T, A>::clone_from,
                (m, source),
                (),
            ),
        before.table.bucket_mask > 0,
    ensures
        before.table.block is Some,
        source.table.bucket_mask == before.table.bucket_mask ==> after.table.block
            == before.table.block,
        source.table.bucket_mask != before.table.bucket_mask ==> call_ensures(
            A::deallocate,
            (
                &before.alloc,
                before.table.block->0,
                (Layout {
                    size: memory::bytes::<T>(before.table.bucket_mask + 1) as usize,
                    align: memory::alignment::<T>() as usize,
                }),
            ),
            (),
        ),
{
    memory::lemma_plain_sizes::<T>(before.table.n());
}


/// `try_clone_from` fails only if the allocator refused a table with as many buckets as the
/// source, or if the heap refused these buckets.
pub proof fn lemma_try_clone_from_fails_only_without_memory<T: Clone, A: Allocator + Clone>(
    before: RawTable<T, A>,
    source: &RawTable<T, A>,
    fallibility: Fallibility,
    after: RawTable<T, A>,
    error: TryReserveError,
)
    requires
        memory::addressable::<T>(),
        before.wf(),
        source.wf(),
        exists|m: &mut RawTable<T, A>|
            *m == before && *final(m) == after && #[trigger] call_ensures(
                RawTable::<T, A>::try_clone_from,
                (m, source, fallibility),
                Err(error),
            ),
    ensures
        error matches TryReserveError::AllocError { layout } && {
            &&& layout.size == memory::bytes::<T>(source.table.bucket_mask + 1)
            &&& layout.align == memory::alignment::<T>()
            &&& {
                ||| call_ensures(A::allocate, (&before.alloc, layout), Err(AllocError))
                ||| exists|v: &mut Vec<Tag>, len: usize, answer: Result<
                    (),
                    std::collections::TryReserveError,
                >|
                    len == source.table.bucket_mask + 17 && answer is Err && #[trigger] call_ensures(
                        Vec::<Tag>::try_reserve,
                        (v, len),
                        answer,
                    )
                ||| exists|v: &mut Vec<Option<T>>, len: usize, answer: Result<
                    (),
                    std::collections::TryReserveError,
                >|
                    len == source.table.bucket_mask + 1 && answer is Err && #[trigger] call_ensures(
                        Vec::<Option<T>>::try_reserve,
                        (v, len),
                        answer,
                    )
            }
        },
{
    let n = source.table.n();
    memory::lemma_plain_sizes::<T>(n);
    let layout = layout::table_layout_of::<T>().layout_spec(n);
    assert(storage::out_of_memory_exact::<T, A>(
        &before.alloc,
        layout::table_layout_of::<T>(),
        n,
    ));
    if !call_ensures(A::allocate, (&before.alloc, layout), Err(AllocError)) {
        let (block, len) = choose|block: Block, len: usize|
            len == n && #[trigger] storage::returned_unused::<T, A>(
                &before.alloc,
                layout,
                block,
                len,
            );
        assert(storage::heap_refused::<T>(len));
        assert(len + 16 <= usize::MAX);
    }
}

} // verus!
