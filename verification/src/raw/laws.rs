//! What holds of a table across several operations.
use crate::allocator;
use crate::allocator::{Allocator, Block, Global, Layout};
use crate::control::{h2, Group, Tag};
use crate::raw::drain;
use crate::raw::iter_hash;
use crate::raw::layout;
use crate::raw::layout::TableLayout;
use crate::raw::lifecycle;
use crate::raw::model;
use crate::raw::model::Kind;
use crate::raw::storage;
use crate::raw::storage::RawTableInner;
use crate::raw::table::RawTable;
use vstd::arithmetic::power2::*;
use vstd::multiset::Multiset;
use vstd::prelude::*;

verus! {

/// A lookup finds what was inserted: as long as the table holds an element under a
/// hash, a lookup of that hash that accepts the element does not come back empty.
pub proof fn lemma_entry_is_found<T, A: Allocator, F: Fn(&T) -> bool>(
    table: &RawTable<T, A>,
    i: int,
    hash: u64,
    value: T,
    eq: &F,
)
    requires
        table.wf(),
        table.holds(i, hash, value),
        forall|answer: bool| #[trigger] call_ensures(eq, (&value,), answer) ==> answer,
    ensures
        !table.table.picks_none(hash, eq),
{
    table.table.lemma_entry_is_candidate(i, hash, value);
    if table.table.picks_none(hash, eq) {
        assert(call_ensures(eq, (&value,), false));
    }
}

/// A lookup that comes back empty has rejected every element that was inserted with
/// its hash.
pub proof fn lemma_not_found_is_absent<T, A: Allocator, F: Fn(&T) -> bool>(
    table: &RawTable<T, A>,
    i: int,
    hash: u64,
    value: T,
    eq: &F,
)
    requires
        table.wf(),
        table.holds(i, hash, value),
        table.table.picks_none(hash, eq),
    ensures
        call_ensures(eq, (&value,), false),
{
    table.table.lemma_entry_is_candidate(i, hash, value);
}

/// If a lookup accepts just one of the elements of the table, and looks under the hash
/// that this element was inserted with, then it finds just this element.
pub proof fn lemma_lookup_returns_entry<T, A: Allocator, F: Fn(&T) -> bool>(
    table: &RawTable<T, A>,
    i: int,
    hash: u64,
    value: T,
    eq: &F,
)
    requires
        table.wf(),
        table.holds(i, hash, value),
        forall|answer: bool| #[trigger] call_ensures(eq, (&value,), answer) ==> answer,
        forall|v: T| #[trigger]
            table.elements().contains(v) && call_ensures(eq, (&v,), true) ==> v == value,
    ensures
        !table.table.picks_none(hash, eq),
        forall|j: int| #[trigger]
            table.table.picks(hash, eq, j) ==> table.table.data@[j] == Some(value),
{
    lemma_entry_is_found(table, i, hash, value, eq);
    assert forall|j: int| #[trigger] table.table.picks(hash, eq, j) implies table.table.data@[j]
        == Some(value) by {
        model::lemma_bag_take(table.table.data@, j);
        assert(table.elements().contains(table.table.data@[j]->0));
    }
}

/// An element goes into the bucket that its hash selects, unless that one is full.
pub proof fn lemma_home_bucket_is_slot(tags: Seq<Tag>, hash: u64)
    requires
        is_pow2(tags.len() as int),
        !(tags[model::h1_spec(hash) as int % (tags.len() as int)] is Full),
    ensures
        model::is_insert_slot(tags, hash, model::h1_spec(hash) as int % (tags.len() as int)),
{
    let n = tags.len() as int;
    let home = model::probe_pos(hash, n, 0);
    assert(crate::math::tri(0) == 0);
    crate::math::lemma_pow2_positive(n);
    model::lemma_probe_pos_bound(hash, n, 0);
    vstd::arithmetic::div_mod::lemma_small_mod(home as nat, n as nat);
    model::lemma_slot_unique(hash, n, 0, 0);
    assert forall|j: int| 0 <= j < n && !(#[trigger] tags[j] is Full) implies model::rank(
        hash,
        n,
        home,
    ) <= model::rank(hash, n, j) by {
        model::lemma_slot(hash, n, j);
    }
}

/// Inserting an element leaves every other one where it was.
pub proof fn lemma_insert_keeps_others<T>(
    before: &RawTableInner<T>,
    after: &RawTableInner<T>,
    i: int,
    hash: u64,
    value: T,
    j: int,
    other_hash: u64,
    other: T,
)
    requires
        before.wf(),
        0 <= i < before.n(),
        !(before.tags()[i] is Full),
        after.inserted_from(before, i, hash, value),
        before.holds(j, other_hash, other),
    ensures
        after.holds(j, other_hash, other),
        after.holds(i, hash, value),
{
}

/// Erasing an element leaves every other one where it was.
pub proof fn lemma_erase_keeps_others<T>(
    before: &RawTableInner<T>,
    after: &RawTableInner<T>,
    i: int,
    j: int,
    other_hash: u64,
    other: T,
)
    requires
        before.wf(),
        before.is_full_at(i),
        after.erased_from(before, i),
        j != i,
    ensures
        before.holds(j, other_hash, other) <==> after.holds(j, other_hash, other),
        !after.is_full_at(i),
{
}

/// Room that was reserved is enough: a table with room for some elements takes one of
/// them without growing, and has room for the others then.
pub proof fn lemma_reserved_room_is_enough<T>(
    before: &RawTableInner<T>,
    after: &RawTableInner<T>,
    i: int,
    hash: u64,
    value: T,
)
    requires
        before.wf(),
        before.growth_left > 0,
        after.inserted_from(before, i, hash, value),
    ensures
        !before.is_out_of_room(hash),
        after.growth_left >= before.growth_left - 1,
        after.n() == before.n(),
        after.block == before.block,
{
}

/// A clone holds the same elements, in the same buckets and under the same hashes, if
/// the clone of an element is equal to it.
pub proof fn lemma_clone_holds_the_same<T: Clone>(
    source: &RawTableInner<T>,
    copy: &RawTableInner<T>,
    i: int,
    hash: u64,
    value: T,
)
    requires
        copy.cloned_from(source),
        forall|v: T, w: T| #[trigger] cloned(v, w) ==> v == w,
    ensures
        source.holds(i, hash, value) <==> copy.holds(i, hash, value),
        copy.elements() == source.elements(),
        copy.items == source.items,
        copy.growth_left == source.growth_left,
{
    lifecycle::lemma_clones_same_elements(copy.data@, source.data@);
    assert(copy.data@ =~= source.data@);
}

/// Removing an element again takes back its insertion: the elements are the same as
/// before.
pub proof fn lemma_remove_undoes_insert<T>(
    before: &RawTableInner<T>,
    inserted: &RawTableInner<T>,
    after: &RawTableInner<T>,
    i: int,
    hash: u64,
    value: T,
)
    requires
        before.wf(),
        before.bucket_mask > 0,
        0 <= i < before.n(),
        !(before.tags()[i] is Full),
        inserted.inserted_from(before, i, hash, value),
        after.erased_from(inserted, i),
    ensures
        after.elements() == before.elements(),
        after.data@ == before.data@,
        after.items == before.items,
        after.n() == before.n(),
        after.block == before.block,
{
    assert(after.data@ =~= before.data@);
}

/// The bucket of a removed element accepts it back, without growth.
pub proof fn lemma_freed_slot_accepts<T>(
    before: &RawTableInner<T>,
    removed: &RawTableInner<T>,
    i: int,
)
    requires
        before.wf(),
        before.is_full_at(i),
        removed.wf(),
        removed.erased_from(before, i),
    ensures
        removed.accepts(before.hashes@[i], i),
        before.tags()[i] == Tag::Full(h2(before.hashes@[i])),
{
    let hash = before.hashes@[i];
    let n = before.n();
    assert(before.tags()[i] is Full);
    model::lemma_placed_fewer_empty(before.tags(), removed.tags(), hash, i);
}

/// Putting a removed element back where it was, with the tag that it had, restores the
/// table.
pub proof fn lemma_reinsert_undoes_remove<T>(
    before: &RawTableInner<T>,
    removed: &RawTableInner<T>,
    after: &RawTableInner<T>,
    i: int,
    hash: u64,
)
    requires
        before.wf(),
        before.is_full_at(i),
        removed.erased_from(before, i),
        after.inserted_from(removed, i, hash, before.data@[i]->0),
        before.tags()[i] == Tag::Full(h2(hash)),
    ensures
        after.tags() == before.tags(),
        hash == before.hashes@[i] ==> after.hashes@ == before.hashes@,
        after.data@ == before.data@,
        after.items == before.items,
        after.growth_left == before.growth_left,
        after.n() == before.n(),
        after.block == before.block,
{
    assert(after.tags() =~= before.tags());
    if hash == before.hashes@[i] {
        assert(after.hashes@ =~= before.hashes@);
    }
    assert(after.data@ =~= before.data@);
}

/// Whatever happens to a table, an element that it holds is in a bucket under some
/// hash. In a table whose hashes are those of a hash function, that is the hash of the
/// element, so a lookup by it reaches the element.
pub proof fn lemma_hashed_elements_are_reachable<T, F: Fn(&T) -> u64>(
    table: &RawTableInner<T>,
    hasher: &F,
    hash: spec_fn(T) -> u64,
    value: T,
) -> (i: int)
    requires
        table.wf(),
        table.hashed_with(hasher),
        forall|v: T, h: u64| #[trigger] call_ensures(hasher, (&v,), h) ==> h == hash(v),
        table.elements().contains(value),
    ensures
        table.holds(i, hash(value), value),
        model::is_candidate(table.tags(), hash(value), i),
{
    let i = model::lemma_bag_contains(table.data@, value);
    assert(table.is_full_at(i));
    table.lemma_entry_is_candidate(i, hash(value), value);
    i
}

/// If the hash of every element is given by a function of the element, then making
/// room changes neither the elements nor their hashes.
pub proof fn lemma_growth_keeps_entries<T, A: Allocator, F: Fn(&T) -> u64>(
    before: &RawTableInner<T>,
    after: &RawTableInner<T>,
    additional: usize,
    hasher: &F,
    alloc: &A,
    table_layout: TableLayout,
    hash: spec_fn(T) -> u64,
    i: int,
    value: T,
) -> (j: int)
    requires
        before.wf(),
        after.wf(),
        after.grown_from(before, additional, hasher, alloc, table_layout),
        forall|v: T, h: u64| #[trigger] call_ensures(hasher, (&v,), h) ==> h == hash(v),
        before.holds(i, hash(value), value),
    ensures
        after.holds(j, hash(value), value),
{
    model::lemma_bag_take(before.data@, i);
    lemma_hashed_elements_are_reachable(after, hasher, hash, value)
}

/// If the hash of every element is given by a function of the element, then inserting an
/// element, even if the table grows for it, loses no other one.
pub proof fn lemma_insert_keeps_entries<T, A: Allocator, F: Fn(&T) -> u64>(
    before: &RawTable<T, A>,
    after: &RawTable<T, A>,
    i: int,
    value: T,
    hasher: &F,
    hash: spec_fn(T) -> u64,
    j: int,
    other: T,
) -> (k: int)
    requires
        before.wf(),
        after.inserted(before, i, hash(value), value, hasher),
        forall|v: T, h: u64| #[trigger] call_ensures(hasher, (&v,), h) ==> h == hash(v),
        before.holds(j, hash(other), other),
    ensures
        after.holds(k, hash(other), other),
        after.holds(i, hash(value), value),
        k != i,
{
    let grown = choose|grown: RawTableInner<T>|
        {
            &&& if before.table.is_out_of_room(hash(value)) {
                grown.grown_from(
                    &before.table,
                    1,
                    hasher,
                    &before.alloc,
                    layout::table_layout_of::<T>(),
                )
            } else {
                grown == before.table
            }
            &&& grown.wf()
            &&& model::is_insert_slot(grown.tags(), hash(value), i)
            &&& #[trigger] after.table.inserted_from(&grown, i, hash(value), value)
        };
    let k = if before.table.is_out_of_room(hash(value)) {
        lemma_growth_keeps_entries(
            &before.table,
            &grown,
            1,
            hasher,
            &before.alloc,
            layout::table_layout_of::<T>(),
            hash,
            j,
            other,
        )
    } else {
        j
    };
    lemma_insert_keeps_others(
        &grown,
        &after.table,
        i,
        hash(value),
        value,
        k,
        hash(other),
        other,
    );
    k
}

/// Iteration yields every element exactly once: the elements of the full buckets, in
/// the order in which an iterator visits them, are the elements of the table.
pub proof fn lemma_iteration_yields_elements<T>(table: &RawTableInner<T>)
    requires
        table.wf(),
    ensures
        drain::elements_at(table.data@, model::full_indices(table.tags())).to_multiset()
            == table.elements(),
        model::full_indices(table.tags()).no_duplicates(),
        forall|i: int| #[trigger]
            model::full_indices(table.tags()).contains(i) <==> table.is_full_at(i),
{
    let tags = table.tags();
    let p = |j: int| tags[j] is Full;
    let n = tags.len() as int;
    model::lemma_filter_members(p, 0, n);
    if table.bucket_mask > 0 {
        lemma_selected_elements(table.data@, p, n);
        assert(table.data@.take(n) =~= table.data@);
    } else {
        let indices = model::full_indices(tags);
        assert(indices.len() == 0) by {
            if indices.len() > 0 {
                assert(indices.contains(indices[0]));
            }
        }
        assert(drain::elements_at(table.data@, indices) =~= Seq::<T>::empty());
        Seq::<T>::empty().to_multiset_ensures();
        assert(Seq::<T>::empty().to_multiset() =~= Multiset::<T>::empty());
    }
}

/// The elements of the first `n` buckets are those at the indices that are occupied.
proof fn lemma_selected_elements<T>(data: Seq<Option<T>>, p: spec_fn(int) -> bool, n: int)
    requires
        0 <= n <= data.len(),
        forall|j: int| 0 <= j < n ==> (#[trigger] p(j) <==> data[j] is Some),
    ensures
        drain::elements_at(data, model::filter_range(p, 0, n)).to_multiset() == model::bag(
            data.take(n),
        ),
    decreases n,
{
    broadcast use vstd::multiset::group_multiset_axioms;

    let all = model::filter_range(p, 0, n);
    if n == 0 {
        assert(drain::elements_at(data, all) =~= Seq::<T>::empty());
        Seq::<T>::empty().to_multiset_ensures();
        assert(Seq::<T>::empty().to_multiset() =~= Multiset::<T>::empty());
    } else {
        let less = model::filter_range(p, 0, n - 1);
        lemma_selected_elements(data, p, n - 1);
        model::lemma_filter_split(p, 0, n - 1, n);
        reveal_with_fuel(model::filter_range, 2);
        assert(data.take(n).drop_last() =~= data.take(n - 1));
        assert(data.take(n).last() == data[n - 1]);
        if p(n - 1) {
            assert(all =~= less.push(n - 1));
            assert(drain::elements_at(data, all) =~= drain::elements_at(data, less).push(
                data[n - 1]->0,
            ));
            drain::elements_at(data, less).to_multiset_ensures();
        } else {
            assert(all =~= less);
        }
    }
}

/// A drain that is finished leaves an empty table with the same memory, and one that is
/// leaked leaves an empty table without memory.
pub proof fn lemma_drain_leaves_empty_table<T, A: Allocator>(
    before: &RawTable<T, A>,
    finished: &RawTable<T, A>,
    leaked: &RawTable<T, A>,
)
    requires
        before.wf(),
        finished.alloc == before.alloc,
        finished.table.is_cleared(),
        finished.table.bucket_mask == before.table.bucket_mask,
        finished.table.block == before.table.block,
        finished.table.ctrl_offset == before.table.ctrl_offset,
        leaked.table.is_new(),
        leaked.table.wf(),
    ensures
        finished.wf(),
        finished.elements() == Multiset::<T>::empty(),
        finished.table.growth_left == layout::capacity_of(before.table.n()),
        leaked.wf(),
        leaked.elements() == Multiset::<T>::empty(),
{
    assert(leaked.table.data@ =~= Seq::<Option<T>>::empty());
}

/// Of all the buckets that may hold an element of a hash, an iterator over them
/// returns each exactly once, so it returns every element that was inserted with it.
pub proof fn lemma_hash_iteration_is_complete<T>(
    table: &RawTableInner<T>,
    i: int,
    hash: u64,
    value: T,
)
    requires
        table.wf(),
        table.holds(i, hash, value),
    ensures
        iter_hash::candidate_ranks(table.tags(), hash).contains(
            model::rank(hash, table.n(), i),
        ),
        iter_hash::at_rank(hash, table.n(), model::rank(hash, table.n(), i)) == i,
        iter_hash::candidate_ranks(table.tags(), hash).no_duplicates(),
{
    table.lemma_entry_is_candidate(i, hash, value);
    iter_hash::lemma_candidate_ranks(table.tags(), hash);
}

/// A table smaller than a group has no deleted buckets.
pub proof fn lemma_small_tables_have_no_tombstones<T>(table: &RawTableInner<T>, i: int)
    requires
        table.wf(),
        table.n() < Group::WIDTH,
        0 <= i < table.n(),
    ensures
        table.tags()[i] != Tag::Deleted,
{
    if table.tags()[i] == Tag::Deleted {
        model::lemma_count_occurs(table.tags(), Kind::Deleted, i);
    }
}

/// The number of elements stays below the number of buckets.
pub proof fn lemma_load_factor<T>(table: &RawTableInner<T>)
    requires
        table.wf(),
    ensures
        table.items + table.growth_left <= layout::capacity_of(table.n()) < table.n(),
{
    storage::lemma_capacity_monotone(table.n(), table.n());
}

/// If an allocator grants just what it is asked for, as the default one does, a table has
/// just the buckets that its capacity calls for.
pub proof fn lemma_exact_allocators_give_exact_tables<T, A: Allocator>(
    table: &RawTableInner<T>,
    alloc: &A,
    capacity: usize,
    table_layout: TableLayout,
)
    requires
        capacity > 0,
        table.sized_for(alloc, capacity, table_layout),
        forall|layout: Layout, block: Block| #[trigger]
            allocator::granted(alloc, layout, block) ==> block.len_spec() == layout.size,
    ensures
        table.n() == layout::buckets_for(capacity, table_layout),
{
}

/// The default allocator grants just what it is asked for.
pub proof fn lemma_default_allocator_is_exact(layout: Layout, block: Block)
    requires
        allocator::granted(&Global, layout, block),
    ensures
        block.requested_spec() == layout,
        block.len_spec() == layout.size,
{
}

/// If an allocator grants nothing, no table gets memory.
pub proof fn lemma_refusing_allocators_give_no_tables<T, A: Allocator>(
    table: &RawTableInner<T>,
    alloc: &A,
    capacity: usize,
    table_layout: TableLayout,
)
    requires
        forall|layout: Layout, block: Block| !#[trigger]
            allocator::granted(alloc, layout, block),
        table.sized_for(alloc, capacity, table_layout),
    ensures
        capacity == 0,
        table.is_new(),
{
}

/// If neither the allocator nor the heap refuses, making room does not fail for want of
/// memory.
pub proof fn lemma_granted_memory_suffices<T, A: Allocator>(
    table: &RawTable<T, A>,
    additional: usize,
    layout: Layout,
)
    requires
        !allocator::refused(&table.alloc, layout),
        forall|buckets: usize| !#[trigger] storage::heap_refused::<T>(buckets),
    ensures
        !table.refused_layout(additional, layout),
{
}

/// A capacity that is far from the limits of the machine fits.
pub proof fn lemma_moderate_capacity_fits(capacity: usize, table_layout: TableLayout)
    requires
        table_layout.valid(),
        (table_layout.size + 1) * (4 * capacity + 16) + 2 * table_layout.ctrl_align + 16
            <= isize::MAX,
    ensures
        storage::capacity_fits(capacity, table_layout),
{
    if capacity > 0 {
        let size = table_layout.size as int;
        let b = layout::buckets_for(capacity, table_layout);
        layout::lemma_buckets_for(capacity, table_layout);
        assert(4 * capacity + 16 <= (size + 1) * (4 * capacity + 16)) by (nonlinear_arith)
            requires
                size >= 0,
        ;
        assert(is_pow2(8) && is_pow2(16)) by {
            reveal_with_fuel(is_pow2, 6);
        }
        if b > 4 * capacity + 16 {
            crate::math::lemma_pow2_half(b);
            crate::math::lemma_pow2_gap(8, b / 2);
            crate::math::lemma_pow2_divides(8, b / 2);
            layout::lemma_buckets_for_is_smallest(capacity, table_layout, b / 2);
        }
        assert(size * b + b <= (size + 1) * (4 * capacity + 16)) by (nonlinear_arith)
            requires
                size >= 0,
                0 <= b <= 4 * capacity + 16,
        ;
        assert(size * b >= 0) by (nonlinear_arith)
            requires
                size >= 0,
                b >= 0,
        ;
        crate::math::lemma_pow2_positive(table_layout.ctrl_align as int);
        layout::lemma_round_up(size * b, table_layout.ctrl_align as int);
    }
}

} // verus!
