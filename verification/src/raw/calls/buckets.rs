//! Calls that go by buckets and their indices.
use crate::allocator::Allocator;
use crate::control::Tag;
use crate::raw::bucket::Bucket;
use crate::raw::calls::memory;
use crate::raw::calls::order;
use crate::raw::model;
use crate::raw::storage;
use crate::raw::storage::RawTableInner;
use crate::raw::table::RawTable;
use vstd::prelude::*;

verus! {

/// Whether the `n` buckets of a table have sixteen occupied ones in a row, in which bucket `i`
/// is. A lookup may step over such a run.
pub open spec fn in_run(ctrl: Seq<Tag>, n: int, i: int) -> bool {
    n >= 16 && exists|s: int| 0 <= s < 16 && #[trigger] run_from(ctrl, n, i - s)
}

/// Whether sixteen buckets in a row, counted around the table, are occupied or deleted.
pub open spec fn run_from(ctrl: Seq<Tag>, n: int, start: int) -> bool {
    forall|b: int| 0 <= b < 16 ==> #[trigger] ctrl[(start + b) % n] != Tag::Empty
}

/// Runs of occupied buckets, in numbers.
pub proof fn lemma_runs_in_numbers(ctrl: Seq<Tag>, n: int, i: int, s: int)
    ensures
        run_from(ctrl, n, i) <==> forall|b: int|
            0 <= b < 16 ==> #[trigger] ctrl[(i + b) % n] != Tag::Empty,
        n < 16 ==> !in_run(ctrl, n, i),
        n >= 16 && 0 <= s < 16 && run_from(ctrl, n, i - s) ==> in_run(ctrl, n, i),
        in_run(ctrl, n, i) ==> exists|s: int| 0 <= s < 16 && #[trigger] run_from(ctrl, n, i - s),
{
}

/// The runs of a table.
pub proof fn lemma_run_of_table<T>(table: &RawTableInner<T>, i: int)
    requires
        table.ctrl_wf(),
        table.bucket_mask > 0,
    ensures
        in_run(table.ctrl@, table.n(), i) <==> storage::in_full_run(table.tags(), i),
{
    let n = table.n();
    assert forall|start: int|
        run_from(table.ctrl@, n, start) <==> #[trigger] storage::occupied_from(
            table.tags(),
            start,
        ) by {
        assert forall|b: int| 0 <= (start + b) % n < n && #[trigger] table.ctrl@[(start + b) % n]
            == table.tags()[(start + b) % n] by {
            vstd::arithmetic::div_mod::lemma_mod_bound(start + b, n);
        }
    }
    if in_run(table.ctrl@, n, i) {
        let s = choose|s: int| 0 <= s < 16 && #[trigger] run_from(table.ctrl@, n, i - s);
        assert(storage::occupied_from(table.tags(), i - s));
    }
    if storage::in_full_run(table.tags(), i) {
        let s = choose|s: int|
            0 <= s < 16 && #[trigger] storage::occupied_from(table.tags(), i - s);
        assert(run_from(table.ctrl@, n, i - s));
    }
}

/// What erasing leaves of a table, in plain terms.
pub proof fn lemma_erased<T>(before: &RawTableInner<T>, after: &RawTableInner<T>, i: int)
    requires
        before.wf(),
        after.wf(),
        before.is_full_at(i),
        after.erased_from(before, i),
    ensures
        after.data@ == before.data@.update(i, None),
        after.hashes == before.hashes,
        after.items == before.items - 1,
        after.bucket_mask == before.bucket_mask,
        after.block == before.block,
        after.growth_left == before.growth_left + if in_run(before.ctrl@, before.n(), i) {
            0int
        } else {
            1
        },
        forall|j: int|
            0 <= j < before.n() ==> #[trigger] after.ctrl@[j] == if j != i {
                before.ctrl@[j]
            } else if in_run(before.ctrl@, before.n(), i) {
                Tag::Deleted
            } else {
                Tag::Empty
            },
        before.elements() == after.elements().insert(before.data@[i]->0),
{
    lemma_run_of_table(before, i);
    after.lemma_erased_elements(before, i);
    assert forall|j: int| 0 <= j < before.n() implies #[trigger] after.ctrl@[j] == if j != i {
        before.ctrl@[j]
    } else if in_run(before.ctrl@, before.n(), i) {
        Tag::Deleted
    } else {
        Tag::Empty
    } by {
        assert(after.ctrl@[j] == after.tags()[j]);
        assert(before.ctrl@[j] == before.tags()[j]);
    }
}

/// `erase` empties the bucket, and leaves every other one as it is. The bucket can be used
/// again at no cost unless a lookup may step over it.
pub proof fn lemma_erase<T, A: Allocator>(
    before: RawTable<T, A>,
    item: Bucket<T>,
    i: int,
    after: RawTable<T, A>,
)
    requires
        before.wf(),
        0 <= i < before.table.data@.len(),
        before.table.data@[i] is Some,
        item.is_at(before.table.ctrl_offset as int, i),
        exists|m: &mut RawTable<T, A>|
            *m == before && *final(m) == after && #[trigger] call_ensures(
                RawTable::<T, A>::erase,
                (m, item),
                (),
            ),
    ensures
        after.wf(),
        after.alloc == before.alloc,
        after.table.data@ == before.table.data@.update(i, None),
        after.table.hashes == before.table.hashes,
        after.table.items == before.table.items - 1,
        after.table.bucket_mask == before.table.bucket_mask,
        after.table.block == before.table.block,
        after.table.growth_left == before.table.growth_left + if in_run(
            before.table.ctrl@,
            before.table.bucket_mask + 1,
            i,
        ) {
            0int
        } else {
            1
        },
        before.elements() == after.elements().insert(before.table.data@[i]->0),
{
    assert(before.table.tags()[i] is Full);
    assert(before.is_bucket(&item, i));
    lemma_erased(&before.table, &after.table, i);
}

/// `remove` takes the element out of the bucket, returns it with the index of the bucket, and
/// leaves every other one as it is.
pub proof fn lemma_remove<T, A: Allocator>(
    before: RawTable<T, A>,
    item: Bucket<T>,
    i: int,
    r: (T, usize),
    after: RawTable<T, A>,
)
    requires
        before.wf(),
        0 <= i < before.table.data@.len(),
        before.table.data@[i] is Some,
        item.is_at(before.table.ctrl_offset as int, i),
        exists|m: &mut RawTable<T, A>|
            *m == before && *final(m) == after && #[trigger] call_ensures(
                RawTable::<T, A>::remove,
                (m, item),
                r,
            ),
    ensures
        after.wf(),
        after.alloc == before.alloc,
        r.1 == i,
        before.table.data@[i] == Some(r.0),
        after.table.data@ == before.table.data@.update(i, None),
        after.table.hashes == before.table.hashes,
        after.table.items == before.table.items - 1,
        after.table.bucket_mask == before.table.bucket_mask,
        after.table.block == before.table.block,
        after.table.growth_left == before.table.growth_left + if in_run(
            before.table.ctrl@,
            before.table.bucket_mask + 1,
            i,
        ) {
            0int
        } else {
            1
        },
        before.elements() == after.elements().insert(r.0),
{
    assert(before.table.tags()[i] is Full);
    assert(before.is_bucket(&item, i));
    before.lemma_bucket_unique(&item, i, r.1 as int);
    lemma_erased(&before.table, &after.table, i);
}

/// `remove_tagged` takes the element out of the bucket, returns it with the index and the tag
/// of the bucket, and leaves every other one as it is.
pub proof fn lemma_remove_tagged<T, A: Allocator>(
    before: RawTable<T, A>,
    item: Bucket<T>,
    i: int,
    r: (T, usize, Tag),
    after: RawTable<T, A>,
)
    requires
        before.wf(),
        0 <= i < before.table.data@.len(),
        before.table.data@[i] is Some,
        item.is_at(before.table.ctrl_offset as int, i),
        exists|m: &mut RawTable<T, A>|
            *m == before && *final(m) == after && #[trigger] call_ensures(
                RawTable::<T, A>::remove_tagged,
                (m, item),
                r,
            ),
    ensures
        after.wf(),
        after.alloc == before.alloc,
        r.1 == i,
        r.2 == before.table.ctrl@[i],
        before.table.data@[i] == Some(r.0),
        after.table.data@ == before.table.data@.update(i, None),
        after.table.hashes == before.table.hashes,
        after.table.items == before.table.items - 1,
        after.table.bucket_mask == before.table.bucket_mask,
        after.table.block == before.table.block,
        after.table.growth_left == before.table.growth_left + if in_run(
            before.table.ctrl@,
            before.table.bucket_mask + 1,
            i,
        ) {
            0int
        } else {
            1
        },
        before.elements() == after.elements().insert(r.0),
{
    assert(before.table.tags()[i] is Full);
    assert(before.is_bucket(&item, i));
    before.lemma_bucket_unique(&item, i, r.1 as int);
    lemma_erased(&before.table, &after.table, i);
}

/// Putting a removed element back with its tag restores the table: every bucket, its tag and
/// the counters are as before, and so is the hash of the element.
pub proof fn lemma_reinsertion_restores<T, A: Allocator>(
    before: RawTable<T, A>,
    item: Bucket<T>,
    i: int,
    removed: (T, usize, Tag),
    between: RawTable<T, A>,
    r: Bucket<T>,
    after: RawTable<T, A>,
)
    requires
        before.wf(),
        0 <= i < before.table.data@.len(),
        before.table.data@[i] is Some,
        item.is_at(before.table.ctrl_offset as int, i),
        exists|m: &mut RawTable<T, A>|
            *m == before && *final(m) == between && #[trigger] call_ensures(
                RawTable::<T, A>::remove_tagged,
                (m, item),
                removed,
            ),
        exists|m: &mut RawTable<T, A>|
            *m == between && *final(m) == after && #[trigger] call_ensures(
                RawTable::<T, A>::insert_tagged_at_index,
                (m, removed.2, removed.1, removed.0),
                r,
            ),
    ensures
        after.wf(),
        after.alloc == before.alloc,
        after.table.data@ == before.table.data@,
        after.table.hashes@ == before.table.hashes@,
        after.table.items == before.table.items,
        after.table.growth_left == before.table.growth_left,
        after.table.bucket_mask == before.table.bucket_mask,
        after.table.block == before.table.block,
        forall|j: int|
            0 <= j <= before.table.bucket_mask ==> #[trigger] after.table.ctrl@[j]
                == before.table.ctrl@[j],
        after.elements() == before.elements(),
        r.is_at(after.table.ctrl_offset as int, i),
{
    lemma_remove_tagged(before, item, i, removed, between);
    let hash = before.table.hashes@[i];
    assert(before.table.tags()[i] is Full);
    assert(between.table.erased_from(&before.table, i));
    crate::raw::laws::lemma_freed_slot_accepts(&before.table, &between.table, i);
    assert(after.table.inserted_from(&between.table, i, hash, removed.0));
    crate::raw::laws::lemma_reinsert_undoes_remove(
        &before.table,
        &between.table,
        &after.table,
        i,
        hash,
    );
    assert forall|j: int| 0 <= j <= before.table.bucket_mask implies #[trigger] after.table.ctrl@[j]
        == before.table.ctrl@[j] by {
        assert(after.table.ctrl@[j] == after.table.tags()[j]);
        assert(before.table.ctrl@[j] == before.table.tags()[j]);
    }
}

/// `insert_at_index` puts the element into the bucket at the index, under its hash, and leaves
/// every other one as it is.
pub proof fn lemma_insert_at_index<T, A: Allocator>(
    before: RawTable<T, A>,
    hash: u64,
    index: usize,
    value: T,
    r: Bucket<T>,
    after: RawTable<T, A>,
)
    requires
        before.wf(),
        exists|m: &mut RawTable<T, A>|
            *m == before && *final(m) == after && #[trigger] call_ensures(
                RawTable::<T, A>::insert_at_index,
                (m, hash, index, value),
                r,
            ),
    ensures
        after.wf(),
        after.alloc == before.alloc,
        r.is_at(after.table.ctrl_offset as int, index as int),
        after.table.data@ == before.table.data@.update(index as int, Some(value)),
        after.table.hashes@ == before.table.hashes@.update(index as int, hash),
        after.table.items == before.table.items + 1,
        after.table.bucket_mask == before.table.bucket_mask,
        after.table.block == before.table.block,
        before.table.growth_left - 1 <= after.table.growth_left <= before.table.growth_left,
        after.elements() == before.elements().insert(value),
{
}

/// `find_or_find_insert_index` returns the bucket of an element that `eq` accepts, or, after
/// `eq` has rejected every element that is held under the hash, the index of the first free
/// bucket in the probe order. It keeps the elements, leaves room for one more, and does not
/// touch a table that has it.
pub proof fn lemma_find_or_find_insert_index<
    T,
    A: Allocator,
    F: Fn(&T) -> bool,
    G: Fn(&T) -> u64,
>(
    before: RawTable<T, A>,
    hash: u64,
    eq: F,
    hasher: G,
    r: Result<Bucket<T>, usize>,
    after: RawTable<T, A>,
)
    requires
        memory::addressable::<T>(),
        before.wf(),
        exists|m: &mut RawTable<T, A>|
            *m == before && *final(m) == after && #[trigger] call_ensures(
                RawTable::<T, A>::find_or_find_insert_index,
                (m, hash, eq, hasher),
                r,
            ),
    ensures
        after.wf(),
        after.alloc == before.alloc,
        after.elements() == before.elements(),
        after.table.items == before.table.items,
        after.table.growth_left >= 1,
        before.table.growth_left >= 1 ==> after == before,
        before.table.growth_left == 0 && before.alloc.is_exact() ==> {
            let full = memory::room(before.table.bucket_mask + 1);
            if before.table.items + 1 <= full / 2 {
                after.table.bucket_mask == before.table.bucket_mask
            } else {
                memory::fits_tightly::<T>(full + 1, after.table.bucket_mask + 1)
            }
        },
        r matches Ok(bucket) ==> exists|i: int|
            {
                &&& 0 <= i < after.table.data@.len()
                &&& #[trigger] bucket.is_at(after.table.ctrl_offset as int, i)
                &&& after.table.data@[i] is Some
                &&& call_ensures(&eq, (&after.table.data@[i]->0,), true)
            },
        r matches Err(index) ==> {
            &&& index < after.table.data@.len()
            &&& after.table.data@[index as int] is None
            &&& forall|i: int|
                0 <= i < after.table.data@.len() && #[trigger] after.table.data@[i] is Some
                    && after.table.hashes@[i] == hash ==> call_ensures(
                    &eq,
                    (&after.table.data@[i]->0,),
                    false,
                )
        },
{
    let n = before.table.n();
    memory::lemma_plain_sizes::<T>(n);
    crate::raw::laws::lemma_load_factor(&before.table);
    let need = crate::raw::growth::grown_capacity(before.table.items as int, 1, n);
    memory::lemma_chosen_is_tight::<T>(need as usize);
    match r {
        Ok(bucket) => {
            let i = choose|i: int| #[trigger]
                after.is_bucket(&bucket, i) && after.table.picks(hash, &eq, i);
            assert(bucket.is_at(after.table.ctrl_offset as int, i));
        },
        Err(index) => {
            assert forall|i: int|
                0 <= i < after.table.data@.len() && #[trigger] after.table.data@[i] is Some
                    && after.table.hashes@[i] == hash implies call_ensures(
                &eq,
                (&after.table.data@[i]->0,),
                false,
            ) by {
                assert(after.table.tags()[i] is Full);
                after.table.lemma_entry_is_candidate(i, hash, after.table.data@[i]->0);
            }
        },
    }
}

/// An index from `find_or_find_insert_index` is that of the first free bucket in the probe
/// order.
pub proof fn lemma_insert_index_is_the_first_free_bucket<
    T,
    A: Allocator,
    F: Fn(&T) -> bool,
    G: Fn(&T) -> u64,
>(
    before: RawTable<T, A>,
    hash: u64,
    eq: F,
    hasher: G,
    index: usize,
    after: RawTable<T, A>,
) -> (place: (int, int))
    requires
        before.wf(),
        exists|m: &mut RawTable<T, A>|
            *m == before && *final(m) == after && #[trigger] call_ensures(
                RawTable::<T, A>::find_or_find_insert_index,
                (m, hash, eq, hasher),
                Err(index),
            ),
    ensures
        ({
            let n = after.table.bucket_mask + 1;
            &&& order::in_probe(n, place.0, place.1)
            &&& index == order::tried(hash, n, place.0, place.1)
            &&& forall|k: int, b: int|
                order::in_probe(n, k, b) && (k < place.0 || k == place.0 && b < place.1)
                    ==> after.table.data@[#[trigger] order::tried(hash, n, k, b)] is Some
        }),
        // It may be used to insert there.
        forall|m: &mut RawTable<T, A>, value: T|
            *m == after ==> #[trigger] call_requires(
                RawTable::<T, A>::insert_at_index,
                (m, hash, index, value),
            ),
{
    order::lemma_first_free(&after.table, hash, index as int)
}

/// `insert_entry` puts the element into a bucket under its hash and returns a reference to it;
/// what is written through the reference is what the bucket holds.
pub proof fn lemma_insert_entry<T, A: Allocator, F: Fn(&T) -> u64>(
    before: RawTable<T, A>,
    hash: u64,
    value: T,
    hasher: F,
    r: &mut T,
    after: RawTable<T, A>,
)
    requires
        memory::addressable::<T>(),
        before.wf(),
        exists|m: &mut RawTable<T, A>|
            *m == before && *final(m) == after && #[trigger] call_ensures(
                RawTable::<T, A>::insert_entry,
                (m, hash, value, hasher),
                r,
            ),
    ensures
        *old(r) == value,
        after.wf(),
        after.alloc == before.alloc,
        after.table.items == before.table.items + 1,
        after.elements() == before.elements().insert(*final(r)),
        before.alloc.is_exact() && after.table.bucket_mask != before.table.bucket_mask ==> {
            let full = memory::room(before.table.bucket_mask + 1);
            &&& before.table.growth_left == 0
            &&& before.table.items + 1 > full / 2
            &&& memory::fits_tightly::<T>(full + 1, after.table.bucket_mask + 1)
        },
        exists|i: int|
            {
                &&& 0 <= i < after.table.data@.len()
                &&& #[trigger] after.table.data@[i] == Some(*final(r))
                &&& after.table.hashes@[i] == hash
                &&& before.table.growth_left > 0 ==> {
                    &&& after.table.bucket_mask == before.table.bucket_mask
                    &&& before.table.data@[i] is None
                    &&& after.table.data@ == before.table.data@.update(i, Some(*final(r)))
                }
            },
{
    let v = *final(r);
    let n = before.table.n();
    memory::lemma_plain_sizes::<T>(n);
    crate::raw::laws::lemma_load_factor(&before.table);
    let need = crate::raw::growth::grown_capacity(before.table.items as int, 1, n);
    memory::lemma_chosen_is_tight::<T>(need as usize);
    let i = choose|i: int| #[trigger]
        after.holds(i, hash, v) && exists|grown: RawTableInner<T>|
            {
                &&& if before.table.is_out_of_room(hash) {
                    grown.grown_from(
                        &before.table,
                        1,
                        &hasher,
                        &before.alloc,
                        crate::raw::layout::table_layout_of::<T>(),
                    )
                } else {
                    grown == before.table
                }
                &&& grown.wf()
                &&& model::is_insert_slot(grown.tags(), hash, i)
                &&& #[trigger] after.table.inserted_from(&grown, i, hash, v)
            };
    assert(after.table.data@[i] == Some(v));
}

/// `replace_bucket_with` hands the element of the bucket to the function. If that returns one,
/// it takes the place of the element, and nothing else changes; if not, the bucket is emptied,
/// and its tag is returned.
pub proof fn lemma_replace_bucket_with<T, A: Allocator, F: FnOnce(T) -> Option<T>>(
    before: RawTable<T, A>,
    bucket: Bucket<T>,
    i: int,
    f: F,
    r: Option<Tag>,
    after: RawTable<T, A>,
)
    requires
        before.wf(),
        0 <= i < before.table.data@.len(),
        before.table.data@[i] is Some,
        bucket.is_at(before.table.ctrl_offset as int, i),
        exists|m: &mut RawTable<T, A>|
            *m == before && *final(m) == after && #[trigger] call_ensures(
                RawTable::<T, A>::replace_bucket_with::<F>,
                (m, bucket, f),
                r,
            ),
    ensures
        after.wf(),
        after.alloc == before.alloc,
        after.table.bucket_mask == before.table.bucket_mask,
        after.table.block == before.table.block,
        after.table.hashes == before.table.hashes,
        after.table.data@.len() == before.table.data@.len(),
        forall|j: int|
            0 <= j < before.table.data@.len() && j != i ==> #[trigger] after.table.data@[j]
                == before.table.data@[j],
        call_ensures(f, (before.table.data@[i]->0,), after.table.data@[i]),
        r is None <==> after.table.data@[i] is Some,
        r is None ==> after.table.items == before.table.items && after.table.growth_left
            == before.table.growth_left,
        r matches Some(tag) ==> {
            &&& tag == before.table.ctrl@[i]
            &&& after.table.items == before.table.items - 1
            &&& after.table.growth_left == before.table.growth_left + if in_run(
                before.table.ctrl@,
                before.table.bucket_mask + 1,
                i,
            ) {
                0int
            } else {
                1
            }
        },
{
    assert(before.table.tags()[i] is Full);
    assert(before.is_bucket(&bucket, i));
    assert forall|j: int| #[trigger] before.is_bucket(&bucket, j) implies j == i by {
        before.lemma_bucket_unique(&bucket, i, j);
    }
    if r is Some {
        lemma_erased(&before.table, &after.table, i);
    }
}

/// What a bucket is said to hold is what it holds: `is_bucket_full`, `get_bucket` and
/// `checked_bucket` agree with the buckets, and know nothing beyond the last one.
pub proof fn lemma_bucket_contents<T, A: Allocator>(
    table: &RawTable<T, A>,
    index: usize,
    full: bool,
    held: Option<&T>,
    checked: Option<Bucket<T>>,
)
    requires
        table.wf(),
        index <= table.table.bucket_mask ==> call_ensures(
            RawTable::<T, A>::is_bucket_full,
            (table, index),
            full,
        ),
        call_ensures(RawTable::<T, A>::get_bucket, (table, index), held),
        call_ensures(RawTable::<T, A>::checked_bucket, (table, index), checked),
    ensures
        index < table.table.data@.len() ==> {
            &&& full == (table.table.data@[index as int] is Some)
            &&& (match held {
                Some(value) => table.table.data@[index as int] == Some(*value),
                None => table.table.data@[index as int] is None,
            })
            &&& (match checked {
                Some(bucket) => table.table.data@[index as int] is Some && bucket.is_at(
                    table.table.ctrl_offset as int,
                    index as int,
                ),
                None => table.table.data@[index as int] is None,
            })
        },
        index >= table.table.data@.len() ==> held is None && checked is None,
        table.table.data@.len() == if table.table.bucket_mask == 0 {
            0
        } else {
            table.table.bucket_mask + 1
        },
{
    if index < table.table.data@.len() {
        assert(table.table.data@[index as int] is Some <==> table.table.tags()[index as int] is Full);
    }
}

/// `get_bucket_mut` lends what the bucket holds; what is written goes there, and nothing else
/// changes.
pub proof fn lemma_get_bucket_mut<T, A: Allocator>(
    before: RawTable<T, A>,
    index: usize,
    r: Option<&mut T>,
    after: RawTable<T, A>,
)
    requires
        before.wf(),
        exists|m: &mut RawTable<T, A>|
            *m == before && *final(m) == after && #[trigger] call_ensures(
                RawTable::<T, A>::get_bucket_mut,
                (m, index),
                r,
            ),
    ensures
        after.wf(),
        after.alloc == before.alloc,
        after.table.bucket_mask == before.table.bucket_mask,
        after.table.items == before.table.items,
        after.table.growth_left == before.table.growth_left,
        after.table.hashes == before.table.hashes,
        r is Some <==> index < before.table.data@.len() && before.table.data@[index as int] is Some,
        match r {
            Some(value) => {
                &&& before.table.data@[index as int] == Some(*value)
                &&& after.table.data@ == before.table.data@.update(
                    index as int,
                    Some(*final(value)),
                )
            },
            None => after.table.data@ == before.table.data@,
        },
{
    if index < before.table.data@.len() {
        assert(before.table.data@[index as int] is Some
            <==> before.table.tags()[index as int] is Full);
    }
}

/// The index of the bucket at an index is that index, and the bucket gives its element.
pub proof fn lemma_bucket_and_index<T, A: Allocator>(
    table: &RawTable<T, A>,
    index: usize,
    bucket: Bucket<T>,
    r: usize,
    value: &T,
)
    requires
        table.wf(),
        index < table.table.data@.len(),
        call_ensures(RawTable::<T, A>::bucket, (table, index), bucket),
        call_ensures(RawTable::<T, A>::bucket_index, (table, &bucket), r),
        table.table.data@[index as int] is Some ==> call_ensures(
            Bucket::<T>::as_ref,
            (&bucket, &table.table),
            value,
        ),
    ensures
        r == index,
        table.table.data@[index as int] is Some ==> table.table.data@[index as int] == Some(
            *value,
        ),
        bucket.is_at(table.table.ctrl_offset as int, index as int),
{
    table.lemma_bucket_unique(&bucket, index as int, r as int);
}


/// `insert_tagged_at_index` puts the element into the bucket at the index, with the given tag,
/// and leaves every other one as it is.
pub proof fn lemma_insert_tagged_at_index<T, A: Allocator>(
    before: RawTable<T, A>,
    tag: Tag,
    index: usize,
    value: T,
    r: Bucket<T>,
    after: RawTable<T, A>,
)
    requires
        before.wf(),
        exists|m: &mut RawTable<T, A>|
            *m == before && *final(m) == after && #[trigger] call_ensures(
                RawTable::<T, A>::insert_tagged_at_index,
                (m, tag, index, value),
                r,
            ),
    ensures
        after.wf(),
        after.alloc == before.alloc,
        r.is_at(after.table.ctrl_offset as int, index as int),
        index < before.table.data@.len(),
        before.table.data@[index as int] is None,
        after.table.data@ == before.table.data@.update(index as int, Some(value)),
        after.table.ctrl@[index as int] == tag,
        after.table.items == before.table.items + 1,
        after.table.bucket_mask == before.table.bucket_mask,
        after.table.block == before.table.block,
        after.table.growth_left == before.table.growth_left - if before.table.ctrl@[index as int]
            == Tag::Empty {
            1int
        } else {
            0
        },
        after.elements() == before.elements().insert(value),
        forall|j: int|
            0 <= j < before.table.data@.len() && j != index ==> #[trigger] after.table.hashes@[j]
                == before.table.hashes@[j],
{
    let hash = choose|hash: u64|
        {
            &&& #[trigger] before.table.accepts(hash, index as int)
            &&& tag == Tag::Full(crate::control::h2(hash))
            &&& after.table.inserted_from(&before.table, index as int, hash, value)
        };
    assert(before.table.bucket_mask > 0) by {
        assert(before.table.tags()[index as int] == Tag::Empty || before.table.tags()[index as int]
            == Tag::Deleted);
    }
    assert(before.table.ctrl@[index as int] == before.table.tags()[index as int]);
    assert(after.table.ctrl@[index as int] == after.table.tags()[index as int]);
}

} // verus!
