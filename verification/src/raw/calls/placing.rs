//! Where the elements of a table go when it gets another number of buckets.
use crate::allocator::Allocator;
use crate::control::Tag;
use crate::raw::bucket::Bucket;
use crate::raw::calls::iteration;
use crate::raw::calls::memory;
use crate::raw::calls::order;
use crate::raw::growth::GrowthError;
use crate::raw::layout::Fallibility;
use crate::raw::model;
use crate::raw::model::Kind;
use crate::raw::storage::RawTableInner;
use crate::raw::table::RawTable;
use vstd::prelude::*;

verus! {

/// What is filled in order has been filled in order so far.
proof fn lemma_filled_so_far(n: int, entries: Seq<(u64, int)>, k: int)
    requires
        model::fills_in_order(n, entries),
        0 <= k <= entries.len(),
    ensures
        model::fills_in_order(n, entries.take(k)),
        k < entries.len() ==> model::is_insert_slot(
            model::filled(n, entries.take(k)),
            entries[k].0,
            entries[k].1,
        ),
        k > 0 ==> model::filled(n, entries.take(k)) == model::filled(
            n,
            entries.take(k - 1),
        ).update(entries[k - 1].1, Tag::Full(crate::control::h2(entries[k - 1].0))),
    decreases entries.len(),
{
    if k == entries.len() {
        assert(entries.take(k) =~= entries);
        if k > 0 {
            assert(entries.drop_last() =~= entries.take(k - 1));
        }
    } else {
        lemma_filled_so_far(n, entries.drop_last(), k);
        assert(entries.drop_last().take(k) =~= entries.take(k));
        if k > 0 {
            assert(entries.drop_last().take(k - 1) =~= entries.take(k - 1));
        }
        if k == entries.len() - 1 {
            assert(entries.drop_last() =~= entries.take(k));
        }
    }
}

/// A full bucket of what is filled was filled by one of the entries.
proof fn lemma_filled_by(n: int, entries: Seq<(u64, int)>, p: int) -> (j: int)
    requires
        model::fills_in_order(n, entries),
        0 <= p < model::filled(n, entries).len(),
        model::filled(n, entries)[p] is Full,
    ensures
        0 <= j < entries.len(),
        entries[j].1 == p,
    decreases entries.len(),
{
    if entries.len() == 0 {
        0
    } else if entries.last().1 == p {
        entries.len() - 1
    } else {
        lemma_filled_by(n, entries.drop_last(), p)
    }
}

/// The table after `k` of the elements were inserted one by one.
proof fn lemma_inserted_so_far<T, A: Allocator>(
    n: int,
    entries: Seq<(u64, int)>,
    values: Seq<T>,
    steps: Seq<&mut RawTable<T, A>>,
    tables: Seq<RawTable<T, A>>,
    slots: Seq<Bucket<T>>,
    k: int,
)
    requires
        model::fills_in_order(n, entries),
        values.len() == entries.len(),
        steps.len() == values.len(),
        slots.len() == values.len(),
        tables.len() == values.len() + 1,
        tables[0].wf(),
        tables[0].table.n() == n,
        n > 1,
        tables[0].table.tags() == model::filled(n, Seq::empty()),
        forall|j: int|
            #![trigger steps[j]]
            0 <= j < values.len() ==> {
                &&& *steps[j] == tables[j]
                &&& *final(steps[j]) == tables[j + 1]
                &&& call_ensures(
                    RawTable::<T, A>::insert_no_grow,
                    (steps[j], entries[j].0, values[j]),
                    slots[j],
                )
            },
        0 <= k <= values.len(),
    ensures
        tables[k].wf(),
        tables[k].table.n() == n,
        tables[k].table.tags() == model::filled(n, entries.take(k)),
        forall|j: int|
            #![trigger entries[j]]
            0 <= j < k ==> {
                &&& 0 <= entries[j].1 < n
                &&& tables[k].table.tags()[entries[j].1] is Full
                &&& tables[k].table.data@[entries[j].1] == Some(values[j])
                &&& tables[k].table.hashes@[entries[j].1] == entries[j].0
            },
    decreases k,
{
    if k > 0 {
        lemma_inserted_so_far(n, entries, values, steps, tables, slots, k - 1);
        lemma_filled_so_far(n, entries, k - 1);
        lemma_filled_so_far(n, entries, k);
        let j = k - 1;
        let before = tables[j];
        let after = tables[k];
        let step = steps[j];
        let slot = slots[j];
        let hash = entries[j].0;
        let i = choose|i: int|
            {
                &&& #[trigger] model::is_insert_slot(before.table.tags(), hash, i)
                &&& after.is_bucket(&slot, i)
                &&& after.table.inserted_from(&before.table, i, hash, values[j])
            };
        model::lemma_insert_slot_unique(before.table.tags(), hash, i, entries[j].1);
    } else {
        assert(entries.take(0) =~= Seq::<(u64, int)>::empty());
    }
}

/// Refilling a table puts the elements where inserting them one by one does.
proof fn lemma_refilling_is_inserting<T, A: Allocator, F: Fn(&T) -> u64>(
    before: &RawTableInner<T>,
    after: &RawTableInner<T>,
    hasher: &F,
    hash_of: spec_fn(T) -> u64,
    values: Seq<T>,
    steps: Seq<&mut RawTable<T, A>>,
    tables: Seq<RawTable<T, A>>,
    slots: Seq<Bucket<T>>,
)
    requires
        memory::addressable::<T>(),
        before.wf(),
        after.wf(),
        after.bucket_mask > 0,
        after.refilled_from(before),
        after.hashed_with(hasher),
        forall|v: T, h: u64| #[trigger] call_ensures(hasher, (&v,), h) ==> h == hash_of(v),
        values == before.data@.filter(|held: Option<T>| held is Some).map_values(
            |held: Option<T>| held->0,
        ),
        steps.len() == values.len(),
        slots.len() == values.len(),
        tables.len() == values.len() + 1,
        tables[0].wf(),
        tables[0].table.bucket_mask == after.bucket_mask,
        tables[0].table.items == 0,
        tables[0].table.growth_left == memory::room(after.bucket_mask + 1),
        forall|j: int|
            #![trigger steps[j]]
            0 <= j < values.len() ==> {
                &&& *steps[j] == tables[j]
                &&& *final(steps[j]) == tables[j + 1]
                &&& call_ensures(
                    RawTable::<T, A>::insert_no_grow,
                    (steps[j], hash_of(values[j]), values[j]),
                    slots[j],
                )
            },
    ensures
        tables.last().table.data@ == after.data@,
{
    let n = after.n();
    let from = model::full_indices(before.tags());
    let entries = choose|entries: Seq<(u64, int)>| #[trigger] after.refilled_by(before, entries);
    iteration::lemma_full_are_occupied(before);
    iteration::lemma_elements_in_order(before);
    assert(values =~= crate::raw::drain::elements_at(before.data@, from));
    memory::lemma_plain_sizes::<T>(n);
    // The first table has neither full nor deleted buckets.
    let empty = tables[0].table;
    assert(empty.tags() =~= model::filled(n, Seq::empty())) by {
        assert forall|p: int| 0 <= p < n implies #[trigger] empty.tags()[p] == Tag::Empty by {
            if empty.tags()[p] is Full {
                model::lemma_count_occurs(empty.tags(), Kind::Full, p);
            } else if empty.tags()[p] == Tag::Deleted {
                model::lemma_count_occurs(empty.tags(), Kind::Deleted, p);
            }
        }
    }
    assert forall|k: int| 0 <= k < entries.len() implies (#[trigger] entries[k]).0 == hash_of(
        values[k],
    ) by {
        let p = entries[k].1;
        lemma_filled_so_far(n, entries, k);
        lemma_filled_range(n, entries.take(k));
        assert(after.data@[p] == before.data@[from[k]]);
        assert(after.tags()[p] is Full);
        assert(after.is_full_at(p));
        assert(values[k] == before.data@[from[k]]->0);
    }
    lemma_inserted_so_far(n, entries, values, steps, tables, slots, values.len() as int);
    assert(entries.take(values.len() as int) =~= entries);
    let last = tables.last().table;
    assert forall|p: int| 0 <= p < n implies last.data@[p] == after.data@[p] by {
        if after.tags()[p] is Full {
            let j = lemma_filled_by(n, entries, p);
            assert(values[j] == before.data@[from[j]]->0);
            assert(entries[j].1 == p);
        } else {
            assert(after.data@[p] is None);
            assert(last.data@[p] is None);
        }
    }
    assert(last.data@ =~= after.data@);
}

/// As many buckets are filled as there are.
proof fn lemma_filled_range(n: int, entries: Seq<(u64, int)>)
    requires
        n >= 0,
        model::fills_in_order(n, entries),
    ensures
        model::filled(n, entries).len() == n,
    decreases entries.len(),
{
    if entries.len() > 0 {
        lemma_filled_range(n, entries.drop_last());
    }
}

/// A table that grows puts its elements where inserting them one by one, in the order of its
/// buckets, into a table that holds nothing and has as many buckets does.
pub proof fn lemma_growing_is_inserting<T, A: Allocator, F: Fn(&T) -> u64>(
    before: RawTable<T, A>,
    additional: usize,
    hasher: F,
    after: RawTable<T, A>,
    hash_of: spec_fn(T) -> u64,
    values: Seq<T>,
    steps: Seq<&mut RawTable<T, A>>,
    tables: Seq<RawTable<T, A>>,
    slots: Seq<Bucket<T>>,
)
    requires
        memory::addressable::<T>(),
        before.wf(),
        exists|m: &mut RawTable<T, A>|
            *m == before && *final(m) == after && #[trigger] call_ensures(
                RawTable::<T, A>::try_reserve,
                (m, additional, hasher),
                Ok(()),
            ),
        additional > before.table.growth_left,
        before.table.items + additional > memory::room(before.table.bucket_mask + 1) / 2,
        forall|v: T, h: u64| #[trigger] call_ensures(&hasher, (&v,), h) ==> h == hash_of(v),
        values == before.table.data@.filter(|held: Option<T>| held is Some).map_values(
            |held: Option<T>| held->0,
        ),
        steps.len() == values.len(),
        slots.len() == values.len(),
        tables.len() == values.len() + 1,
        tables[0].wf(),
        tables[0].table.bucket_mask == after.table.bucket_mask,
        tables[0].table.items == 0,
        tables[0].table.growth_left == memory::room(after.table.bucket_mask + 1),
        forall|j: int|
            #![trigger steps[j]]
            0 <= j < values.len() ==> {
                &&& *steps[j] == tables[j]
                &&& *final(steps[j]) == tables[j + 1]
                &&& call_ensures(
                    RawTable::<T, A>::insert_no_grow,
                    (steps[j], hash_of(values[j]), values[j]),
                    slots[j],
                )
            },
    ensures
        tables.last().table.data@ == after.table.data@,
{
    memory::lemma_plain_sizes::<T>(before.table.n());
    lemma_refilling_is_inserting(
        &before.table,
        &after.table,
        &hasher,
        hash_of,
        values,
        steps,
        tables,
        slots,
    );
}

/// A table that shrinks puts its elements where inserting them one by one, in the order of its
/// buckets, into a table that holds nothing and has as many buckets does.
pub proof fn lemma_shrinking_is_inserting<T, A: Allocator, F: Fn(&T) -> u64>(
    before: RawTable<T, A>,
    min_size: usize,
    hasher: F,
    after: RawTable<T, A>,
    hash_of: spec_fn(T) -> u64,
    values: Seq<T>,
    steps: Seq<&mut RawTable<T, A>>,
    tables: Seq<RawTable<T, A>>,
    slots: Seq<Bucket<T>>,
)
    requires
        memory::addressable::<T>(),
        before.wf(),
        exists|m: &mut RawTable<T, A>|
            *m == before && *final(m) == after && #[trigger] call_ensures(
                RawTable::<T, A>::shrink_to,
                (m, min_size, hasher),
                (),
            ),
        after != before,
        after.table.bucket_mask > 0,
        forall|v: T, h: u64| #[trigger] call_ensures(&hasher, (&v,), h) ==> h == hash_of(v),
        values == before.table.data@.filter(|held: Option<T>| held is Some).map_values(
            |held: Option<T>| held->0,
        ),
        steps.len() == values.len(),
        slots.len() == values.len(),
        tables.len() == values.len() + 1,
        tables[0].wf(),
        tables[0].table.bucket_mask == after.table.bucket_mask,
        tables[0].table.items == 0,
        tables[0].table.growth_left == memory::room(after.table.bucket_mask + 1),
        forall|j: int|
            #![trigger steps[j]]
            0 <= j < values.len() ==> {
                &&& *steps[j] == tables[j]
                &&& *final(steps[j]) == tables[j + 1]
                &&& call_ensures(
                    RawTable::<T, A>::insert_no_grow,
                    (steps[j], hash_of(values[j]), values[j]),
                    slots[j],
                )
            },
    ensures
        tables.last().table.data@ == after.table.data@,
{
    lemma_refilling_is_inserting(
        &before.table,
        &after.table,
        &hasher,
        hash_of,
        values,
        steps,
        tables,
        slots,
    );
}


/// After a table has made room, every element is in the first group of its probe order that has
/// room for it: the buckets of all earlier groups are occupied.
pub proof fn lemma_made_room_leaves_elements_early<T, A: Allocator, F: Fn(&T) -> u64>(
    before: RawTable<T, A>,
    additional: usize,
    hasher: F,
    after: RawTable<T, A>,
    i: int,
) -> (place: (int, int))
    requires
        memory::addressable::<T>(),
        before.wf(),
        exists|m: &mut RawTable<T, A>|
            *m == before && *final(m) == after && #[trigger] call_ensures(
                RawTable::<T, A>::try_reserve,
                (m, additional, hasher),
                Ok(()),
            ),
        additional > before.table.growth_left,
        0 <= i < after.table.data@.len(),
        after.table.data@[i] is Some,
    ensures
        call_ensures(&hasher, (&after.table.data@[i]->0,), after.table.hashes@[i]),
        ({
            let n = after.table.bucket_mask + 1;
            let hash = after.table.hashes@[i];
            &&& order::in_probe(n, place.0, place.1)
            &&& i == order::tried(hash, n, place.0, place.1)
            &&& forall|k: int, b: int|
                order::in_probe(n, k, b) && k < place.0 ==> after.table.data@[
                #[trigger] order::tried(hash, n, k, b)] is Some
        }),
{
    let table = after.table;
    let n = table.n();
    let hash = table.hashes@[i];
    assert(table.tags()[i] is Full);
    assert(table.is_full_at(i));
    let place = order::lemma_place(hash, n, i);
    assert forall|k: int, b: int| order::in_probe(n, k, b) && k < place.0 implies table.data@[
    #[trigger] order::tried(hash, n, k, b)] is Some by {
        let j = order::tried(hash, n, k, b);
        order::lemma_group_of_place(hash, n, k, b);
        order::lemma_group_of_place(hash, n, place.0, place.1);
        if table.tags()[j] == Tag::Deleted {
            model::lemma_count_occurs(table.tags(), Kind::Deleted, j);
        }
        assert(table.tags()[j] is Full);
    }
    place
}

/// The states of a rehash in place.
proof fn lemma_rehash_states<T>(orig: &RawTableInner<T>, states: Seq<RawTableInner<T>>, m: int)
    requires
        RawTableInner::is_rehash(orig, states),
        0 <= m < states.len(),
    ensures
        states[0].prepared_from(orig),
        m > 0 ==> states[m - 1].steps_to(&states[m]),
        states[m].ctrl_wf(),
        states[m].bucket_mask == orig.bucket_mask,
    decreases states.len(),
{
    if states.len() > 1 {
        if m == states.len() - 1 {
            lemma_rehash_states(orig, states.drop_last(), m - 1);
        } else {
            lemma_rehash_states(orig, states.drop_last(), m);
        }
    }
}

/// A bucket that is full again stays as it is until the end of a rehash in place.
proof fn lemma_rehashed_bucket_stays<T>(
    orig: &RawTableInner<T>,
    states: Seq<RawTableInner<T>>,
    m: int,
    p: int,
)
    requires
        RawTableInner::is_rehash(orig, states),
        0 <= m < states.len(),
        orig.bucket_mask > 0,
        states[m].is_full_at(p),
    ensures
        states.last().is_full_at(p),
        states.last().hashes@[p] == states[m].hashes@[p],
        states.last().data@[p] == states[m].data@[p],
    decreases states.len() - m,
{
    if m < states.len() - 1 {
        lemma_rehash_states(orig, states, m);
        lemma_rehash_states(orig, states, m + 1);
        let a = states[m];
        let b = states[m + 1];
        let (i, hash, slot) = choose|i: int, hash: u64, slot: int| #[trigger]
            a.rehashes_one(&b, i, hash, slot);
        assert(i != p && slot != p);
        assert(b.is_full_at(p));
        lemma_rehashed_bucket_stays(orig, states, m + 1, p);
    }
}


/// As long as every element in front of bucket `p` is in its first group, and the hash function
/// gives up on that of bucket `p`, a rehash in place moves none, and goes from bucket to bucket.
proof fn lemma_rehash_moves_nothing<T>(
    orig: &RawTableInner<T>,
    states: Seq<RawTableInner<T>>,
    hash_of: spec_fn(T) -> Option<u64>,
    p: int,
    m: int,
)
    requires
        orig.wf(),
        orig.bucket_mask > 0,
        RawTableInner::is_rehash(orig, states),
        0 <= m < states.len(),
        forall|j: int| #[trigger]
            states.last().is_full_at(j) ==> hash_of(states.last().data@[j]->0) == Some(
                states.last().hashes@[j],
            ),
        0 <= p <= orig.n(),
        forall|i: int|
            0 <= i < p && #[trigger] orig.data@[i] is Some ==> {
                let hash = hash_of(orig.data@[i]->0);
                hash is Some ==> model::step_of(hash->0, orig.n(), i) == 0
            },
        p < orig.n() ==> orig.data@[p] is Some && hash_of(orig.data@[p]->0) is None,
    ensures
        states[m].data@ == orig.data@,
        forall|j: int|
            0 <= j < orig.n() ==> (#[trigger] states[m].tags()[j] == Tag::Empty
                <==> orig.data@[j] is None),
        forall|j: int, l: int|
            0 <= j < orig.n() && 0 <= l < orig.n() && #[trigger] states[m].tags()[j] is Full
                && #[trigger] states[m].tags()[l] == Tag::Deleted ==> j < l,
        p < orig.n() ==> states[m].tags()[p] == Tag::Deleted,
    decreases m,
{
    let n = orig.n();
    lemma_rehash_states(orig, states, m);
    if m > 0 {
        lemma_rehash_moves_nothing(orig, states, hash_of, p, m - 1);
        lemma_rehash_states(orig, states, m - 1);
        let a = states[m - 1];
        let b = states[m];
        let (i, hash, slot) = choose|i: int, hash: u64, slot: int| #[trigger]
            a.rehashes_one(&b, i, hash, slot);
        let stays = model::step_of(hash, n, i) == model::step_of(hash, n, slot);
        assert(orig.data@[i] is Some);
        let value = orig.data@[i]->0;
        let to = if stays {
            i
        } else {
            slot
        };
        assert(b.is_full_at(to));
        assert(b.data@[to] == orig.data@[i]);
        lemma_rehashed_bucket_stays(orig, states, m, to);
        assert(hash_of(value) == Some(hash));
        assert(i < p);
        model::lemma_slot(hash, n, slot);
        model::lemma_slot(hash, n, i);
        assert(!(a.tags()[i] is Full));
        assert(model::rank(hash, n, slot) <= model::rank(hash, n, i));
        assert(stays);
        assert(b.data@ =~= orig.data@);
    } else {
        assert forall|j: int| 0 <= j < n implies (#[trigger] states[0].tags()[j] == Tag::Empty
            <==> orig.data@[j] is None) && !(states[0].tags()[j] is Full) by {
            assert(orig.data@[j] is Some <==> orig.tags()[j] is Full);
        }
    }
}

/// A table that makes room without growing leaves every element in its bucket, if each is in
/// the first group of its probe order.
pub proof fn lemma_rehashing_leaves_first_groups<T, A: Allocator, F: Fn(&T) -> u64>(
    before: RawTable<T, A>,
    additional: usize,
    hasher: F,
    after: RawTable<T, A>,
    hash_of: spec_fn(T) -> u64,
)
    requires
        memory::addressable::<T>(),
        before.wf(),
        exists|m: &mut RawTable<T, A>|
            *m == before && *final(m) == after && #[trigger] call_ensures(
                RawTable::<T, A>::try_reserve,
                (m, additional, hasher),
                Ok(()),
            ),
        additional > before.table.growth_left,
        before.table.items + additional <= memory::room(before.table.bucket_mask + 1) / 2,
        forall|v: T, h: u64| #[trigger] call_ensures(&hasher, (&v,), h) ==> h == hash_of(v),
        forall|i: int|
            0 <= i < before.table.data@.len() && #[trigger] before.table.data@[i] is Some
                ==> exists|b: int|
                order::in_probe(before.table.bucket_mask + 1, 0, b) && i == #[trigger] order::tried(
                    hash_of(before.table.data@[i]->0),
                    before.table.bucket_mask + 1,
                    0,
                    b,
                ),
    ensures
        after.table.data@ == before.table.data@,
{
    let orig = before.table;
    let n = orig.n();
    memory::lemma_plain_sizes::<T>(n);
    assert(after.table.rehashed_from(&orig));
    let done = choose|done: RawTableInner<T>|
        {
            &&& #[trigger] orig.rehashes_to(&done)
            &&& after.table.tags() == done.tags()
            &&& after.table.hashes == done.hashes
            &&& after.table.data == done.data
        };
    let states = choose|states: Seq<RawTableInner<T>>| #[trigger]
        RawTableInner::is_rehash(&orig, states) && states.last() == done;
    lemma_rehash_states(&orig, states, states.len() - 1);
    if orig.bucket_mask > 0 {
        let some_hash = |v: T| Some(hash_of(v));
        assert forall|p: int| #[trigger] done.is_full_at(p) implies some_hash(done.data@[p]->0)
            == Some(done.hashes@[p]) by {
            assert(after.table.is_full_at(p));
        }
        assert forall|i: int|
            0 <= i < orig.data@.len() && #[trigger] orig.data@[i] is Some implies model::step_of(
            hash_of(orig.data@[i]->0),
            n,
            i,
        ) == 0 by {
            let hash = hash_of(orig.data@[i]->0);
            let b = choose|b: int|
                order::in_probe(n, 0, b) && i == #[trigger] order::tried(hash, n, 0, b);
            order::lemma_group_of_place(hash, n, 0, b);
        }
        lemma_rehash_moves_nothing(&orig, states, some_hash, n, states.len() - 1);
    } else {
        assert(after.table.data@ =~= orig.data@);
    }
}


/// If the hash function gives up while a table is rehashed in place, the elements that it was
/// asked about before are kept: if all elements in front of the first one that it gives up on
/// are in the first group of their probe order, these stay in their buckets, and those from
/// that one on are dropped.
pub proof fn lemma_giving_up_keeps_what_was_rehashed<T, A: Allocator, F: Fn(&T) -> Option<u64>>(
    before: RawTable<T, A>,
    additional: usize,
    hasher: &F,
    fallibility: Fallibility,
    after: RawTable<T, A>,
    r: Result<(), GrowthError>,
    hash_of: spec_fn(T) -> Option<u64>,
    p: int,
)
    requires
        memory::addressable::<T>(),
        before.wf(),
        exists|m: &mut RawTable<T, A>|
            *m == before && *final(m) == after && #[trigger] call_ensures(
                RawTable::<T, A>::reserve_rehash,
                (m, additional, hasher, fallibility),
                r,
            ),
        before.table.items + additional <= memory::room(before.table.bucket_mask + 1) / 2,
        forall|v: T, h: Option<u64>| #[trigger]
            call_ensures(hasher, (&v,), h) ==> h == hash_of(v),
        0 <= p < before.table.data@.len(),
        before.table.data@[p] is Some,
        hash_of(before.table.data@[p]->0) is None,
        forall|i: int|
            0 <= i < p && #[trigger] before.table.data@[i] is Some ==> {
                &&& hash_of(before.table.data@[i]->0) is Some
                &&& exists|b: int|
                    order::in_probe(before.table.bucket_mask + 1, 0, b) && i
                        == #[trigger] order::tried(
                        hash_of(before.table.data@[i]->0)->0,
                        before.table.bucket_mask + 1,
                        0,
                        b,
                    )
            },
    ensures
        r == Err::<(), GrowthError>(GrowthError::HashFailed),
        forall|j: int|
            0 <= j < before.table.data@.len() ==> #[trigger] after.table.data@[j] == if j < p {
                before.table.data@[j]
            } else {
                None
            },
{
    let orig = before.table;
    let n = orig.n();
    memory::lemma_plain_sizes::<T>(n);
    assert(orig.bucket_mask > 0);
    assert forall|i: int| 0 <= i < p && #[trigger] orig.data@[i] is Some implies ({
        let hash = hash_of(orig.data@[i]->0);
        hash is Some ==> model::step_of(hash->0, n, i) == 0
    }) by {
        let hash = hash_of(orig.data@[i]->0)->0;
        let b = choose|b: int|
            order::in_probe(n, 0, b) && i == #[trigger] order::tried(hash, n, 0, b);
        order::lemma_group_of_place(hash, n, 0, b);
    }
    if r is Ok {
        model::lemma_bag_take(orig.data@, p);
        let value = orig.data@[p]->0;
        let k = model::lemma_bag_contains(after.table.data@, value);
        assert(after.table.is_full_at(k));
        assert(call_ensures(hasher, (&value,), Some(after.table.hashes@[k])));
    }
    assert(r == Err::<(), GrowthError>(GrowthError::HashFailed));
    assert(after.table.reclaimed_from(&orig, hasher));
    let (stopped, at) = choose|stopped: RawTableInner<T>, at: int| #[trigger]
        after.table.reclaimed_at(&orig, hasher, &stopped, at);
    let states = choose|states: Seq<RawTableInner<T>>| #[trigger]
        RawTableInner::is_rehash(&orig, states) && states.last() == stopped;
    assert forall|j: int| #[trigger] stopped.is_full_at(j) implies hash_of(stopped.data@[j]->0)
        == Some(stopped.hashes@[j]) by {
        assert(call_ensures(hasher, (&stopped.data@[j]->0,), Some(stopped.hashes@[j])));
    }
    lemma_rehash_moves_nothing(&orig, states, hash_of, p, states.len() - 1);
    assert(stopped.data@ == orig.data@);
    assert(at <= p);
    assert(at == p) by {
        if at < p {
            assert(orig.data@[at] is Some);
            assert(call_ensures(hasher, (&stopped.data@[at]->0,), None));
        }
    }
    assert forall|j: int| 0 <= j < n implies #[trigger] after.table.data@[j] == if j < p {
        orig.data@[j]
    } else {
        None
    } by {
        let tag = stopped.tags()[j];
        if j < p {
            assert(tag != Tag::Deleted);
        } else if tag is Full {
            assert(j < p);
        } else if tag == Tag::Empty {
            assert(orig.data@[j] is None);
        }
    }
}

} // verus!
