//! Calls of the pieces that a table is made of.
use crate::allocator::Allocator;
use crate::control::{h2, Group, Tag};
use crate::raw::bucket::Bucket;
use crate::raw::calls::buckets;
use crate::raw::calls::memory;
use crate::raw::calls::order;
use crate::raw::growth::HashFailed;
use crate::raw::drain::RawIntoIter;
use crate::raw::iter::{FullBucketsIndices, RawIter, RawIterRange};
use crate::raw::model;
use crate::raw::probe::ProbeCursor;
use crate::raw::storage;
use crate::raw::storage::RawTableInner;
use vstd::prelude::*;

verus! {

/// The control bytes behind the buckets repeat the first ones: right behind the buckets, or
/// behind a whole group if the buckets are fewer, with empty bytes between.
///
/// A bucket is full just if it holds something.
pub proof fn lemma_control_bytes_are_mirrored<T>(table: &RawTableInner<T>, j: int, i: int)
    requires
        table.wf(),
        table.bucket_mask > 0,
        0 <= j < 16,
        0 <= i <= table.bucket_mask,
    ensures
        table.ctrl@.len() == table.bucket_mask + 17,
        table.bucket_mask >= 15 ==> table.ctrl@[table.bucket_mask + 1 + j] == table.ctrl@[j],
        table.bucket_mask < 15 && j <= table.bucket_mask ==> table.ctrl@[16 + j]
            == table.ctrl@[j],
        table.bucket_mask < 15 && j > table.bucket_mask ==> table.ctrl@[j] == Tag::Empty,
        table.ctrl@[i] is Full <==> table.data@[i] is Some,
{
    let n = table.n();
    if n >= 16 {
        assert(storage::mirror_tag(table.ctrl@, n, n + j) == table.ctrl@[n + j]);
    } else if j < n {
        assert(storage::mirror_tag(table.ctrl@, n, 16 + j) == table.ctrl@[16 + j]);
    } else {
        assert(storage::mirror_tag(table.ctrl@, n, j) == table.ctrl@[j]);
    }
    assert(table.tags()[i] == table.ctrl@[i]);
    assert(table.data@[i] is Some <==> table.tags()[i] is Full);
}

/// Setting a control byte changes that of one bucket only, and its repetition.
pub proof fn lemma_set_ctrl<T>(
    before: RawTableInner<T>,
    index: usize,
    tag: Tag,
    after: RawTableInner<T>,
    j: int,
)
    requires
        before.ctrl_wf(),
        before.bucket_mask > 0,
        index <= before.bucket_mask,
        0 <= j <= before.bucket_mask,
        exists|m: &mut RawTableInner<T>|
            *m == before && *final(m) == after && #[trigger] call_ensures(
                RawTableInner::<T>::set_ctrl,
                (m, index, tag),
                (),
            ),
    ensures
        after.ctrl@[j] == if j == index {
            tag
        } else {
            before.ctrl@[j]
        },
        after.ctrl@.len() == before.ctrl@.len(),
        after.data == before.data,
        after.items == before.items,
        after.growth_left == before.growth_left,
        after.bucket_mask == before.bucket_mask,
        before.bucket_mask >= 15 && j < 16 ==> after.ctrl@[before.bucket_mask + 1 + j]
            == after.ctrl@[j],
        before.bucket_mask < 15 ==> after.ctrl@[16 + j] == after.ctrl@[j],
{
    let n = before.n();
    assert(after.ctrl@[j] == after.tags()[j]);
    assert(before.ctrl@[j] == before.tags()[j]);
    if n >= 16 {
        if j < 16 {
            assert(storage::mirror_tag(after.ctrl@, n, n + j) == after.ctrl@[n + j]);
        }
    } else {
        assert(storage::mirror_tag(after.ctrl@, n, 16 + j) == after.ctrl@[16 + j]);
    }
}

/// Replacing the hash of a control byte returns the byte that was there.
pub proof fn lemma_replace_ctrl_hash<T>(
    before: RawTableInner<T>,
    index: usize,
    hash: u64,
    r: Tag,
    after: RawTableInner<T>,
    j: int,
)
    requires
        before.ctrl_wf(),
        before.bucket_mask > 0,
        index <= before.bucket_mask,
        0 <= j <= before.bucket_mask,
        exists|m: &mut RawTableInner<T>|
            *m == before && *final(m) == after && #[trigger] call_ensures(
                RawTableInner::<T>::replace_ctrl_hash,
                (m, index, hash),
                r,
            ),
    ensures
        r == before.ctrl@[index as int],
        after.ctrl@[j] == if j == index {
            Tag::Full(h2(hash))
        } else {
            before.ctrl@[j]
        },
        after.hashes@ == before.hashes@.update(index as int, hash),
        after.data == before.data,
        after.items == before.items,
        after.growth_left == before.growth_left,
{
    assert(after.ctrl@[j] == after.tags()[j]);
    assert(before.ctrl@[j] == before.tags()[j]);
    assert(before.ctrl@[index as int] == before.tags()[index as int]);
}

/// The index for an insertion is that of the first free bucket in the probe order.
pub proof fn lemma_find_insert_index<T>(table: &RawTableInner<T>, hash: u64, r: usize) -> (place: (
    int,
    int,
))
    requires
        table.wf(),
        table.bucket_mask > 0,
        call_ensures(RawTableInner::<T>::find_insert_index, (table, hash), r),
    ensures
        ({
            let n = table.bucket_mask + 1;
            &&& order::in_probe(n, place.0, place.1)
            &&& r == order::tried(hash, n, place.0, place.1)
            &&& table.data@[r as int] is None
            &&& forall|k: int, b: int|
                order::in_probe(n, k, b) && (k < place.0 || k == place.0 && b < place.1)
                    ==> table.data@[#[trigger] order::tried(hash, n, k, b)] is Some
        }),
{
    order::lemma_first_free(table, hash, r as int)
}

/// Preparing an insertion claims the first free bucket in the probe order, and returns the byte
/// that was there.
pub proof fn lemma_prepare_insert_index<T>(
    before: RawTableInner<T>,
    hash: u64,
    r: (usize, Tag),
    after: RawTableInner<T>,
) -> (place: (int, int))
    requires
        before.wf(),
        before.bucket_mask > 0,
        exists|m: &mut RawTableInner<T>|
            *m == before && *final(m) == after && #[trigger] call_ensures(
                RawTableInner::<T>::prepare_insert_index,
                (m, hash),
                r,
            ),
    ensures
        r.1 == before.ctrl@[r.0 as int],
        after.ctrl@[r.0 as int] == Tag::Full(h2(hash)),
        after.hashes@ == before.hashes@.update(r.0 as int, hash),
        after.data == before.data,
        after.items == before.items,
        after.growth_left == before.growth_left,
        ({
            let n = before.bucket_mask + 1;
            &&& order::in_probe(n, place.0, place.1)
            &&& r.0 == order::tried(hash, n, place.0, place.1)
            &&& before.data@[r.0 as int] is None
            &&& forall|k: int, b: int|
                order::in_probe(n, k, b) && (k < place.0 || k == place.0 && b < place.1)
                    ==> before.data@[#[trigger] order::tried(hash, n, k, b)] is Some
        }),
{
    assert(before.ctrl@[r.0 as int] == before.tags()[r.0 as int]);
    assert(after.ctrl@[r.0 as int] == after.tags()[r.0 as int]);
    order::lemma_first_free(&before, hash, r.0 as int)
}

/// A search by index returns one that `eq` accepts and whose bucket has the tag of the hash. If
/// it returns none, `eq` has rejected every bucket that holds an element under the hash.
pub proof fn lemma_find_inner<T, F: Fn(usize) -> bool>(
    table: &RawTableInner<T>,
    hash: u64,
    eq: &F,
    r: Option<usize>,
    or_slot: Result<usize, usize>,
)
    requires
        table.wf(),
        call_ensures(RawTableInner::<T>::find_inner, (table, hash, eq), r),
        call_ensures(
            RawTableInner::<T>::find_or_find_insert_index_inner,
            (table, hash, eq),
            or_slot,
        ),
    ensures
        r matches Some(i) ==> {
            &&& i < table.data@.len()
            &&& table.data@[i as int] is Some
            &&& table.ctrl@[i as int] == Tag::Full(h2(hash))
            &&& call_ensures(eq, (i,), true)
        },
        r is None ==> forall|i: usize|
            i < table.data@.len() && table.data@[i as int] is Some && table.hashes@[i as int]
                == hash ==> #[trigger] call_ensures(eq, (i,), false),
        or_slot matches Ok(i) ==> {
            &&& i < table.data@.len()
            &&& table.data@[i as int] is Some
            &&& table.ctrl@[i as int] == Tag::Full(h2(hash))
            &&& call_ensures(eq, (i,), true)
        },
        or_slot matches Err(index) ==> {
            &&& table.bucket_mask > 0 ==> index < table.data@.len() && table.data@[index as int] is None
            &&& forall|i: usize|
                i < table.data@.len() && table.data@[i as int] is Some && table.hashes@[i as int]
                    == hash ==> #[trigger] call_ensures(eq, (i,), false)
        },
{
    assert forall|i: usize|
        i < table.data@.len() && table.data@[i as int] is Some && table.hashes@[i as int]
            == hash implies model::is_candidate(table.tags(), hash, i as int) by {
        assert(table.tags()[i as int] is Full);
        table.lemma_entry_is_candidate(i as int, hash, table.data@[i as int]->0);
    }
    if r is None {
        assert forall|i: usize|
            i < table.data@.len() && table.data@[i as int] is Some && table.hashes@[i as int]
                == hash implies #[trigger] call_ensures(eq, (i,), false) by {
            assert(model::is_candidate(table.tags(), hash, i as int));
        }
    } else {
        let i = r->0 as int;
        assert(model::is_candidate(table.tags(), hash, i));
        assert(table.ctrl@[i] == table.tags()[i]);
    }
    match or_slot {
        Ok(i) => {
            assert(model::is_candidate(table.tags(), hash, i as int));
            assert(table.ctrl@[i as int] == table.tags()[i as int]);
        },
        Err(index) => {
            assert forall|i: usize|
                i < table.data@.len() && table.data@[i as int] is Some && table.hashes@[i as int]
                    == hash implies #[trigger] call_ensures(eq, (i,), false) by {
                assert(model::is_candidate(table.tags(), hash, i as int));
            }
        },
    }
}

/// Rehashing in place keeps the elements, each under what the hash function returned for it, and
/// leaves no deleted bucket. If the hash function gave up on an element, the table holds fewer
/// elements, but none that it did not hold.
pub proof fn lemma_rehash_in_place<T, F: Fn(&T) -> Option<u64>>(
    before: RawTableInner<T>,
    hasher: &F,
    r: Result<(), HashFailed>,
    after: RawTableInner<T>,
)
    requires
        memory::addressable::<T>(),
        before.wf(),
        before.bucket_mask > 0,
        exists|m: &mut RawTableInner<T>|
            *m == before && *final(m) == after && #[trigger] call_ensures(
                RawTableInner::<T>::rehash_in_place,
                (m, hasher),
                r,
            ),
    ensures
        after.wf(),
        after.bucket_mask == before.bucket_mask,
        after.block == before.block,
        after.items + after.growth_left == memory::room(before.bucket_mask + 1),
        forall|i: int|
            0 <= i < after.data@.len() && #[trigger] after.data@[i] is Some ==> call_ensures(
                hasher,
                (&after.data@[i]->0,),
                Some(after.hashes@[i]),
            ),
        r is Ok ==> after.elements() == before.elements() && after.items == before.items,
        r is Err ==> {
            &&& after.elements().subset_of(before.elements())
            &&& after.items < before.items
            &&& exists|v: T| #[trigger]
                before.elements().contains(v) && call_ensures(hasher, (&v,), None)
        },
{
    memory::lemma_plain_sizes::<T>(before.n());
    assert forall|i: int|
        0 <= i < after.data@.len() && #[trigger] after.data@[i] is Some implies call_ensures(
        hasher,
        (&after.data@[i]->0,),
        Some(after.hashes@[i]),
    ) by {
        assert(after.tags()[i] is Full);
        assert(after.is_full_at(i));
    }
}

/// Erasing a control byte makes it empty, or deleted if a lookup may step over it, and leaves
/// every other one as it is.
pub proof fn lemma_inner_erase<T>(
    before: RawTableInner<T>,
    index: usize,
    after: RawTableInner<T>,
    j: int,
)
    requires
        before.wf(),
        index < before.data@.len(),
        before.data@[index as int] is Some,
        0 <= j <= before.bucket_mask,
        exists|m: &mut RawTableInner<T>|
            *m == before && *final(m) == after && #[trigger] call_ensures(
                RawTableInner::<T>::erase,
                (m, index),
                (),
            ),
    ensures
        after.items == before.items - 1,
        after.data == before.data,
        after.growth_left == before.growth_left + if buckets::in_run(
            before.ctrl@,
            before.bucket_mask + 1,
            index as int,
        ) {
            0int
        } else {
            1
        },
        after.ctrl@[j] == if j != index {
            before.ctrl@[j]
        } else if buckets::in_run(before.ctrl@, before.bucket_mask + 1, index as int) {
            Tag::Deleted
        } else {
            Tag::Empty
        },
{
    buckets::lemma_run_of_table(&before, index as int);
    assert(before.tags()[index as int] is Full);
    assert(after.ctrl@[j] == after.tags()[j]);
    assert(before.ctrl@[j] == before.tags()[j]);
}

/// What is read from a bucket, written to it and lent from it is what it holds.
pub proof fn lemma_bucket_access<T>(
    before: RawTableInner<T>,
    bucket: &Bucket<T>,
    i: int,
    value: T,
    taken: T,
    read: RawTableInner<T>,
    written: RawTableInner<T>,
)
    requires
        before.data_room(),
        before.bucket_mask > 0,
        0 <= i < before.data@.len(),
        before.data@[i] is Some,
        bucket.is_at(before.ctrl_offset as int, i),
        exists|m: &mut RawTableInner<T>|
            *m == before && *final(m) == read && #[trigger] call_ensures(
                Bucket::<T>::read,
                (bucket, m),
                taken,
            ),
        exists|m: &mut RawTableInner<T>|
            *m == before && *final(m) == written && #[trigger] call_ensures(
                Bucket::<T>::write,
                (bucket, m, value),
                (),
            ),
    ensures
        before.data@[i] == Some(taken),
        read.data@ == before.data@.update(i, None),
        written.data@ == before.data@.update(i, Some(value)),
        read.ctrl == before.ctrl,
        written.ctrl == before.ctrl,
        read.items == before.items,
        written.items == before.items,
{
}

/// The addresses of buckets: one lies the size of an element in front of the other, and the
/// element ends where the bucket points to.
pub proof fn lemma_bucket_addresses<T>(
    base: usize,
    index: usize,
    offset: usize,
    bucket: Bucket<T>,
    back: usize,
    next: Bucket<T>,
    ptr: usize,
)
    requires
        call_ensures(Bucket::<T>::from_base_index, (base, index), bucket),
        call_ensures(Bucket::<T>::to_base_index, (&bucket, base), back),
        call_ensures(Bucket::<T>::next_n, (&bucket, offset), next),
        call_ensures(Bucket::<T>::as_ptr, (&bucket,), ptr),
    ensures
        back == index,
        vstd::layout::size_of::<T>() > 0 ==> {
            &&& bucket.ptr == base - index * vstd::layout::size_of::<T>()
            &&& next.ptr == base - (index + offset) * vstd::layout::size_of::<T>()
            &&& ptr == bucket.ptr - vstd::layout::size_of::<T>()
        },
        vstd::layout::size_of::<T>() == 0 ==> {
            &&& bucket.ptr == index + 1
            &&& next.ptr == index + offset + 1
            &&& ptr == vstd::layout::align_of::<T>()
        },
{
    assert(bucket.is_at(base as int, index as int));
    assert(next.is_at(base as int, index + offset));
}

/// Dropping what an iterator has still to visit empties just these buckets.
pub proof fn lemma_drop_elements<T>(
    it: RawIter<T>,
    before: RawTableInner<T>,
    after: RawTableInner<T>,
    i: int,
)
    requires
        before.wf(),
        before.data_room(),
        call_ensures(RawTableInner::<T>::iter, (&before,), it),
        exists|m: &mut RawIter<T>, t: &mut RawTableInner<T>|
            *m == it && *t == before && *final(t) == after && #[trigger] call_ensures(
                RawIter::<T>::drop_elements,
                (m, t),
                (),
            ),
        0 <= i < before.data@.len(),
    ensures
        after.data@[i] is None,
        after.ctrl == before.ctrl,
        after.items == before.items,
{
    crate::raw::calls::iteration::lemma_full_are_occupied(&before);
    if before.data@[i] is Some {
        assert(it.remaining(before.tags()).contains(i));
    }
    assert(after.data@[i] is None);
}

/// The number of elements that a range has still to cover is at most what it says.
pub proof fn lemma_range_size_hint<T>(
    table: &RawTableInner<T>,
    range: &RawIterRange<T>,
    r: (usize, Option<usize>),
)
    requires
        table.wf(),
        range.wf(table.tags()),
        call_ensures(RawIterRange::<T>::size_hint, (range,), r),
    ensures
        r.0 == 0,
        r.1 is Some,
        range.remaining(table.tags()).len() <= r.1->0,
        r.1->0 == 16 + (if range.end > range.next_ctrl {
            range.end - range.next_ctrl
        } else {
            0
        }),
{
    range.lemma_size_hint(table.tags());
}


/// Iterators that come from nowhere have nothing to visit, and a clone of an iterator stands
/// where that stands.
pub proof fn lemma_default_and_cloned_iterators<T, A: Allocator>(
    iter: RawIter<T>,
    indices: FullBucketsIndices,
    consuming: RawIntoIter<T, A>,
    hint: (usize, Option<usize>),
    it: &RawIter<T>,
    copy: RawIter<T>,
    range: &RawIterRange<T>,
    range_copy: RawIterRange<T>,
    bucket: &Bucket<T>,
    bucket_copy: Bucket<T>,
)
    requires
        call_ensures(RawIter::<T>::default, (), iter),
        call_ensures(FullBucketsIndices::default, (), indices),
        call_ensures(RawIntoIter::<T, A>::default, (), consuming),
        call_ensures(RawIntoIter::<T, A>::size_hint, (&consuming,), hint),
        call_ensures(RawIter::<T>::clone, (it,), copy),
        call_ensures(RawIterRange::<T>::clone, (range,), range_copy),
        call_ensures(Bucket::<T>::clone, (bucket,), bucket_copy),
    ensures
        iter.items == 0,
        indices.items == 0,
        consuming.allocation is None,
        hint == (0usize, Some(0usize)),
        copy == *it,
        range_copy == *range,
        bucket_copy == *bucket,
{
}

/// Tags are full or special, and special ones are empty or deleted.
pub proof fn lemma_tags(tag: Tag, full: bool, special: bool, empty: bool)
    requires
        call_ensures(Tag::is_full, (tag,), full),
        call_ensures(Tag::is_special, (tag,), special),
        !(tag is Full) ==> call_ensures(Tag::special_is_empty, (tag,), empty),
    ensures
        full == (tag is Full),
        special == !full,
        special ==> empty == (tag == Tag::Empty),
{
}

/// A group is loaded from sixteen control bytes in a row, and stored to them.
pub proof fn lemma_group_bytes(
    before: Vec<Tag>,
    pos: usize,
    group: Group,
    loaded: Group,
    none: Group,
    after: Vec<Tag>,
    j: int,
)
    requires
        pos + 16 <= before@.len(),
        0 <= j < before@.len(),
        call_ensures(Group::load, (&before, pos), loaded),
        call_ensures(Group::static_empty, (), none),
        exists|m: &mut Vec<Tag>|
            *m == before && *final(m) == after && #[trigger] call_ensures(
                Group::store,
                (&group, m, pos),
                (),
            ),
    ensures
        pos <= j < pos + 16 ==> loaded.0@[j - pos] == before@[j] && none.0@[j - pos] == Tag::Empty,
        after@.len() == before@.len(),
        after@[j] == if pos <= j < pos + 16 {
            group.0@[j - pos]
        } else {
            before@[j]
        },
{
    if pos <= j < pos + 16 {
        assert(loaded@[j - pos] == before@[j]);
        assert(none@[j - pos] == Tag::Empty);
        assert(group@[j - pos] == group.0@[j - pos]);
    }
}

/// Where a probe stands: the bucket of a byte of its group, and whether its group is the last.
pub proof fn lemma_probe_position(
    cursor: &ProbeCursor,
    bit: usize,
    index: usize,
    start: usize,
    last: bool,
)
    requires
        cursor.wf(),
        bit < 16,
        cursor.seq.stride <= cursor.bucket_mask,
        call_ensures(ProbeCursor::bucket_index, (cursor, bit), index),
        call_ensures(ProbeCursor::group_pos, (cursor,), start),
        call_ensures(ProbeCursor::is_last, (cursor,), last),
    ensures
        start == cursor.seq.pos,
        index == (cursor.seq.pos + bit) % (cursor.bucket_mask + 1),
        last == (cursor.seq.stride + 16 > cursor.bucket_mask),
{
}

} // verus!
