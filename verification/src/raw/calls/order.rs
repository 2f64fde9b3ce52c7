//! The order in which the buckets of a table are tried.
use crate::allocator::Allocator;
use crate::control::Tag;
use crate::math;
use crate::raw::bucket::Bucket;
use crate::raw::calls::buckets;
use crate::raw::calls::memory;
use crate::raw::model;
use crate::raw::probe::ProbeCursor;
use crate::raw::storage::RawTableInner;
use crate::raw::table::RawTable;
use vstd::arithmetic::div_mod::*;
use vstd::arithmetic::power2::*;
use vstd::prelude::*;

verus! {

/// The bucket that a probe tries at byte `b` of the `k`-th group. The groups start at the
/// bucket that the hash selects, and lie one, two, three and more groups behind each other.
pub open spec fn tried(hash: u64, n: int, k: int, b: int) -> int {
    ((hash as usize) + 8 * (k * (k + 1)) + b) % n
}

/// Whether a probe of `n` buckets goes as far as byte `b` of the `k`-th group: over all the
/// bytes of all groups, or over the buckets of a table that is smaller than a group.
pub open spec fn in_probe(n: int, k: int, b: int) -> bool {
    if n >= 16 {
        0 <= k < n / 16 && 0 <= b < 16
    } else {
        k == 0 && 0 <= b < n
    }
}

/// Which bucket is tried when, in numbers.
pub proof fn lemma_order_in_numbers(hash: u64, n: int, k: int, b: int)
    ensures
        tried(hash, n, k, b) == ((hash as usize) + 8 * (k * (k + 1)) + b) % n,
        in_probe(n, k, b) <==> (n >= 16 && 0 <= k < n / 16 && 0 <= b < 16) || (n < 16 && k == 0
            && 0 <= b < n),
{
}

/// The place of a bucket in the probe order, and of those that come earlier.
pub proof fn lemma_place(hash: u64, n: int, i: int) -> (place: (int, int))
    requires
        is_pow2(n),
        0 <= i < n,
    ensures
        in_probe(n, place.0, place.1),
        tried(hash, n, place.0, place.1) == i,
        forall|k: int, b: int|
            in_probe(n, k, b) && (k < place.0 || k == place.0 && b < place.1) ==> {
                let j = #[trigger] tried(hash, n, k, b);
                0 <= j < n && model::rank(hash, n, j) < model::rank(hash, n, i)
            },
{
    let home = model::probe_pos(hash, n, 0);
    math::lemma_pow2_positive(n);
    model::lemma_probe_pos_bound(hash, n, 0);
    model::lemma_slot(hash, n, i);
    assert(math::tri(0) == 0);
    if n >= 16 {
        let place = (model::step_of(hash, n, i), model::bit_of(hash, n, i));
        lemma_tried(hash, n, place.0, place.1);
        assert forall|k: int, b: int|
            in_probe(n, k, b) && (k < place.0 || k == place.0 && b < place.1) implies ({
            let j = #[trigger] tried(hash, n, k, b);
            0 <= j < n && model::rank(hash, n, j) < model::rank(hash, n, i)
        }) by {
            lemma_tried(hash, n, k, b);
            model::lemma_slot_unique(hash, n, k, b);
        }
        place
    } else {
        let c = if i >= home {
            i - home
        } else {
            n - home + i
        };
        lemma_wraps(hash, n, c);
        assert forall|k: int, b: int| in_probe(n, k, b) && (k < 0 || k == 0 && b < c) implies ({
            let j = #[trigger] tried(hash, n, k, b);
            0 <= j < n && model::rank(hash, n, j) < model::rank(hash, n, i)
        }) by {
            lemma_wraps(hash, n, b);
        }
        (0, c)
    }
}

/// In a table smaller than a group, the buckets are tried one after the other.
proof fn lemma_wraps(hash: u64, n: int, b: int)
    requires
        0 < n < 16,
        0 <= b < n,
    ensures
        ({
            let home = model::probe_pos(hash, n, 0);
            tried(hash, n, 0, b) == if home + b < n {
                home + b
            } else {
                home + b - n
            }
        }),
{
    let h = (hash as usize) as int;
    assert(math::tri(0) == 0);
    assert(0int * (0int + 1) == 0) by (nonlinear_arith);
    lemma_fundamental_div_mod(h, n);
    lemma_mod_bound(h, n);
    model::lemma_same_mod(h + b, h % n + b, h / n, n);
    if h % n + b < n {
        lemma_small_mod((h % n + b) as nat, n as nat);
    } else {
        model::lemma_same_mod(h % n + b, h % n + b - n, 1, n);
        lemma_small_mod((h % n + b - n) as nat, n as nat);
    }
}

/// The groups of a probe in numbers.
proof fn lemma_tried(hash: u64, n: int, k: int, b: int)
    requires
        n > 0,
        k >= 0,
    ensures
        tried(hash, n, k, b) == (model::probe_pos(hash, n, k) + b) % n,
{
    let x = (hash as usize) + 16 * math::tri(k as nat);
    math::lemma_tri_closed(k as nat);
    assert(8 * (k * (k + 1)) == 16 * math::tri(k as nat));
    lemma_fundamental_div_mod(x, n);
    model::lemma_same_mod(x + b, x % n + b, x / n, n);
}

/// A free bucket that comes first for a hash is the first free one in the probe order.
pub proof fn lemma_first_free<T>(table: &RawTableInner<T>, hash: u64, i: int) -> (place: (int, int))
    requires
        table.wf(),
        model::is_insert_slot(table.tags(), hash, i),
    ensures
        in_probe(table.n(), place.0, place.1),
        tried(hash, table.n(), place.0, place.1) == i,
        forall|k: int, b: int|
            in_probe(table.n(), k, b) && (k < place.0 || k == place.0 && b < place.1)
                ==> table.data@[#[trigger] tried(hash, table.n(), k, b)] is Some,
{
    let n = table.n();
    let place = lemma_place(hash, n, i);
    assert forall|k: int, b: int|
        in_probe(n, k, b) && (k < place.0 || k == place.0 && b < place.1) implies table.data@[
    #[trigger] tried(hash, n, k, b)] is Some by {
        let j = tried(hash, n, k, b);
        assert(table.tags()[j] is Full);
        if table.bucket_mask == 0 {
            assert(table.tags()[j] == Tag::Empty);
        }
    }
    place
}

/// `insert` takes the first free bucket in the probe order, if the table need not grow.
pub proof fn lemma_insert_takes_the_first_free_bucket<T, A: Allocator, F: Fn(&T) -> u64>(
    before: RawTable<T, A>,
    hash: u64,
    value: T,
    hasher: F,
    r: Bucket<T>,
    after: RawTable<T, A>,
) -> (place: (int, int))
    requires
        before.wf(),
        before.table.growth_left > 0,
        exists|m: &mut RawTable<T, A>|
            *m == before && *final(m) == after && #[trigger] call_ensures(
                RawTable::<T, A>::insert,
                (m, hash, value, hasher),
                r,
            ),
    ensures
        ({
            let n = before.table.bucket_mask + 1;
            let i = tried(hash, n, place.0, place.1);
            &&& in_probe(n, place.0, place.1)
            &&& before.table.data@[i] is None
            &&& after.table.data@ == before.table.data@.update(i, Some(value))
            &&& forall|k: int, b: int|
                in_probe(n, k, b) && (k < place.0 || k == place.0 && b < place.1)
                    ==> before.table.data@[#[trigger] tried(hash, n, k, b)] is Some
        }),
{
    let i = choose|i: int| #[trigger]
        after.is_bucket(&r, i) && after.inserted(&before, i, hash, value, &hasher);
    assert(after.table.inserted_from(&before.table, i, hash, value));
    lemma_first_free(&before.table, hash, i)
}

/// `insert_no_grow` takes the first free bucket in the probe order, and leaves every other
/// one as it is.
pub proof fn lemma_insert_no_grow_takes_the_first_free_bucket<T, A: Allocator>(
    before: RawTable<T, A>,
    hash: u64,
    value: T,
    r: Bucket<T>,
    after: RawTable<T, A>,
) -> (place: (int, int))
    requires
        before.wf(),
        exists|m: &mut RawTable<T, A>|
            *m == before && *final(m) == after && #[trigger] call_ensures(
                RawTable::<T, A>::insert_no_grow,
                (m, hash, value),
                r,
            ),
    ensures
        after.wf(),
        after.alloc == before.alloc,
        after.table.items == before.table.items + 1,
        after.table.bucket_mask == before.table.bucket_mask,
        after.table.block == before.table.block,
        after.table.growth_left >= before.table.growth_left - 1,
        ({
            let n = before.table.bucket_mask + 1;
            let i = tried(hash, n, place.0, place.1);
            &&& in_probe(n, place.0, place.1)
            &&& r.is_at(after.table.ctrl_offset as int, i)
            &&& before.table.data@[i] is None
            &&& after.table.data@ == before.table.data@.update(i, Some(value))
            &&& after.table.hashes@ == before.table.hashes@.update(i, hash)
            &&& forall|k: int, b: int|
                in_probe(n, k, b) && (k < place.0 || k == place.0 && b < place.1)
                    ==> before.table.data@[#[trigger] tried(hash, n, k, b)] is Some
        }),
{
    let i = choose|i: int|
        {
            &&& #[trigger] model::is_insert_slot(before.table.tags(), hash, i)
            &&& after.is_bucket(&r, i)
            &&& after.table.inserted_from(&before.table, i, hash, value)
        };
    lemma_first_free(&before.table, hash, i)
}

/// `get` returns the first element in the probe order that `eq` accepts: of those that are
/// held under the hash and are tried earlier, it has rejected each.
pub proof fn lemma_get_returns_the_first_match<T, A: Allocator, F: Fn(&T) -> bool>(
    table: &RawTable<T, A>,
    hash: u64,
    eq: F,
    r: Option<&T>,
) -> (place: (int, int))
    requires
        table.wf(),
        call_ensures(RawTable::<T, A>::get, (table, hash, eq), r),
        r is Some,
    ensures
        ({
            let n = table.table.bucket_mask + 1;
            &&& in_probe(n, place.0, place.1)
            &&& table.table.data@[tried(hash, n, place.0, place.1)] == Some(*(r->0))
            &&& forall|k: int, b: int|
                in_probe(n, k, b) && (k < place.0 || k == place.0 && b < place.1) ==> {
                    let j = #[trigger] tried(hash, n, k, b);
                    table.table.data@[j] is Some && table.table.hashes@[j] == hash
                        ==> call_ensures(&eq, (&table.table.data@[j]->0,), false)
                }
        }),
{
    let i = choose|i: int| #[trigger]
        table.table.picks(hash, &eq, i) && table.table.data@[i] == Some(*(r->0));
    lemma_first_match(&table.table, hash, &eq, i)
}

/// A probe starts at the bucket that the hash selects, and steps over one group more each
/// time.
pub proof fn lemma_probe_steps(
    hash: u64,
    bucket_mask: usize,
    start: ProbeCursor,
    at: ProbeCursor,
    next: ProbeCursor,
)
    requires
        bucket_mask < usize::MAX,
        is_pow2(bucket_mask + 1),
        call_ensures(ProbeCursor::new, (hash, bucket_mask), start),
        at.bucket_mask == bucket_mask,
        at.seq.pos <= bucket_mask,
        exists|k: int| #[trigger] at.at(hash, k),
        exists|m: &mut ProbeCursor|
            *m == at && *final(m) == next && #[trigger] call_ensures(
                ProbeCursor::move_next,
                (m,),
                (),
            ),
    ensures
        start.bucket_mask == bucket_mask,
        start.seq.pos == (hash as usize) as int % (bucket_mask + 1),
        start.seq.stride == 0,
        next.bucket_mask == bucket_mask,
        next.seq.stride == at.seq.stride + 16,
        next.seq.pos == (at.seq.pos + next.seq.stride) % (bucket_mask + 1),
{
    let n = bucket_mask + 1;
    let k = choose|k: int| #[trigger] at.at(hash, k);
    assert(next.at(hash, k + 1));
    assert(math::tri(0) == 0);
    let x = (hash as usize) + 16 * math::tri(k as nat);
    assert(math::tri((k + 1) as nat) == math::tri(k as nat) + (k + 1));
    lemma_fundamental_div_mod(x, n);
    model::lemma_same_mod(x + 16 * (k + 1), x % n + 16 * (k + 1), x / n, n);
}


/// The first free bucket in the probe order is where an element goes.
proof fn lemma_is_slot<T>(table: &RawTableInner<T>, hash: u64, k: int, b: int)
    requires
        table.wf(),
        table.bucket_mask > 0,
        in_probe(table.n(), k, b),
        table.data@[tried(hash, table.n(), k, b)] is None,
        forall|l: int, c: int|
            in_probe(table.n(), l, c) && (l < k || l == k && c < b) ==> table.data@[
            #[trigger] tried(hash, table.n(), l, c)] is Some,
    ensures
        0 <= tried(hash, table.n(), k, b) < table.n(),
        model::is_insert_slot(table.tags(), hash, tried(hash, table.n(), k, b)),
{
    let n = table.n();
    let i = tried(hash, n, k, b);
    lemma_mod_bound((hash as usize) + 8 * (k * (k + 1)) + b, n);
    assert forall|j: int| 0 <= j < n && !(#[trigger] table.tags()[j] is Full) implies model::rank(
        hash,
        n,
        i,
    ) <= model::rank(hash, n, j) by {
        let place = lemma_place(hash, n, j);
        assert(table.data@[j] is None);
        if place.0 < k || place.0 == k && place.1 < b {
            assert(table.data@[tried(hash, n, place.0, place.1)] is Some);
        }
    }
}

/// `insert` puts the element into the first free bucket in the probe order, and changes no
/// other one, if the table has room or if that bucket is a deleted one.
pub proof fn lemma_insert_goes_to_the_first_free_bucket<T, A: Allocator, F: Fn(&T) -> u64>(
    before: RawTable<T, A>,
    hash: u64,
    value: T,
    hasher: F,
    r: Bucket<T>,
    after: RawTable<T, A>,
    k: int,
    b: int,
)
    requires
        before.wf(),
        before.table.bucket_mask > 0,
        exists|m: &mut RawTable<T, A>|
            *m == before && *final(m) == after && #[trigger] call_ensures(
                RawTable::<T, A>::insert,
                (m, hash, value, hasher),
                r,
            ),
        ({
            let n = before.table.bucket_mask + 1;
            let i = tried(hash, n, k, b);
            &&& in_probe(n, k, b)
            &&& before.table.data@[i] is None
            &&& before.table.growth_left > 0 || before.table.ctrl@[i] == Tag::Deleted
            &&& forall|l: int, c: int|
                in_probe(n, l, c) && (l < k || l == k && c < b) ==> before.table.data@[
                #[trigger] tried(hash, n, l, c)] is Some
        }),
    ensures
        ({
            let i = tried(hash, before.table.bucket_mask + 1, k, b);
            &&& after.table.data@ == before.table.data@.update(i, Some(value))
            &&& after.table.hashes@ == before.table.hashes@.update(i, hash)
            &&& after.table.bucket_mask == before.table.bucket_mask
            &&& after.table.block == before.table.block
            &&& after.table.growth_left == before.table.growth_left - if before.table.ctrl@[i]
                == Tag::Empty {
                1int
            } else {
                0
            }
        }),
{
    let n = before.table.n();
    let slot = tried(hash, n, k, b);
    lemma_is_slot(&before.table, hash, k, b);
    assert(before.table.ctrl@[slot] == before.table.tags()[slot]);
    let i = choose|i: int| #[trigger]
        after.is_bucket(&r, i) && after.inserted(&before, i, hash, value, &hasher);
    assert(!before.table.is_out_of_room(hash));
    model::lemma_insert_slot_unique(before.table.tags(), hash, i, slot);
}

/// `insert` makes room first if the table has none and the first free bucket in the probe order
/// is not a deleted one. No bucket is deleted then, and the number of buckets stays only if
/// half of their room is enough.
pub proof fn lemma_insert_makes_room<T, A: Allocator, F: Fn(&T) -> u64>(
    before: RawTable<T, A>,
    hash: u64,
    value: T,
    hasher: F,
    r: Bucket<T>,
    after: RawTable<T, A>,
    k: int,
    b: int,
)
    requires
        memory::addressable::<T>(),
        before.wf(),
        before.table.growth_left == 0,
        exists|m: &mut RawTable<T, A>|
            *m == before && *final(m) == after && #[trigger] call_ensures(
                RawTable::<T, A>::insert,
                (m, hash, value, hasher),
                r,
            ),
        before.table.bucket_mask > 0 ==> {
            let n = before.table.bucket_mask + 1;
            &&& in_probe(n, k, b)
            &&& before.table.ctrl@[tried(hash, n, k, b)] == Tag::Empty
            &&& forall|l: int, c: int|
                in_probe(n, l, c) && (l < k || l == k && c < b) ==> before.table.data@[
                #[trigger] tried(hash, n, l, c)] is Some
        },
    ensures
        after.table.items + after.table.growth_left == memory::room(after.table.bucket_mask + 1),
        if before.table.items + 1 <= memory::room(before.table.bucket_mask + 1) / 2 {
            after.table.bucket_mask == before.table.bucket_mask
        } else {
            after.table.bucket_mask > before.table.bucket_mask
        },
        before.alloc.is_exact() && before.table.items + 1 > memory::room(
            before.table.bucket_mask + 1,
        ) / 2 ==> memory::fits_tightly::<T>(
            memory::room(before.table.bucket_mask + 1) + 1,
            after.table.bucket_mask + 1,
        ),
{
    let n = before.table.n();
    memory::lemma_plain_sizes::<T>(n);
    memory::lemma_plain_sizes::<T>(after.table.n());
    if before.table.bucket_mask > 0 {
        let slot = tried(hash, n, k, b);
        lemma_mod_bound((hash as usize) + 8 * (k * (k + 1)) + b, n);
        assert(before.table.ctrl@[slot] == before.table.tags()[slot]);
        assert(before.table.data@[slot] is None);
        lemma_is_slot(&before.table, hash, k, b);
        assert forall|i: int| #[trigger]
            model::is_insert_slot(before.table.tags(), hash, i) implies before.table.tags()[i]
            == Tag::Empty by {
            model::lemma_insert_slot_unique(before.table.tags(), hash, i, slot);
        }
    }
    assert(before.table.is_out_of_room(hash));
    let i = choose|i: int| #[trigger]
        after.is_bucket(&r, i) && after.inserted(&before, i, hash, value, &hasher);
    let grown = choose|grown: RawTableInner<T>|
        {
            &&& grown.grown_from(
                &before.table,
                1,
                &hasher,
                &before.alloc,
                crate::raw::layout::table_layout_of::<T>(),
            )
            &&& grown.wf()
            &&& model::is_insert_slot(grown.tags(), hash, i)
            &&& #[trigger] after.table.inserted_from(&grown, i, hash, value)
        };
    assert(grown.tags()[i] == Tag::Empty) by {
        if grown.tags()[i] == Tag::Deleted {
            model::lemma_count_occurs(grown.tags(), model::Kind::Deleted, i);
        }
    }
    crate::raw::laws::lemma_load_factor(&before.table);
    let need = crate::raw::growth::grown_capacity(before.table.items as int, 1, n);
    memory::lemma_chosen_is_tight::<T>(need as usize);
    if after.table.n() <= n {
        memory::lemma_room_grows(after.table.n(), n);
    }
}

/// The buckets that hold an element under a hash and are tried before the one that is picked.
proof fn lemma_first_match<T, F: Fn(&T) -> bool>(
    table: &RawTableInner<T>,
    hash: u64,
    eq: &F,
    i: int,
) -> (place: (int, int))
    requires
        table.wf(),
        table.picks(hash, eq, i),
    ensures
        in_probe(table.n(), place.0, place.1),
        tried(hash, table.n(), place.0, place.1) == i,
        forall|k: int, b: int|
            in_probe(table.n(), k, b) && (k < place.0 || k == place.0 && b < place.1) ==> {
                let j = #[trigger] tried(hash, table.n(), k, b);
                table.data@[j] is Some && table.hashes@[j] == hash ==> call_ensures(
                    eq,
                    (&table.data@[j]->0,),
                    false,
                )
            },
{
    let n = table.n();
    let place = lemma_place(hash, n, i);
    assert forall|k: int, b: int|
        in_probe(n, k, b) && (k < place.0 || k == place.0 && b < place.1) implies ({
        let j = #[trigger] tried(hash, n, k, b);
        table.data@[j] is Some && table.hashes@[j] == hash ==> call_ensures(
            eq,
            (&table.data@[j]->0,),
            false,
        )
    }) by {
        let j = tried(hash, n, k, b);
        if table.data@[j] is Some && table.hashes@[j] == hash {
            assert(table.tags()[j] is Full);
            table.lemma_entry_is_candidate(j, hash, table.data@[j]->0);
        }
    }
    place
}

/// `find` returns the first bucket in the probe order whose element `eq` accepts: of those that
/// hold an element under the hash and are tried earlier, it has rejected each.
pub proof fn lemma_find_returns_the_first_match<T, A: Allocator, F: Fn(&T) -> bool>(
    table: &RawTable<T, A>,
    hash: u64,
    eq: F,
    r: Bucket<T>,
) -> (place: (int, int))
    requires
        table.wf(),
        call_ensures(RawTable::<T, A>::find, (table, hash, eq), Some(r)),
    ensures
        ({
            let n = table.table.bucket_mask + 1;
            let i = tried(hash, n, place.0, place.1);
            &&& in_probe(n, place.0, place.1)
            &&& r.is_at(table.table.ctrl_offset as int, i)
            &&& table.table.data@[i] is Some
            &&& call_ensures(&eq, (&table.table.data@[i]->0,), true)
            &&& forall|k: int, b: int|
                in_probe(n, k, b) && (k < place.0 || k == place.0 && b < place.1) ==> {
                    let j = #[trigger] tried(hash, n, k, b);
                    table.table.data@[j] is Some && table.table.hashes@[j] == hash
                        ==> call_ensures(&eq, (&table.table.data@[j]->0,), false)
                }
        }),
{
    let i = choose|i: int| #[trigger] table.is_bucket(&r, i) && table.table.picks(hash, &eq, i);
    lemma_first_match(&table.table, hash, &eq, i)
}

/// `remove_entry` removes the first element in the probe order that `eq` accepts: of those that
/// are held under the hash and are tried earlier, it has rejected each.
pub proof fn lemma_remove_entry_removes_the_first_match<T, A: Allocator, F: Fn(&T) -> bool>(
    before: RawTable<T, A>,
    hash: u64,
    eq: F,
    r: T,
    after: RawTable<T, A>,
) -> (place: (int, int))
    requires
        before.wf(),
        exists|m: &mut RawTable<T, A>|
            *m == before && *final(m) == after && #[trigger] call_ensures(
                RawTable::<T, A>::remove_entry,
                (m, hash, eq),
                Some(r),
            ),
    ensures
        ({
            let n = before.table.bucket_mask + 1;
            let i = tried(hash, n, place.0, place.1);
            &&& in_probe(n, place.0, place.1)
            &&& before.table.data@[i] == Some(r)
            &&& after.table.data@ == before.table.data@.update(i, None)
            &&& after.table.growth_left == before.table.growth_left + if buckets::in_run(
                before.table.ctrl@,
                n,
                i,
            ) {
                0int
            } else {
                1
            }
            &&& forall|k: int, b: int|
                in_probe(n, k, b) && (k < place.0 || k == place.0 && b < place.1) ==> {
                    let j = #[trigger] tried(hash, n, k, b);
                    before.table.data@[j] is Some && before.table.hashes@[j] == hash
                        ==> call_ensures(&eq, (&before.table.data@[j]->0,), false)
                }
        }),
{
    let i = choose|i: int|
        {
            &&& #[trigger] before.table.picks(hash, &eq, i)
            &&& before.table.data@[i] == Some(r)
            &&& after.table.erased_from(&before.table, i)
        };
    assert(before.table.tags()[i] is Full);
    buckets::lemma_erased(&before.table, &after.table, i);
    lemma_first_match(&before.table, hash, &eq, i)
}

/// `get_mut` lends the first element in the probe order that `eq` accepts: of those that are
/// held under the hash and are tried earlier, it has rejected each.
pub proof fn lemma_get_mut_lends_the_first_match<T, A: Allocator, F: Fn(&T) -> bool>(
    before: RawTable<T, A>,
    hash: u64,
    eq: F,
    r: Option<&mut T>,
)
    requires
        before.wf(),
        exists|m: &mut RawTable<T, A>|
            *m == before && #[trigger] call_ensures(
                RawTable::<T, A>::get_mut,
                (m, hash, eq),
                r,
            ),
        r is Some,
    ensures
        exists|k: int, b: int|
            {
                &&& in_probe(before.table.bucket_mask + 1, k, b)
                &&& before.table.data@[#[trigger] tried(hash, before.table.bucket_mask + 1, k, b)] == Some(*(r->0))
                &&& forall|l: int, c: int|
                    in_probe(before.table.bucket_mask + 1, l, c) && (l < k || l == k && c < b) ==> {
                        let j = #[trigger] tried(hash, before.table.bucket_mask + 1, l, c);
                        before.table.data@[j] is Some && before.table.hashes@[j] == hash
                            ==> call_ensures(&eq, (&before.table.data@[j]->0,), false)
                    }
            },
{
    let i = choose|i: int|
        {
            &&& #[trigger] before.table.picks(hash, &eq, i)
            &&& before.table.data@[i] == Some(*(r->0))
        };
    let place = lemma_first_match(&before.table, hash, &eq, i);
    assert(tried(hash, before.table.n(), place.0, place.1) == i);
}


/// The group of a place in the probe order.
pub proof fn lemma_group_of_place(hash: u64, n: int, k: int, b: int)
    requires
        is_pow2(n),
        in_probe(n, k, b),
    ensures
        0 <= tried(hash, n, k, b) < n,
        model::step_of(hash, n, tried(hash, n, k, b)) == k,
{
    math::lemma_pow2_positive(n);
    lemma_mod_bound((hash as usize) + 8 * (k * (k + 1)) + b, n);
    if n >= 16 {
        lemma_tried(hash, n, k, b);
        model::lemma_slot_unique(hash, n, k, b);
    }
}

} // verus!
