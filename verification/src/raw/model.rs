//! The mathematics of a table: its tags as a sequence, the order in which a
//! probe visits the buckets, the number of tags of a kind, and the elements held.
use crate::control::{h2, Group, Tag};
use crate::math;
use crate::math::tri;
use vstd::arithmetic::div_mod::*;
use vstd::arithmetic::power2::*;
use vstd::multiset::Multiset;
use vstd::prelude::*;

verus! {

// ---------------------------------------------------------------------------
// The probe sequence
// ---------------------------------------------------------------------------

/// The part of the hash that selects the first group to probe.
pub open spec fn h1_spec(hash: u64) -> usize {
    hash as usize
}

/// How many groups a probe visits before it has seen every bucket.
pub open spec fn groups(n: int) -> int {
    if n < Group::WIDTH {
        1
    } else {
        n / Group::WIDTH as int
    }
}

/// Where the `k`-th group of the probe sequence starts, in a table of `n` buckets.
pub open spec fn probe_pos(hash: u64, n: int, k: int) -> int {
    (h1_spec(hash) + Group::WIDTH * tri(k as nat)) % n
}

/// How far bucket `i` lies behind the first bucket of the probe sequence.
pub open spec fn distance(hash: u64, n: int, i: int) -> int {
    (i - probe_pos(hash, n, 0)) % n
}

/// Whether the `k`-th group of a probe sequence is the `g`-th one behind the first,
/// in the order of the buckets.
pub open spec fn lands_on(n: int, k: int, g: int) -> bool {
    0 <= k < groups(n) && tri(k as nat) as int % groups(n) == g
}

/// Which group of the probe sequence holds bucket `i`.
pub open spec fn step_of(hash: u64, n: int, i: int) -> int {
    if n < Group::WIDTH {
        0
    } else {
        choose|k: int| #[trigger]
            lands_on(n, k, distance(hash, n, i) / Group::WIDTH as int)
    }
}

/// At which position of its group bucket `i` is visited.
pub open spec fn bit_of(hash: u64, n: int, i: int) -> int {
    let home = probe_pos(hash, n, 0);
    if n >= Group::WIDTH {
        distance(hash, n, i) % Group::WIDTH as int
    } else if i < home {
        Group::WIDTH - home + i
    } else {
        i - home
    }
}

/// The place of bucket `i` in the order in which a probe visits the buckets.
pub open spec fn rank(hash: u64, n: int, i: int) -> int {
    step_of(hash, n, i) * Group::WIDTH + bit_of(hash, n, i)
}

/// Whether position `b` of the group at `pos` stands for a bucket. In a table
/// smaller than a group, the positions between the buckets and their mirror do not.
pub open spec fn is_real(n: int, pos: int, b: int) -> bool {
    n >= Group::WIDTH || pos + b < n || pos + b >= Group::WIDTH
}

/// The tag at position `b` of the group that starts at `pos`.
pub open spec fn window_tag(tags: Seq<Tag>, pos: int, b: int) -> Tag {
    if is_real(tags.len() as int, pos, b) {
        tags[(pos + b) % (tags.len() as int)]
    } else {
        Tag::Empty
    }
}

/// Numbers that differ by a multiple of `n` have the same remainder.
pub proof fn lemma_same_mod(a: int, b: int, q: int, n: int)
    requires
        n > 0,
        a == b + n * q,
    ensures
        a % n == b % n,
{
    lemma_mod_multiples_vanish(q, b, n);
}

pub proof fn lemma_probe_pos_bound(hash: u64, n: int, k: int)
    requires
        n > 0,
    ensures
        0 <= probe_pos(hash, n, k) < n,
{
    lemma_mod_bound(h1_spec(hash) + Group::WIDTH * tri(k as nat), n);
}

pub proof fn lemma_pow2_16()
    ensures
        is_pow2(16),
{
    reveal_with_fuel(is_pow2, 6);
}

/// The start of the `k`-th group, relative to the first bucket probed.
proof fn lemma_probe_pos_relative(hash: u64, n: int, k: int, i: int) -> (q: int)
    requires
        is_pow2(n),
        n >= Group::WIDTH,
        0 <= k,
    ensures
        n == 16 * groups(n),
        is_pow2(groups(n)),
        probe_pos(hash, n, k) == probe_pos(hash, n, 0) + 16 * (tri(k as nat) as int % groups(n)) + n
            * q,
{
    lemma_pow2_16();
    math::lemma_pow2_divides(16, n);
    let m = groups(n);
    math::lemma_pow2_positive(m);
    let h = h1_spec(hash) as int;
    let t = tri(k as nat) as int;
    assert(tri(0) == 0);
    let a = h / n;
    let b = t / m;
    let c = (h + 16 * t) / n;
    lemma_fundamental_div_mod(h, n);
    lemma_fundamental_div_mod(t, m);
    lemma_fundamental_div_mod(h + 16 * t, n);
    let g = t % m;
    let q = a + b - c;
    assert(16 * t == n * b + 16 * g) by (nonlinear_arith)
        requires
            t == m * b + g,
            n == 16 * m,
    ;
    assert(n * a + n * b - n * c == n * q) by (nonlinear_arith)
        requires
            q == a + b - c,
    ;
    q
}

/// Every bucket is at its step and position of the probe sequence.
pub proof fn lemma_slot(hash: u64, n: int, i: int)
    requires
        is_pow2(n),
        0 <= i < n,
    ensures
        0 <= step_of(hash, n, i) < groups(n),
        0 <= bit_of(hash, n, i) < Group::WIDTH,
        is_real(n, probe_pos(hash, n, step_of(hash, n, i)), bit_of(hash, n, i)),
        (probe_pos(hash, n, step_of(hash, n, i)) + bit_of(hash, n, i)) % n == i,
{
    let home = probe_pos(hash, n, 0);
    lemma_probe_pos_bound(hash, n, 0);
    if n < Group::WIDTH {
        lemma_pow2_16();
        math::lemma_pow2_divides(n, 16);
        let b = bit_of(hash, n, i);
        if i < home {
            lemma_same_mod(16 + i, i, 16int / n, n);
        }
        lemma_small_mod(i as nat, n as nat);
    } else {
        let q0 = lemma_probe_pos_relative(hash, n, 0, i);
        let m = groups(n);
        let d = distance(hash, n, i);
        lemma_mod_bound(i - home, n);
        let g = d / 16;
        let k0 = math::lemma_tri_covers(g, m);
        assert(lands_on(n, k0 as int, g));
        let k = step_of(hash, n, i);
        let q = lemma_probe_pos_relative(hash, n, k, i);
        lemma_fundamental_div_mod(i - home, n);
        let e = (i - home) / n;
        // The bucket is at `home + d`, up to multiples of `n`.
        assert(probe_pos(hash, n, k) + bit_of(hash, n, i) == i + n * (q - e)) by (nonlinear_arith)
            requires
                probe_pos(hash, n, k) == home + 16 * g + n * q,
                bit_of(hash, n, i) == d % 16,
                d == 16 * g + d % 16,
                i - home == n * e + d,
        ;
        lemma_same_mod(probe_pos(hash, n, k) + bit_of(hash, n, i), i, q - e, n);
        lemma_small_mod(i as nat, n as nat);
    }
}

/// Each position of the probe sequence belongs to one bucket only.
pub proof fn lemma_slot_unique(hash: u64, n: int, k: int, b: int)
    requires
        is_pow2(n),
        0 <= k < groups(n),
        0 <= b < Group::WIDTH,
        is_real(n, probe_pos(hash, n, k), b),
    ensures
        ({
            let i = (probe_pos(hash, n, k) + b) % n;
            0 <= i < n && step_of(hash, n, i) == k && bit_of(hash, n, i) == b
        }),
{
    let home = probe_pos(hash, n, 0);
    math::lemma_pow2_positive(n);
    lemma_probe_pos_bound(hash, n, 0);
    lemma_probe_pos_bound(hash, n, k);
    let pos = probe_pos(hash, n, k);
    let i = (pos + b) % n;
    lemma_mod_bound(pos + b, n);
    if n < Group::WIDTH {
        lemma_pow2_16();
        math::lemma_pow2_divides(n, 16);
        if pos + b < n {
            lemma_small_mod((pos + b) as nat, n as nat);
        } else {
            lemma_same_mod(pos + b, pos + b - 16, 16int / n, n);
            lemma_small_mod((pos + b - 16) as nat, n as nat);
        }
    } else {
        let m = groups(n);
        let q = lemma_probe_pos_relative(hash, n, k, i);
        let g = tri(k as nat) as int % m;
        lemma_mod_bound(tri(k as nat) as int, m);
        let e = (pos + b) / n;
        lemma_fundamental_div_mod(pos + b, n);
        assert(i - home == (16 * g + b) + n * (q - e)) by (nonlinear_arith)
            requires
                pos == home + 16 * g + n * q,
                pos + b == n * e + i,
        ;
        lemma_same_mod(i - home, 16 * g + b, q - e, n);
        lemma_small_mod((16 * g + b) as nat, n as nat);
        assert(distance(hash, n, i) == 16 * g + b);
        assert(lands_on(n, k, distance(hash, n, i) / 16));
        let kk = step_of(hash, n, i);
        if kk < k {
            math::lemma_tri_distinct(kk as nat, k as nat, m);
        } else if k < kk {
            math::lemma_tri_distinct(k as nat, kk as nat, m);
        }
    }
}

/// The probe sequence visits every group exactly once: each bucket is visited at
/// one step, and no two buckets are visited at the same place.
pub proof fn lemma_probe_visits_each_bucket_once(hash: u64, n: int, i: int, j: int)
    requires
        is_pow2(n),
        0 <= i < n,
        0 <= j < n,
    ensures
        0 <= rank(hash, n, i) < groups(n) * Group::WIDTH,
        rank(hash, n, i) == rank(hash, n, j) ==> i == j,
{
    lemma_slot(hash, n, i);
    lemma_slot(hash, n, j);
}

/// Two groups of the probe sequence share no bucket.
pub proof fn lemma_probe_groups_disjoint(hash: u64, n: int, k1: int, b1: int, k2: int, b2: int)
    requires
        is_pow2(n),
        0 <= k1 < groups(n),
        0 <= k2 < groups(n),
        k1 != k2,
        0 <= b1 < Group::WIDTH,
        0 <= b2 < Group::WIDTH,
        is_real(n, probe_pos(hash, n, k1), b1),
        is_real(n, probe_pos(hash, n, k2), b2),
    ensures
        (probe_pos(hash, n, k1) + b1) % n != (probe_pos(hash, n, k2) + b2) % n,
{
    lemma_slot_unique(hash, n, k1, b1);
    lemma_slot_unique(hash, n, k2, b2);
}

/// Buckets at the same distance, counted in groups, are in the same group.
pub proof fn lemma_same_step(hash: u64, n: int, i: int, j: int)
    requires
        is_pow2(n),
        0 <= i < n,
        0 <= j < n,
    ensures
        step_of(hash, n, i) == step_of(hash, n, j) <==> distance(hash, n, i) / 16 == distance(
            hash,
            n,
            j,
        ) / 16,
{
    math::lemma_pow2_positive(n);
    lemma_mod_bound(i - probe_pos(hash, n, 0), n);
    lemma_mod_bound(j - probe_pos(hash, n, 0), n);
    if n >= Group::WIDTH {
        lemma_slot(hash, n, i);
        lemma_slot(hash, n, j);
        let q = lemma_probe_pos_relative(hash, n, 0, i);
        let m = groups(n);
        let ki = math::lemma_tri_covers(distance(hash, n, i) / 16, m);
        let kj = math::lemma_tri_covers(distance(hash, n, j) / 16, m);
        assert(lands_on(n, ki as int, distance(hash, n, i) / 16));
        assert(lands_on(n, kj as int, distance(hash, n, j) / 16));
    }
}

// ---------------------------------------------------------------------------
// Where elements may be
// ---------------------------------------------------------------------------

/// Whether a lookup of `hash` reaches bucket `i`: no group that it visits before
/// has an empty bucket, which would end the lookup.
pub open spec fn placed(tags: Seq<Tag>, hash: u64, i: int) -> bool {
    forall|j: int|
        0 <= j < tags.len() && #[trigger] tags[j] == Tag::Empty ==> step_of(
            hash,
            tags.len() as int,
            i,
        ) <= step_of(hash, tags.len() as int, j)
}

/// Whether every group that a probe for `hash` visits before the one of bucket
/// `i` consists of full buckets only.
pub open spec fn settled(tags: Seq<Tag>, hash: u64, i: int) -> bool {
    forall|j: int|
        0 <= j < tags.len() && !(#[trigger] tags[j] is Full) ==> step_of(
            hash,
            tags.len() as int,
            i,
        ) <= step_of(hash, tags.len() as int, j)
}

/// Whether bucket `i` is the first empty or deleted one that a probe for `hash` visits.
pub open spec fn is_insert_slot(tags: Seq<Tag>, hash: u64, i: int) -> bool {
    &&& 0 <= i < tags.len()
    &&& !(tags[i] is Full)
    &&& forall|j: int|
        0 <= j < tags.len() && !(#[trigger] tags[j] is Full) ==> rank(hash, tags.len() as int, i)
            <= rank(hash, tags.len() as int, j)
}

/// The tags of `n` buckets, which were empty, after elements of these hashes were put into
/// these buckets.
pub open spec fn filled(n: int, entries: Seq<(u64, int)>) -> Seq<Tag>
    decreases entries.len(),
{
    if entries.len() == 0 {
        Seq::new(n as nat, |i: int| Tag::Empty)
    } else {
        filled(n, entries.drop_last()).update(
            entries.last().1,
            Tag::Full(h2(entries.last().0)),
        )
    }
}

/// Whether elements of these hashes went into `n` empty buckets one after the other, each
/// into the slot for its hash.
pub open spec fn fills_in_order(n: int, entries: Seq<(u64, int)>) -> bool
    decreases entries.len(),
{
    entries.len() == 0 || {
        &&& fills_in_order(n, entries.drop_last())
        &&& is_insert_slot(
            filled(n, entries.drop_last()),
            entries.last().0,
            entries.last().1,
        )
    }
}

/// The hashes of elements, in the order in which they fill empty buckets, determine the
/// bucket of each.
pub proof fn lemma_hashes_determine_buckets(n: int, a: Seq<(u64, int)>, b: Seq<(u64, int)>)
    requires
        is_pow2(n),
        a.len() == b.len(),
        forall|k: int| 0 <= k < a.len() ==> (#[trigger] a[k]).0 == (#[trigger] b[k]).0,
        fills_in_order(n, a),
        fills_in_order(n, b),
    ensures
        a == b,
    decreases a.len(),
{
    if a.len() > 0 {
        assert forall|k: int| 0 <= k < a.len() - 1 implies (#[trigger] a.drop_last()[k]).0
            == (#[trigger] b.drop_last()[k]).0 by {
            assert(a[k].0 == b[k].0);
        }
        lemma_hashes_determine_buckets(n, a.drop_last(), b.drop_last());
        assert(a.last() == a[a.len() - 1] && b.last() == b[a.len() - 1]);
        math::lemma_pow2_positive(n);
        lemma_filled_len(n, a.drop_last());
        lemma_insert_slot_unique(
            filled(n, a.drop_last()),
            a.last().0,
            a.last().1,
            b.last().1,
        );
        assert(a =~= a.drop_last().push(a.last()));
        assert(b =~= b.drop_last().push(b.last()));
    }
    assert(a =~= b);
}

/// Filling buckets leaves their number.
proof fn lemma_filled_len(n: int, entries: Seq<(u64, int)>)
    requires
        n >= 0,
        fills_in_order(n, entries),
    ensures
        filled(n, entries).len() == n,
    decreases entries.len(),
{
    if entries.len() > 0 {
        lemma_filled_len(n, entries.drop_last());
    }
}

/// Whether bucket `i` may hold an element of that hash, as far as a lookup can tell:
/// the lookup reaches it, and its tag matches.
pub open spec fn is_candidate(tags: Seq<Tag>, hash: u64, i: int) -> bool {
    &&& 0 <= i < tags.len()
    &&& tags[i] == Tag::Full(h2(hash))
    &&& placed(tags, hash, i)
}

/// The first bucket fit for insertion has only full buckets in the groups before it.
pub proof fn lemma_insert_slot_settled(tags: Seq<Tag>, hash: u64, i: int)
    requires
        is_pow2(tags.len() as int),
        is_insert_slot(tags, hash, i),
    ensures
        settled(tags, hash, i),
        placed(tags, hash, i),
{
    let n = tags.len() as int;
    lemma_slot(hash, n, i);
    assert forall|j: int| 0 <= j < n && !(#[trigger] tags[j] is Full) implies step_of(hash, n, i)
        <= step_of(hash, n, j) by {
        lemma_slot(hash, n, j);
    }
}

/// There is one first bucket fit for insertion.
pub proof fn lemma_insert_slot_unique(tags: Seq<Tag>, hash: u64, i: int, j: int)
    requires
        is_pow2(tags.len() as int),
        is_insert_slot(tags, hash, i),
        is_insert_slot(tags, hash, j),
    ensures
        i == j,
{
    lemma_probe_visits_each_bucket_once(hash, tags.len() as int, i, j);
}

/// Filling buckets hides no element from lookups.
pub proof fn lemma_placed_fewer_empty(tags: Seq<Tag>, after: Seq<Tag>, hash: u64, i: int)
    requires
        tags.len() == after.len(),
        placed(tags, hash, i),
        forall|j: int|
            0 <= j < tags.len() && #[trigger] after[j] == Tag::Empty ==> tags[j] == Tag::Empty || j
                == i,
    ensures
        placed(after, hash, i),
{
    assert forall|j: int| 0 <= j < after.len() && #[trigger] after[j] == Tag::Empty implies step_of(
        hash,
        after.len() as int,
        i,
    ) <= step_of(hash, after.len() as int, j) by {
        if j != i {
            assert(tags[j] == Tag::Empty);
        }
    }
}

/// If the run of occupied buckets around bucket `index` is shorter than a group,
/// emptying that bucket hides no element from lookups.
pub proof fn lemma_placed_after_erase(
    tags: Seq<Tag>,
    index: int,
    before: int,
    after: int,
    hash: u64,
    i: int,
)
    requires
        is_pow2(tags.len() as int),
        0 <= index < tags.len(),
        0 <= i < tags.len(),
        tags[index] is Full,
        placed(tags, hash, i),
        tags.len() >= Group::WIDTH,
        before >= 0,
        after >= 0,
        before + after < Group::WIDTH,
        tags[(index - before - 1) % (tags.len() as int)] == Tag::Empty,
        tags[(index + after) % (tags.len() as int)] == Tag::Empty,
    ensures
        placed(tags.update(index, Tag::Empty), hash, i),
{
    let n = tags.len() as int;
    let s = step_of(hash, n, index);
    let b = bit_of(hash, n, index);
    let pos = probe_pos(hash, n, s);
    lemma_slot(hash, n, index);
    lemma_slot(hash, n, i);
    lemma_probe_pos_bound(hash, n, s);
    if s < step_of(hash, n, i) {
        // The group of `index` starts at most `before` buckets in front of it and
        // ends at most `after` behind: it holds one of the two empty buckets.
        let e = (pos + b) / n;
        lemma_fundamental_div_mod(pos + b, n);
        if before + 1 <= b {
            let c = b - before - 1;
            assert(pos + c == (index - before - 1) + n * e) by (nonlinear_arith)
                requires
                    pos + b == n * e + index,
                    c == b - before - 1,
            ;
            lemma_same_mod(pos + c, index - before - 1, e, n);
            lemma_slot_unique(hash, n, s, c);
        } else {
            let c = b + after;
            assert(pos + c == (index + after) + n * e) by (nonlinear_arith)
                requires
                    pos + b == n * e + index,
                    c == b + after,
            ;
            lemma_same_mod(pos + c, index + after, e, n);
            lemma_slot_unique(hash, n, s, c);
        }
        assert(false);
    }
    let updated = tags.update(index, Tag::Empty);
    assert forall|j: int| 0 <= j < updated.len() && #[trigger] updated[j] == Tag::Empty implies step_of(
        hash,
        updated.len() as int,
        i,
    ) <= step_of(hash, updated.len() as int, j) by {
        if j != index {
            assert(tags[j] == Tag::Empty);
        }
    }
}

// ---------------------------------------------------------------------------
// Counting
// ---------------------------------------------------------------------------

/// The three kinds of tags.
pub enum Kind {
    Empty,
    Deleted,
    Full,
}

pub open spec fn kind_of(tag: Tag) -> Kind {
    match tag {
        Tag::Empty => Kind::Empty,
        Tag::Deleted => Kind::Deleted,
        Tag::Full(_) => Kind::Full,
    }
}

/// The number of tags of a kind.
pub open spec fn count(tags: Seq<Tag>, kind: Kind) -> nat
    decreases tags.len(),
{
    if tags.len() == 0 {
        0
    } else {
        count(tags.drop_last(), kind) + if kind_of(tags.last()) == kind {
            1nat
        } else {
            0nat
        }
    }
}

/// How a changed tag changes the number of tags of a kind.
pub proof fn lemma_count_update(tags: Seq<Tag>, i: int, tag: Tag, kind: Kind)
    requires
        0 <= i < tags.len(),
    ensures
        count(tags.update(i, tag), kind) == count(tags, kind) - (if kind_of(tags[i]) == kind {
            1int
        } else {
            0
        }) + (if kind_of(tag) == kind {
            1int
        } else {
            0
        }),
    decreases tags.len(),
{
    let updated = tags.update(i, tag);
    if i == tags.len() - 1 {
        assert(updated.drop_last() =~= tags.drop_last());
    } else {
        lemma_count_update(tags.drop_last(), i, tag, kind);
        assert(updated.drop_last() =~= tags.drop_last().update(i, tag));
    }
}

/// Every tag is of one kind.
pub proof fn lemma_count_total(tags: Seq<Tag>)
    ensures
        count(tags, Kind::Empty) + count(tags, Kind::Deleted) + count(tags, Kind::Full)
            == tags.len(),
    decreases tags.len(),
{
    if tags.len() > 0 {
        lemma_count_total(tags.drop_last());
    }
}

/// A kind that is counted occurs.
pub proof fn lemma_count_positive(tags: Seq<Tag>, kind: Kind) -> (i: int)
    requires
        count(tags, kind) > 0,
    ensures
        0 <= i < tags.len(),
        kind_of(tags[i]) == kind,
    decreases tags.len(),
{
    if kind_of(tags.last()) == kind {
        tags.len() - 1
    } else {
        lemma_count_positive(tags.drop_last(), kind)
    }
}

/// A kind that occurs is counted.
pub proof fn lemma_count_occurs(tags: Seq<Tag>, kind: Kind, i: int)
    requires
        0 <= i < tags.len(),
        kind_of(tags[i]) == kind,
    ensures
        count(tags, kind) > 0,
    decreases tags.len(),
{
    if i < tags.len() - 1 {
        lemma_count_occurs(tags.drop_last(), kind, i);
    }
}

/// A kind that does not occur is counted as zero.
pub proof fn lemma_count_none(tags: Seq<Tag>, kind: Kind)
    requires
        forall|i: int| 0 <= i < tags.len() ==> kind_of(#[trigger] tags[i]) != kind,
    ensures
        count(tags, kind) == 0,
{
    if count(tags, kind) > 0 {
        let i = lemma_count_positive(tags, kind);
    }
}

// ---------------------------------------------------------------------------
// The elements held
// ---------------------------------------------------------------------------

/// The elements that the buckets hold.
pub open spec fn bag<T>(data: Seq<Option<T>>) -> Multiset<T>
    decreases data.len(),
{
    if data.len() == 0 {
        Multiset::empty()
    } else {
        match data.last() {
            Some(value) => bag(data.drop_last()).insert(value),
            None => bag(data.drop_last()),
        }
    }
}

/// Writing to an unoccupied bucket adds the element.
pub proof fn lemma_bag_put<T>(data: Seq<Option<T>>, i: int, value: T)
    requires
        0 <= i < data.len(),
        data[i] is None,
    ensures
        bag(data.update(i, Some(value))) == bag(data).insert(value),
    decreases data.len(),
{
    broadcast use vstd::multiset::group_multiset_axioms;

    let updated = data.update(i, Some(value));
    if i == data.len() - 1 {
        assert(updated.drop_last() =~= data.drop_last());
    } else {
        lemma_bag_put(data.drop_last(), i, value);
        assert(updated.drop_last() =~= data.drop_last().update(i, Some(value)));
        match data.last() {
            Some(last) => {
                assert(bag(data.drop_last()).insert(value).insert(last) =~= bag(
                    data.drop_last(),
                ).insert(last).insert(value));
            },
            None => {},
        }
    }
}

/// Emptying a bucket removes its element.
pub proof fn lemma_bag_take<T>(data: Seq<Option<T>>, i: int)
    requires
        0 <= i < data.len(),
        data[i] is Some,
    ensures
        bag(data) == bag(data.update(i, None)).insert(data[i]->0),
        bag(data.update(i, None)) == bag(data).remove(data[i]->0),
        bag(data).contains(data[i]->0),
{
    broadcast use vstd::multiset::group_multiset_axioms;

    let taken = data.update(i, None);
    lemma_bag_put(taken, i, data[i]->0);
    assert(taken.update(i, data[i]) =~= data);
    assert(bag(taken).insert(data[i]->0).remove(data[i]->0) =~= bag(taken));
}

/// Buckets that are all unoccupied hold nothing.
pub proof fn lemma_bag_empty<T>(data: Seq<Option<T>>)
    requires
        forall|i: int| 0 <= i < data.len() ==> #[trigger] data[i] is None,
    ensures
        bag(data) == Multiset::<T>::empty(),
    decreases data.len(),
{
    if data.len() > 0 {
        lemma_bag_empty(data.drop_last());
    }
}

/// Moving an element to an unoccupied bucket keeps what is held.
pub proof fn lemma_bag_move<T>(data: Seq<Option<T>>, from: int, to: int)
    requires
        0 <= from < data.len(),
        0 <= to < data.len(),
        data[from] is Some,
        data[to] is None,
    ensures
        bag(data.update(from, None).update(to, data[from])) == bag(data),
{
    lemma_bag_take(data, from);
    lemma_bag_put(data.update(from, None), to, data[from]->0);
}

/// Exchanging two elements keeps what is held.
pub proof fn lemma_bag_swap<T>(data: Seq<Option<T>>, a: int, b: int)
    requires
        0 <= a < data.len(),
        0 <= b < data.len(),
        a != b,
        data[a] is Some,
        data[b] is Some,
    ensures
        bag(data.update(a, data[b]).update(b, data[a])) == bag(data),
{
    broadcast use vstd::multiset::group_multiset_axioms;

    let without_a = data.update(a, None);
    let without = without_a.update(b, None);
    lemma_bag_take(data, a);
    lemma_bag_take(without_a, b);
    lemma_bag_put(without, a, data[b]->0);
    let half = without.update(a, data[b]);
    lemma_bag_put(half, b, data[a]->0);
    assert(half.update(b, data[a]) =~= data.update(a, data[b]).update(b, data[a]));
}

/// What is held is in some bucket.
pub proof fn lemma_bag_contains<T>(data: Seq<Option<T>>, value: T) -> (i: int)
    requires
        bag(data).contains(value),
    ensures
        0 <= i < data.len(),
        data[i] == Some(value),
    decreases data.len(),
{
    broadcast use vstd::multiset::group_multiset_axioms;

    if data.last() == Some(value) {
        data.len() - 1
    } else {
        lemma_bag_contains(data.drop_last(), value)
    }
}

// ---------------------------------------------------------------------------
// Ascending indices
// ---------------------------------------------------------------------------

/// The numbers from `lo` to below `hi` that satisfy a predicate, in ascending order.
pub open spec fn filter_range(p: spec_fn(int) -> bool, lo: int, hi: int) -> Seq<int>
    decreases hi - lo,
{
    if lo >= hi {
        Seq::empty()
    } else if p(lo) {
        seq![lo] + filter_range(p, lo + 1, hi)
    } else {
        filter_range(p, lo + 1, hi)
    }
}

/// The indices of the full buckets, in ascending order.
pub open spec fn full_indices(tags: Seq<Tag>) -> Seq<int> {
    filter_range(|j: int| tags[j] is Full, 0, tags.len() as int)
}

/// Predicates that agree select the same numbers.
pub proof fn lemma_filter_same(p: spec_fn(int) -> bool, q: spec_fn(int) -> bool, lo: int, hi: int)
    requires
        forall|j: int| lo <= j < hi ==> #[trigger] p(j) == q(j),
    ensures
        filter_range(p, lo, hi) == filter_range(q, lo, hi),
    decreases hi - lo,
{
    if lo < hi {
        assert(p(lo) == q(lo));
        lemma_filter_same(p, q, lo + 1, hi);
    }
}

/// Numbers that are not selected can be skipped.
pub proof fn lemma_filter_skip(p: spec_fn(int) -> bool, lo: int, mid: int, hi: int)
    requires
        lo <= mid <= hi,
        forall|j: int| lo <= j < mid ==> !#[trigger] p(j),
    ensures
        filter_range(p, lo, hi) == filter_range(p, mid, hi),
    decreases mid - lo,
{
    if lo < mid {
        assert(!p(lo));
        lemma_filter_skip(p, lo + 1, mid, hi);
    }
}

/// The first number that is selected comes first.
pub proof fn lemma_filter_first(p: spec_fn(int) -> bool, lo: int, first: int, hi: int)
    requires
        lo <= first < hi,
        p(first),
        forall|j: int| lo <= j < first ==> !#[trigger] p(j),
    ensures
        filter_range(p, lo, hi).len() > 0,
        filter_range(p, lo, hi)[0] == first,
        filter_range(p, lo, hi).drop_first() == filter_range(p, first + 1, hi),
{
    lemma_filter_skip(p, lo, first, hi);
    assert((seq![first] + filter_range(p, first + 1, hi)).drop_first() =~= filter_range(
        p,
        first + 1,
        hi,
    ));
}

/// A range splits into two.
pub proof fn lemma_filter_split(p: spec_fn(int) -> bool, lo: int, mid: int, hi: int)
    requires
        lo <= mid <= hi,
    ensures
        filter_range(p, lo, hi) == filter_range(p, lo, mid) + filter_range(p, mid, hi),
    decreases mid - lo,
{
    if lo == mid {
        assert(filter_range(p, lo, mid) + filter_range(p, mid, hi) =~= filter_range(p, mid, hi));
    } else {
        lemma_filter_split(p, lo + 1, mid, hi);
        if p(lo) {
            assert(seq![lo] + (filter_range(p, lo + 1, mid) + filter_range(p, mid, hi)) =~= (
            seq![lo] + filter_range(p, lo + 1, mid)) + filter_range(p, mid, hi));
        }
    }
}

/// What is selected is in the range and satisfies the predicate, in ascending order;
/// and everything of that kind is selected.
pub proof fn lemma_filter_members(p: spec_fn(int) -> bool, lo: int, hi: int)
    ensures
        forall|x: int| #[trigger]
            filter_range(p, lo, hi).contains(x) <==> lo <= x < hi && p(x),
        forall|a: int, b: int|
            0 <= a < b < filter_range(p, lo, hi).len() ==> #[trigger] filter_range(p, lo, hi)[a]
                < #[trigger] filter_range(p, lo, hi)[b],
    decreases hi - lo,
{
    if lo < hi {
        lemma_filter_members(p, lo + 1, hi);
        let rest = filter_range(p, lo + 1, hi);
        let all = filter_range(p, lo, hi);
        if p(lo) {
            assert(all[0] == lo);
            assert forall|x: int| #[trigger] all.contains(x) <==> lo <= x < hi && p(x) by {
                if all.contains(x) {
                    let i = all.index_of(x);
                    if i > 0 {
                        assert(rest[i - 1] == x);
                        assert(rest.contains(x));
                    }
                }
                if lo < x < hi && p(x) {
                    assert(rest.contains(x));
                    let i = rest.index_of(x);
                    assert(all[i + 1] == x);
                }
            }
            assert forall|a: int, b: int| 0 <= a < b < all.len() implies #[trigger] all[a]
                < #[trigger] all[b] by {
                assert(all[b] == rest[b - 1]);
                if a > 0 {
                    assert(all[a] == rest[a - 1]);
                } else {
                    assert(rest.contains(rest[b - 1]));
                }
            }
        }
    }
}

/// There are as many full indices as full tags.
pub proof fn lemma_full_indices_len(tags: Seq<Tag>)
    ensures
        full_indices(tags).len() == count(tags, Kind::Full),
    decreases tags.len(),
{
    let n = tags.len() as int;
    let p = |j: int| tags[j] is Full;
    if n > 0 {
        let less = tags.drop_last();
        let q = |j: int| less[j] is Full;
        lemma_full_indices_len(less);
        lemma_filter_split(p, 0, n - 1, n);
        lemma_filter_same(p, q, 0, n - 1);
        reveal_with_fuel(filter_range, 2);
    }
}

/// Dropping the first selected number from the predicate drops it from the selection.
pub proof fn lemma_filter_pop(
    p: spec_fn(int) -> bool,
    q: spec_fn(int) -> bool,
    first: int,
    hi: int,
)
    requires
        0 <= first < hi,
        p(first),
        forall|j: int| 0 <= j < first ==> !#[trigger] p(j),
        forall|j: int| 0 <= j < hi ==> #[trigger] q(j) == (p(j) && j != first),
    ensures
        filter_range(p, 0, hi).len() > 0,
        filter_range(p, 0, hi)[0] == first,
        filter_range(q, 0, hi) == filter_range(p, 0, hi).drop_first(),
{
    lemma_filter_first(p, 0, first, hi);
    assert forall|j: int| 0 <= j < first + 1 implies !#[trigger] q(j) by {
        if j < first {
            assert(!p(j));
        }
    }
    lemma_filter_skip(q, 0, first + 1, hi);
    assert forall|j: int| first + 1 <= j < hi implies #[trigger] p(j) == q(j) by {
        assert(q(j) == (p(j) && j != first));
    }
    lemma_filter_same(p, q, first + 1, hi);
}

} // verus!
