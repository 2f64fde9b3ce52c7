//! Hash probing: the cursor over the probe sequence, and the group-scanning loops
//! of the table.
//!
//! A [`ProbeCursor`] only produces group positions and the probe termination
//! condition; it never reads control bytes or touches buckets itself.
use crate::control::{h2, Group, Tag};
use crate::math;
use crate::math::tri;
use crate::raw::model;
use crate::raw::storage::RawTableInner;
use vstd::arithmetic::div_mod::*;
use vstd::arithmetic::power2::*;
use vstd::prelude::*;

verus! {

/// Primary hash function, used to select the initial bucket to probe from.
pub fn h1(hash: u64) -> (r: usize)
    ensures
        r == model::h1_spec(hash),
{
    // On 32-bit platforms the higher hash bits are ignored.
    #[verifier::truncate]
    (hash as usize)
}

/// Probe sequence based on triangular numbers, which visits every group of a table
/// exactly once, since the table size is a power of two.
///
/// It first jumps by 1 group, which just continues a linear scan, then by 2 groups,
/// then by 3 groups, and so on.
#[derive(Clone, Copy)]
pub struct ProbeSeq {
    pub pos: usize,
    pub stride: usize,
}

impl ProbeSeq {
    /// Moves on to the next group.
    pub fn move_next(&mut self, bucket_mask: usize)
        requires
            bucket_mask < usize::MAX,
            is_pow2(bucket_mask + 1),
            old(self).stride <= bucket_mask,
        ensures
            final(self).stride == old(self).stride + Group::WIDTH,
            final(self).pos == (old(self).pos + final(self).stride) % (bucket_mask + 1),
    {
        proof {
            crate::raw::layout::lemma_pow2_usize_bound(bucket_mask + 1);
        }
        self.stride = self.stride.wrapping_add(Group::WIDTH);
        proof {
            math::lemma_masked_add(self.pos, self.stride, bucket_mask);
        }
        self.pos = self.pos.wrapping_add(self.stride) & bucket_mask;
    }
}

/// A cursor over the probe sequence of a table.
///
/// The cursor never terminates on its own, but visits each bucket group exactly
/// once. The loop using the cursor must terminate upon reaching a group for which
/// [`ProbeCursor::is_terminal`] returns `true`.
#[derive(Clone, Copy)]
pub struct ProbeCursor {
    /// The underlying triangular probe sequence.
    pub seq: ProbeSeq,
    /// Mask to get an index from a hash value. The value is one less than the
    /// number of buckets in the table.
    pub bucket_mask: usize,
}

impl ProbeCursor {
    /// Whether the cursor is within a table whose size is a power of two.
    pub open spec fn wf(&self) -> bool {
        &&& self.bucket_mask < usize::MAX
        &&& is_pow2(self.bucket_mask + 1)
        &&& self.seq.pos <= self.bucket_mask
    }

    /// Whether the cursor is at the `k`-th group of the probe sequence of `hash`.
    pub open spec fn at(&self, hash: u64, k: int) -> bool {
        &&& self.wf()
        &&& 0 <= k
        &&& self.seq.pos == model::probe_pos(hash, self.bucket_mask + 1, k)
        &&& self.seq.stride == k * Group::WIDTH
    }

    /// Creates a cursor starting at the group selected by `h1(hash)`.
    pub fn new(hash: u64, bucket_mask: usize) -> (r: Self)
        requires
            bucket_mask < usize::MAX,
            is_pow2(bucket_mask + 1),
        ensures
            r.at(hash, 0),
            r.bucket_mask == bucket_mask,
    {
        let start: usize = h1(hash);
        proof {
            math::lemma_mask_is_mod(start, bucket_mask);
            lemma_mod_bound(start as int, bucket_mask + 1);
            assert(tri(0) == 0);
        }
        ProbeCursor { seq: ProbeSeq { pos: start & bucket_mask, stride: 0 }, bucket_mask }
    }

    /// Returns the position of the first control byte of the current group.
    ///
    /// The returned position is always in the range `0..=bucket_mask`.
    pub fn group_pos(&self) -> (r: usize)
        requires
            self.wf(),
        ensures
            r == self.seq.pos,
            r <= self.bucket_mask,
    {
        self.seq.pos
    }

    /// Advances the cursor to the next group in the probe sequence.
    pub fn move_next(&mut self)
        requires
            old(self).wf(),
            old(self).seq.stride <= old(self).bucket_mask,
        ensures
            final(self).wf(),
            final(self).bucket_mask == old(self).bucket_mask,
            forall|hash: u64, k: int| #[trigger]
                old(self).at(hash, k) ==> final(self).at(hash, k + 1),
    {
        self.seq.move_next(self.bucket_mask);
        proof {
            let n = self.bucket_mask + 1;
            lemma_mod_bound(old(self).seq.pos + self.seq.stride, n);
            assert forall|hash: u64, k: int| #[trigger] old(self).at(hash, k) implies self.at(
                hash,
                k + 1,
            ) by {
                let x = model::h1_spec(hash) + Group::WIDTH * tri(k as nat);
                let y = model::h1_spec(hash) + Group::WIDTH * tri((k + 1) as nat);
                assert(tri((k + 1) as nat) == tri(k as nat) + (k + 1));
                lemma_fundamental_div_mod(x, n);
                model::lemma_same_mod(y, old(self).seq.pos + self.seq.stride, x / n, n);
            }
        }
    }

    /// Checks whether the cursor has visited every group of the table.
    pub fn is_last(&self) -> (r: bool)
        requires
            self.wf(),
            self.seq.stride <= self.bucket_mask,
        ensures
            r <==> self.seq.stride + Group::WIDTH > self.bucket_mask,
    {
        self.bucket_mask - self.seq.stride < Group::WIDTH
    }

    /// Maps a bit index within the current group to a bucket index in the
    /// table.
    pub fn bucket_index(&self, bit: usize) -> (r: usize)
        requires
            self.wf(),
            bit < Group::WIDTH,
        ensures
            r == (self.seq.pos + bit) % (self.bucket_mask + 1),
            r <= self.bucket_mask,
    {
        proof {
            crate::raw::layout::lemma_pow2_usize_bound(self.bucket_mask + 1);
            math::lemma_mask_is_mod((self.seq.pos + bit) as usize, self.bucket_mask);
            lemma_mod_bound(self.seq.pos + bit, self.bucket_mask + 1);
        }
        (self.seq.pos + bit) & self.bucket_mask
    }

    /// The termination condition of a probe: probing must stop at the first
    /// group that contains an empty control byte.
    pub fn is_terminal(group: &Group) -> (r: bool)
        ensures
            r <==> exists|b: int| 0 <= b < Group::WIDTH && #[trigger] group@[b] == Tag::Empty,
    {
        let mask = group.match_empty();
        proof {
            if exists|b: int| 0 <= b < Group::WIDTH && #[trigger] group@[b] == Tag::Empty {
                let b = choose|b: int|
                    0 <= b < Group::WIDTH && #[trigger] group@[b] == Tag::Empty;
                assert(mask.bit(b));
            }
        }
        mask.any_bit_set()
    }
}

/// What the bytes of a group of the probe sequence stand for.
pub open spec fn is_group_of(group: Group, tags: Seq<Tag>, hash: u64, k: int) -> bool {
    forall|b: int|
        0 <= b < Group::WIDTH ==> #[trigger] group@[b] == model::window_tag(
            tags,
            model::probe_pos(hash, tags.len() as int, k),
            b,
        )
}

/// A byte of a group that is not just padding is the byte of the bucket that the
/// probe visits there.
pub proof fn lemma_group_byte(group: Group, tags: Seq<Tag>, hash: u64, k: int, b: int)
    requires
        is_pow2(tags.len() as int),
        0 <= k < model::groups(tags.len() as int),
        0 <= b < Group::WIDTH,
        is_group_of(group, tags, hash, k),
    ensures
        ({
            let n = tags.len() as int;
            let pos = model::probe_pos(hash, n, k);
            let i = (pos + b) % n;
            if model::is_real(n, pos, b) {
                &&& 0 <= i < n
                &&& group@[b] == tags[i]
                &&& model::step_of(hash, n, i) == k
                &&& model::bit_of(hash, n, i) == b
            } else {
                group@[b] == Tag::Empty
            }
        }),
{
    let n = tags.len() as int;
    if model::is_real(n, model::probe_pos(hash, n, k), b) {
        model::lemma_slot_unique(hash, n, k, b);
    }
    assert(group@[b] == model::window_tag(tags, model::probe_pos(hash, n, k), b));
}

/// A bucket that the probe visits at step `k` is in the group of that step.
pub proof fn lemma_bucket_in_group(group: Group, tags: Seq<Tag>, hash: u64, i: int)
    requires
        is_pow2(tags.len() as int),
        0 <= i < tags.len(),
        is_group_of(group, tags, hash, model::step_of(hash, tags.len() as int, i)),
    ensures
        0 <= model::bit_of(hash, tags.len() as int, i) < Group::WIDTH,
        group@[model::bit_of(hash, tags.len() as int, i)] == tags[i],
{
    let n = tags.len() as int;
    model::lemma_slot(hash, n, i);
    let b = model::bit_of(hash, n, i);
    assert(group@[b] == model::window_tag(
        tags,
        model::probe_pos(hash, n, model::step_of(hash, n, i)),
        b,
    ));
}

/// The first empty or deleted byte of the first group that has one leads to the
/// first bucket fit for insertion, after the fix-up for small tables.
proof fn lemma_insert_slot_found(
    group: Group,
    tags: Seq<Tag>,
    hash: u64,
    k: int,
    b: int,
    i: int,
    r: int,
)
    requires
        is_pow2(tags.len() as int),
        0 <= k < model::groups(tags.len() as int),
        0 <= b < Group::WIDTH,
        is_group_of(group, tags, hash, k),
        forall|j: int|
            0 <= j < tags.len() && !(#[trigger] tags[j] is Full) ==> model::step_of(
                hash,
                tags.len() as int,
                j,
            ) >= k,
        !(group@[b] is Full),
        forall|c: int| 0 <= c < b ==> #[trigger] group@[c] is Full,
        i == (model::probe_pos(hash, tags.len() as int, k) + b) % (tags.len() as int),
        0 <= r < tags.len(),
        !(tags[r] is Full),
        !(tags[i] is Full) ==> r == i,
        tags[i] is Full ==> forall|j: int| 0 <= j < r ==> #[trigger] tags[j] is Full,
    ensures
        model::is_insert_slot(tags, hash, r),
{
    let n = tags.len() as int;
    let pos = model::probe_pos(hash, n, k);
    model::lemma_probe_pos_bound(hash, n, k);
    lemma_group_byte(group, tags, hash, k, b);
    model::lemma_slot(hash, n, r);
    assert forall|j: int| 0 <= j < n && !(#[trigger] tags[j] is Full) implies model::rank(
        hash,
        n,
        r,
    ) <= model::rank(hash, n, j) by {
        model::lemma_slot(hash, n, j);
        if model::step_of(hash, n, j) == k {
            lemma_bucket_in_group(group, tags, hash, j);
            let c = model::bit_of(hash, n, j);
            assert(c >= b);
        }
        if !model::is_real(n, pos, b) {
            // The first such byte is the padding right behind the buckets, so every
            // bucket from the first one probed on is full.
            lemma_group_byte(group, tags, hash, k, n - pos);
            assert(b == n - pos);
            model::lemma_same_mod(n, 0, 1, n);
            lemma_small_mod(0, n as nat);
            assert(i == 0);
            lemma_bucket_in_group(group, tags, hash, r);
        }
    }
}

impl<T> RawTableInner<T> {
    /// Whether the table has an empty or deleted bucket.
    pub open spec fn has_room(&self) -> bool {
        exists|j: int| 0 <= j < self.n() && !(#[trigger] self.tags()[j] is Full)
    }

    /// Whether `r` is the bucket that the fix-up of an insertion index yields: that
    /// index itself unless the bucket is full, else the first bucket that is not.
    pub open spec fn fixed_up(&self, index: int, r: int) -> bool {
        &&& 0 <= r < self.n()
        &&& !(self.tags()[r] is Full)
        &&& !(self.tags()[index] is Full) ==> r == index
        &&& self.tags()[index] is Full ==> forall|j: int|
            0 <= j < r ==> #[trigger] self.tags()[j] is Full
    }

    /// Fixes up an insertion index returned by `find_insert_index_in_group`.
    ///
    /// In tables smaller than the group width, trailing control bytes outside the range of
    /// the table are empty, and masking their position may yield a full bucket. In that case
    /// a second scan, from the beginning of the table, finds a bucket that is not full.
    pub fn fix_insert_index(&self, index: usize) -> (r: usize)
        requires
            self.ctrl_wf(),
            index < self.n(),
            self.tags()[index as int] is Full ==> self.n() < Group::WIDTH && self.has_room(),
        ensures
            self.fixed_up(index as int, r as int),
    {
        if self.is_bucket_full(index) {
            let group = self.load_group(0);
            let mask = group.match_empty_or_deleted();
            let found = mask.lowest_set_bit();
            proof {
                let n = self.n();
                let tags = self.tags();
                assert forall|j: int| 0 <= j < n implies group@[j] == #[trigger] tags[j] by {
                    assert(group@[j] == model::window_tag(tags, 0, j));
                    lemma_small_mod(j as nat, n as nat);
                }
                let j = choose|j: int| 0 <= j < n && !(#[trigger] tags[j] is Full);
                assert(mask.bit(j));
                assert forall|c: int| 0 <= c < found->0 implies #[trigger] tags[c] is Full by {
                    assert(!mask.bit(c));
                }
            }
            found.unwrap()
        } else {
            index
        }
    }

    /// Finds the position to insert something in a group.
    ///
    /// **This may have false positives and must be fixed up with `fix_insert_index`
    /// before it's used.**
    pub fn find_insert_index_in_group(&self, group: &Group, cursor: &ProbeCursor) -> (r: Option<
        usize,
    >)
        requires
            cursor.wf(),
        ensures
            match r {
                Some(index) => exists|b: int|
                    {
                        &&& 0 <= b < Group::WIDTH
                        &&& !(#[trigger] group@[b] is Full)
                        &&& forall|c: int| 0 <= c < b ==> #[trigger] group@[c] is Full
                        &&& index == (cursor.seq.pos + b) % (cursor.bucket_mask + 1)
                        &&& index <= cursor.bucket_mask
                    },
                None => forall|b: int| 0 <= b < Group::WIDTH ==> #[trigger] group@[b] is Full,
            },
    {
        let mask = group.match_empty_or_deleted();
        let bit = mask.lowest_set_bit();
        proof {
            assert forall|b: int| 0 <= b < Group::WIDTH implies (mask.bit(b) <==> !(
            #[trigger] group@[b] is Full)) by {}
        }
        match bit {
            Some(b) => {
                let index: usize = cursor.bucket_index(b);
                assert(!(group@[b as int] is Full));
                assert forall|c: int| 0 <= c < b implies #[trigger] group@[c] is Full by {
                    assert(!mask.bit(c));
                }
                Some(index)
            },
            None => None,
        }
    }

    /// Returns a cursor over the probe sequence on the table for the given
    /// hash.
    pub fn probe_seq(&self, hash: u64) -> (r: ProbeCursor)
        requires
            self.ctrl_wf(),
        ensures
            r.at(hash, 0),
            r.bucket_mask == self.bucket_mask,
    {
        ProbeCursor::new(hash, self.bucket_mask)
    }

    /// Checks whether a probe for `hash` visits both buckets in the same group.
    pub fn is_in_same_group(&self, i: usize, new_i: usize, hash: u64) -> (r: bool)
        requires
            self.ctrl_wf(),
            i < self.n(),
            new_i < self.n(),
        ensures
            r == (model::step_of(hash, self.n(), i as int) == model::step_of(
                hash,
                self.n(),
                new_i as int,
            )),
    {
        let probe_seq_pos: usize = self.probe_seq(hash).group_pos();
        proof {
            math::lemma_masked_sub(i, probe_seq_pos, self.bucket_mask);
            math::lemma_masked_sub(new_i, probe_seq_pos, self.bucket_mask);
            model::lemma_same_step(hash, self.n(), i as int, new_i as int);
        }
        let probe_index: usize = (i.wrapping_sub(probe_seq_pos) & self.bucket_mask) / Group::WIDTH;
        let new_probe_index: usize = (new_i.wrapping_sub(probe_seq_pos) & self.bucket_mask)
            / Group::WIDTH;
        probe_index == new_probe_index
    }

    /// Loads the group that the cursor is at.
    fn load_probe_group(&self, cursor: &ProbeCursor, Ghost(hash): Ghost<u64>, Ghost(k): Ghost<int>)
        -> (r: Group)
        requires
            self.ctrl_wf(),
            cursor.bucket_mask == self.bucket_mask,
            cursor.at(hash, k),
        ensures
            is_group_of(r, self.tags(), hash, k),
    {
        self.load_group(cursor.group_pos())
    }

    /// Searches for an empty or deleted bucket which is suitable for inserting
    /// a new element, returning its index.
    ///
    /// That is the first such bucket in the order in which a probe for the hash
    /// visits the buckets.
    pub fn find_insert_index(&self, hash: u64) -> (r: usize)
        requires
            self.ctrl_wf(),
            self.has_room(),
        ensures
            model::is_insert_slot(self.tags(), hash, r as int),
    {
        let ghost tags = self.tags();
        let ghost n = self.n();
        let ghost room = choose|j: int| 0 <= j < n && !(#[trigger] tags[j] is Full);
        let ghost mut k: int = 0;
        let mut cursor = self.probe_seq(hash);
        proof {
            model::lemma_slot(hash, n, room);
            assert forall|j: int| 0 <= j < n && !(#[trigger] tags[j] is Full) implies model::step_of(
                hash,
                n,
                j,
            ) >= 0 by {
                model::lemma_slot(hash, n, j);
            }
        }
        loop
            invariant
                self.ctrl_wf(),
                self.has_room(),
                tags == self.tags(),
                n == self.n(),
                cursor.bucket_mask == self.bucket_mask,
                cursor.at(hash, k),
                0 <= room < n,
                !(tags[room] is Full),
                k <= model::step_of(hash, n, room) < model::groups(n),
                forall|j: int|
                    0 <= j < n && !(#[trigger] tags[j] is Full) ==> model::step_of(hash, n, j) >= k,
            decreases model::groups(n) - k,
        {
            let group = self.load_probe_group(&cursor, Ghost(hash), Ghost(k));
            let index = self.find_insert_index_in_group(&group, &cursor);
            match index {
                Some(index) => {
                    proof {
                        self.lemma_insert_index(hash, &group, k, index as int);
                    }
                    let r: usize = self.fix_insert_index(index);
                    return r;
                },
                None => {},
            }
            proof {
                assert forall|j: int| 0 <= j < n && !(#[trigger] tags[j] is Full) implies model::step_of(
                    hash,
                    n,
                    j,
                ) >= k + 1 by {
                    if model::step_of(hash, n, j) == k {
                        lemma_bucket_in_group(group, tags, hash, j);
                    }
                }
                self.lemma_stride(k);
            }
            cursor.move_next();
            proof {
                k = k + 1;
            }
        }
    }

    /// Before its last step the probe sequence has not strode past the table.
    proof fn lemma_stride(&self, k: int)
        requires
            self.ctrl_wf(),
            0 <= k < model::groups(self.n()),
        ensures
            k * Group::WIDTH <= self.bucket_mask,
    {
        if self.n() >= Group::WIDTH {
            model::lemma_pow2_16();
            math::lemma_pow2_divides(16, self.n());
        }
    }

    /// The last group of the probe sequence is the one whose end is the end of the table.
    proof fn lemma_last_group(&self, k: int)
        requires
            self.ctrl_wf(),
            0 <= k < model::groups(self.n()),
        ensures
            k + 1 == model::groups(self.n()) <==> k * Group::WIDTH + Group::WIDTH
                > self.bucket_mask,
    {
        if self.n() >= Group::WIDTH {
            model::lemma_pow2_16();
            math::lemma_pow2_divides(16, self.n());
        }
    }

    /// Asks `eq` for the full buckets of a group whose tag matches the hash, up to
    /// the first one that it accepts.
    fn scan_group(
        &self,
        hash: u64,
        group: &Group,
        cursor: &ProbeCursor,
        eq: &impl Fn(usize) -> bool,
        Ghost(k): Ghost<int>,
    ) -> (r: Option<usize>)
        requires
            self.ctrl_wf(),
            cursor.bucket_mask == self.bucket_mask,
            cursor.at(hash, k),
            k < model::groups(self.n()),
            is_group_of(*group, self.tags(), hash, k),
            forall|j: int|
                0 <= j < self.n() && #[trigger] self.tags()[j] == Tag::Empty ==> model::step_of(
                    hash,
                    self.n(),
                    j,
                ) >= k,
            forall|i: usize| #[trigger]
                model::is_candidate(self.tags(), hash, i as int) ==> call_requires(eq, (i,)),
        ensures
            match r {
                Some(i) => {
                    &&& model::is_candidate(self.tags(), hash, i as int)
                    &&& model::step_of(hash, self.n(), i as int) == k
                    &&& call_ensures(eq, (i,), true)
                    &&& forall|j: usize| #[trigger]
                        model::is_candidate(self.tags(), hash, j as int) && model::step_of(
                            hash,
                            self.n(),
                            j as int,
                        ) == k && model::bit_of(hash, self.n(), j as int) < model::bit_of(
                            hash,
                            self.n(),
                            i as int,
                        ) ==> call_ensures(eq, (j,), false)
                },
                None => forall|j: usize| #[trigger]
                    model::is_candidate(self.tags(), hash, j as int) && model::step_of(
                        hash,
                        self.n(),
                        j as int,
                    ) == k ==> call_ensures(eq, (j,), false),
            },
    {
        let ghost tags = self.tags();
        let ghost n = self.n();
        let tag_hash = Tag::full(hash);
        let mask = group.match_tag(tag_hash);
        let mut bits = mask.into_iter();
        proof {
            assert forall|j: usize| #[trigger]
                model::is_candidate(tags, hash, j as int) && model::step_of(hash, n, j as int)
                    == k implies mask.bit(model::bit_of(hash, n, j as int)) by {
                lemma_bucket_in_group(*group, tags, hash, j as int);
            }
        }
        loop
            invariant
                self.ctrl_wf(),
                tags == self.tags(),
                n == self.n(),
                tag_hash == Tag::Full(h2(hash)),
                cursor.bucket_mask == self.bucket_mask,
                cursor.at(hash, k),
                0 <= k < model::groups(n),
                is_group_of(*group, tags, hash, k),
                forall|b: int| mask.bit(b) <==> 0 <= b < Group::WIDTH && group@[b] == tag_hash,
                forall|j: usize| #[trigger]
                    model::is_candidate(tags, hash, j as int) && model::step_of(hash, n, j as int)
                        == k ==> mask.bit(model::bit_of(hash, n, j as int)),
                forall|j: int|
                    0 <= j < n && #[trigger] tags[j] == Tag::Empty ==> model::step_of(hash, n, j)
                        >= k,
                forall|b: int| bits.0.bit(b) ==> mask.bit(b),
                forall|i: usize| #[trigger]
                    model::is_candidate(tags, hash, i as int) ==> call_requires(eq, (i,)),
                forall|j: usize| #[trigger]
                    model::is_candidate(tags, hash, j as int) && model::step_of(hash, n, j as int)
                        == k && !bits.0.bit(model::bit_of(hash, n, j as int)) ==> call_ensures(
                        eq,
                        (j,),
                        false,
                    ),
            decreases bits.0.0,
        {
            let ghost before = bits.0;
            match bits.next() {
                Some(bit) => {
                    let index: usize = cursor.bucket_index(bit);
                    proof {
                        lemma_group_byte(*group, tags, hash, k, bit as int);
                        assert(mask.bit(bit as int));
                        assert(model::is_candidate(tags, hash, index as int));
                    }
                    if eq(index) {
                        return Some(index);
                    }
                    proof {
                        assert forall|j: usize| #[trigger]
                            model::is_candidate(tags, hash, j as int) && model::step_of(
                                hash,
                                n,
                                j as int,
                            ) == k && !bits.0.bit(
                                model::bit_of(hash, n, j as int),
                            ) implies call_ensures(eq, (j,), false) by {
                            if model::bit_of(hash, n, j as int) == bit {
                                model::lemma_probe_visits_each_bucket_once(
                                    hash,
                                    n,
                                    j as int,
                                    index as int,
                                );
                            }
                        }
                    }
                },
                None => {
                    return None;
                },
            }
        }
    }

    /// Searches for an element in a table, returning the `index` of the found element.
    ///
    /// The `eq` function is asked for the full buckets whose tag matches the hash,
    /// in the order in which a probe visits them, up to the first one that it accepts.
    pub fn find_inner(&self, hash: u64, eq: &impl Fn(usize) -> bool) -> (r: Option<usize>)
        requires
            self.ctrl_wf(),
            exists|e: int| 0 <= e < self.n() && #[trigger] self.tags()[e] == Tag::Empty,
            forall|i: usize| #[trigger]
                model::is_candidate(self.tags(), hash, i as int) ==> call_requires(eq, (i,)),
        ensures
            match r {
                Some(i) => self.found(hash, eq, i),
                None => self.not_found(hash, eq),
            },
    {
        let ghost tags = self.tags();
        let ghost n = self.n();
        let ghost e0 = choose|e: int| 0 <= e < n && #[trigger] tags[e] == Tag::Empty;
        let ghost mut k: int = 0;
        let mut cursor = self.probe_seq(hash);
        proof {
            assert forall|j: int| 0 <= j < n implies 0 <= #[trigger] model::step_of(hash, n, j)
                < model::groups(n) by {
                model::lemma_slot(hash, n, j);
            }
        }
        loop
            invariant
                self.ctrl_wf(),
                tags == self.tags(),
                n == self.n(),
                cursor.bucket_mask == self.bucket_mask,
                cursor.at(hash, k),
                0 <= e0 < n,
                tags[e0] == Tag::Empty,
                k < model::groups(n),
                forall|j: int|
                    0 <= j < n ==> 0 <= #[trigger] model::step_of(hash, n, j) < model::groups(n),
                forall|j: int|
                    0 <= j < n && #[trigger] tags[j] == Tag::Empty ==> model::step_of(hash, n, j)
                        >= k,
                forall|i: usize| #[trigger]
                    model::is_candidate(tags, hash, i as int) ==> call_requires(eq, (i,)),
                forall|j: usize| #[trigger]
                    model::is_candidate(tags, hash, j as int) && model::step_of(hash, n, j as int)
                        < k ==> call_ensures(eq, (j,), false),
            decreases model::groups(n) - k,
        {
            let group = self.load_probe_group(&cursor, Ghost(hash), Ghost(k));
            let found = self.scan_group(hash, &group, &cursor, eq, Ghost(k));
            if found.is_some() {
                proof {
                    self.lemma_found(hash, eq, k, found->0);
                }
                return found;
            }
            if ProbeCursor::is_terminal(&group) {
                proof {
                    self.lemma_not_found(hash, eq, &group, k);
                }
                return None;
            }
            proof {
                self.lemma_not_terminal(hash, &group, k);
                assert(tags[e0] == Tag::Empty);
                self.lemma_stride(k);
            }
            cursor.move_next();
            proof {
                k = k + 1;
            }
        }
    }

    /// Whether `eq` accepts bucket `i`, which may hold an element of that hash, and
    /// rejects all such buckets that a probe visits before.
    pub open spec fn found<F: Fn(usize) -> bool>(&self, hash: u64, eq: &F, i: usize) -> bool {
        &&& model::is_candidate(self.tags(), hash, i as int)
        &&& call_ensures(eq, (i,), true)
        &&& forall|j: usize| #[trigger]
            model::is_candidate(self.tags(), hash, j as int) && model::rank(
                hash,
                self.n(),
                j as int,
            ) < model::rank(hash, self.n(), i as int) ==> call_ensures(eq, (j,), false)
    }

    /// Whether `eq` rejects every bucket that may hold an element of that hash.
    pub open spec fn not_found<F: Fn(usize) -> bool>(&self, hash: u64, eq: &F) -> bool {
        forall|j: usize| #[trigger]
            model::is_candidate(self.tags(), hash, j as int) ==> call_ensures(eq, (j,), false)
    }

    proof fn lemma_found<F: Fn(usize) -> bool>(&self, hash: u64, eq: &F, k: int, i: usize)
        requires
            self.ctrl_wf(),
            model::is_candidate(self.tags(), hash, i as int),
            model::step_of(hash, self.n(), i as int) == k,
            call_ensures(eq, (i,), true),
            forall|j: usize| #[trigger]
                model::is_candidate(self.tags(), hash, j as int) && (model::step_of(
                    hash,
                    self.n(),
                    j as int,
                ) < k || model::step_of(hash, self.n(), j as int) == k && model::bit_of(
                    hash,
                    self.n(),
                    j as int,
                ) < model::bit_of(hash, self.n(), i as int)) ==> call_ensures(eq, (j,), false),
        ensures
            self.found(hash, eq, i),
    {
        let n = self.n();
        model::lemma_slot(hash, n, i as int);
        assert forall|j: usize| #[trigger]
            model::is_candidate(self.tags(), hash, j as int) && model::rank(hash, n, j as int)
                < model::rank(hash, n, i as int) implies call_ensures(eq, (j,), false) by {
            model::lemma_slot(hash, n, j as int);
        }
    }

    /// A group with an empty byte is the last one that can hold an element of the hash.
    proof fn lemma_not_found<F: Fn(usize) -> bool>(&self, hash: u64, eq: &F, group: &Group, k: int)
        requires
            self.ctrl_wf(),
            0 <= k < model::groups(self.n()),
            is_group_of(*group, self.tags(), hash, k),
            exists|b: int| 0 <= b < Group::WIDTH && #[trigger] group@[b] == Tag::Empty,
            forall|j: usize| #[trigger]
                model::is_candidate(self.tags(), hash, j as int) && model::step_of(
                    hash,
                    self.n(),
                    j as int,
                ) <= k ==> call_ensures(eq, (j,), false),
        ensures
            self.not_found(hash, eq),
    {
        let n = self.n();
        let b = choose|b: int| 0 <= b < Group::WIDTH && #[trigger] group@[b] == Tag::Empty;
        lemma_group_byte(*group, self.tags(), hash, k, b);
        let e = (model::probe_pos(hash, n, k) + b) % n;
        assert forall|j: usize| #[trigger]
            model::is_candidate(self.tags(), hash, j as int) implies call_ensures(
            eq,
            (j,),
            false,
        ) by {
            model::lemma_slot(hash, n, j as int);
            if model::is_real(n, model::probe_pos(hash, n, k), b) {
                assert(self.tags()[e] == Tag::Empty);
            }
        }
    }

    /// Behind a group without empty bytes, the empty buckets are in later groups.
    proof fn lemma_not_terminal(&self, hash: u64, group: &Group, k: int)
        requires
            self.ctrl_wf(),
            0 <= k < model::groups(self.n()),
            is_group_of(*group, self.tags(), hash, k),
            !exists|b: int| 0 <= b < Group::WIDTH && #[trigger] group@[b] == Tag::Empty,
            forall|j: int|
                0 <= j < self.n() && #[trigger] self.tags()[j] == Tag::Empty ==> model::step_of(
                    hash,
                    self.n(),
                    j,
                ) >= k,
        ensures
            forall|j: int|
                0 <= j < self.n() && #[trigger] self.tags()[j] == Tag::Empty ==> model::step_of(
                    hash,
                    self.n(),
                    j,
                ) >= k + 1,
    {
        let n = self.n();
        assert forall|j: int| 0 <= j < n && #[trigger] self.tags()[j] == Tag::Empty implies model::step_of(
            hash,
            n,
            j,
        ) >= k + 1 by {
            if model::step_of(hash, n, j) == k {
                lemma_bucket_in_group(*group, self.tags(), hash, j);
            }
        }
    }

    /// Searches for an element in the table, or a potential slot where that element could
    /// be inserted.
    ///
    /// Returns `Ok` with the index of the element that `eq` accepts, as `find_inner` does,
    /// or else `Err` with the slot that `find_insert_index` finds. There has to be an empty or
    /// deleted bucket.
    pub fn find_or_find_insert_index_inner(&self, hash: u64, eq: &impl Fn(usize) -> bool) -> (r:
        Result<usize, usize>)
        requires
            self.ctrl_wf(),
            self.has_room(),
            forall|i: usize| #[trigger]
                model::is_candidate(self.tags(), hash, i as int) ==> call_requires(eq, (i,)),
        ensures
            match r {
                Ok(i) => self.found(hash, eq, i),
                Err(i) => self.not_found(hash, eq) && model::is_insert_slot(
                    self.tags(),
                    hash,
                    i as int,
                ),
            },
    {
        let ghost tags = self.tags();
        let ghost n = self.n();
        let ghost room = choose|j: int| 0 <= j < n && !(#[trigger] tags[j] is Full);
        let ghost mut k: int = 0;
        let mut insert_index: Option<usize> = None;
        let mut cursor = self.probe_seq(hash);
        proof {
            assert forall|j: int| 0 <= j < n implies 0 <= #[trigger] model::step_of(hash, n, j)
                < model::groups(n) by {
                model::lemma_slot(hash, n, j);
            }
        }
        loop
            invariant
                self.ctrl_wf(),
                tags == self.tags(),
                n == self.n(),
                cursor.bucket_mask == self.bucket_mask,
                cursor.at(hash, k),
                0 <= room < n,
                !(tags[room] is Full),
                self.has_room(),
                k < model::groups(n),
                forall|j: int|
                    0 <= j < n ==> 0 <= #[trigger] model::step_of(hash, n, j) < model::groups(n),
                forall|j: int|
                    0 <= j < n && #[trigger] tags[j] == Tag::Empty ==> model::step_of(hash, n, j)
                        >= k,
                forall|i: usize| #[trigger]
                    model::is_candidate(tags, hash, i as int) ==> call_requires(eq, (i,)),
                forall|j: usize| #[trigger]
                    model::is_candidate(tags, hash, j as int) && model::step_of(hash, n, j as int)
                        < k ==> call_ensures(eq, (j,), false),
                match insert_index {
                    Some(index) => self.is_insert_index(hash, index as int),
                    None => forall|j: int|
                        0 <= j < n && !(#[trigger] tags[j] is Full) ==> model::step_of(hash, n, j)
                            >= k,
                },
            decreases model::groups(n) - k,
        {
            let group = self.load_probe_group(&cursor, Ghost(hash), Ghost(k));
            match self.scan_group(hash, &group, &cursor, eq, Ghost(k)) {
                Some(index) => {
                    proof {
                        self.lemma_found(hash, eq, k, index);
                    }
                    return Ok(index);
                },
                None => {},
            }
            // The element is not in this group. Get an insertion slot from the group,
            // if there is none yet.
            if insert_index.is_none() {
                insert_index = self.find_insert_index_in_group(&group, &cursor);
                proof {
                    if insert_index is Some {
                        self.lemma_insert_index(hash, &group, k, insert_index->0 as int);
                    } else {
                        assert forall|j: int|
                            0 <= j < n && !(#[trigger] tags[j] is Full) implies model::step_of(
                            hash,
                            n,
                            j,
                        ) >= k + 1 by {
                            if model::step_of(hash, n, j) == k {
                                lemma_bucket_in_group(group, tags, hash, j);
                            }
                        }
                    }
                }
            }
            if let Some(index) = insert_index {
                // Only stop the search if the group contains at least one empty element.
                // Otherwise, the element might be in a following group.
                if ProbeCursor::is_terminal(&group) {
                    proof {
                        self.lemma_not_found(hash, eq, &group, k);
                    }
                    return Err(self.fix_insert_index(index));
                }
                // The element is nowhere if every group has been visited, which takes a
                // table without empty buckets.
                if cursor.is_last() {
                    proof {
                        self.lemma_last_group(k);
                    }
                    return Err(self.fix_insert_index(index));
                }
            }
            proof {
                self.lemma_not_terminal(hash, &group, k);
                self.lemma_last_group(k);
                assert(!(tags[room] is Full));
                self.lemma_stride(k);
            }
            cursor.move_next();
            proof {
                k = k + 1;
            }
        }
    }

    /// Whether an index leads, after the fix-up, to the slot for insertion.
    pub open spec fn is_insert_index(&self, hash: u64, index: int) -> bool {
        &&& 0 <= index < self.n()
        &&& self.tags()[index] is Full ==> self.n() < Group::WIDTH
        &&& forall|r: int| #[trigger]
            self.fixed_up(index, r) ==> model::is_insert_slot(self.tags(), hash, r)
    }

    /// The first group with an empty or deleted byte yields the index that leads to
    /// the slot for insertion.
    proof fn lemma_insert_index(&self, hash: u64, group: &Group, k: int, index: int)
        requires
            self.ctrl_wf(),
            0 <= k < model::groups(self.n()),
            is_group_of(*group, self.tags(), hash, k),
            forall|j: int|
                0 <= j < self.n() && !(#[trigger] self.tags()[j] is Full) ==> model::step_of(
                    hash,
                    self.n(),
                    j,
                ) >= k,
            exists|b: int|
                {
                    &&& 0 <= b < Group::WIDTH
                    &&& !(#[trigger] group@[b] is Full)
                    &&& forall|c: int| 0 <= c < b ==> #[trigger] group@[c] is Full
                    &&& index == (model::probe_pos(hash, self.n(), k) + b) % self.n()
                },
        ensures
            self.is_insert_index(hash, index),
    {
        let tags = self.tags();
        let n = self.n();
        let b = choose|b: int|
            {
                &&& 0 <= b < Group::WIDTH
                &&& !(#[trigger] group@[b] is Full)
                &&& forall|c: int| 0 <= c < b ==> #[trigger] group@[c] is Full
                &&& index == (model::probe_pos(hash, n, k) + b) % n
            };
        lemma_group_byte(*group, tags, hash, k, b);
        lemma_mod_bound(model::probe_pos(hash, n, k) + b, n);
        assert forall|r: int| #[trigger] self.fixed_up(index, r) implies model::is_insert_slot(
            tags,
            hash,
            r,
        ) by {
            lemma_insert_slot_found(*group, tags, hash, k, b, index, r);
        }
    }

    /// Searches for an empty or deleted bucket which is suitable for inserting a new
    /// element and sets the hash for that slot. Returns an index of that slot and the
    /// old control byte stored in the found index.
    ///
    /// This function does not check if the given element exists in the table, and makes
    /// no changes to the buckets or the counters of the table.
    pub fn prepare_insert_index(&mut self, hash: u64) -> (r: (usize, Tag))
        requires
            old(self).ctrl_wf(),
            old(self).bucket_mask > 0,
            old(self).has_room(),
        ensures
            model::is_insert_slot(old(self).tags(), hash, r.0 as int),
            r.1 == old(self).tags()[r.0 as int],
            final(self).ctrl_wf(),
            final(self).tags() == old(self).tags().update(r.0 as int, Tag::Full(h2(hash))),
            final(self).hashes@ == old(self).hashes@.update(r.0 as int, hash),
            final(self).same_but_ctrl(old(self)),
            final(self).items == old(self).items,
            final(self).growth_left == old(self).growth_left,
    {
        let index: usize = self.find_insert_index(hash);
        let old_ctrl = self.ctrl(index);
        self.set_ctrl_hash(index, hash);
        (index, old_ctrl)
    }
}

} // verus!
