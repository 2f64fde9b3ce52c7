//! Iterators over the buckets that may hold an element of a given hash.
use crate::control::{h2, BitMaskIter, Group, Tag};
use crate::math;
use crate::raw::bucket::Bucket;
use crate::raw::model;
use crate::raw::probe;
use crate::raw::probe::ProbeCursor;
use crate::raw::storage;
use crate::raw::storage::RawTableInner;
use core::marker::PhantomData;
use vstd::arithmetic::div_mod::*;
use vstd::arithmetic::power2::*;
use vstd::prelude::*;

verus! {

/// The bucket that a probe for `hash` visits at place `r`.
pub open spec fn at_rank(hash: u64, n: int, r: int) -> int {
    (model::probe_pos(hash, n, r / 16) + r % 16) % n
}

/// Whether the bucket that a probe for `hash` visits at place `r` may hold an element
/// of that hash.
pub open spec fn is_candidate_rank(tags: Seq<Tag>, hash: u64, r: int) -> bool {
    &&& model::is_real(
        tags.len() as int,
        model::probe_pos(hash, tags.len() as int, r / 16),
        r % 16,
    )
    &&& model::is_candidate(tags, hash, at_rank(hash, tags.len() as int, r))
}

/// The places at which a probe for `hash` visits a bucket that may hold an element of
/// that hash, in order.
pub open spec fn candidate_ranks(tags: Seq<Tag>, hash: u64) -> Seq<int> {
    model::filter_range(
        |r: int| is_candidate_rank(tags, hash, r),
        0,
        model::groups(tags.len() as int) * 16,
    )
}

/// Every bucket that may hold an element of the hash is visited at one place, and
/// nothing else is.
pub proof fn lemma_candidate_ranks(tags: Seq<Tag>, hash: u64)
    requires
        is_pow2(tags.len() as int),
    ensures
        forall|i: int| #[trigger]
            model::is_candidate(tags, hash, i) ==> candidate_ranks(tags, hash).contains(
                model::rank(hash, tags.len() as int, i),
            ),
        forall|i: int| #[trigger]
            model::is_candidate(tags, hash, i) ==> at_rank(
                hash,
                tags.len() as int,
                model::rank(hash, tags.len() as int, i),
            ) == i,
        forall|r: int| #[trigger]
            candidate_ranks(tags, hash).contains(r) ==> model::is_candidate(
                tags,
                hash,
                at_rank(hash, tags.len() as int, r),
            ) && model::rank(hash, tags.len() as int, at_rank(hash, tags.len() as int, r)) == r,
        forall|a: int, b: int|
            0 <= a < b < candidate_ranks(tags, hash).len() ==> #[trigger] candidate_ranks(
                tags,
                hash,
            )[a] < #[trigger] candidate_ranks(tags, hash)[b],
{
    let n = tags.len() as int;
    let p = |r: int| is_candidate_rank(tags, hash, r);
    model::lemma_filter_members(p, 0, model::groups(n) * 16);
    assert forall|i: int| #[trigger] model::is_candidate(tags, hash, i) implies candidate_ranks(
        tags,
        hash,
    ).contains(model::rank(hash, n, i)) && at_rank(hash, n, model::rank(hash, n, i)) == i by {
        model::lemma_slot(hash, n, i);
        let r = model::rank(hash, n, i);
        lemma_fundamental_div_mod_converse(
            r,
            16,
            model::step_of(hash, n, i),
            model::bit_of(hash, n, i),
        );
        assert(p(r));
    }
    assert forall|r: int| #[trigger] candidate_ranks(tags, hash).contains(r) implies model::is_candidate(
        tags,
        hash,
        at_rank(hash, n, r),
    ) && model::rank(hash, n, at_rank(hash, n, r)) == r by {
        assert(p(r));
        model::lemma_slot_unique(hash, n, r / 16, r % 16);
    }
}

/// Iterator over the indices of the buckets that may hold an element of a given hash.
///
/// Only 7 bits of the hash value are stored, so this iterator may return items that
/// have a hash value different than the one provided. You should always validate the
/// returned values before using them.
pub struct RawIterHashIndices {
    /// The tag of the hash.
    pub tag_hash: Tag,
    /// The cursor producing the sequence of groups to probe in the search.
    pub cursor: ProbeCursor,
    /// The group that the cursor is at.
    pub group: Group,
    /// The elements within the group with a matching tag.
    pub bitmask: BitMaskIter,
    /// The hash.
    pub hash: Ghost<u64>,
    /// The number of groups that have been left behind.
    pub step: Ghost<int>,
}

impl Clone for RawIterHashIndices {
    fn clone(&self) -> (r: Self)
        ensures
            r == *self,
    {
        RawIterHashIndices {
            tag_hash: self.tag_hash,
            cursor: self.cursor,
            group: self.group,
            bitmask: self.bitmask,
            hash: Ghost(self.hash@),
            step: Ghost(self.step@),
        }
    }
}

impl RawIterHashIndices {
    /// Whether the bucket at place `r` of the probe sequence is still to be returned.
    pub open spec fn pending(&self, tags: Seq<Tag>, r: int) -> bool {
        if r / 16 <= self.step@ {
            r / 16 == self.step@ && self.bitmask.0.bit(r % 16)
        } else {
            is_candidate_rank(tags, self.hash@, r)
        }
    }

    /// The places of the buckets that are still to be returned, in order.
    pub open spec fn remaining(&self, tags: Seq<Tag>) -> Seq<int> {
        model::filter_range(
            |r: int| self.pending(tags, r),
            0,
            model::groups(tags.len() as int) * 16,
        )
    }

    /// Whether the group that was loaded fits the table: a byte may be out of date if it
    /// is that of a full bucket that is not to be returned, and the group has an empty
    /// byte if there is one in the table.
    pub open spec fn group_fits(&self, tags: Seq<Tag>) -> bool {
        let pos = model::probe_pos(self.hash@, tags.len() as int, self.step@);
        &&& forall|b: int|
            0 <= b < Group::WIDTH ==> {
                ||| #[trigger] self.group@[b] == model::window_tag(tags, pos, b)
                ||| self.group@[b] is Full && !self.bitmask.0.bit(b)
            }
        &&& (exists|b: int|
            0 <= b < Group::WIDTH && #[trigger] model::window_tag(tags, pos, b) == Tag::Empty) ==> (
        exists|b: int| 0 <= b < Group::WIDTH && #[trigger] self.group@[b] == Tag::Empty)
    }

    /// Whether the iterator has gone past bucket `j`, of `n` buckets.
    pub open spec fn has_yielded(&self, n: int, j: int) -> bool {
        let k = model::step_of(self.hash@, n, j);
        k < self.step@ || k == self.step@ && !self.bitmask.0.bit(model::bit_of(self.hash@, n, j))
    }

    /// Whether the iterator is at a group that a lookup of the hash reaches.
    pub open spec fn wf(&self, tags: Seq<Tag>) -> bool {
        &&& is_pow2(tags.len() as int)
        &&& self.cursor.bucket_mask + 1 == tags.len()
        &&& self.cursor.at(self.hash@, self.step@)
        &&& self.step@ < model::groups(tags.len() as int)
        &&& self.tag_hash == Tag::Full(h2(self.hash@))
        &&& self.group_fits(tags)
        &&& forall|b: int| self.bitmask.0.bit(b) ==> self.group@[b] == self.tag_hash
        &&& forall|j: int|
            0 <= j < tags.len() && #[trigger] tags[j] == Tag::Empty ==> model::step_of(
                self.hash@,
                tags.len() as int,
                j,
            ) >= self.step@
    }

    /// It is fine to erase a bucket that has been yielded by the iterator: what is
    /// still to be returned stays the same.
    ///
    /// A bucket that becomes empty when it is erased has another empty one in every group
    /// that it is in, so no lookup went on behind such a group.
    pub proof fn lemma_yielded_may_be_erased(&self, tags: Seq<Tag>, j: int)
        requires
            self.wf(tags),
            0 <= j < tags.len(),
            tags[j] is Full,
            self.has_yielded(tags.len() as int, j),
        ensures
            ({
                let after = tags.update(
                    j,
                    if storage::in_full_run(tags, j) {
                        Tag::Deleted
                    } else {
                        Tag::Empty
                    },
                );
                self.wf(after) && self.remaining(after) == self.remaining(tags)
            }),
    {
        let n = tags.len() as int;
        let hash = self.hash@;
        let k = self.step@;
        let pos = model::probe_pos(hash, n, k);
        let tag = if storage::in_full_run(tags, j) {
            Tag::Deleted
        } else {
            Tag::Empty
        };
        let after = tags.update(j, tag);
        if tag == Tag::Empty {
            self.lemma_empty_near(tags, j);
        }
        assert(self.group_fits(after)) by {
            assert forall|b: int| 0 <= b < Group::WIDTH implies {
                ||| #[trigger] self.group@[b] == model::window_tag(after, pos, b)
                ||| self.group@[b] is Full && !self.bitmask.0.bit(b)
            } by {
                if model::is_real(n, pos, b) {
                    model::lemma_slot_unique(hash, n, k, b);
                }
            }
            if exists|b: int|
                0 <= b < Group::WIDTH && #[trigger] model::window_tag(after, pos, b) == Tag::Empty {
                let b = choose|b: int|
                    0 <= b < Group::WIDTH && #[trigger] model::window_tag(after, pos, b)
                        == Tag::Empty;
                if tag == Tag::Deleted {
                    assert(model::window_tag(tags, pos, b) == Tag::Empty);
                }
            }
        }
        let hi = model::groups(n) * 16;
        let p = |r: int| self.pending(after, r);
        let q = |r: int| self.pending(tags, r);
        assert forall|r: int| 0 <= r < hi implies #[trigger] p(r) == q(r) by {
            if r / 16 > k && model::is_real(n, model::probe_pos(hash, n, r / 16), r % 16) {
                model::lemma_slot_unique(hash, n, r / 16, r % 16);
                let i = at_rank(hash, n, r);
                assert(i != j);
                if tag == Tag::Empty {
                    let e = self.lemma_empty_near(tags, j);
                    assert(tags[e] == Tag::Empty && after[e] == Tag::Empty);
                } else {
                    assert(model::placed(after, hash, i) == model::placed(tags, hash, i)) by {
                        assert forall|m: int| 0 <= m < n implies (#[trigger] tags[m] == Tag::Empty
                            <==> after[m] == Tag::Empty) by {}
                        if model::placed(tags, hash, i) {
                            assert forall|m: int|
                                0 <= m < n && #[trigger] after[m] == Tag::Empty implies model::step_of(
                                hash,
                                n,
                                i,
                            ) <= model::step_of(hash, n, m) by {
                                assert(tags[m] == Tag::Empty);
                            }
                        }
                        if model::placed(after, hash, i) {
                            assert forall|m: int|
                                0 <= m < n && #[trigger] tags[m] == Tag::Empty implies model::step_of(
                                hash,
                                n,
                                i,
                            ) <= model::step_of(hash, n, m) by {
                                assert(after[m] == Tag::Empty);
                            }
                        }
                    }
                }
            }
        }
        model::lemma_filter_same(p, q, 0, hi);
    }

    /// A bucket that is not within a long run of occupied buckets, and that the iterator
    /// has gone past, is in the current group, together with an empty byte.
    proof fn lemma_empty_near(&self, tags: Seq<Tag>, j: int) -> (e: int)
        requires
            self.wf(tags),
            0 <= j < tags.len(),
            tags[j] is Full,
            self.has_yielded(tags.len() as int, j),
            !storage::in_full_run(tags, j),
        ensures
            model::step_of(self.hash@, tags.len() as int, j) == self.step@,
            exists|b: int| 0 <= b < Group::WIDTH && #[trigger] self.group@[b] == Tag::Empty,
            tags.len() >= Group::WIDTH ==> 0 <= e < tags.len() && tags[e] == Tag::Empty
                && model::step_of(self.hash@, tags.len() as int, e) == self.step@,
    {
        let n = tags.len() as int;
        let hash = self.hash@;
        let s = model::step_of(hash, n, j);
        let c = model::bit_of(hash, n, j);
        let pos = model::probe_pos(hash, n, s);
        model::lemma_slot(hash, n, j);
        model::lemma_probe_pos_bound(hash, n, s);
        if n < Group::WIDTH {
            assert(model::window_tag(tags, pos, n - pos) == Tag::Empty);
            0
        } else {
            assert(!storage::occupied_from(tags, j - c));
            let b = choose|b: int|
                0 <= b < Group::WIDTH && #[trigger] tags[((j - c) + b) % n] == Tag::Empty;
            let q = (pos + c) / n;
            lemma_fundamental_div_mod(pos + c, n);
            assert(pos + b == (j - c) + b + n * q);
            model::lemma_same_mod(pos + b, (j - c) + b, q, n);
            model::lemma_slot_unique(hash, n, s, b);
            let e = (pos + b) % n;
            assert(tags[e] == Tag::Empty);
            assert(model::window_tag(tags, pos, b) == Tag::Empty);
            e
        }
    }

    /// Starts at the first group that a probe for the hash visits.
    pub fn new<T>(table: &RawTableInner<T>, hash: u64) -> (r: Self)
        requires
            table.ctrl_wf(),
        ensures
            r.wf(table.tags()),
            r.hash@ == hash,
            r.remaining(table.tags()) == candidate_ranks(table.tags(), hash),
    {
        let tag_hash = Tag::full(hash);
        let cursor = table.probe_seq(hash);
        let group = table.load_group(cursor.group_pos());
        let mask = group.match_tag(tag_hash);
        let r = RawIterHashIndices {
            tag_hash,
            cursor,
            group,
            bitmask: mask.into_iter(),
            hash: Ghost(hash),
            step: Ghost(0int),
        };
        proof {
            let tags = table.tags();
            let n = table.n();
            model::lemma_pow2_16();
            if n >= Group::WIDTH {
                math::lemma_pow2_divides(16, n);
            }
            assert forall|j: int| 0 <= j < n implies #[trigger] model::step_of(hash, n, j) >= 0 by {
                model::lemma_slot(hash, n, j);
            }
            lemma_group_fits(&r, tags);
            lemma_fresh_group(&r, tags, 0);
            let p = |q: int| r.pending(tags, q);
            let q = |q: int| is_candidate_rank(tags, hash, q);
            assert forall|x: int| 0 <= x < model::groups(n) * 16 implies #[trigger] p(x) == q(x) by {}
            model::lemma_filter_same(p, q, 0, model::groups(n) * 16);
        }
        r
    }

    /// Advances the iterator and returns the next index.
    pub fn next<T>(&mut self, table: &RawTableInner<T>) -> (r: Option<usize>)
        requires
            table.ctrl_wf(),
            exists|e: int| 0 <= e < table.n() && #[trigger] table.tags()[e] == Tag::Empty,
            old(self).wf(table.tags()),
        ensures
            final(self).wf(table.tags()),
            final(self).hash == old(self).hash,
            match r {
                Some(index) => {
                    &&& old(self).remaining(table.tags()).len() > 0
                    &&& index == at_rank(
                        old(self).hash@,
                        table.n(),
                        old(self).remaining(table.tags())[0],
                    )
                    &&& model::is_candidate(table.tags(), old(self).hash@, index as int)
                    &&& final(self).has_yielded(table.n(), index as int)
                    &&& final(self).remaining(table.tags()) == old(self).remaining(
                        table.tags(),
                    ).drop_first()
                },
                None => {
                    &&& old(self).remaining(table.tags()).len() == 0
                    &&& final(self).remaining(table.tags()).len() == 0
                },
            },
    {
        let ghost tags = table.tags();
        let ghost n = table.n();
        let ghost hash = self.hash@;
        let ghost hi = model::groups(n) * 16;
        let ghost e0 = choose|e: int| 0 <= e < n && #[trigger] tags[e] == Tag::Empty;
        let ghost p = |r: int| old(self).pending(tags, r);
        loop
            invariant
                table.ctrl_wf(),
                tags == table.tags(),
                n == table.n(),
                n == tags.len(),
                hi == model::groups(n) * 16,
                0 <= e0 < n,
                tags[e0] == Tag::Empty,
                self.wf(tags),
                self.hash@ == hash,
                self.hash == old(self).hash,
                p == (|r: int| old(self).pending(tags, r)),
                forall|r: int| 0 <= r < hi ==> self.pending(tags, r) == #[trigger] p(r),
            decreases model::groups(n) - self.step@, self.bitmask.0.0,
        {
            let ghost before = *self;
            if let Some(bit) = self.bitmask.next() {
                let index: usize = self.cursor.bucket_index(bit);
                proof {
                    lemma_hash_popped(&before, self, tags, p, bit as int);
                }
                return Some(index);
            }
            if ProbeCursor::is_terminal(&self.group) {
                proof {
                    lemma_hash_done(self, tags, p);
                }
                return None;
            }
            proof {
                lemma_hash_goes_on(self, tags, e0);
            }
            self.cursor.move_next();
            self.group = table.load_group(self.cursor.group_pos());
            let mask = self.group.match_tag(self.tag_hash);
            self.bitmask = mask.into_iter();
            proof {
                assert(before.cursor.at(hash, before.step@));
                self.step@ = before.step@ + 1;
                lemma_group_fits(self, tags);
                lemma_fresh_group(self, tags, self.step@);
                assert forall|r: int| 0 <= r < hi implies self.pending(tags, r) == #[trigger] p(r) by {
                    assert(before.pending(tags, r) == p(r));
                }
            }
        }
    }
}

/// A group that has just been loaded fits the table.
proof fn lemma_group_fits(iter: &RawIterHashIndices, tags: Seq<Tag>)
    requires
        probe::is_group_of(iter.group, tags, iter.hash@, iter.step@),
    ensures
        iter.group_fits(tags),
{
    let pos = model::probe_pos(iter.hash@, tags.len() as int, iter.step@);
    if exists|b: int|
        0 <= b < Group::WIDTH && #[trigger] model::window_tag(tags, pos, b) == Tag::Empty {
        let b = choose|b: int|
            0 <= b < Group::WIDTH && #[trigger] model::window_tag(tags, pos, b) == Tag::Empty;
        assert(iter.group@[b] == Tag::Empty);
    }
}

/// In a group that has just been loaded, the matching bytes are the buckets that
/// may hold an element of the hash.
proof fn lemma_fresh_group(iter: &RawIterHashIndices, tags: Seq<Tag>, k: int)
    requires
        iter.wf(tags),
        iter.step@ == k,
        probe::is_group_of(iter.group, tags, iter.hash@, k),
        forall|b: int|
            iter.bitmask.0.bit(b) <==> 0 <= b < Group::WIDTH && iter.group@[b] == iter.tag_hash,
    ensures
        forall|r: int|
            0 <= r < model::groups(tags.len() as int) * 16 && r / 16 == k ==> #[trigger] iter.pending(
                tags,
                r,
            ) == is_candidate_rank(tags, iter.hash@, r),
{
    let n = tags.len() as int;
    assert forall|r: int| 0 <= r < model::groups(n) * 16 && r / 16 == k implies #[trigger] iter.pending(
        tags,
        r,
    ) == is_candidate_rank(tags, iter.hash@, r) by {
        probe::lemma_group_byte(iter.group, tags, iter.hash@, k, r % 16);
    }
}

/// Taking the lowest matching byte of the group takes the first place that is still
/// to be returned.
proof fn lemma_hash_popped(
    before: &RawIterHashIndices,
    after: &RawIterHashIndices,
    tags: Seq<Tag>,
    p: spec_fn(int) -> bool,
    bit: int,
)
    requires
        before.wf(tags),
        after.tag_hash == before.tag_hash,
        after.cursor == before.cursor,
        after.group == before.group,
        after.hash == before.hash,
        after.step == before.step,
        before.bitmask.0.bit(bit),
        before.bitmask.0.none_below(bit),
        forall|b: int| after.bitmask.0.bit(b) <==> before.bitmask.0.bit(b) && b != bit,
        forall|r: int|
            0 <= r < model::groups(tags.len() as int) * 16 ==> before.pending(tags, r)
                == #[trigger] p(r),
    ensures
        after.wf(tags),
        ({
            let n = tags.len() as int;
            let hi = model::groups(n) * 16;
            let all = model::filter_range(p, 0, hi);
            let index = (before.cursor.seq.pos + bit) % n;
            &&& all.len() > 0
            &&& index == at_rank(before.hash@, n, all[0])
            &&& model::is_candidate(tags, before.hash@, index)
            &&& after.has_yielded(n, index)
            &&& after.remaining(tags) == all.drop_first()
        }),
{
    let n = tags.len() as int;
    let hi = model::groups(n) * 16;
    let r = before.step@ * 16 + bit;
    lemma_fundamental_div_mod_converse(r, 16, before.step@, bit);
    let q = |x: int| after.pending(tags, x);
    assert forall|x: int| 0 <= x < r implies !#[trigger] p(x) by {
        assert(before.pending(tags, x) == p(x));
    }
    assert forall|x: int| 0 <= x < hi implies #[trigger] q(x) == (p(x) && x != r) by {
        assert(before.pending(tags, x) == p(x));
    }
    assert(before.pending(tags, r) == p(r));
    model::lemma_filter_pop(p, q, r, hi);
    assert(before.group@[bit] == before.tag_hash);
    model::lemma_slot_unique(before.hash@, n, before.step@, bit);
}

/// A group with an empty byte is the last one to look at.
proof fn lemma_hash_done(iter: &RawIterHashIndices, tags: Seq<Tag>, p: spec_fn(int) -> bool)
    requires
        iter.wf(tags),
        forall|b: int| !iter.bitmask.0.bit(b),
        exists|b: int| 0 <= b < Group::WIDTH && #[trigger] iter.group@[b] == Tag::Empty,
        forall|r: int|
            0 <= r < model::groups(tags.len() as int) * 16 ==> iter.pending(tags, r)
                == #[trigger] p(r),
    ensures
        model::filter_range(p, 0, model::groups(tags.len() as int) * 16).len() == 0,
        iter.remaining(tags).len() == 0,
{
    let n = tags.len() as int;
    let hi = model::groups(n) * 16;
    let hash = iter.hash@;
    let b = choose|b: int| 0 <= b < Group::WIDTH && #[trigger] iter.group@[b] == Tag::Empty;
    if model::is_real(n, model::probe_pos(hash, n, iter.step@), b) {
        model::lemma_slot_unique(hash, n, iter.step@, b);
    }
    let e = (model::probe_pos(hash, n, iter.step@) + b) % n;
    assert forall|r: int| 0 <= r < hi implies !#[trigger] p(r) by {
        assert(iter.pending(tags, r) == p(r));
        if r / 16 > iter.step@ && is_candidate_rank(tags, hash, r) {
            model::lemma_slot_unique(hash, n, r / 16, r % 16);
            assert(tags[e] == Tag::Empty);
        }
    }
    let q = |r: int| iter.pending(tags, r);
    model::lemma_filter_skip(p, 0, hi, hi);
    assert forall|r: int| 0 <= r < hi implies #[trigger] p(r) == q(r) by {}
    model::lemma_filter_same(p, q, 0, hi);
}

/// Behind a group without empty bytes there is another one.
proof fn lemma_hash_goes_on(iter: &RawIterHashIndices, tags: Seq<Tag>, e0: int)
    requires
        iter.wf(tags),
        !exists|b: int| 0 <= b < Group::WIDTH && #[trigger] iter.group@[b] == Tag::Empty,
        0 <= e0 < tags.len(),
        tags[e0] == Tag::Empty,
    ensures
        iter.step@ + 1 < model::groups(tags.len() as int),
        iter.cursor.seq.stride <= iter.cursor.bucket_mask,
        forall|j: int|
            0 <= j < tags.len() && #[trigger] tags[j] == Tag::Empty ==> model::step_of(
                iter.hash@,
                tags.len() as int,
                j,
            ) >= iter.step@ + 1,
{
    let n = tags.len() as int;
    let hash = iter.hash@;
    assert forall|j: int| 0 <= j < n && #[trigger] tags[j] == Tag::Empty implies model::step_of(
        hash,
        n,
        j,
    ) >= iter.step@ + 1 by {
        if model::step_of(hash, n, j) == iter.step@ {
            model::lemma_slot(hash, n, j);
            assert(model::window_tag(
                tags,
                model::probe_pos(hash, n, iter.step@),
                model::bit_of(hash, n, j),
            ) == Tag::Empty);
        }
    }
    model::lemma_slot(hash, n, e0);
    model::lemma_pow2_16();
    if n >= Group::WIDTH {
        math::lemma_pow2_divides(16, n);
    }
}

impl Default for RawIterHashIndices {
    fn default() -> (r: Self)
        ensures
            r.wf(seq![Tag::Empty]),
            r.remaining(seq![Tag::Empty]).len() == 0,
    {
        let table: RawTableInner<()> = RawTableInner::new();
        proof {
            let hi = model::groups(1) * 16;
            model::lemma_filter_skip(|r: int| is_candidate_rank(table.tags(), 0, r), 0, hi, hi);
        }
        RawIterHashIndices::new(&table, 0)
    }
}

/// Iterator over occupied buckets that could match a given hash.
pub struct RawIterHash<T> {
    pub inner: RawIterHashIndices,
    pub marker: PhantomData<T>,
}

impl<T> Clone for RawIterHash<T> {
    fn clone(&self) -> (r: Self)
        ensures
            r.inner == self.inner,
    {
        RawIterHash { inner: self.inner.clone(), marker: PhantomData }
    }
}

impl<T> Default for RawIterHash<T> {
    fn default() -> (r: Self)
        ensures
            r.inner.wf(seq![Tag::Empty]),
            r.inner.remaining(seq![Tag::Empty]).len() == 0,
    {
        RawIterHash { inner: RawIterHashIndices::default(), marker: PhantomData }
    }
}

impl<T> RawIterHash<T> {
    /// Starts at the first group that a probe for the hash visits.
    pub fn new(table: &RawTableInner<T>, hash: u64) -> (r: Self)
        requires
            table.ctrl_wf(),
        ensures
            r.inner.wf(table.tags()),
            r.inner.hash@ == hash,
            r.inner.remaining(table.tags()) == candidate_ranks(table.tags(), hash),
    {
        RawIterHash { inner: RawIterHashIndices::new(table, hash), marker: PhantomData }
    }

    /// Advances the iterator and returns the next bucket.
    pub fn next(&mut self, table: &RawTableInner<T>) -> (r: Option<Bucket<T>>)
        requires
            table.data_room(),
            exists|e: int| 0 <= e < table.n() && #[trigger] table.tags()[e] == Tag::Empty,
            old(self).inner.wf(table.tags()),
        ensures
            final(self).inner.wf(table.tags()),
            final(self).inner.hash == old(self).inner.hash,
            match r {
                Some(bucket) => {
                    let index = at_rank(
                        old(self).inner.hash@,
                        table.n(),
                        old(self).inner.remaining(table.tags())[0],
                    );
                    &&& old(self).inner.remaining(table.tags()).len() > 0
                    &&& model::is_candidate(table.tags(), old(self).inner.hash@, index)
                    &&& bucket.is_at(table.ctrl_offset as int, index)
                    &&& final(self).inner.has_yielded(table.n(), index)
                    &&& final(self).inner.remaining(table.tags()) == old(self).inner.remaining(
                        table.tags(),
                    ).drop_first()
                },
                None => {
                    &&& old(self).inner.remaining(table.tags()).len() == 0
                    &&& final(self).inner.remaining(table.tags()).len() == 0
                },
            },
    {
        match self.inner.next(table) {
            Some(index) => Some(table.bucket(index)),
            None => None,
        }
    }
}

} // verus!
