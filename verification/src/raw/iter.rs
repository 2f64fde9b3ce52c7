//! Iterators over the full buckets of a table.
//!
//! An iterator is not tied to its table by a lifetime: each step takes the table.
use crate::control::{BitMaskIter, Group, Tag};
use crate::math;
use crate::raw::bucket::Bucket;
use crate::raw::model;
use crate::raw::model::Kind;
use crate::raw::storage;
use crate::raw::storage::RawTableInner;
use core::marker::PhantomData;
use vstd::arithmetic::div_mod::*;
use vstd::arithmetic::power2::*;
use vstd::prelude::*;

verus! {

/// A group loaded at a multiple of the group width shows the full buckets there.
proof fn lemma_aligned_group(tags: Seq<Tag>, pos: int, group: Group)
    requires
        is_pow2(tags.len() as int),
        0 <= pos < tags.len(),
        pos % 16 == 0,
        forall|b: int|
            0 <= b < Group::WIDTH ==> #[trigger] group@[b] == model::window_tag(tags, pos, b),
    ensures
        forall|b: int|
            0 <= b < Group::WIDTH ==> (#[trigger] group@[b] is Full <==> pos + b < tags.len()
                && tags[pos + b] is Full),
        tags.len() >= Group::WIDTH ==> tags.len() % 16 == 0 && pos + 16 <= tags.len(),
{
    let n = tags.len() as int;
    model::lemma_pow2_16();
    if n >= Group::WIDTH {
        math::lemma_pow2_divides(16, n);
    }
    assert forall|b: int| 0 <= b < Group::WIDTH implies (#[trigger] group@[b] is Full <==> pos + b
        < n && tags[pos + b] is Full) by {
        if pos + b < n {
            lemma_small_mod((pos + b) as nat, n as nat);
        }
    }
}

/// Iterator which returns an index of every full bucket in the table.
#[derive(Clone, Copy)]
pub struct FullBucketsIndices {
    /// Mask of full buckets in the current group. Bits are cleared from this
    /// mask as each element is processed.
    pub current_group: BitMaskIter,
    /// Index of the first bucket of the current group.
    pub group_first_index: usize,
    /// Number of elements that are still to be returned.
    pub items: usize,
}

impl FullBucketsIndices {
    /// Whether index `j` is still to be returned.
    pub open spec fn pending(&self, tags: Seq<Tag>, j: int) -> bool {
        if j < self.group_first_index + Group::WIDTH {
            self.current_group.0.bit(j - self.group_first_index)
        } else {
            tags[j] is Full
        }
    }

    /// The indices that are still to be returned, in order.
    pub open spec fn remaining(&self, tags: Seq<Tag>) -> Seq<int> {
        model::filter_range(|j: int| self.pending(tags, j), 0, tags.len() as int)
    }

    /// Whether the iterator is within the table and counts what it has to return.
    pub open spec fn wf(&self, tags: Seq<Tag>) -> bool {
        &&& self.group_first_index as int % 16 == 0
        &&& self.group_first_index < tags.len() <= isize::MAX
        &&& forall|b: int|
            self.current_group.0.bit(b) ==> self.group_first_index + b < tags.len()
        &&& self.items == self.remaining(tags).len()
    }

    /// Whether the iterator has gone past bucket `j`.
    pub open spec fn has_yielded(&self, j: int) -> bool {
        j < self.group_first_index + Group::WIDTH && !self.current_group.0.bit(
            j - self.group_first_index,
        )
    }

    /// It is fine to erase a bucket that has been yielded by the iterator: what is
    /// still to be returned stays the same.
    pub proof fn lemma_yielded_may_be_erased(&self, tags: Seq<Tag>, j: int, tag: Tag)
        requires
            self.wf(tags),
            0 <= j < tags.len(),
            self.has_yielded(j),
        ensures
            self.wf(tags.update(j, tag)),
            self.remaining(tags.update(j, tag)) == self.remaining(tags),
    {
        let after = tags.update(j, tag);
        model::lemma_filter_same(
            |i: int| self.pending(after, i),
            |i: int| self.pending(tags, i),
            0,
            tags.len() as int,
        );
    }

    /// Advances the iterator and returns the next value.
    fn next_impl<T>(&mut self, table: &RawTableInner<T>) -> (r: usize)
        requires
            table.ctrl_wf(),
            old(self).wf(table.tags()),
            old(self).items > 0,
        ensures
            r == old(self).remaining(table.tags())[0],
            r < table.n(),
            final(self).has_yielded(r as int),
            final(self).remaining(table.tags()) == old(self).remaining(table.tags()).drop_first(),
            final(self).items == old(self).items,
            final(self).group_first_index as int % 16 == 0,
            final(self).group_first_index < table.n(),
            forall|b: int|
                final(self).current_group.0.bit(b) ==> final(self).group_first_index + b
                    < table.n(),
    {
        let ghost tags = table.tags();
        let ghost n = table.n();
        let ghost p = |j: int| old(self).pending(tags, j);
        loop
            invariant
                table.ctrl_wf(),
                tags == table.tags(),
                n == table.n(),
                n == tags.len(),
                p == (|j: int| old(self).pending(tags, j)),
                model::filter_range(p, 0, n).len() > 0,
                self.items == old(self).items,
                self.group_first_index as int % 16 == 0,
                self.group_first_index < n,
                forall|b: int|
                    self.current_group.0.bit(b) ==> self.group_first_index + b < n,
                forall|j: int| 0 <= j < n ==> self.pending(tags, j) == #[trigger] p(j),
            decreases n - self.group_first_index, self.current_group.0.0,
        {
            let ghost before = *self;
            if let Some(index) = self.current_group.next() {
                let r: usize = self.group_first_index + index;
                proof {
                    let q = |j: int| self.pending(tags, j);
                    assert forall|j: int| 0 <= j < r implies !#[trigger] p(j) by {
                        assert(before.pending(tags, j) == p(j));
                    }
                    assert forall|j: int| 0 <= j < n implies #[trigger] q(j) == (p(j) && j != r) by {
                        assert(before.pending(tags, j) == p(j));
                    }
                    assert(before.pending(tags, r as int) == p(r as int));
                    model::lemma_filter_pop(p, q, r as int, n);
                }
                return r;
            }
            proof {
                // Something is left, so the table goes on behind this group.
                if self.group_first_index + 16 >= n {
                    assert forall|j: int| 0 <= j < n implies !#[trigger] p(j) by {
                        assert(self.pending(tags, j) == p(j));
                    }
                    model::lemma_filter_skip(p, 0, n, n);
                }
            }
            self.group_first_index = self.group_first_index + Group::WIDTH;
            let group = table.load_group(self.group_first_index);
            self.current_group = group.match_full().into_iter();
            proof {
                lemma_aligned_group(tags, self.group_first_index as int, group);
                assert forall|j: int| 0 <= j < n implies self.pending(tags, j) == #[trigger] p(j) by {
                    assert(before.pending(tags, j) == p(j));
                    let b = j - self.group_first_index;
                    if 0 <= b < 16 {
                        assert(group@[b] is Full <==> tags[j] is Full);
                    }
                }
            }
        }
    }

    /// Advances the iterator and returns the next value.
    pub fn next<T>(&mut self, table: &RawTableInner<T>) -> (r: Option<usize>)
        requires
            table.ctrl_wf(),
            old(self).wf(table.tags()),
        ensures
            final(self).wf(table.tags()),
            match r {
                Some(index) => {
                    &&& old(self).remaining(table.tags()).len() > 0
                    &&& index == old(self).remaining(table.tags())[0]
                    &&& index < table.n()
                    &&& final(self).has_yielded(index as int)
                    &&& final(self).remaining(table.tags()) == old(self).remaining(
                        table.tags(),
                    ).drop_first()
                },
                None => {
                    &&& old(self).remaining(table.tags()).len() == 0
                    &&& *final(self) == *old(self)
                },
            },
    {
        // Return if we already yielded all items.
        if self.items == 0 {
            return None;
        }
        let nxt: usize = self.next_impl(table);
        let ghost kept = *self;
        self.items = self.items - 1;
        assert(self.remaining(table.tags()) == old(self).remaining(table.tags()).drop_first()) by {
            let tags = table.tags();
            model::lemma_filter_same(
                |j: int| kept.pending(tags, j),
                |j: int| self.pending(tags, j),
                0,
                table.n(),
            );
        }
        Some(nxt)
    }

    /// Returns the bounds on the number of indices that are still to be returned.
    pub fn size_hint(&self) -> (r: (usize, Option<usize>))
        ensures
            r == (self.items, Some(self.items)),
    {
        (self.items, Some(self.items))
    }
}

impl<T> RawTableInner<T> {
    /// Returns an iterator over full buckets indices in the table.
    pub fn full_buckets_indices(&self) -> (r: FullBucketsIndices)
        requires
            self.ctrl_wf(),
            self.items == model::count(self.tags(), Kind::Full),
        ensures
            r.wf(self.tags()),
            r.items == self.items,
            r.remaining(self.tags()) == model::full_indices(self.tags()),
    {
        let group = self.load_group(0);
        let r = FullBucketsIndices {
            current_group: group.match_full().into_iter(),
            group_first_index: 0,
            items: self.items,
        };
        proof {
            let tags = self.tags();
            lemma_aligned_group(tags, 0, group);
            assert forall|j: int| 0 <= j < tags.len() implies r.pending(tags, j) == (
            #[trigger] tags[j] is Full) by {
                if j < 16 {
                    assert(group@[j] is Full <==> tags[j] is Full);
                }
            }
            model::lemma_filter_same(
                |j: int| r.pending(tags, j),
                |j: int| tags[j] is Full,
                0,
                tags.len() as int,
            );
            model::lemma_full_indices_len(tags);
        }
        r
    }
}

impl Default for FullBucketsIndices {
    fn default() -> (r: Self)
        ensures
            r.items == 0,
            r.wf(seq![Tag::Empty]),
    {
        let table: RawTableInner<()> = RawTableInner::new();
        table.full_buckets_indices()
    }
}

/// Iterator over a sub-range of a table. Unlike `RawIter` this iterator does
/// not track an item count.
pub struct RawIterRange<T> {
    /// Mask of full buckets in the current group. Bits are cleared from this
    /// mask as each element is processed.
    pub current_group: BitMaskIter,
    /// Index of the first bucket of the current group.
    pub data: usize,
    /// Index of the first control byte of the next group.
    pub next_ctrl: usize,
    /// Index one past the last control byte of this range.
    pub end: usize,
    pub marker: PhantomData<T>,
}

impl<T> Clone for RawIterRange<T> {
    fn clone(&self) -> (r: Self)
        ensures
            r == *self,
    {
        RawIterRange {
            current_group: self.current_group,
            data: self.data,
            next_ctrl: self.next_ctrl,
            end: self.end,
            marker: PhantomData,
        }
    }
}

/// Splits a number of control bytes into two halves, but rounds the midpoint down in
/// case there is an odd number of groups. This ensures that the tail is at least 1
/// group long.
fn split_point(len: usize) -> (mid: usize)
    requires
        len > 0,
        len as int % 16 == 0,
    ensures
        mid == (len / 32) * 16,
        mid as int % 16 == 0,
        mid < len,
{
    let half: usize = len / 2;
    proof {
        assert((half & !15usize) == half - half % 16) by (bit_vector);
    }
    half & !(Group::WIDTH - 1)
}

impl<T> RawIterRange<T> {
    /// Whether bucket `j` is still to be returned.
    pub open spec fn pending(&self, tags: Seq<Tag>, j: int) -> bool {
        if j < self.next_ctrl {
            self.current_group.0.bit(j - self.data)
        } else {
            j < self.end && tags[j] is Full
        }
    }

    /// The indices of the buckets that are still to be returned, in order.
    pub open spec fn remaining(&self, tags: Seq<Tag>) -> Seq<int> {
        model::filter_range(|j: int| self.pending(tags, j), 0, tags.len() as int)
    }

    /// Whether the range is within the table, and starts and ends with a group.
    pub open spec fn wf(&self, tags: Seq<Tag>) -> bool {
        &&& tags.len() <= isize::MAX
        &&& self.data as int % 16 == 0
        &&& self.data < tags.len()
        &&& self.next_ctrl == self.data + Group::WIDTH
        &&& self.end <= tags.len()
        &&& tags.len() >= Group::WIDTH ==> self.end as int % 16 == 0
        &&& forall|b: int|
            self.current_group.0.bit(b) ==> self.data + b < tags.len() && tags[self.data
                + b] is Full
    }

    /// Whether the range has gone past bucket `j`.
    pub open spec fn has_yielded(&self, j: int) -> bool {
        j < self.next_ctrl && !self.current_group.0.bit(j - self.data)
    }

    /// Changing the control byte of a bucket that the range has gone past, such as by
    /// erasing it, does not disturb the range.
    pub proof fn lemma_yielded_may_change(&self, tags: Seq<Tag>, j: int, tag: Tag)
        requires
            self.wf(tags),
            0 <= j < tags.len(),
            self.has_yielded(j),
        ensures
            self.wf(tags.update(j, tag)),
            self.remaining(tags.update(j, tag)) == self.remaining(tags),
    {
        let after = tags.update(j, tag);
        model::lemma_filter_same(
            |i: int| self.pending(after, i),
            |i: int| self.pending(tags, i),
            0,
            tags.len() as int,
        );
    }

    /// Returns a `RawIterRange` covering `len` buckets of a table from bucket `ctrl` on.
    pub fn new(table: &RawTableInner<T>, ctrl: usize, len: usize) -> (r: Self)
        requires
            table.ctrl_wf(),
            ctrl as int % 16 == 0,
            len > 0,
            ctrl + len <= table.n(),
            table.n() < Group::WIDTH ==> len == table.n(),
            table.n() >= Group::WIDTH ==> len as int % 16 == 0,
        ensures
            r.wf(table.tags()),
            r.data == ctrl,
            r.end == ctrl + len,
            r.remaining(table.tags()) == model::filter_range(
                |j: int| r.data <= j < r.end && table.tags()[j] is Full,
                0,
                table.n(),
            ),
    {
        // Load the first group and advance ctrl to point to the next group
        let group = table.load_group(ctrl);
        let r = RawIterRange {
            current_group: group.match_full().into_iter(),
            data: ctrl,
            next_ctrl: ctrl + Group::WIDTH,
            end: ctrl + len,
            marker: PhantomData,
        };
        proof {
            let tags = table.tags();
            lemma_aligned_group(tags, ctrl as int, group);
            assert forall|b: int| r.current_group.0.bit(b) implies r.data + b < tags.len()
                && tags[r.data + b] is Full by {
                assert(group@[b] is Full);
            }
            let p = |j: int| r.pending(tags, j);
            let q = |j: int| r.data <= j < r.end && tags[j] is Full;
            assert forall|j: int| 0 <= j < tags.len() implies #[trigger] p(j) == q(j) by {
                let b = j - ctrl;
                if 0 <= b < 16 {
                    assert(group@[b] is Full <==> tags[j] is Full);
                }
            }
            model::lemma_filter_same(p, q, 0, tags.len() as int);
        }
        r
    }

    /// Cutting a range at the start of a group behind the current one splits what is
    /// still to be returned.
    proof fn lemma_split(whole: &Self, head: &Self, tail: &Self, tags: Seq<Tag>)
        requires
            whole.wf(tags),
            head.wf(tags),
            tail.wf(tags),
            head.current_group == whole.current_group,
            head.data == whole.data,
            head.next_ctrl == whole.next_ctrl,
            whole.next_ctrl <= head.end <= whole.end,
            tail.data == head.end,
            tail.end == whole.end,
            tail.remaining(tags) == model::filter_range(
                |j: int| tail.data <= j < tail.end && tags[j] is Full,
                0,
                tags.len() as int,
            ),
        ensures
            whole.remaining(tags) == head.remaining(tags) + tail.remaining(tags),
    {
        let n = tags.len() as int;
        let t = tail.data as int;
        let p = |j: int| whole.pending(tags, j);
        let a = |j: int| head.pending(tags, j);
        let q = |j: int| tail.data <= j < tail.end && tags[j] is Full;
        model::lemma_filter_split(p, 0, t, n);
        model::lemma_filter_split(a, 0, t, n);
        model::lemma_filter_same(p, a, 0, t);
        model::lemma_filter_skip(a, t, n, n);
        model::lemma_filter_skip(q, 0, t, n);
        model::lemma_filter_same(p, q, t, n);
        assert(model::filter_range(a, 0, t) + Seq::<int>::empty() =~= model::filter_range(a, 0, t));
    }

    /// Splits a `RawIterRange` into two halves.
    ///
    /// Returns `None` if the remaining range is smaller than or equal to the
    /// group width.
    pub fn split(self, table: &RawTableInner<T>) -> (r: (Self, Option<RawIterRange<T>>))
        requires
            table.ctrl_wf(),
            self.wf(table.tags()),
        ensures
            r.0.wf(table.tags()),
            r.1 is Some <==> self.end > self.next_ctrl,
            match r.1 {
                Some(tail) => {
                    &&& tail.wf(table.tags())
                    &&& self.remaining(table.tags()) == r.0.remaining(table.tags())
                        + tail.remaining(table.tags())
                    &&& tail.data == self.next_ctrl + ((self.end - self.next_ctrl) / 32) * 16
                    &&& r.0.end == tail.data
                    &&& tail.end == self.end
                },
                None => r.0 == self,
            },
    {
        let mut head = self;
        if head.end <= head.next_ctrl {
            // Nothing to split if the group that we are current processing
            // is the last one.
            (head, None)
        } else {
            // len is the remaining number of elements after the group that
            // we are currently processing. It must be a multiple of the
            // group size (small tables are caught by the check above).
            let len: usize = head.end - head.next_ctrl;
            let ghost tags = table.tags();
            let mid: usize = split_point(len);
            let tail = RawIterRange::new(table, head.next_ctrl + mid, len - mid);
            head.end = head.next_ctrl + mid;
            proof {
                Self::lemma_split(&self, &head, &tail, tags);
            }
            (head, Some(tail))
        }
    }

    /// Advances the range and returns the next bucket.
    ///
    /// If `DO_CHECK_PTR_RANGE` is false, there has to be a next bucket.
    pub fn next_impl<const DO_CHECK_PTR_RANGE: bool>(&mut self, table: &RawTableInner<T>) -> (r:
        Option<Bucket<T>>)
        requires
            table.data_room(),
            old(self).wf(table.tags()),
            DO_CHECK_PTR_RANGE || old(self).remaining(table.tags()).len() > 0,
        ensures
            final(self).wf(table.tags()),
            final(self).end == old(self).end,
            match r {
                Some(bucket) => {
                    &&& old(self).remaining(table.tags()).len() > 0
                    &&& table.is_full_at(old(self).remaining(table.tags())[0])
                    &&& final(self).has_yielded(old(self).remaining(table.tags())[0])
                    &&& bucket.is_at(
                        table.ctrl_offset as int,
                        old(self).remaining(table.tags())[0],
                    )
                    &&& final(self).remaining(table.tags()) == old(self).remaining(
                        table.tags(),
                    ).drop_first()
                },
                None => {
                    &&& old(self).remaining(table.tags()).len() == 0
                    &&& final(self).remaining(table.tags()).len() == 0
                },
            },
    {
        let ghost tags = table.tags();
        let ghost n = table.n();
        let ghost p = |j: int| old(self).pending(tags, j);
        loop
            invariant
                table.data_room(),
                tags == table.tags(),
                n == table.n(),
                n == tags.len(),
                p == (|j: int| old(self).pending(tags, j)),
                DO_CHECK_PTR_RANGE || model::filter_range(p, 0, n).len() > 0,
                self.wf(tags),
                self.end == old(self).end,
                forall|j: int| 0 <= j < n ==> self.pending(tags, j) == #[trigger] p(j),
            decreases n - self.data, self.current_group.0.0,
        {
            let ghost before = *self;
            if let Some(index) = self.current_group.next() {
                let found: usize = self.data + index;
                proof {
                    Self::lemma_popped(&before, self, tags, p, found as int);
                }
                return Some(table.bucket(found));
            }
            proof {
                if self.next_ctrl >= self.end {
                    self.lemma_exhausted(tags, p);
                }
            }
            if DO_CHECK_PTR_RANGE && self.next_ctrl >= self.end {
                return None;
            }
            let group = table.load_group(self.next_ctrl);
            self.current_group = group.match_full().into_iter();
            self.data = self.data + Group::WIDTH;
            self.next_ctrl = self.next_ctrl + Group::WIDTH;
            proof {
                Self::lemma_advanced(&before, self, tags, p, group);
            }
        }
    }

    /// Taking the lowest bit of the current group takes the first index that is
    /// still to be returned.
    proof fn lemma_popped(
        before: &Self,
        after: &Self,
        tags: Seq<Tag>,
        p: spec_fn(int) -> bool,
        found: int,
    )
        requires
            before.wf(tags),
            after.data == before.data,
            after.next_ctrl == before.next_ctrl,
            after.end == before.end,
            before.current_group.0.bit(found - before.data),
            before.current_group.0.none_below(found - before.data),
            forall|b: int|
                after.current_group.0.bit(b) <==> before.current_group.0.bit(b) && b != found
                    - before.data,
            forall|j: int| 0 <= j < tags.len() ==> before.pending(tags, j) == #[trigger] p(j),
        ensures
            after.wf(tags),
            0 <= found < tags.len(),
            tags[found] is Full,
            model::filter_range(p, 0, tags.len() as int).len() > 0,
            model::filter_range(p, 0, tags.len() as int)[0] == found,
            after.remaining(tags) == model::filter_range(p, 0, tags.len() as int).drop_first(),
    {
        let n = tags.len() as int;
        let q = |j: int| after.pending(tags, j);
        assert forall|j: int| 0 <= j < found implies !#[trigger] p(j) by {
            assert(before.pending(tags, j) == p(j));
        }
        assert forall|j: int| 0 <= j < n implies #[trigger] q(j) == (p(j) && j != found) by {
            assert(before.pending(tags, j) == p(j));
        }
        assert(before.pending(tags, found) == p(found));
        model::lemma_filter_pop(p, q, found, n);
    }

    /// Behind the last group of the range nothing is left.
    proof fn lemma_exhausted(&self, tags: Seq<Tag>, p: spec_fn(int) -> bool)
        requires
            self.wf(tags),
            self.next_ctrl >= self.end,
            forall|b: int| !self.current_group.0.bit(b),
            forall|j: int| 0 <= j < tags.len() ==> self.pending(tags, j) == #[trigger] p(j),
        ensures
            model::filter_range(p, 0, tags.len() as int).len() == 0,
            self.remaining(tags).len() == 0,
    {
        let n = tags.len() as int;
        let q = |j: int| self.pending(tags, j);
        assert forall|j: int| 0 <= j < n implies !#[trigger] p(j) by {
            assert(self.pending(tags, j) == p(j));
        }
        model::lemma_filter_skip(p, 0, n, n);
        assert forall|j: int| 0 <= j < n implies #[trigger] p(j) == q(j) by {}
        model::lemma_filter_same(p, q, 0, n);
    }

    /// Loading the next group keeps what is still to be returned.
    proof fn lemma_advanced(
        before: &Self,
        after: &Self,
        tags: Seq<Tag>,
        p: spec_fn(int) -> bool,
        group: Group,
    )
        requires
            is_pow2(tags.len() as int),
            before.wf(tags),
            before.next_ctrl < before.end,
            forall|b: int| !before.current_group.0.bit(b),
            after.data == before.data + Group::WIDTH,
            after.next_ctrl == before.next_ctrl + Group::WIDTH,
            after.end == before.end,
            forall|b: int|
                after.current_group.0.bit(b) <==> 0 <= b < Group::WIDTH && group@[b] is Full,
            forall|b: int|
                0 <= b < Group::WIDTH ==> #[trigger] group@[b] == model::window_tag(
                    tags,
                    after.data as int,
                    b,
                ),
            forall|j: int| 0 <= j < tags.len() ==> before.pending(tags, j) == #[trigger] p(j),
        ensures
            after.wf(tags),
            forall|j: int| 0 <= j < tags.len() ==> after.pending(tags, j) == #[trigger] p(j),
    {
        let n = tags.len() as int;
        lemma_aligned_group(tags, after.data as int, group);
        assert forall|b: int| after.current_group.0.bit(b) implies after.data + b < n && tags[after.data
            + b] is Full by {
            assert(group@[b] is Full);
        }
        assert forall|j: int| 0 <= j < n implies after.pending(tags, j) == #[trigger] p(j) by {
            assert(before.pending(tags, j) == p(j));
            let b = j - after.data;
            if 0 <= b < 16 {
                assert(group@[b] is Full <==> tags[j] is Full);
            }
        }
    }

    /// Advances the range and returns the next bucket.
    pub fn next(&mut self, table: &RawTableInner<T>) -> (r: Option<Bucket<T>>)
        requires
            table.data_room(),
            old(self).wf(table.tags()),
        ensures
            final(self).wf(table.tags()),
            final(self).end == old(self).end,
            match r {
                Some(bucket) => {
                    &&& old(self).remaining(table.tags()).len() > 0
                    &&& table.is_full_at(old(self).remaining(table.tags())[0])
                    &&& final(self).has_yielded(old(self).remaining(table.tags())[0])
                    &&& bucket.is_at(
                        table.ctrl_offset as int,
                        old(self).remaining(table.tags())[0],
                    )
                    &&& final(self).remaining(table.tags()) == old(self).remaining(
                        table.tags(),
                    ).drop_first()
                },
                None => {
                    &&& old(self).remaining(table.tags()).len() == 0
                    &&& final(self).remaining(table.tags()).len() == 0
                },
            },
    {
        self.next_impl::<true>(table)
    }

    /// Returns bounds on the number of buckets that are still to be returned. There is
    /// no item count, so the upper bound is the size of the range.
    pub fn size_hint(&self) -> (r: (usize, Option<usize>))
        requires
            self.end <= isize::MAX,
        ensures
            r.0 == 0,
            r.1 == Some(
                (Group::WIDTH + if self.end > self.next_ctrl {
                    self.end - self.next_ctrl
                } else {
                    0
                }) as usize,
            ),
    {
        let remaining_buckets: usize = if self.end > self.next_ctrl {
            self.end - self.next_ctrl
        } else {
            0
        };
        // Add a group width to cover the group we are currently processing.
        (0, Some(Group::WIDTH + remaining_buckets))
    }
}

/// Whether `accs` are the values of an accumulator that `f` folds the buckets at
/// these indices into, one after the other.
pub open spec fn folds<T, B, F: Fn(B, Bucket<T>) -> B>(
    f: &F,
    base: int,
    indices: Seq<int>,
    accs: Seq<B>,
) -> bool {
    &&& accs.len() == indices.len() + 1
    &&& forall|k: int|
        #![trigger indices[k]]
        0 <= k < indices.len() ==> folds_one(f, base, indices[k], accs[k], accs[k + 1])
}

/// Whether `f` takes the accumulator from `before` to `after` at this bucket.
pub open spec fn folds_one<T, B, F: Fn(B, Bucket<T>) -> B>(
    f: &F,
    base: int,
    index: int,
    before: B,
    after: B,
) -> bool {
    exists|bucket: Bucket<T>| #[trigger]
        bucket.is_at(base, index) && call_ensures(f, (before, bucket), after)
}

impl<T> RawIterRange<T> {
    /// Every bucket of the range is within the bounds of the size hint.
    pub proof fn lemma_size_hint(&self, tags: Seq<Tag>)
        requires
            self.wf(tags),
        ensures
            self.remaining(tags).len() <= Group::WIDTH + if self.end > self.next_ctrl {
                self.end - self.next_ctrl
            } else {
                0
            },
    {
        let n = tags.len() as int;
        let p = |j: int| self.pending(tags, j);
        let lo = self.data as int;
        let mid = if self.next_ctrl <= n {
            self.next_ctrl as int
        } else {
            n
        };
        let hi = if self.end > mid {
            self.end as int
        } else {
            mid
        };
        model::lemma_filter_skip(p, 0, lo, n);
        model::lemma_filter_split(p, lo, mid, n);
        model::lemma_filter_split(p, mid, hi, n);
        model::lemma_filter_skip(p, hi, n, n);
        lemma_filter_len(p, lo, mid);
        lemma_filter_len(p, mid, hi);
    }

    /// Folds every element into an accumulator by applying an operation,
    /// returning the final result.
    ///
    /// `fold_impl()` takes the number of items remaining in the iterator, an initial
    /// value, and a closure with two arguments: an 'accumulator', and an element. The
    /// closure returns the value that the accumulator should have for the next iteration.
    pub fn fold_impl<B, F: Fn(B, Bucket<T>) -> B>(
        self,
        table: &RawTableInner<T>,
        n: usize,
        acc: B,
        f: &F,
    ) -> (r: B)
        requires
            table.data_room(),
            self.wf(table.tags()),
            n == self.remaining(table.tags()).len(),
            forall|a: B, bucket: Bucket<T>, j: int|
                #![trigger call_requires(f, (a, bucket)), bucket.is_at(table.ctrl_offset as int, j)]
                table.is_full_at(j) && bucket.is_at(table.ctrl_offset as int, j) ==> call_requires(
                    f,
                    (a, bucket),
                ),
        ensures
            exists|accs: Seq<B>| #[trigger]
                folds(f, table.ctrl_offset as int, self.remaining(table.tags()), accs) && accs[0]
                    == acc && r == accs.last(),
    {
        let ghost tags = table.tags();
        let ghost base = table.ctrl_offset as int;
        let ghost all = self.remaining(tags);
        let ghost mut accs: Seq<B> = seq![acc];
        let ghost first = acc;
        let mut range = self;
        let mut left: usize = n;
        let mut acc = acc;
        assert(all.skip(0) =~= all);
        while left > 0
            invariant
                table.data_room(),
                tags == table.tags(),
                base == table.ctrl_offset,
                range.wf(tags),
                left <= all.len(),
                range.remaining(tags) == all.skip(all.len() - left),
                accs.len() == all.len() - left + 1,
                accs.last() == acc,
                forall|k: int|
                    #![trigger all[k]]
                    0 <= k < all.len() - left ==> folds_one(f, base, all[k], accs[k], accs[k + 1]),
                forall|a: B, bucket: Bucket<T>, j: int|
                    #![trigger call_requires(f, (a, bucket)), bucket.is_at(table.ctrl_offset as int, j)]
                    table.is_full_at(j) && bucket.is_at(table.ctrl_offset as int, j)
                        ==> call_requires(f, (a, bucket)),
                accs[0] == first,
            decreases left,
        {
            let ghost k = all.len() - left;
            let bucket = range.next_impl::<false>(table).unwrap();
            let ghost before = acc;
            let ghost taken = bucket;
            acc = f(acc, bucket);
            proof {
                assert(taken.is_at(base, all[k]));
                assert(folds_one(f, base, all[k], before, acc));
                let longer = accs.push(acc);
                assert forall|l: int|
                    #![trigger all[l]]
                    0 <= l < k + 1 implies folds_one(f, base, all[l], longer[l], longer[l + 1]) by {
                    if l < k {
                        assert(longer[l] == accs[l] && longer[l + 1] == accs[l + 1]);
                    }
                }
                accs = longer;
                assert(all.skip(k).drop_first() =~= all.skip(k + 1));
            }
            left = left - 1;
        }
        proof {
            assert(folds(f, base, all, accs));
        }
        acc
    }
}

/// A range selects at most as many numbers as it has.
proof fn lemma_filter_len(p: spec_fn(int) -> bool, lo: int, hi: int)
    requires
        lo <= hi,
    ensures
        model::filter_range(p, lo, hi).len() <= hi - lo,
    decreases hi - lo,
{
    if lo < hi {
        lemma_filter_len(p, lo + 1, hi);
    }
}

/// Iterator which returns every full bucket in the table.
///
/// For maximum flexibility this iterator is not bound by a lifetime. It is fine to
/// erase a bucket that has been yielded by the iterator.
pub struct RawIter<T> {
    pub iter: RawIterRange<T>,
    pub items: usize,
}

impl<T> Clone for RawIter<T> {
    fn clone(&self) -> (r: Self)
        ensures
            r == *self,
    {
        RawIter { iter: self.iter.clone(), items: self.items }
    }
}

impl<T> RawIter<T> {
    /// The indices of the buckets that are still to be returned, in order.
    pub open spec fn remaining(&self, tags: Seq<Tag>) -> Seq<int> {
        self.iter.remaining(tags)
    }

    /// Whether the iterator has gone past bucket `j`.
    pub open spec fn has_yielded(&self, j: int) -> bool {
        self.iter.has_yielded(j)
    }

    /// It is fine to erase a bucket that has been yielded by the iterator: what is
    /// still to be returned stays the same.
    pub proof fn lemma_yielded_may_be_erased(&self, tags: Seq<Tag>, j: int, tag: Tag)
        requires
            self.wf(tags),
            0 <= j < tags.len(),
            self.has_yielded(j),
        ensures
            self.wf(tags.update(j, tag)),
            self.remaining(tags.update(j, tag)) == self.remaining(tags),
    {
        self.iter.lemma_yielded_may_change(tags, j, tag);
    }

    /// Whether the iterator is within the table and counts what it has to return.
    pub open spec fn wf(&self, tags: Seq<Tag>) -> bool {
        &&& self.iter.wf(tags)
        &&& self.items == self.remaining(tags).len()
    }

    /// Advances the iterator and returns the next bucket.
    pub fn next(&mut self, table: &RawTableInner<T>) -> (r: Option<Bucket<T>>)
        requires
            table.data_room(),
            old(self).wf(table.tags()),
        ensures
            final(self).wf(table.tags()),
            match r {
                Some(bucket) => {
                    &&& old(self).remaining(table.tags()).len() > 0
                    &&& table.is_full_at(old(self).remaining(table.tags())[0])
                    &&& final(self).has_yielded(old(self).remaining(table.tags())[0])
                    &&& bucket.is_at(
                        table.ctrl_offset as int,
                        old(self).remaining(table.tags())[0],
                    )
                    &&& final(self).remaining(table.tags()) == old(self).remaining(
                        table.tags(),
                    ).drop_first()
                },
                None => {
                    &&& old(self).remaining(table.tags()).len() == 0
                    &&& *final(self) == *old(self)
                },
            },
    {
        // The range iterates over buckets, so it could do unnecessary work if
        // all items have been yielded.
        if self.items == 0 {
            return None;
        }
        let nxt = self.iter.next_impl::<false>(table);
        self.items = self.items - 1;
        nxt
    }

    /// Returns the bounds on the number of buckets that are still to be returned.
    pub fn size_hint(&self) -> (r: (usize, Option<usize>))
        ensures
            r == (self.items, Some(self.items)),
    {
        (self.items, Some(self.items))
    }

    /// Folds every remaining bucket into an accumulator.
    pub fn fold<B, F: Fn(B, Bucket<T>) -> B>(self, table: &RawTableInner<T>, init: B, f: &F) -> (r: B)
        requires
            table.data_room(),
            self.wf(table.tags()),
            forall|a: B, bucket: Bucket<T>, j: int|
                #![trigger call_requires(f, (a, bucket)), bucket.is_at(table.ctrl_offset as int, j)]
                table.is_full_at(j) && bucket.is_at(table.ctrl_offset as int, j) ==> call_requires(
                    f,
                    (a, bucket),
                ),
        ensures
            exists|accs: Seq<B>| #[trigger]
                folds(f, table.ctrl_offset as int, self.remaining(table.tags()), accs) && accs[0]
                    == init && r == accs.last(),
    {
        self.iter.fold_impl(table, self.items, init, f)
    }

    /// Drops the elements of all remaining buckets, which are left unoccupied.
    ///
    /// All of them leave the table before the first one is dropped.
    pub fn drop_elements(&mut self, table: &mut RawTableInner<T>)
        requires
            old(table).data_room(),
            old(self).wf(old(table).tags()),
        ensures
            final(self).wf(old(table).tags()),
            final(self).remaining(old(table).tags()).len() == 0,
            final(table).same_but_data(old(table)),
            final(table).data@.len() == old(table).data@.len(),
            forall|i: int|
                0 <= i < old(table).data@.len() ==> #[trigger] final(table).data@[i] == if old(self).remaining(old(table).tags()).contains(i) {
                    None
                } else {
                    old(table).data@[i]
                },
    {
        let ghost tags = table.tags();
        let ghost all = self.remaining(tags);
        let ghost mut k: int = 0;
        proof {
            assert(all.skip(0) =~= all);
        }
        let mut elements: Vec<T> = Vec::new();
        loop
            invariant
                0 <= k <= all.len(),
                all == old(self).remaining(old(table).tags()),
                tags == old(table).tags(),
                table.same_but_data(old(table)),
                table.tags() == tags,
                table.data_room(),
                table.data@.len() == old(table).data@.len(),
                self.wf(tags),
                self.remaining(tags) == all.skip(k),
                forall|i: int|
                    0 <= i < table.data@.len() ==> #[trigger] table.data@[i] == if exists|l: int|
                        0 <= l < k && all[l] == i {
                        None
                    } else {
                        old(table).data@[i]
                    },
            ensures
                k == all.len(),
                table.same_but_data(old(table)),
                table.data@.len() == old(table).data@.len(),
                self.wf(tags),
                self.remaining(tags).len() == 0,
                forall|i: int|
                    0 <= i < table.data@.len() ==> #[trigger] table.data@[i] == if exists|l: int|
                        0 <= l < k && all[l] == i {
                        None
                    } else {
                        old(table).data@[i]
                    },
            decreases all.len() - k,
        {
            match self.next(table) {
                Some(item) => {
                    let ghost before = table.data@;
                    proof {
                        assert(table.bucket_mask > 0);
                        assert(item.is_at(table.ctrl_offset as int, all[k]));
                        assert(all.skip(k).drop_first() =~= all.skip(k + 1));
                    }
                    let taken = item.take(table);
                    match taken {
                        Some(value) => {
                            elements.push(value);
                        },
                        None => {},
                    }
                    proof {
                        assert(table.data@ == before.update(all[k], None));
                        assert forall|i: int| 0 <= i < table.data@.len() implies #[trigger] table.data@[i]
                            == if exists|l: int| 0 <= l < k + 1 && all[l] == i {
                            None
                        } else {
                            old(table).data@[i]
                        } by {
                            assert(table.data@[i] == before.update(all[k], None)[i]);
                            if i == all[k] {
                            } else if exists|l: int| 0 <= l < k && all[l] == i {
                                let l = choose|l: int| 0 <= l < k && all[l] == i;
                                assert(0 <= l < k + 1 && all[l] == i);
                            }
                        }
                        k = k + 1;
                    }
                },
                None => {
                    break;
                },
            }
        }
        storage::drop_all(elements);
    }
}

impl<T> RawTableInner<T> {
    /// Returns an iterator over every element in the table.
    pub fn iter(&self) -> (r: RawIter<T>)
        requires
            self.ctrl_wf(),
            self.items == model::count(self.tags(), Kind::Full),
        ensures
            r.wf(self.tags()),
            r.items == self.items,
            r.remaining(self.tags()) == model::full_indices(self.tags()),
    {
        let buckets: usize = self.num_buckets();
        proof {
            model::lemma_pow2_16();
            if self.n() >= Group::WIDTH {
                math::lemma_pow2_divides(16, self.n());
            }
        }
        let range = RawIterRange::new(self, 0, buckets);
        proof {
            model::lemma_filter_same(
                |j: int| range.data <= j < range.end && self.tags()[j] is Full,
                |j: int| self.tags()[j] is Full,
                0,
                self.n(),
            );
            model::lemma_full_indices_len(self.tags());
        }
        RawIter { iter: range, items: self.items }
    }
}

impl<T> Default for RawIter<T> {
    fn default() -> (r: Self)
        ensures
            r.items == 0,
            r.wf(seq![Tag::Empty]),
    {
        let table: RawTableInner<T> = RawTableInner::new();
        table.iter()
    }
}

} // verus!
