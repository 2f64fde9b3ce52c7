//! Table storage: the control bytes with their mirrored group, the buckets, and
//! the block of memory that they take up.
use crate::allocator;
use crate::allocator::{Allocator, Block, Layout, TryReserveError};
use crate::control::{h2, Group, Tag};
use crate::math;
use crate::raw::bucket;
use crate::raw::bucket::Bucket;
use crate::raw::layout;
use crate::raw::layout::{
    bucket_mask_to_capacity, capacity_to_buckets, maximum_buckets_in, Fallibility, TableLayout,
};
use crate::raw::model;
use crate::raw::model::Kind;
use core::mem::ManuallyDrop;
use vstd::arithmetic::div_mod::*;
use vstd::arithmetic::power2::*;
use vstd::multiset::Multiset;
use vstd::prelude::*;

verus! {

/// The control bytes and buckets of a table, and its counters.
///
/// A table without memory has a bucket mask of zero: it acts as a table of one
/// empty bucket, whose control bytes all read as empty.
///
/// The block is what the allocator of the table granted, and what addresses are relative
/// to. The control bytes and the elements lie in vectors on the heap.
pub struct RawTableInner<T> {
    /// Mask to get an index from a hash value. The value is one less than the
    /// number of buckets in the table.
    pub bucket_mask: usize,
    /// The control bytes: one for each bucket, then the mirrored group.
    pub ctrl: Vec<Tag>,
    /// The buckets.
    pub data: Vec<Option<T>>,
    /// Number of elements that can be inserted before the table has to grow.
    pub growth_left: usize,
    /// Number of elements in the table.
    pub items: usize,
    /// Where in the block the control bytes start.
    pub ctrl_offset: usize,
    /// The memory of the table.
    pub block: Option<Block>,
    /// The hashes that the elements were inserted with.
    pub hashes: Ghost<Seq<u64>>,
}

/// What the control byte at `j`, behind the `n` bytes of the buckets, repeats.
///
/// In a table smaller than a group the bytes up to the group width are empty, and
/// the repetition follows behind them.
pub open spec fn mirror_tag(ctrl: Seq<Tag>, n: int, j: int) -> Tag {
    if n >= Group::WIDTH {
        ctrl[j - n]
    } else if j < Group::WIDTH {
        Tag::Empty
    } else {
        ctrl[j - Group::WIDTH]
    }
}

/// Whether the bytes behind the `n` control bytes of the buckets repeat the first
/// ones, such that a group may be loaded at any bucket.
pub open spec fn mirrored(ctrl: Seq<Tag>, n: int) -> bool {
    forall|j: int| n <= j < n + Group::WIDTH ==> #[trigger] mirror_tag(ctrl, n, j) == ctrl[j]
}

/// Whether the bucket is within a run of occupied buckets as long as a group.
pub open spec fn in_full_run(tags: Seq<Tag>, index: int) -> bool {
    &&& tags.len() >= Group::WIDTH
    &&& exists|s: int| 0 <= s < Group::WIDTH && #[trigger] occupied_from(tags, index - s)
}

/// Whether a group that starts at bucket `start`, counted around the table, has no
/// empty bucket.
pub open spec fn occupied_from(tags: Seq<Tag>, start: int) -> bool {
    forall|b: int|
        0 <= b < Group::WIDTH ==> #[trigger] tags[(start + b) % (tags.len() as int)] != Tag::Empty
}

impl<T> RawTableInner<T> {
    /// The number of buckets.
    pub open spec fn n(&self) -> int {
        self.bucket_mask + 1
    }

    /// The control bytes of the buckets.
    pub open spec fn tags(&self) -> Seq<Tag> {
        if self.bucket_mask == 0 {
            seq![Tag::Empty]
        } else {
            self.ctrl@.subrange(0, self.n())
        }
    }

    /// Whether the number of buckets is a power of two, and there are as many
    /// control bytes and buckets as it calls for, with the first group mirrored.
    pub open spec fn ctrl_wf(&self) -> bool {
        &&& self.bucket_mask < isize::MAX
        &&& is_pow2(self.n())
        &&& if self.bucket_mask == 0 {
            self.ctrl@.len() == 0 && self.data@.len() == 0 && self.hashes@.len() == 0
        } else {
            &&& self.ctrl@.len() == self.n() + Group::WIDTH
            &&& self.data@.len() == self.n()
            &&& self.hashes@.len() == self.n()
            &&& mirrored(self.ctrl@, self.n())
        }
    }

    /// Whether every full bucket has the tag of its hash, and a lookup reaches it.
    pub open spec fn probe_wf(&self) -> bool {
        forall|i: int|
            0 <= i < self.n() && #[trigger] self.tags()[i] is Full ==> {
                &&& self.tags()[i] == Tag::Full(h2(self.hashes@[i]))
                &&& model::placed(self.tags(), self.hashes@[i], i)
            }
    }

    /// Whether the counters agree with the control bytes.
    pub open spec fn count_wf(&self) -> bool {
        &&& self.items == model::count(self.tags(), Kind::Full)
        &&& self.growth_left + self.items + model::count(self.tags(), Kind::Deleted)
            == layout::capacity_of(self.n())
        &&& self.n() < Group::WIDTH ==> model::count(self.tags(), Kind::Deleted) == 0
    }

    /// Whether just the full buckets hold an element.
    pub open spec fn data_wf(&self) -> bool {
        self.bucket_mask > 0 ==> forall|i: int|
            0 <= i < self.n() ==> (#[trigger] self.data@[i] is Some <==> self.tags()[i] is Full)
    }

    /// What holds of the control bytes of every table.
    pub open spec fn sound(&self) -> bool {
        &&& self.ctrl_wf()
        &&& self.probe_wf()
        &&& self.count_wf()
    }

    /// What holds of every table.
    pub open spec fn wf(&self) -> bool {
        &&& self.sound()
        &&& self.data_wf()
    }

    /// Whether the table holds the block that its buckets take up.
    pub open spec fn block_wf(&self, table_layout: TableLayout) -> bool {
        &&& table_layout.valid()
        &&& if self.bucket_mask == 0 {
            self.block is None
        } else {
            &&& self.block matches Some(block) && block.fits(table_layout.layout_spec(self.n()))
            &&& table_layout.allocatable(self.n())
            &&& self.ctrl_offset == table_layout.ctrl_offset_spec(self.n())
        }
    }

    /// Whether bucket `i` is full.
    pub open spec fn is_full_at(&self, i: int) -> bool {
        0 <= i < self.n() && self.tags()[i] is Full
    }

    /// Whether bucket `i` holds this element, which was inserted with this hash.
    pub open spec fn holds(&self, i: int, hash: u64, value: T) -> bool {
        &&& self.is_full_at(i)
        &&& self.hashes@[i] == hash
        &&& self.data@[i] == Some(value)
    }

    /// The elements of the table.
    pub open spec fn elements(&self) -> Multiset<T> {
        model::bag(self.data@)
    }

    /// The same memory, buckets and elements; the control bytes may differ.
    pub open spec fn same_but_ctrl(&self, other: &RawTableInner<T>) -> bool {
        &&& self.bucket_mask == other.bucket_mask
        &&& self.data == other.data
        &&& self.ctrl_offset == other.ctrl_offset
        &&& self.block == other.block
    }

    /// A table always has an empty bucket, or is so small that every group has an
    /// empty byte, so every lookup ends.
    pub proof fn lemma_has_empty(&self) -> (e: int)
        requires
            self.ctrl_wf(),
            self.count_wf(),
        ensures
            0 <= e < self.n(),
            self.tags()[e] == Tag::Empty,
    {
        let tags = self.tags();
        let n = self.n();
        model::lemma_count_total(tags);
        assert(layout::capacity_of(n) < n);
        let e = model::lemma_count_positive(tags, Kind::Empty);
        e
    }

    /// Creates a new empty hash table without allocating any memory.
    ///
    /// In effect this returns a table with exactly 1 bucket, which is never
    /// written to since the load factor keeps at least 1 bucket empty.
    pub fn new() -> (r: Self)
        ensures
            r.wf(),
            r.bucket_mask == 0,
            r.items == 0,
            r.growth_left == 0,
            r.block is None,
            r.elements() == Multiset::<T>::empty(),
            r.is_new(),
    {
        let r = RawTableInner {
            bucket_mask: 0,
            ctrl: Vec::new(),
            data: Vec::new(),
            growth_left: 0,
            items: 0,
            ctrl_offset: 0,
            block: None,
            hashes: Ghost(Seq::empty()),
        };
        proof {
            reveal(is_pow2);
            reveal_with_fuel(model::count, 2);
            assert(r.tags().drop_last() =~= Seq::empty());
        }
        r
    }

    /// Whether this is the table that `new` creates.
    pub open spec fn is_new(&self) -> bool {
        &&& self.bucket_mask == 0
        &&& self.ctrl@.len() == 0
        &&& self.data@.len() == 0
        &&& self.hashes@.len() == 0
        &&& self.items == 0
        &&& self.growth_left == 0
        &&& self.block is None
    }

    /// Returns the number of buckets in the table.
    pub fn num_buckets(&self) -> (r: usize)
        requires
            self.bucket_mask < usize::MAX,
        ensures
            r == self.n(),
    {
        self.bucket_mask + 1
    }

    /// Returns the number of control bytes, the mirrored group included.
    pub fn num_ctrl_bytes(&self) -> (r: usize)
        requires
            self.bucket_mask < isize::MAX,
        ensures
            r == self.n() + Group::WIDTH,
    {
        self.bucket_mask + 1 + Group::WIDTH
    }

    /// Checks whether the table has no memory.
    pub fn is_empty_singleton(&self) -> (r: bool)
        ensures
            r == (self.bucket_mask == 0),
    {
        self.bucket_mask == 0
    }

    /// Returns a control byte: that of a bucket, or one of those behind them.
    pub fn ctrl(&self, index: usize) -> (r: Tag)
        requires
            self.ctrl_wf(),
            index < self.n() + Group::WIDTH,
        ensures
            r == if index < self.n() {
                self.tags()[index as int]
            } else {
                mirror_tag(self.tags(), self.n(), index as int)
            },
    {
        if self.is_empty_singleton() {
            Tag::Empty
        } else {
            assert(index >= self.n() ==> mirror_tag(self.ctrl@, self.n(), index as int)
                == self.ctrl@[index as int]);
            self.ctrl[index]
        }
    }

    /// Loads the group of control bytes that starts at a bucket.
    pub fn load_group(&self, pos: usize) -> (r: Group)
        requires
            self.ctrl_wf(),
            pos < self.n(),
        ensures
            forall|b: int|
                0 <= b < Group::WIDTH ==> #[trigger] r@[b] == model::window_tag(
                    self.tags(),
                    pos as int,
                    b,
                ),
    {
        if self.is_empty_singleton() {
            Group::static_empty()
        } else {
            let r = Group::load(&self.ctrl, pos);
            proof {
                let n = self.n();
                model::lemma_pow2_16();
                assert forall|b: int| 0 <= b < Group::WIDTH implies #[trigger] r@[b]
                    == model::window_tag(self.tags(), pos as int, b) by {
                    let j = pos + b;
                    assert(r@[b] == self.ctrl@[j]);
                    assert(j >= n ==> mirror_tag(self.ctrl@, n, j) == self.ctrl@[j]);
                    if j < n {
                        lemma_small_mod(j as nat, n as nat);
                    } else if n >= Group::WIDTH {
                        model::lemma_same_mod(j, j - n, 1, n);
                        lemma_small_mod((j - n) as nat, n as nat);
                    } else if j >= Group::WIDTH {
                        math::lemma_pow2_divides(n, 16);
                        model::lemma_same_mod(j, j - 16, 16int / n, n);
                        lemma_small_mod((j - 16) as nat, n as nat);
                    }
                }
            }
            r
        }
    }

    /// Checks whether the bucket at `index` is full.
    pub fn is_bucket_full(&self, index: usize) -> (r: bool)
        requires
            self.ctrl_wf(),
            index < self.n(),
        ensures
            r == self.is_full_at(index as int),
    {
        self.ctrl(index).is_full()
    }

    /// Sets a control byte, and possibly also the replicated control byte at
    /// the end of the array.
    pub fn set_ctrl(&mut self, index: usize, ctrl: Tag)
        requires
            old(self).ctrl_wf(),
            old(self).bucket_mask > 0,
            index < old(self).n(),
        ensures
            final(self).ctrl_wf(),
            final(self).tags() == old(self).tags().update(index as int, ctrl),
            final(self).same_but_ctrl(old(self)),
            final(self).hashes == old(self).hashes,
            final(self).items == old(self).items,
            final(self).growth_left == old(self).growth_left,
    {
        // A table smaller than a group keeps its mirror behind the first group:
        // `index2` is `Group::WIDTH + index`. Otherwise it is `num_buckets + index`
        // for the first group, and `index` itself behind it.
        let before: usize = index.wrapping_sub(Group::WIDTH);
        proof {
            math::lemma_masked_sub(index, Group::WIDTH, self.bucket_mask);
            lemma_mod_bound(index - Group::WIDTH, self.n());
        }
        let index2: usize = (before & self.bucket_mask) + Group::WIDTH;
        proof {
            let n = self.n();
            model::lemma_pow2_16();
            if n < Group::WIDTH {
                math::lemma_pow2_divides(n, 16);
                let q = 16int / n;
                assert(n * (-q) == -(n * q)) by (nonlinear_arith);
                model::lemma_same_mod(index - 16, index as int, -q, n);
                lemma_small_mod(index as nat, n as nat);
            } else if index >= Group::WIDTH {
                lemma_small_mod((index - 16) as nat, n as nat);
            } else {
                model::lemma_same_mod(index - 16, index - 16 + n, -1, n);
                lemma_small_mod((index - 16 + n) as nat, n as nat);
            }
        }
        self.ctrl[index] = ctrl;
        self.ctrl[index2] = ctrl;
        proof {
            let n = self.n();
            assert(self.tags() =~= old(self).tags().update(index as int, ctrl));
            assert forall|j: int| n <= j < n + Group::WIDTH implies #[trigger] mirror_tag(
                self.ctrl@,
                n,
                j,
            ) == self.ctrl@[j] by {
                assert(mirror_tag(old(self).ctrl@, n, j) == old(self).ctrl@[j]);
            }
        }
    }

    /// Sets a control byte to the hash, and possibly also the replicated control byte at
    /// the end of the array.
    pub fn set_ctrl_hash(&mut self, index: usize, hash: u64)
        requires
            old(self).ctrl_wf(),
            old(self).bucket_mask > 0,
            index < old(self).n(),
        ensures
            final(self).ctrl_wf(),
            final(self).tags() == old(self).tags().update(index as int, Tag::Full(h2(hash))),
            final(self).same_but_ctrl(old(self)),
            final(self).hashes@ == old(self).hashes@.update(index as int, hash),
            final(self).items == old(self).items,
            final(self).growth_left == old(self).growth_left,
    {
        self.set_ctrl(index, Tag::full(hash));
        proof {
            self.hashes@ = self.hashes@.update(index as int, hash);
        }
    }

    /// Replaces the hash in the control byte at the given index with the provided one,
    /// and possibly also replicates the new control byte at the end of the array of control
    /// bytes, returning the old control byte.
    pub fn replace_ctrl_hash(&mut self, index: usize, hash: u64) -> (r: Tag)
        requires
            old(self).ctrl_wf(),
            old(self).bucket_mask > 0,
            index < old(self).n(),
        ensures
            r == old(self).tags()[index as int],
            final(self).ctrl_wf(),
            final(self).tags() == old(self).tags().update(index as int, Tag::Full(h2(hash))),
            final(self).same_but_ctrl(old(self)),
            final(self).hashes@ == old(self).hashes@.update(index as int, hash),
            final(self).items == old(self).items,
            final(self).growth_left == old(self).growth_left,
    {
        let prev_ctrl = self.ctrl(index);
        self.set_ctrl_hash(index, hash);
        prev_ctrl
    }

    /// Erases the control byte at the given index so that it does not read as
    /// full, decreases the `items` of the table and, if it can be done,
    /// increases `self.growth_left`.
    ///
    /// The bucket becomes deleted if it is within a run of occupied buckets as long
    /// as a group, over which lookups step; otherwise it becomes empty.
    ///
    /// This does not touch the element itself, which the caller has to take out.
    pub fn erase(&mut self, index: usize)
        requires
            old(self).sound(),
            old(self).is_full_at(index as int),
        ensures
            final(self).sound(),
            final(self).tags() == old(self).tags().update(
                index as int,
                if in_full_run(old(self).tags(), index as int) {
                    Tag::Deleted
                } else {
                    Tag::Empty
                },
            ),
            final(self).same_but_ctrl(old(self)),
            final(self).hashes == old(self).hashes,
            final(self).items == old(self).items - 1,
            final(self).growth_left == old(self).growth_left + if in_full_run(
                old(self).tags(),
                index as int,
            ) {
                0int
            } else {
                1
            },
    {
        let before: usize = index.wrapping_sub(Group::WIDTH);
        let index_before: usize = before & self.bucket_mask;
        proof {
            math::lemma_masked_sub(index, Group::WIDTH, self.bucket_mask);
            lemma_mod_bound(index - Group::WIDTH, self.n());
        }
        let group_before = self.load_group(index_before);
        let group_after = self.load_group(index);
        let empty_before = group_before.match_empty();
        let empty_after = group_after.match_empty();
        // Here `leading_zeros` refers to the bytes at the end of a group, while
        // `trailing_zeros` refers to the bytes at the beginning of a group.
        let lead: usize = empty_before.leading_zeros();
        let trail: usize = empty_after.trailing_zeros();
        proof {
            let tags = self.tags();
            assert forall|b: int| 0 <= b < Group::WIDTH implies (empty_before.bit(b)
                <==> #[trigger] model::window_tag(tags, index_before as int, b) == Tag::Empty) by {
                assert(group_before@[b] == model::window_tag(tags, index_before as int, b));
            }
            assert forall|b: int| 0 <= b < Group::WIDTH implies (empty_after.bit(b)
                <==> #[trigger] model::window_tag(tags, index as int, b) == Tag::Empty) by {
                assert(group_after@[b] == model::window_tag(tags, index as int, b));
            }
            self.lemma_run(index as int, index_before as int, lead as int, trail as int);
            model::lemma_count_occurs(self.tags(), Kind::Full, index as int);
        }
        let ctrl = if lead + trail >= Group::WIDTH {
            Tag::Deleted
        } else {
            self.growth_left = self.growth_left + 1;
            Tag::Empty
        };
        self.set_ctrl(index, ctrl);
        self.items = self.items - 1;
        proof {
            let before = old(self).tags();
            let n = self.n();
            model::lemma_count_update(before, index as int, ctrl, Kind::Full);
            model::lemma_count_update(before, index as int, ctrl, Kind::Deleted);
            assert forall|i: int| 0 <= i < n && #[trigger] self.tags()[i] is Full implies {
                &&& self.tags()[i] == Tag::Full(h2(self.hashes@[i]))
                &&& model::placed(self.tags(), self.hashes@[i], i)
            } by {
                assert(before[i] is Full);
                if ctrl == Tag::Deleted {
                    model::lemma_placed_fewer_empty(before, self.tags(), self.hashes@[i], i);
                } else if n >= Group::WIDTH {
                    model::lemma_placed_after_erase(
                        before,
                        index as int,
                        lead as int,
                        trail as int,
                        self.hashes@[i],
                        i,
                    );
                }
            }
        }
    }

    /// How the empty bytes around a bucket tell the run of occupied buckets that
    /// the bucket is in.
    proof fn lemma_run(&self, index: int, index_before: int, lead: int, trail: int)
        requires
            self.ctrl_wf(),
            self.is_full_at(index),
            index_before == (index - Group::WIDTH) % self.n(),
            0 <= lead <= Group::WIDTH,
            0 <= trail <= Group::WIDTH,
            forall|b: int|
                Group::WIDTH - lead <= b < Group::WIDTH ==> #[trigger] model::window_tag(
                    self.tags(),
                    index_before,
                    b,
                ) != Tag::Empty,
            lead < Group::WIDTH ==> model::window_tag(
                self.tags(),
                index_before,
                Group::WIDTH - 1 - lead,
            ) == Tag::Empty,
            forall|b: int|
                0 <= b < trail ==> #[trigger] model::window_tag(self.tags(), index, b)
                    != Tag::Empty,
            trail < Group::WIDTH ==> model::window_tag(self.tags(), index, trail) == Tag::Empty,
        ensures
            self.n() < Group::WIDTH ==> lead + trail < Group::WIDTH,
            in_full_run(self.tags(), index) <==> lead + trail >= Group::WIDTH,
            self.n() >= Group::WIDTH && lead + trail < Group::WIDTH ==> {
                &&& self.tags()[(index - lead - 1) % self.n()] == Tag::Empty
                &&& self.tags()[(index + trail) % self.n()] == Tag::Empty
            },
    {
        let n = self.n();
        let tags = self.tags();
        let w = Group::WIDTH as int;
        model::lemma_pow2_16();
        if n < w {
            math::lemma_pow2_divides(n, 16);
            if n > 8 {
                math::lemma_pow2_gap(n, 16);
            }
            let q = 16int / n;
            assert(n * (-q) == -(n * q)) by (nonlinear_arith);
            model::lemma_same_mod(index - 16, index, -q, n);
            lemma_small_mod(index as nat, n as nat);
            assert(index_before == index);
            // The bytes between the buckets and their mirror are empty.
            assert(model::window_tag(tags, index, n - index) == Tag::Empty);
            assert(trail <= n - index);
            assert(model::window_tag(tags, index, 15 - index) == Tag::Empty);
            assert(lead <= index);
        } else {
            let e = (index - w) / n;
            lemma_fundamental_div_mod(index - w, n);
            // Byte `b` of the group before is the bucket `16 - b` in front of `index`.
            assert forall|b: int| 0 <= b < w implies #[trigger] model::window_tag(
                tags,
                index_before,
                b,
            ) == tags[(index - w + b) % n] by {
                assert(index - w + b == index_before + b + n * e);
                model::lemma_same_mod(index - w + b, index_before + b, e, n);
            }
            if lead + trail >= w {
                let s = w - trail;
                assert forall|b: int| 0 <= b < w implies #[trigger] tags[(index - s + b) % n]
                    != Tag::Empty by {
                    if b < s {
                        let c = w - s + b;
                        assert(model::window_tag(tags, index_before, c) != Tag::Empty);
                    } else {
                        assert(model::window_tag(tags, index, b - s) != Tag::Empty);
                    }
                }
                assert(trail >= 1) by {
                    if trail == 0 {
                        lemma_small_mod(index as nat, n as nat);
                    }
                }
                assert(occupied_from(tags, index - s));
            } else {
                assert(model::window_tag(tags, index_before, w - 1 - lead) == Tag::Empty);
                assert(index - w + (w - 1 - lead) == index - lead - 1);
                assert(model::window_tag(tags, index, trail) == Tag::Empty);
                if in_full_run(tags, index) {
                    let s = choose|s: int| 0 <= s < w && #[trigger] occupied_from(tags, index - s);
                    if s >= lead + 1 {
                        assert(tags[((index - s) + (s - lead - 1)) % n] != Tag::Empty);
                    } else {
                        assert(tags[((index - s) + (s + trail)) % n] != Tag::Empty);
                    }
                }
            }
        }
    }
}

/// Whether a table with room for `cap` elements is within the largest allocation.
pub open spec fn capacity_fits(cap: usize, table_layout: TableLayout) -> bool {
    cap == 0 || ((cap < 15 || cap * 8 <= usize::MAX) && table_layout.allocatable(
        layout::buckets_for(cap, table_layout),
    ))
}

/// Whether a block that was granted for `buckets` buckets has room for `chosen` of
/// them, and for no more.
pub open spec fn fills(
    block: Block,
    table_layout: TableLayout,
    buckets: int,
    chosen: int,
) -> bool {
    &&& block.requested_spec() == table_layout.layout_spec(buckets)
    &&& chosen >= buckets
    &&& block.len_spec() == block.requested_spec().size ==> chosen == buckets
    &&& table_layout.fits_in(chosen, block.len_spec() as int)
    &&& forall|p: int| #[trigger]
        table_layout.fits_in(p, block.len_spec() as int) ==> p <= chosen
}

/// Whether the heap gave this answer when it was asked for room for `len` items in an empty
/// vector.
pub open spec fn heap_answers<X>(
    len: usize,
    answer: Result<(), std::collections::TryReserveError>,
) -> bool {
    exists|v: &mut Vec<X>| (*v)@.len() == 0 && #[trigger] call_ensures(
        Vec::<X>::try_reserve,
        (v, len),
        answer,
    )
}

/// Whether the heap granted room for that many buckets and for their control bytes.
pub open spec fn heap_granted<T>(buckets: usize) -> bool {
    &&& exists|answer: Result<(), std::collections::TryReserveError>|
        answer is Ok && #[trigger] heap_answers::<Tag>(
            (buckets + Group::WIDTH) as usize,
            answer,
        )
    &&& exists|answer: Result<(), std::collections::TryReserveError>|
        answer is Ok && #[trigger] heap_answers::<Option<T>>(buckets, answer)
}

/// Whether the heap refused room for that many buckets, or for their control bytes.
pub open spec fn heap_refused<T>(buckets: usize) -> bool {
    ||| exists|answer: Result<(), std::collections::TryReserveError>|
        answer is Err && #[trigger] heap_answers::<Tag>(
            (buckets + Group::WIDTH) as usize,
            answer,
        )
    ||| exists|answer: Result<(), std::collections::TryReserveError>|
        answer is Err && #[trigger] heap_answers::<Option<T>>(buckets, answer)
}

/// Whether the allocator granted this block for a layout, and got it back because the heap
/// refused the `n` buckets that were to go with it.
pub open spec fn returned_unused<T, A: Allocator>(
    alloc: &A,
    layout: Layout,
    block: Block,
    n: usize,
) -> bool {
    &&& allocator::granted(alloc, layout, block)
    &&& allocator::given_back(alloc, block, layout)
    &&& heap_refused::<T>(n)
}

/// Whether there is no memory for a table of that many buckets: the allocator refused the
/// block, or the heap the buckets that the block has room for.
pub open spec fn out_of_memory<T, A: Allocator>(
    alloc: &A,
    table_layout: TableLayout,
    buckets: int,
) -> bool {
    ||| allocator::refused(alloc, table_layout.layout_spec(buckets))
    ||| exists|block: Block, n: usize|
        {
            &&& #[trigger] returned_unused::<T, A>(
                alloc,
                table_layout.layout_spec(buckets),
                block,
                n,
            )
            &&& fills(block, table_layout, buckets, n as int)
        }
}

/// Whether there is no memory for a table of just that many buckets, however large a block
/// is granted: the allocator refused the block, or the heap the buckets.
pub open spec fn out_of_memory_exact<T, A: Allocator>(
    alloc: &A,
    table_layout: TableLayout,
    buckets: int,
) -> bool {
    ||| allocator::refused(alloc, table_layout.layout_spec(buckets))
    ||| exists|block: Block, n: usize|
        n == buckets && #[trigger] returned_unused::<T, A>(
            alloc,
            table_layout.layout_spec(buckets),
            block,
            n,
        )
}

/// Asks for room for `len` items in a vector, by way of `f`.
fn ask_heap<X, F: Fn(&mut Vec<X>, usize) -> Result<(), std::collections::TryReserveError>>(
    f: F,
    v: &mut Vec<X>,
    len: usize,
) -> (r: Result<(), std::collections::TryReserveError>)
    requires
        forall|m: &mut Vec<X>| #[trigger] call_requires(f, (m, len)),
    ensures
        exists|m: &mut Vec<X>|
            *m == *old(v) && *final(m) == *final(v) && #[trigger] call_ensures(f, (m, len), r),
{
    f(v, len)
}

/// Frees buckets without dropping the entries that they hold.
pub(crate) fn forget_entries<T>(data: Vec<Option<T>>) {
    let mut data = data;
    let mut i: usize = 0;
    while i < data.len()
        invariant
            i <= data@.len(),
        decreases data@.len() - i,
    {
        let _entry = ManuallyDrop::new(data[i].take());
        i = i + 1;
    }
}

/// Executes the destructors (if any) of the elements, one after the other. If one panics,
/// the elements behind it are not dropped.
pub(crate) fn drop_all<T>(elements: Vec<T>) {
    let mut elements = elements;
    let mut rest: Vec<ManuallyDrop<T>> = Vec::new();
    while elements.len() > 0
        decreases elements@.len(),
    {
        match elements.pop() {
            Some(value) => {
                rest.push(ManuallyDrop::new(value));
            },
            None => {},
        }
    }
    while rest.len() > 0
        decreases rest@.len(),
    {
        match rest.pop() {
            Some(value) => {
                let _value = ManuallyDrop::into_inner(value);
            },
            None => {},
        }
    }
}

/// More buckets have no smaller capacity.
pub proof fn lemma_capacity_monotone(a: int, b: int)
    requires
        is_pow2(a),
        is_pow2(b),
        a <= b,
    ensures
        layout::capacity_of(a) <= layout::capacity_of(b),
        layout::capacity_of(b) < b,
{
    math::lemma_pow2_positive(a);
    if a <= 8 < b {
        reveal_with_fuel(is_pow2, 6);
        math::lemma_pow2_gap(8, b);
    }
}

impl<T> RawTableInner<T> {
    /// Whether the table holds nothing and every control byte is empty.
    pub open spec fn is_cleared(&self) -> bool {
        &&& self.wf()
        &&& self.items == 0
        &&& self.growth_left == layout::capacity_of(self.n())
        &&& forall|i: int| 0 <= i < self.n() ==> #[trigger] self.tags()[i] == Tag::Empty
        &&& forall|i: int| 0 <= i < self.ctrl@.len() ==> #[trigger] self.ctrl@[i] == Tag::Empty
        &&& self.elements() == Multiset::<T>::empty()
    }

    /// A table whose control bytes are all empty, and whose buckets are unoccupied,
    /// is a table that holds nothing.
    proof fn lemma_cleared(&self)
        requires
            self.bucket_mask > 0,
            self.bucket_mask < isize::MAX,
            is_pow2(self.n()),
            self.ctrl@.len() == self.n() + Group::WIDTH,
            self.data@.len() == self.n(),
            self.hashes@.len() == self.n(),
            forall|i: int| 0 <= i < self.ctrl@.len() ==> #[trigger] self.ctrl@[i] == Tag::Empty,
            forall|i: int| 0 <= i < self.data@.len() ==> #[trigger] self.data@[i] is None,
            self.items == 0,
            self.growth_left == layout::capacity_of(self.n()),
        ensures
            self.is_cleared(),
    {
        model::lemma_count_none(self.tags(), Kind::Full);
        model::lemma_count_none(self.tags(), Kind::Deleted);
        model::lemma_bag_empty(self.data@);
        assert forall|j: int| self.n() <= j < self.n() + Group::WIDTH implies #[trigger] mirror_tag(
            self.ctrl@,
            self.n(),
            j,
        ) == self.ctrl@[j] by {}
    }

    /// Reserves room on the heap for that many buckets and their control bytes.
    ///
    /// Returns `None` if the heap refuses. An infallible operation does not return then.
    fn reserve_buffers(buckets: usize, fallibility: Fallibility) -> (r: Option<
        (Vec<Tag>, Vec<Option<T>>),
    >)
        requires
            buckets <= isize::MAX,
        ensures
            r matches Some((ctrl, data)) ==> ctrl@.len() == 0 && data@.len() == 0,
            r is None ==> heap_refused::<T>(buckets),
            r is Some && fallibility is Fallible ==> heap_granted::<T>(buckets),
            fallibility is Infallible ==> r is Some,
    {
        let mut ctrl: Vec<Tag> = Vec::new();
        let mut data: Vec<Option<T>> = Vec::new();
        match fallibility {
            Fallibility::Fallible => {
                let answer = ask_heap(Vec::<Tag>::try_reserve, &mut ctrl, buckets + Group::WIDTH);
                assert(heap_answers::<Tag>((buckets + Group::WIDTH) as usize, answer));
                if answer.is_err() {
                    return None;
                }
                let answer = ask_heap(Vec::<Option<T>>::try_reserve, &mut data, buckets);
                assert(heap_answers::<Option<T>>(buckets, answer));
                if answer.is_err() {
                    return None;
                }
            },
            Fallibility::Infallible => {},
        }
        Some((ctrl, data))
    }

    /// Puts a table of that many buckets, all empty, into a block.
    fn in_block(
        block: Block,
        buckets: usize,
        ctrl_offset: usize,
        buffers: (Vec<Tag>, Vec<Option<T>>),
    ) -> (r: Self)
        requires
            is_pow2(buckets as int),
            2 <= buckets <= isize::MAX,
            buffers.0@.len() == 0,
            buffers.1@.len() == 0,
        ensures
            r.is_cleared(),
            r.n() == buckets,
            r.ctrl_offset == ctrl_offset,
            r.block == Some(block),
    {
        let num_ctrl_bytes: usize = buckets + Group::WIDTH;
        let (mut ctrl, mut data) = buffers;
        let mut i: usize = 0;
        while i < num_ctrl_bytes
            invariant
                i <= num_ctrl_bytes,
                ctrl@.len() == i,
                forall|j: int| 0 <= j < i ==> #[trigger] ctrl@[j] == Tag::Empty,
            decreases num_ctrl_bytes - i,
        {
            ctrl.push(Tag::Empty);
            i = i + 1;
        }
        let mut i: usize = 0;
        while i < buckets
            invariant
                i <= buckets,
                data@.len() == i,
                forall|j: int| 0 <= j < i ==> #[trigger] data@[j] is None,
            decreases buckets - i,
        {
            data.push(None);
            i = i + 1;
        }
        let table = RawTableInner {
            bucket_mask: buckets - 1,
            ctrl,
            data,
            growth_left: bucket_mask_to_capacity(buckets - 1),
            items: 0,
            ctrl_offset,
            block: Some(block),
            hashes: Ghost(Seq::new(buckets as nat, |i: int| 0u64)),
        };
        proof {
            table.lemma_cleared();
        }
        table
    }

    /// Returns how many buckets a block has room for that was granted for `buckets` of
    /// them, or for more if it is larger than what was asked for.
    fn room_in(block: &Block, table_layout: TableLayout, buckets: usize) -> (r: usize)
        requires
            table_layout.valid(),
            is_pow2(buckets as int),
            table_layout.allocatable(buckets as int),
            block.requested_spec() == table_layout.layout_spec(buckets as int),
            block.fits(table_layout.layout_spec(buckets as int)),
        ensures
            fills(*block, table_layout, buckets as int, r as int),
            r <= isize::MAX,
    {
        let (layout, _) = table_layout.calculate_layout_for(buckets).unwrap();
        let ghost room = block.len_spec() as int;
        assert(table_layout.fits_in(buckets as int, room));
        // The allocator can't return a block smaller than was requested, so this can
        // be != instead of >.
        let chosen: usize = if block.len() != layout.size {
            // Utilize over-sized allocations.
            assert(table_layout.fits_with(buckets as int, room, Group::WIDTH as int));
            maximum_buckets_in(block.len(), table_layout, Group::WIDTH)
        } else {
            buckets
        };
        proof {
            assert forall|p: int| #[trigger] table_layout.fits_in(p, room) implies p <= chosen by {
                if room == layout.size {
                    if p > buckets {
                        layout::lemma_len_monotone(table_layout, buckets as int, p);
                    }
                } else {
                    assert(table_layout.fits_with(p, room, Group::WIDTH as int));
                }
            }
            let p = chosen as int;
            math::lemma_pow2_positive(table_layout.ctrl_align as int);
            math::lemma_pow2_positive(p);
            assert(table_layout.size * p >= 0) by (nonlinear_arith)
                requires
                    p >= 0,
            ;
            layout::lemma_round_up(table_layout.size * p, table_layout.ctrl_align as int);
        }
        chosen
    }

    /// Creates a table of `chosen` buckets in the block that an allocator granted for
    /// `buckets` of them. If the heap refused the buckets, the block is given back.
    pub fn from_granted<A: Allocator>(
        alloc: &A,
        block: Block,
        table_layout: TableLayout,
        buckets: usize,
        chosen: usize,
        buffers: Option<(Vec<Tag>, Vec<Option<T>>)>,
    ) -> (r: Result<Self, TryReserveError>)
        requires
            table_layout.valid(),
            is_pow2(buckets as int),
            2 <= buckets,
            table_layout.allocatable(buckets as int),
            block.requested_spec() == table_layout.layout_spec(buckets as int),
            block.fits(table_layout.layout_spec(buckets as int)),
            buckets <= chosen <= isize::MAX,
            table_layout.fits_in(chosen as int, block.len_spec() as int),
            buffers matches Some((ctrl, data)) ==> ctrl@.len() == 0 && data@.len() == 0,
        ensures
            r is Ok <==> buffers is Some,
            match r {
                Ok(table) => {
                    &&& table.is_cleared()
                    &&& table.block_wf(table_layout)
                    &&& table.block == Some(block)
                    &&& table.n() == chosen
                },
                Err(error) => {
                    &&& error == (TryReserveError::AllocError {
                        layout: table_layout.layout_spec(buckets as int),
                    })
                    &&& allocator::given_back(
                        alloc,
                        block,
                        table_layout.layout_spec(buckets as int),
                    )
                },
            },
    {
        match buffers {
            Some(buffers) => {
                let (_, ctrl_offset) = table_layout.calculate_layout_for(chosen).unwrap();
                proof {
                    layout::lemma_len_monotone(table_layout, buckets as int, chosen as int);
                }
                Ok(Self::in_block(block, chosen, ctrl_offset, buffers))
            },
            None => {
                let (layout, _) = table_layout.calculate_layout_for(buckets).unwrap();
                alloc.deallocate(block, layout);
                Err(TryReserveError::AllocError { layout })
            },
        }
    }

    /// Whether the table is in a block that the allocator granted for that many buckets,
    /// and has as many of them as the block has room for. That is just as many if the
    /// allocator grants just what it is asked for.
    pub open spec fn allocated_for<A: Allocator>(
        &self,
        alloc: &A,
        buckets: int,
        table_layout: TableLayout,
    ) -> bool {
        &&& self.block matches Some(block) && {
            &&& allocator::granted(alloc, table_layout.layout_spec(buckets), block)
            &&& fills(block, table_layout, buckets, self.n())
        }
        &&& alloc.is_exact() ==> self.n() == buckets
    }

    /// Allocates a new table with the given number of buckets, or with more of them
    /// if the allocator grants a larger block.
    ///
    /// The buckets are left unoccupied, and their control bytes are empty.
    pub fn new_uninitialized<A: Allocator>(
        alloc: &A,
        table_layout: TableLayout,
        buckets: usize,
        fallibility: Fallibility,
    ) -> (r: Result<Self, TryReserveError>)
        requires
            table_layout.valid(),
            is_pow2(buckets as int),
            buckets >= 2,
            fallibility is Infallible ==> table_layout.allocatable(buckets as int)
                && alloc.never_refuses(),
        ensures
            match r {
                Ok(table) => {
                    &&& table_layout.allocatable(buckets as int)
                    &&& table.is_cleared()
                    &&& table.block_wf(table_layout)
                    &&& table.allocated_for(alloc, buckets as int, table_layout)
                    &&& table.n() >= buckets
                },
                Err(TryReserveError::CapacityOverflow) => !table_layout.allocatable(buckets as int),
                Err(TryReserveError::AllocError { layout }) => {
                    &&& table_layout.allocatable(buckets as int)
                    &&& layout == table_layout.layout_spec(buckets as int)
                    &&& out_of_memory::<T, A>(alloc, table_layout, buckets as int)
                },
            },
            fallibility is Infallible ==> r is Ok,
    {
        let (layout, _) = match table_layout.calculate_layout_for(buckets) {
            Some(found) => found,
            None => return Err(fallibility.capacity_overflow()),
        };
        assert(layout == table_layout.layout_spec(buckets as int));
        match alloc.allocate(layout) {
            Ok(block) => {
                assert(allocator::granted(alloc, layout, block));
                let chosen: usize = Self::room_in(&block, table_layout, buckets);
                let buffers = Self::reserve_buffers(chosen, fallibility);
                let r = Self::from_granted(alloc, block, table_layout, buckets, chosen, buffers);
                assert(r is Err ==> returned_unused::<T, A>(alloc, layout, block, chosen));
                r
            },
            Err(error) => {
                assert(error == allocator::AllocError);
                Err(fallibility.alloc_err(layout))
            },
        }
    }

    /// Allocates a new table with exactly the given number of buckets, however large
    /// a block the allocator grants.
    pub fn new_exact<A: Allocator>(
        alloc: &A,
        table_layout: TableLayout,
        buckets: usize,
        fallibility: Fallibility,
    ) -> (r: Result<Self, TryReserveError>)
        requires
            table_layout.valid(),
            is_pow2(buckets as int),
            buckets >= 2,
            table_layout.allocatable(buckets as int),
            fallibility is Infallible ==> alloc.never_refuses(),
        ensures
            match r {
                Ok(table) => {
                    &&& table.is_cleared()
                    &&& table.block_wf(table_layout)
                    &&& table.n() == buckets
                    &&& table.block matches Some(block) && {
                        &&& block.requested_spec() == table_layout.layout_spec(buckets as int)
                        &&& allocator::granted(
                            alloc,
                            table_layout.layout_spec(buckets as int),
                            block,
                        )
                    }
                },
                Err(error) => {
                    &&& error == (TryReserveError::AllocError {
                        layout: table_layout.layout_spec(buckets as int),
                    })
                    &&& out_of_memory_exact::<T, A>(alloc, table_layout, buckets as int)
                },
            },
            fallibility is Infallible ==> r is Ok,
    {
        let (layout, _) = table_layout.calculate_layout_for(buckets).unwrap();
        assert(layout == table_layout.layout_spec(buckets as int));
        proof {
            let p = buckets as int;
            math::lemma_pow2_positive(table_layout.ctrl_align as int);
            assert(table_layout.size * p >= 0) by (nonlinear_arith)
                requires
                    p >= 0,
            ;
            layout::lemma_round_up(table_layout.size * p, table_layout.ctrl_align as int);
        }
        match alloc.allocate(layout) {
            Ok(block) => {
                assert(allocator::granted(alloc, layout, block));
                let buffers = Self::reserve_buffers(buckets, fallibility);
                let r = Self::from_granted(alloc, block, table_layout, buckets, buckets, buffers);
                assert(r is Err ==> returned_unused::<T, A>(alloc, layout, block, buckets));
                r
            },
            Err(error) => {
                assert(error == allocator::AllocError);
                Err(fallibility.alloc_err(layout))
            },
        }
    }

    /// Whether the table has the buckets that a capacity calls for, in a block that the
    /// allocator granted for them.
    pub open spec fn sized_for<A: Allocator>(
        &self,
        alloc: &A,
        capacity: usize,
        table_layout: TableLayout,
    ) -> bool {
        if capacity == 0 {
            self.is_new()
        } else {
            &&& self.n() >= layout::buckets_for(capacity, table_layout)
            &&& self.allocated_for(
                alloc,
                layout::buckets_for(capacity, table_layout),
                table_layout,
            )
        }
    }

    /// Whether the block of the table, if it has one, went back to the allocator.
    pub open spec fn freed<A: Allocator>(&self, alloc: &A, table_layout: TableLayout) -> bool {
        self.bucket_mask > 0 ==> allocator::given_back(
            alloc,
            self.block->0,
            table_layout.layout_spec(self.n()),
        )
    }

    /// Attempts to allocate a new table with at least enough
    /// capacity for inserting the given number of elements without reallocating.
    ///
    /// All the control bytes are initialized as empty.
    pub fn fallible_with_capacity<A: Allocator>(
        alloc: &A,
        table_layout: TableLayout,
        capacity: usize,
        fallibility: Fallibility,
    ) -> (r: Result<Self, TryReserveError>)
        requires
            table_layout.valid(),
            fallibility is Infallible ==> capacity_fits(capacity, table_layout) && (capacity > 0
                ==> alloc.never_refuses()),
        ensures
            match r {
                Ok(table) => {
                    &&& capacity_fits(capacity, table_layout)
                    &&& table.is_cleared()
                    &&& table.block_wf(table_layout)
                    &&& table.growth_left >= capacity
                    &&& table.sized_for(alloc, capacity, table_layout)
                },
                Err(TryReserveError::CapacityOverflow) => !capacity_fits(capacity, table_layout),
                Err(TryReserveError::AllocError { layout }) => {
                    &&& capacity > 0
                    &&& capacity_fits(capacity, table_layout)
                    &&& layout == table_layout.layout_spec(
                        layout::buckets_for(capacity, table_layout),
                    )
                    &&& out_of_memory::<T, A>(
                        alloc,
                        table_layout,
                        layout::buckets_for(capacity, table_layout),
                    )
                },
            },
            fallibility is Infallible ==> r is Ok,
    {
        if capacity == 0 {
            let table = Self::new();
            assert(table.is_cleared());
            Ok(table)
        } else {
            proof {
                layout::lemma_buckets_for(capacity, table_layout);
            }
            let buckets: usize = match capacity_to_buckets(capacity, table_layout) {
                Some(buckets) => buckets,
                None => return Err(fallibility.capacity_overflow()),
            };
            let result = Self::new_uninitialized(alloc, table_layout, buckets, fallibility);
            proof {
                if result is Ok {
                    lemma_capacity_monotone(buckets as int, result->Ok_0.n());
                }
            }
            result
        }
    }

    /// Allocates a new table with at least enough capacity for inserting
    /// the given number of elements without reallocating.
    ///
    /// Use [`RawTableInner::fallible_with_capacity`] instead to handle a capacity overflow
    /// or an allocation failure.
    pub fn with_capacity<A: Allocator>(alloc: &A, table_layout: TableLayout, capacity: usize) -> (r:
        Self)
        requires
            table_layout.valid(),
            capacity_fits(capacity, table_layout),
            capacity > 0 ==> alloc.never_refuses(),
        ensures
            r.is_cleared(),
            r.block_wf(table_layout),
            r.growth_left >= capacity,
            r.sized_for(alloc, capacity, table_layout),
    {
        let result = Self::fallible_with_capacity(
            alloc,
            table_layout,
            capacity,
            Fallibility::Infallible,
        );
        result.unwrap()
    }
}

impl<T> RawTableInner<T> {
    /// Returns the block of the table, and the layout that gives it back.
    pub fn allocation_info(&self, table_layout: TableLayout) -> (r: (&Block, Layout))
        requires
            self.ctrl_wf(),
            self.block_wf(table_layout),
            self.bucket_mask > 0,
        ensures
            self.block == Some(*r.0),
            r.1 == table_layout.layout_spec(self.n()),
            r.1.size == table_layout.len_spec(self.n()),
            r.0.fits(r.1),
    {
        let (layout, _) = table_layout.calculate_layout_for(self.num_buckets()).unwrap();
        (self.block.as_ref().unwrap(), layout)
    }

    /// Returns the size in bytes of the layout that the table has from its allocator, or
    /// zero if it has no memory.
    ///
    /// The returned number is informational only.
    pub fn allocation_size_or_zero(&self, table_layout: TableLayout) -> (r: usize)
        requires
            self.ctrl_wf(),
            self.block_wf(table_layout),
        ensures
            r == if self.bucket_mask == 0 {
                0
            } else {
                table_layout.len_spec(self.n())
            },
    {
        if self.is_empty_singleton() {
            0
        } else {
            self.allocation_info(table_layout).1.size
        }
    }

    /// Gives the block of the table back and frees its buckets, without dropping any
    /// entries, and leaves a table without memory.
    pub fn free_buckets<A: Allocator>(&mut self, alloc: &A, table_layout: TableLayout)
        requires
            old(self).ctrl_wf(),
            old(self).block_wf(table_layout),
            old(self).bucket_mask > 0,
        ensures
            final(self).wf(),
            final(self).block_wf(table_layout),
            final(self).is_new(),
            final(self).elements() == Multiset::<T>::empty(),
            old(self).freed(alloc, table_layout),
    {
        let layout = self.allocation_info(table_layout).1;
        let mut freed = Self::new();
        core::mem::swap(self, &mut freed);
        alloc.deallocate(freed.block.unwrap(), layout);
        forget_entries(freed.data);
    }

    /// Marks all table buckets as empty without dropping their contents.
    pub fn clear_no_drop(&mut self)
        requires
            old(self).ctrl_wf(),
        ensures
            final(self).is_cleared(),
            final(self).bucket_mask == old(self).bucket_mask,
            final(self).block == old(self).block,
            final(self).ctrl_offset == old(self).ctrl_offset,
    {
        if !self.is_empty_singleton() {
            let num_ctrl_bytes: usize = self.num_ctrl_bytes();
            let mut i: usize = 0;
            while i < num_ctrl_bytes
                invariant
                    i <= num_ctrl_bytes,
                    self.ctrl@.len() == num_ctrl_bytes,
                    self.bucket_mask == old(self).bucket_mask,
                    self.block == old(self).block,
                    self.ctrl_offset == old(self).ctrl_offset,
                    self.hashes == old(self).hashes,
                    self.data == old(self).data,
                    forall|j: int| 0 <= j < i ==> #[trigger] self.ctrl@[j] == Tag::Empty,
                decreases num_ctrl_bytes - i,
            {
                self.ctrl[i] = Tag::Empty;
                i = i + 1;
            }
            let buckets: usize = self.num_buckets();
            let mut i: usize = 0;
            while i < buckets
                invariant
                    i <= buckets,
                    self.data@.len() == buckets,
                    self.ctrl@.len() == num_ctrl_bytes,
                    self.bucket_mask == old(self).bucket_mask,
                    self.block == old(self).block,
                    self.ctrl_offset == old(self).ctrl_offset,
                    self.hashes == old(self).hashes,
                    forall|j: int|
                        0 <= j < num_ctrl_bytes ==> #[trigger] self.ctrl@[j] == Tag::Empty,
                    forall|j: int| 0 <= j < i ==> #[trigger] self.data@[j] is None,
                decreases buckets - i,
            {
                let _entry = ManuallyDrop::new(self.data[i].take());
                i = i + 1;
            }
        }
        self.items = 0;
        self.growth_left = bucket_mask_to_capacity(self.bucket_mask);
        proof {
            if self.bucket_mask > 0 {
                self.lemma_cleared();
            } else {
                model::lemma_count_none(self.tags(), Kind::Full);
                model::lemma_count_none(self.tags(), Kind::Deleted);
            }
        }
    }

    /// Marks all table buckets as empty and returns their contents.
    pub fn take_elements(&mut self) -> (r: Vec<T>)
        requires
            old(self).wf(),
        ensures
            r@.to_multiset() == old(self).elements(),
            final(self).is_cleared(),
            final(self).bucket_mask == old(self).bucket_mask,
            final(self).block == old(self).block,
            final(self).ctrl_offset == old(self).ctrl_offset,
    {
        let mut elements: Vec<T> = Vec::new();
        let mut i: usize = 0;
        proof {
            broadcast use vstd::multiset::group_multiset_axioms;

            elements@.to_multiset_ensures();
            assert(elements@.to_multiset() =~= Multiset::<T>::empty());
            assert(elements@.to_multiset().add(model::bag(self.data@)) =~= old(self).elements());
        }
        while i < self.data.len()
            invariant
                i <= self.data@.len(),
                self.same_but_data(old(self)),
                self.data@.len() == old(self).data@.len(),
                forall|j: int| 0 <= j < i ==> #[trigger] self.data@[j] is None,
                elements@.to_multiset().add(model::bag(self.data@)) == old(self).elements(),
            decreases self.data@.len() - i,
        {
            let ghost data = self.data@;
            let ghost taken = elements@;
            match self.data[i].take() {
                Some(value) => {
                    elements.push(value);
                    proof {
                        broadcast use vstd::multiset::group_multiset_axioms;

                        model::lemma_bag_take(data, i as int);
                        taken.to_multiset_ensures();
                        assert(self.data@ =~= data.update(i as int, None));
                        assert(elements@.to_multiset().add(model::bag(self.data@))
                            =~= taken.to_multiset().add(model::bag(data)));
                    }
                },
                None => {
                    assert(self.data@ =~= data);
                },
            }
            i = i + 1;
        }
        proof {
            broadcast use vstd::multiset::group_multiset_axioms;

            model::lemma_bag_empty(self.data@);
            assert(elements@.to_multiset().add(Multiset::empty()) =~= elements@.to_multiset());
        }
        self.clear_no_drop();
        elements
    }

    /// Executes the destructors (if any) of the values stored in the table.
    ///
    /// This neither erases the control bytes of the table nor changes its counters. A
    /// table without items is left alone, whatever its control bytes say. All the values
    /// leave the table before the first one is dropped.
    pub fn drop_elements(&mut self)
        requires
            old(self).ctrl_wf(),
        ensures
            final(self).ctrl_wf(),
            final(self).bucket_mask == old(self).bucket_mask,
            final(self).ctrl == old(self).ctrl,
            final(self).hashes == old(self).hashes,
            final(self).items == old(self).items,
            final(self).growth_left == old(self).growth_left,
            final(self).block == old(self).block,
            final(self).ctrl_offset == old(self).ctrl_offset,
            forall|i: int|
                0 <= i < old(self).data@.len() ==> #[trigger] final(self).data@[i] == if old(self).items > 0 && old(self).is_full_at(i) {
                    None
                } else {
                    old(self).data@[i]
                },
    {
        if self.items != 0 && !self.is_empty_singleton() {
            let buckets: usize = self.num_buckets();
            let mut elements: Vec<T> = Vec::new();
            let mut i: usize = 0;
            while i < buckets
                invariant
                    i <= buckets,
                    buckets == old(self).n(),
                    old(self).bucket_mask > 0,
                    old(self).items > 0,
                    old(self).ctrl_wf(),
                    self.bucket_mask == old(self).bucket_mask,
                    self.ctrl == old(self).ctrl,
                    self.hashes == old(self).hashes,
                    self.items == old(self).items,
                    self.growth_left == old(self).growth_left,
                    self.block == old(self).block,
                    self.ctrl_offset == old(self).ctrl_offset,
                    self.data@.len() == buckets,
                    forall|j: int|
                        0 <= j < buckets ==> #[trigger] self.data@[j] == if j < i && old(self).is_full_at(j) {
                            None
                        } else {
                            old(self).data@[j]
                        },
                decreases buckets - i,
            {
                assert(self.tags() == old(self).tags());
                if self.is_bucket_full(i) {
                    match self.data[i].take() {
                        Some(value) => {
                            elements.push(value);
                        },
                        None => {},
                    }
                }
                i = i + 1;
            }
            drop_all(elements);
        }
    }

    /// Executes the destructors (if any) of the values stored in the table and then
    /// gives its memory back.
    pub fn drop_inner_table<A: Allocator>(&mut self, alloc: &A, table_layout: TableLayout)
        requires
            old(self).ctrl_wf(),
            old(self).block_wf(table_layout),
        ensures
            old(self).bucket_mask > 0 ==> final(self).is_new() && final(self).wf(),
            old(self).bucket_mask == 0 ==> *final(self) == *old(self),
            final(self).block_wf(table_layout),
            old(self).freed(alloc, table_layout),
    {
        if !self.is_empty_singleton() {
            self.drop_elements();
            self.free_buckets(alloc, table_layout);
        }
    }

    /// Whether the elements have room in front of the control bytes.
    pub open spec fn data_room(&self) -> bool {
        &&& self.ctrl_wf()
        &&& self.bucket_mask > 0 ==> bucket::has_data_room(
            self.ctrl_offset as int,
            self.n(),
            vstd::layout::size_of::<T>() as int,
        )
    }

    /// The block that a table takes up has room for its elements.
    pub proof fn lemma_data_room(&self)
        requires
            self.ctrl_wf(),
            self.block_wf(layout::table_layout_of::<T>()),
            vstd::layout::size_of::<T>() <= usize::MAX,
        ensures
            self.data_room(),
            self.bucket_mask > 0 ==> self.ctrl_offset + self.n() + Group::WIDTH
                <= self.block->0.len_spec(),
    {
        if self.bucket_mask > 0 {
            let table_layout = layout::table_layout_of::<T>();
            let size = table_layout.size as int;
            let n = self.n();
            math::lemma_pow2_positive(table_layout.ctrl_align as int);
            assert(size * n >= 0) by (nonlinear_arith)
                requires
                    size >= 0,
                    n >= 0,
            ;
            assert(size * n == n * size) by (nonlinear_arith);
            layout::lemma_round_up(size * n, table_layout.ctrl_align as int);
        }
    }

    /// Returns the address of the end of the elements, which is the start of the
    /// control bytes.
    pub fn data_end(&self) -> (r: usize)
        ensures
            r == self.ctrl_offset,
    {
        self.ctrl_offset
    }

    /// Returns the bucket at an index.
    pub fn bucket(&self, index: usize) -> (r: Bucket<T>)
        requires
            self.data_room(),
            self.bucket_mask > 0,
            index < self.n(),
        ensures
            r.is_at(self.ctrl_offset as int, index as int),
    {
        assert(bucket::has_data_room(
            self.ctrl_offset as int,
            self.n(),
            vstd::layout::size_of::<T>() as int,
        ));
        Bucket::from_base_index(self.data_end(), index)
    }

    /// Returns the address of the start of the element at an index.
    pub fn bucket_ptr(&self, index: usize, size_of: usize) -> (r: usize)
        requires
            self.ctrl_wf(),
            self.bucket_mask > 0,
            bucket::has_data_room(self.ctrl_offset as int, self.n(), size_of as int),
            index < self.n(),
        ensures
            r == self.ctrl_offset - (index + 1) * size_of,
    {
        proof {
            let n = self.n();
            assert((index + 1) * size_of <= n * size_of) by (nonlinear_arith)
                requires
                    index + 1 <= n,
                    size_of >= 0,
            ;
            assert((index + 1) * size_of >= 0) by (nonlinear_arith)
                requires
                    index >= 0,
                    size_of >= 0,
            ;
        }
        self.data_end() - (index + 1) * size_of
    }

    /// Marks a bucket that was not full as full, and counts the element that the
    /// caller is about to write to it.
    pub fn record_item_insert_at(
        &mut self,
        index: usize,
        old_ctrl: Tag,
        new_ctrl: Tag,
        Ghost(hash): Ghost<u64>,
    )
        requires
            old(self).sound(),
            old(self).bucket_mask > 0,
            index < old(self).n(),
            old_ctrl == old(self).tags()[index as int],
            !(old_ctrl is Full),
            new_ctrl == Tag::Full(h2(hash)),
            model::placed(old(self).tags(), hash, index as int),
            old_ctrl is Empty ==> old(self).growth_left > 0,
        ensures
            final(self).sound(),
            final(self).tags() == old(self).tags().update(index as int, new_ctrl),
            final(self).hashes@ == old(self).hashes@.update(index as int, hash),
            final(self).same_but_ctrl(old(self)),
            final(self).items == old(self).items + 1,
            final(self).growth_left == old(self).growth_left - if old_ctrl is Empty {
                1int
            } else {
                0
            },
    {
        proof {
            model::lemma_count_total(self.tags());
        }
        if old_ctrl.special_is_empty() {
            self.growth_left = self.growth_left - 1;
        }
        self.set_ctrl(index, new_ctrl);
        proof {
            self.hashes@ = self.hashes@.update(index as int, hash);
        }
        self.items = self.items + 1;
        proof {
            let before = old(self).tags();
            model::lemma_count_update(before, index as int, new_ctrl, Kind::Full);
            model::lemma_count_update(before, index as int, new_ctrl, Kind::Deleted);
            assert forall|i: int| 0 <= i < self.n() && #[trigger] self.tags()[i] is Full implies {
                &&& self.tags()[i] == Tag::Full(h2(self.hashes@[i]))
                &&& model::placed(self.tags(), self.hashes@[i], i)
            } by {
                if i != index {
                    assert(before[i] is Full);
                }
                model::lemma_placed_fewer_empty(before, self.tags(), self.hashes@[i], i);
            }
        }
    }
}

impl<T> Bucket<T> {
    /// Reads the `value` from the bucket, which is left unoccupied.
    pub fn read(&self, table: &mut RawTableInner<T>) -> (r: T)
        requires
            old(table).data_room(),
            old(table).bucket_mask > 0,
            exists|index: int|
                0 <= index < old(table).n() && #[trigger] self.is_at(
                    old(table).ctrl_offset as int,
                    index,
                ) && old(table).data@[index] is Some,
        ensures
            forall|index: int| #[trigger]
                self.is_at(old(table).ctrl_offset as int, index) ==> {
                    &&& old(table).data@[index] == Some(r)
                    &&& final(table).data@ == old(table).data@.update(index, None)
                },
            final(table).same_but_data(old(table)),
    {
        self.take(table).unwrap()
    }

    /// Overwrites the bucket with the given `value` without dropping the old value.
    pub fn write(&self, table: &mut RawTableInner<T>, val: T)
        requires
            old(table).data_room(),
            old(table).bucket_mask > 0,
            exists|index: int|
                0 <= index < old(table).n() && #[trigger] self.is_at(
                    old(table).ctrl_offset as int,
                    index,
                ),
        ensures
            forall|index: int| #[trigger]
                self.is_at(old(table).ctrl_offset as int, index) ==> final(table).data@ == old(table).data@.update(index, Some(val)),
            final(table).same_but_data(old(table)),
    {
        let index: usize = self.to_base_index(table.data_end());
        let _old = ManuallyDrop::new(table.data[index].take());
        table.data[index] = Some(val);
        assert(table.data@ =~= old(table).data@.update(index as int, Some(val)));
    }

    /// Takes what the bucket holds, which is left unoccupied.
    pub(crate) fn take(&self, table: &mut RawTableInner<T>) -> (r: Option<T>)
        requires
            old(table).data_room(),
            old(table).bucket_mask > 0,
            exists|index: int|
                0 <= index < old(table).n() && #[trigger] self.is_at(
                    old(table).ctrl_offset as int,
                    index,
                ),
        ensures
            forall|index: int| #[trigger]
                self.is_at(old(table).ctrl_offset as int, index) ==> {
                    &&& r == old(table).data@[index]
                    &&& final(table).data@ == old(table).data@.update(index, None)
                },
            final(table).same_but_data(old(table)),
    {
        let index: usize = self.to_base_index(table.data_end());
        table.data[index].take()
    }

    /// Executes the destructor (if any) of the element in the bucket, which is left
    /// unoccupied.
    pub fn drop(&self, table: &mut RawTableInner<T>)
        requires
            old(table).data_room(),
            old(table).bucket_mask > 0,
            exists|index: int|
                0 <= index < old(table).n() && #[trigger] self.is_at(
                    old(table).ctrl_offset as int,
                    index,
                ),
        ensures
            forall|index: int| #[trigger]
                self.is_at(old(table).ctrl_offset as int, index) ==> final(table).data@ == old(table).data@.update(index, None),
            final(table).same_but_data(old(table)),
    {
        let _value = self.take(table);
    }

    /// Returns a shared immutable reference to the `value`.
    pub fn as_ref<'a>(&self, table: &'a RawTableInner<T>) -> (r: &'a T)
        requires
            table.data_room(),
            table.bucket_mask > 0,
            exists|index: int|
                0 <= index < table.n() && #[trigger] self.is_at(table.ctrl_offset as int, index)
                    && table.data@[index] is Some,
        ensures
            forall|index: int| #[trigger]
                self.is_at(table.ctrl_offset as int, index) ==> table.data@[index] == Some(*r),
    {
        let index: usize = self.to_base_index(table.data_end());
        table.data[index].as_ref().unwrap()
    }

    /// Returns a unique mutable reference to the `value`.
    pub fn as_mut<'a>(&self, table: &'a mut RawTableInner<T>) -> (r: &'a mut T)
        requires
            old(table).data_room(),
            old(table).bucket_mask > 0,
            exists|index: int|
                0 <= index < old(table).n() && #[trigger] self.is_at(
                    old(table).ctrl_offset as int,
                    index,
                ) && old(table).data@[index] is Some,
        ensures
            forall|index: int| #[trigger]
                self.is_at(old(table).ctrl_offset as int, index) ==> {
                    &&& old(table).data@[index] == Some(*r)
                    &&& final(table).data@ == old(table).data@.update(index, Some(*final(r)))
                },
            final(table).same_but_data(old(table)),
    {
        let index: usize = self.to_base_index(table.data_end());
        table.data[index].as_mut().unwrap()
    }
}

impl<T> RawTableInner<T> {
    /// The same memory, control bytes and counters; the elements may differ.
    pub open spec fn same_but_data(&self, other: &RawTableInner<T>) -> bool {
        &&& self.bucket_mask == other.bucket_mask
        &&& self.ctrl == other.ctrl
        &&& self.growth_left == other.growth_left
        &&& self.items == other.items
        &&& self.ctrl_offset == other.ctrl_offset
        &&& self.block == other.block
        &&& self.hashes == other.hashes
    }
}

} // verus!
