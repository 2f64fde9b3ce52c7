//! Growth transactions: reserve, rehash and resize of the table.
//!
//! Every growth operation follows the same transaction shape:
//!
//! 1. [`GrowthTransaction::begin`] allocates the replacement table *first*.
//!    If allocation fails, the error is returned and the original table is
//!    left completely untouched.
//! 2. [`GrowthTransaction::migrate`] finds the place of every element in the new
//!    table. If the hash function fails here, the transaction is rolled back, which
//!    releases the new table's allocation. The original table still owns every
//!    element.
//! 3. [`GrowthTransaction::commit`] moves the elements, swaps the new table into
//!    place and releases the old allocation.
//!
//! The in-place rehash ([`RawTableInner::rehash_in_place`]) does not allocate;
//! if the hash function fails it reclaims the elements that have not been rehashed
//! yet.
//!
//! The hash function of these operations returns `None` to give up.
use crate::allocator;
use crate::allocator::{Allocator, Block, TryReserveError};
use crate::control::{h2, Group, Tag};
use crate::math;
use crate::raw::layout;
use crate::raw::layout::{bucket_mask_to_capacity, Fallibility, TableLayout};
use crate::raw::model;
use crate::raw::model::Kind;
use crate::raw::storage;
use crate::raw::storage::RawTableInner;
use vstd::arithmetic::div_mod::*;
use vstd::arithmetic::power2::*;
use vstd::multiset::Multiset;
use vstd::prelude::*;

verus! {

/// The hash function gave up on an element.
#[derive(Clone, Copy, PartialEq, Eq, Structural, Debug)]
pub struct HashFailed;

/// Why a table could not make room.
#[derive(Clone, Copy, PartialEq, Eq, Structural, Debug)]
pub enum GrowthError {
    /// There is no memory for the replacement table.
    Reserve(TryReserveError),
    /// The hash function gave up on an element.
    HashFailed,
}

impl<T> RawTableInner<T> {
    /// Whether the hash function may be called on every element of the table.
    pub open spec fn hashable<F: Fn(&T) -> Option<u64>>(&self, hasher: &F) -> bool {
        forall|v: T| #[trigger]
            self.elements().contains(v) ==> call_requires(hasher, (&v,))
    }

    /// Whether the hash of every element is what the hash function returned for it.
    pub open spec fn hashed_by<F: Fn(&T) -> Option<u64>>(&self, hasher: &F) -> bool {
        forall|i: int| #[trigger]
            self.is_full_at(i) ==> call_ensures(
                hasher,
                (&self.data@[i]->0,),
                Some(self.hashes@[i]),
            )
    }

    /// Whether the hash function gave up on one of the elements.
    pub open spec fn hash_gave_up<F: Fn(&T) -> Option<u64>>(&self, hasher: &F) -> bool {
        exists|v: T| #[trigger]
            self.elements().contains(v) && call_ensures(hasher, (&v,), None)
    }

    /// The state in the middle of an in-place rehash of `orig`: the full buckets
    /// have been rehashed, and the deleted ones hold the elements that have not.
    pub open spec fn rehashing<F: Fn(&T) -> Option<u64>>(
        &self,
        orig: &RawTableInner<T>,
        hasher: &F,
    ) -> bool {
        &&& self.ctrl_wf()
        &&& self.bucket_mask > 0
        &&& self.bucket_mask == orig.bucket_mask
        &&& self.block == orig.block
        &&& self.ctrl_offset == orig.ctrl_offset
        &&& self.items == model::count(self.tags(), Kind::Full) + model::count(
            self.tags(),
            Kind::Deleted,
        )
        &&& self.items <= layout::capacity_of(self.n())
        &&& forall|i: int|
            0 <= i < self.n() ==> (#[trigger] self.data@[i] is Some <==> self.tags()[i]
                != Tag::Empty)
        &&& forall|i: int| #[trigger]
            self.is_full_at(i) ==> {
                &&& self.tags()[i] == Tag::Full(h2(self.hashes@[i]))
                &&& model::settled(self.tags(), self.hashes@[i], i)
                &&& call_ensures(hasher, (&self.data@[i]->0,), Some(self.hashes@[i]))
            }
    }

    /// Whether this table is another one prepared for a rehash in place: the buckets that
    /// were full are deleted, and all others are empty.
    pub open spec fn prepared_from(&self, orig: &RawTableInner<T>) -> bool {
        &&& self.ctrl_wf()
        &&& self.same_but_ctrl(orig)
        &&& self.hashes == orig.hashes
        &&& forall|i: int|
            0 <= i < orig.n() ==> #[trigger] self.tags()[i] == if orig.is_full_at(i) {
                Tag::Deleted
            } else {
                Tag::Empty
            }
    }

    /// Whether rehashing the element at bucket `i`, the first one that is deleted, leads to
    /// another table. The element stays if the slot for its hash is in the same group;
    /// otherwise it goes there, and what is in the slot comes to bucket `i`.
    pub open spec fn rehashes_one(
        &self,
        after: &RawTableInner<T>,
        i: int,
        hash: u64,
        slot: int,
    ) -> bool {
        let tag = Tag::Full(h2(hash));
        let stays = model::step_of(hash, self.n(), i) == model::step_of(hash, self.n(), slot);
        &&& 0 <= i < self.n()
        &&& self.tags()[i] == Tag::Deleted
        &&& forall|j: int| 0 <= j < i ==> #[trigger] self.tags()[j] != Tag::Deleted
        &&& model::is_insert_slot(self.tags(), hash, slot)
        &&& after.ctrl_wf()
        &&& after.bucket_mask == self.bucket_mask
        &&& if stays {
            &&& after.tags() == self.tags().update(i, tag)
            &&& after.hashes@ == self.hashes@.update(i, hash)
            &&& after.data@ == self.data@
        } else {
            &&& after.tags() == self.tags().update(i, self.tags()[slot]).update(slot, tag)
            &&& after.hashes@ == self.hashes@.update(slot, hash)
            &&& after.data@ == self.data@.update(i, self.data@[slot]).update(slot, self.data@[i])
        }
    }

    /// Whether rehashing the element at the first deleted bucket leads to another table.
    pub open spec fn steps_to(&self, after: &RawTableInner<T>) -> bool {
        exists|i: int, hash: u64, slot: int| #[trigger] self.rehashes_one(after, i, hash, slot)
    }

    /// Whether these are the states of an in-place rehash of `orig`, from the prepared table
    /// on.
    pub open spec fn is_rehash(orig: &RawTableInner<T>, states: Seq<RawTableInner<T>>) -> bool
        decreases states.len(),
    {
        if states.len() <= 1 {
            states.len() == 1 && states[0].prepared_from(orig)
        } else {
            &&& Self::is_rehash(orig, states.drop_last())
            &&& states[states.len() - 2].steps_to(&states.last())
        }
    }

    /// Whether an in-place rehash of this table leads to that state.
    pub open spec fn rehashes_to(&self, state: &RawTableInner<T>) -> bool {
        exists|states: Seq<RawTableInner<T>>| #[trigger]
            Self::is_rehash(self, states) && states.last() == *state
    }

    /// Whether this table is what an in-place rehash of another one leaves: every element is
    /// where its rehash put it.
    pub open spec fn rehashed_from(&self, orig: &RawTableInner<T>) -> bool {
        &&& exists|done: RawTableInner<T>|
            {
                &&& #[trigger] orig.rehashes_to(&done)
                &&& self.tags() == done.tags()
                &&& self.hashes == done.hashes
                &&& self.data == done.data
            }
        &&& forall|j: int| 0 <= j < self.n() ==> #[trigger] self.tags()[j] != Tag::Deleted
    }

    /// One more step leads on.
    proof fn lemma_rehash_goes_on(
        orig: &RawTableInner<T>,
        states: Seq<RawTableInner<T>>,
        after: RawTableInner<T>,
        i: int,
        hash: u64,
        slot: int,
    )
        requires
            Self::is_rehash(orig, states),
            states.last().rehashes_one(&after, i, hash, slot),
        ensures
            Self::is_rehash(orig, states.push(after)),
    {
        let longer = states.push(after);
        assert(longer.drop_last() =~= states);
        assert(longer[longer.len() - 2] == states.last());
        assert(states.last().steps_to(&after));
    }

    /// Whether an in-place rehash of `orig` stopped in the state `stopped`, at bucket `i`,
    /// because the hash function gave up on the element there, and this table is what
    /// is left: the elements that had been rehashed by then, each where it was put.
    pub open spec fn reclaimed_at<F: Fn(&T) -> Option<u64>>(
        &self,
        orig: &RawTableInner<T>,
        hasher: &F,
        stopped: &RawTableInner<T>,
        i: int,
    ) -> bool {
        &&& orig.rehashes_to(stopped)
        &&& stopped.rehashing(orig, hasher)
        &&& stopped.elements() == orig.elements()
        &&& stopped.items == orig.items
        &&& 0 <= i < stopped.n()
        &&& stopped.tags()[i] == Tag::Deleted
        &&& forall|j: int| 0 <= j < i ==> #[trigger] stopped.tags()[j] != Tag::Deleted
        &&& call_ensures(hasher, (&stopped.data@[i]->0,), None)
        &&& self.hashes == stopped.hashes
        &&& forall|j: int|
            0 <= j < stopped.n() ==> #[trigger] self.tags()[j] == if stopped.tags()[j]
                == Tag::Deleted {
                Tag::Empty
            } else {
                stopped.tags()[j]
            }
        &&& forall|j: int|
            0 <= j < stopped.n() ==> #[trigger] self.data@[j] == if stopped.tags()[j]
                == Tag::Deleted {
                None
            } else {
                stopped.data@[j]
            }
    }

    /// Whether this table is what an in-place rehash of `orig` leaves when the hash
    /// function gives up: a well-formed table of the elements that had been rehashed.
    pub open spec fn reclaimed_from<F: Fn(&T) -> Option<u64>>(
        &self,
        orig: &RawTableInner<T>,
        hasher: &F,
    ) -> bool {
        &&& exists|stopped: RawTableInner<T>, i: int| #[trigger]
            self.reclaimed_at(orig, hasher, &stopped, i)
        &&& self.elements().subset_of(orig.elements())
        &&& self.items < orig.items
    }

    /// Prepares for rehashing data in place (that is, without allocating new memory).
    /// Converts all full control bytes to deleted and all deleted control bytes to
    /// empty.
    ///
    /// This function does not make any changes to the buckets or the counters of
    /// the table.
    pub fn prepare_rehash_in_place(&mut self)
        requires
            old(self).ctrl_wf(),
            old(self).bucket_mask > 0,
        ensures
            final(self).ctrl_wf(),
            final(self).same_but_ctrl(old(self)),
            final(self).hashes == old(self).hashes,
            final(self).items == old(self).items,
            final(self).growth_left == old(self).growth_left,
            forall|i: int|
                0 <= i < old(self).n() ==> #[trigger] final(self).tags()[i] == if old(self).is_full_at(i) {
                    Tag::Deleted
                } else {
                    Tag::Empty
                },
    {
        let buckets: usize = self.num_buckets();
        let ghost n = self.n();
        let ghost ctrl0 = self.ctrl@;
        proof {
            model::lemma_pow2_16();
            if n >= Group::WIDTH {
                math::lemma_pow2_divides(16, n);
            }
        }
        // Bulk convert all full control bytes to deleted, and all deleted control bytes
        // to empty. This frees up all buckets that were deleted.
        let mut i: usize = 0;
        while i < buckets
            invariant
                buckets == n,
                n <= isize::MAX,
                n >= Group::WIDTH ==> n % 16 == 0 && i <= n,
                n < Group::WIDTH ==> i == 0 || i == 16,
                i as int % 16 == 0,
                self.same_but_ctrl(old(self)),
                self.hashes == old(self).hashes,
                self.items == old(self).items,
                self.growth_left == old(self).growth_left,
                self.ctrl@.len() == n + Group::WIDTH,
                ctrl0.len() == n + Group::WIDTH,
                forall|j: int|
                    0 <= j < n + Group::WIDTH ==> #[trigger] self.ctrl@[j] == if j < i {
                        if ctrl0[j] is Full {
                            Tag::Deleted
                        } else {
                            Tag::Empty
                        }
                    } else {
                        ctrl0[j]
                    },
            decreases buckets + 16 - i,
        {
            let group = Group::load(&self.ctrl, i);
            let group = group.convert_special_to_empty_and_full_to_deleted();
            group.store(&mut self.ctrl, i);
            i = i + Group::WIDTH;
        }
        // Fix up the trailing control bytes.
        let (to, len) = if buckets < Group::WIDTH {
            (Group::WIDTH, buckets)
        } else {
            (buckets, Group::WIDTH)
        };
        let ghost converted = self.ctrl@;
        let mut j: usize = 0;
        while j < len
            invariant
                j <= len,
                to + len == n + Group::WIDTH,
                len <= to,
                self.same_but_ctrl(old(self)),
                self.hashes == old(self).hashes,
                self.items == old(self).items,
                self.growth_left == old(self).growth_left,
                self.ctrl@.len() == n + Group::WIDTH,
                converted.len() == n + Group::WIDTH,
                n <= isize::MAX,
                forall|m: int|
                    0 <= m < n + Group::WIDTH ==> #[trigger] self.ctrl@[m] == if to <= m < to + j {
                        converted[m - to]
                    } else {
                        converted[m]
                    },
            decreases len - j,
        {
            self.ctrl[to + j] = self.ctrl[j];
            j = j + 1;
        }
        proof {
            assert forall|m: int| n <= m < n + Group::WIDTH implies #[trigger] storage::mirror_tag(
                self.ctrl@,
                n,
                m,
            ) == self.ctrl@[m] by {
                assert(storage::mirror_tag(ctrl0, n, m) == ctrl0[m]);
            }
        }
    }

    /// Drops the elements that have not been rehashed, which have a deleted control
    /// byte, and resets their control bytes to empty.
    pub fn reclaim_pending(&mut self)
        requires
            old(self).ctrl_wf(),
            old(self).bucket_mask > 0,
            old(self).items == model::count(old(self).tags(), Kind::Full) + model::count(
                old(self).tags(),
                Kind::Deleted,
            ),
            old(self).items <= layout::capacity_of(old(self).n()),
        ensures
            final(self).ctrl_wf(),
            final(self).bucket_mask == old(self).bucket_mask,
            final(self).block == old(self).block,
            final(self).ctrl_offset == old(self).ctrl_offset,
            final(self).hashes == old(self).hashes,
            forall|i: int|
                0 <= i < old(self).n() ==> #[trigger] final(self).tags()[i] == if old(self).tags()[i] == Tag::Deleted {
                    Tag::Empty
                } else {
                    old(self).tags()[i]
                },
            forall|i: int|
                0 <= i < old(self).n() ==> #[trigger] final(self).data@[i] == if old(self).tags()[i] == Tag::Deleted {
                    None
                } else {
                    old(self).data@[i]
                },
            final(self).items == model::count(old(self).tags(), Kind::Full),
            final(self).growth_left == layout::capacity_of(old(self).n()) - final(self).items,
    {
        let buckets: usize = self.num_buckets();
        let ghost n = self.n();
        let ghost tags0 = self.tags();
        let mut i: usize = 0;
        while i < buckets
            invariant
                i <= buckets,
                buckets == n,
                n == self.n(),
                n == tags0.len(),
                self.ctrl_wf(),
                self.bucket_mask > 0,
                self.bucket_mask == old(self).bucket_mask,
                self.block == old(self).block,
                self.ctrl_offset == old(self).ctrl_offset,
                self.hashes == old(self).hashes,
                self.items == model::count(self.tags(), Kind::Full) + model::count(
                    self.tags(),
                    Kind::Deleted,
                ),
                model::count(self.tags(), Kind::Full) == model::count(tags0, Kind::Full),
                self.items <= layout::capacity_of(n),
                forall|j: int|
                    0 <= j < n ==> #[trigger] self.tags()[j] == if j < i && tags0[j]
                        == Tag::Deleted {
                        Tag::Empty
                    } else {
                        tags0[j]
                    },
                forall|j: int|
                    0 <= j < n ==> #[trigger] self.data@[j] == if j < i && tags0[j]
                        == Tag::Deleted {
                        None
                    } else {
                        old(self).data@[j]
                    },
            decreases buckets - i,
        {
            if self.ctrl(i) == Tag::Deleted {
                proof {
                    model::lemma_count_update(self.tags(), i as int, Tag::Empty, Kind::Full);
                    model::lemma_count_update(self.tags(), i as int, Tag::Empty, Kind::Deleted);
                    model::lemma_count_occurs(self.tags(), Kind::Deleted, i as int);
                }
                self.set_ctrl(i, Tag::Empty);
                self.data[i] = None;
                self.items = self.items - 1;
            }
            i = i + 1;
        }
        proof {
            model::lemma_count_none(self.tags(), Kind::Deleted);
        }
        self.growth_left = bucket_mask_to_capacity(self.bucket_mask) - self.items;
    }

    /// Rehashes the contents of the table in place (i.e. without changing the
    /// allocation).
    ///
    /// If `hasher` gives up then the elements that have not been rehashed yet are
    /// dropped: they cannot be kept since their hash is not known. A hash function that may
    /// panic has to give up instead, for a panic would leave a table that is only partly
    /// rehashed.
    pub fn rehash_in_place(&mut self, hasher: &impl Fn(&T) -> Option<u64>) -> (r: Result<
        (),
        HashFailed,
    >)
        requires
            old(self).wf(),
            old(self).bucket_mask > 0,
            old(self).hashable(hasher),
        ensures
            final(self).wf(),
            final(self).bucket_mask == old(self).bucket_mask,
            final(self).block == old(self).block,
            final(self).ctrl_offset == old(self).ctrl_offset,
            final(self).hashed_by(hasher),
            final(self).growth_left + final(self).items == layout::capacity_of(final(self).n()),
            match r {
                Ok(_) => {
                    &&& final(self).elements() == old(self).elements()
                    &&& final(self).items == old(self).items
                    &&& final(self).rehashed_from(old(self))
                },
                Err(_) => {
                    &&& old(self).hash_gave_up(hasher)
                    &&& final(self).reclaimed_from(old(self), hasher)
                },
            },
    {
        self.prepare_rehash_in_place();
        let buckets: usize = self.num_buckets();
        let ghost n = self.n();
        let ghost orig = *old(self);
        let ghost mut states: Seq<RawTableInner<T>> = seq![*self];
        proof {
            self.lemma_prepared(&orig, hasher);
            assert(self.prepared_from(&orig));
        }
        // At this point, deleted elements are elements that we haven't
        // rehashed yet. Find them and re-insert them at their ideal
        // position.
        let mut i: usize = 0;
        while i < buckets
            invariant
                i <= buckets,
                buckets == n,
                n == self.n(),
                orig == *old(self),
                orig.wf(),
                orig.hashable(hasher),
                self.rehashing(&orig, hasher),
                Self::is_rehash(&orig, states),
                states.last() == *self,
                self.items == orig.items,
                self.elements() == orig.elements(),
                forall|j: int| 0 <= j < i ==> #[trigger] self.tags()[j] != Tag::Deleted,
            decreases buckets - i,
        {
            let mut settled: bool = self.ctrl(i) != Tag::Deleted;
            while !settled
                invariant
                    i < buckets,
                    buckets == n,
                    n == self.n(),
                    orig == *old(self),
                    orig.wf(),
                    orig.hashable(hasher),
                    self.rehashing(&orig, hasher),
                    Self::is_rehash(&orig, states),
                    states.last() == *self,
                    self.items == orig.items,
                    self.elements() == orig.elements(),
                    forall|j: int| 0 <= j < i ==> #[trigger] self.tags()[j] != Tag::Deleted,
                    settled <==> self.tags()[i as int] != Tag::Deleted,
                decreases model::count(self.tags(), Kind::Deleted),
            {
                // Hash the current item
                assert(self.data@[i as int] is Some);
                proof {
                    model::lemma_bag_take(self.data@, i as int);
                }
                let hashed = hasher(self.data[i].as_ref().unwrap());
                let hash: u64 = match hashed {
                    Some(hash) => hash,
                    None => {
                        let ghost stopped = *self;
                        assert(orig.rehashes_to(&stopped));
                        self.reclaim_pending();
                        proof {
                            self.lemma_reclaimed(&stopped, &orig, hasher, i as int);
                            assert(self.reclaimed_at(&orig, hasher, &stopped, i as int));
                        }
                        return Err(HashFailed);
                    },
                };
                // Search for a suitable place to put it
                let new_i: usize = self.find_insert_index(hash);
                let ghost before = *self;
                proof {
                    model::lemma_insert_slot_settled(self.tags(), hash, new_i as int);
                    model::lemma_count_occurs(self.tags(), Kind::Deleted, i as int);
                }
                // If both the new and old position fall within the same unaligned
                // group, then there is no benefit in moving it and we can just
                // continue to the next item.
                if self.is_in_same_group(i, new_i, hash) {
                    self.set_ctrl_hash(i, hash);
                    proof {
                        self.lemma_kept(&before, &orig, hasher, i as int, hash);
                        Self::lemma_rehash_goes_on(
                            &orig,
                            states,
                            *self,
                            i as int,
                            hash,
                            new_i as int,
                        );
                        states = states.push(*self);
                    }
                    settled = true;
                } else {
                    // We are moving the current item to a new position. Write
                    // our H2 to the control byte of the new position.
                    let prev_ctrl = self.replace_ctrl_hash(new_i, hash);
                    if prev_ctrl == Tag::Empty {
                        self.set_ctrl(i, Tag::Empty);
                        // If the target slot is empty, simply move the current
                        // element into the new slot and clear the old control
                        // byte.
                        let moved = self.data[i].take();
                        self.data[new_i] = moved;
                        proof {
                            self.lemma_moved(&before, &orig, hasher, i as int, new_i as int, hash);
                            assert(self.tags() =~= before.tags().update(i as int, Tag::Empty).update(
                                new_i as int,
                                Tag::Full(h2(hash)),
                            ));
                            assert(before.data@[new_i as int] is None);
                            assert(self.data@ =~= before.data@.update(
                                i as int,
                                before.data@[new_i as int],
                            ).update(new_i as int, before.data@[i as int]));
                            Self::lemma_rehash_goes_on(
                                &orig,
                                states,
                                *self,
                                i as int,
                                hash,
                                new_i as int,
                            );
                            states = states.push(*self);
                        }
                        settled = true;
                    } else {
                        // If the target slot is occupied, swap the two elements
                        // and then continue processing the element that we just
                        // swapped into the old slot.
                        let here = self.data[i].take();
                        let there = self.data[new_i].take();
                        self.data[i] = there;
                        self.data[new_i] = here;
                        proof {
                            assert(self.data@ =~= before.data@.update(
                                i as int,
                                before.data@[new_i as int],
                            ).update(new_i as int, before.data@[i as int]));
                            self.lemma_swapped(
                                &before,
                                &orig,
                                hasher,
                                i as int,
                                new_i as int,
                                hash,
                            );
                            assert(self.tags() =~= before.tags().update(
                                i as int,
                                before.tags()[new_i as int],
                            ).update(new_i as int, Tag::Full(h2(hash))));
                            Self::lemma_rehash_goes_on(
                                &orig,
                                states,
                                *self,
                                i as int,
                                hash,
                                new_i as int,
                            );
                            states = states.push(*self);
                        }
                    }
                }
            }
            i = i + 1;
        }
        proof {
            model::lemma_count_none(self.tags(), Kind::Deleted);
        }
        let ghost done = *self;
        assert(orig.rehashes_to(&done));
        self.growth_left = bucket_mask_to_capacity(self.bucket_mask) - self.items;
        proof {
            assert(self.tags() == done.tags());
            assert forall|j: int| 0 <= j < n && #[trigger] self.tags()[j] is Full implies {
                &&& self.tags()[j] == Tag::Full(h2(self.hashes@[j]))
                &&& model::placed(self.tags(), self.hashes@[j], j)
            } by {
                assert(done.is_full_at(j));
                lemma_settled_fewer(done.tags(), self.tags(), self.hashes@[j], j);
            }
            assert forall|j: int| #[trigger] self.is_full_at(j) implies call_ensures(
                hasher,
                (&self.data@[j]->0,),
                Some(self.hashes@[j]),
            ) by {
                assert(done.is_full_at(j));
            }
        }
        Ok(())
    }

    /// Once prepared, all elements are still to be rehashed.
    proof fn lemma_prepared<F: Fn(&T) -> Option<u64>>(&self, orig: &RawTableInner<T>, hasher: &F)
        requires
            orig.wf(),
            self.ctrl_wf(),
            orig.bucket_mask > 0,
            self.same_but_ctrl(orig),
            self.items == orig.items,
            forall|i: int|
                0 <= i < orig.n() ==> #[trigger] self.tags()[i] == if orig.is_full_at(i) {
                    Tag::Deleted
                } else {
                    Tag::Empty
                },
        ensures
            self.rehashing(orig, hasher),
    {
        model::lemma_count_none(self.tags(), Kind::Full);
        lemma_count_matching(orig.tags(), Kind::Full, self.tags(), Kind::Deleted);
    }

    /// An element that stays in its group is rehashed where it is.
    proof fn lemma_kept<F: Fn(&T) -> Option<u64>>(
        &self,
        before: &RawTableInner<T>,
        orig: &RawTableInner<T>,
        hasher: &F,
        i: int,
        hash: u64,
    )
        requires
            before.rehashing(orig, hasher),
            0 <= i < before.n(),
            before.tags()[i] == Tag::Deleted,
            model::settled(before.tags(), hash, i),
            call_ensures(hasher, (&before.data@[i]->0,), Some(hash)),
            self.ctrl_wf(),
            self.same_but_ctrl(before),
            self.items == before.items,
            self.tags() == before.tags().update(i, Tag::Full(h2(hash))),
            self.hashes@ == before.hashes@.update(i, hash),
        ensures
            self.rehashing(orig, hasher),
            model::count(self.tags(), Kind::Deleted) < model::count(before.tags(), Kind::Deleted),
    {
        let tag = Tag::Full(h2(hash));
        model::lemma_count_update(before.tags(), i, tag, Kind::Full);
        model::lemma_count_update(before.tags(), i, tag, Kind::Deleted);
        assert forall|j: int| #[trigger] self.is_full_at(j) implies {
            &&& self.tags()[j] == Tag::Full(h2(self.hashes@[j]))
            &&& model::settled(self.tags(), self.hashes@[j], j)
            &&& call_ensures(hasher, (&self.data@[j]->0,), Some(self.hashes@[j]))
        } by {
            if j != i {
                assert(before.is_full_at(j));
            }
            lemma_settled_fewer(before.tags(), self.tags(), self.hashes@[j], j);
        }
    }

    /// An element that moves to an empty bucket is rehashed there.
    proof fn lemma_moved<F: Fn(&T) -> Option<u64>>(
        &self,
        before: &RawTableInner<T>,
        orig: &RawTableInner<T>,
        hasher: &F,
        i: int,
        new_i: int,
        hash: u64,
    )
        requires
            before.rehashing(orig, hasher),
            0 <= i < before.n(),
            0 <= new_i < before.n(),
            before.tags()[i] == Tag::Deleted,
            before.tags()[new_i] == Tag::Empty,
            model::settled(before.tags(), hash, new_i),
            call_ensures(hasher, (&before.data@[i]->0,), Some(hash)),
            self.ctrl_wf(),
            self.bucket_mask == before.bucket_mask,
            self.block == before.block,
            self.ctrl_offset == before.ctrl_offset,
            self.items == before.items,
            self.tags() == before.tags().update(new_i, Tag::Full(h2(hash))).update(i, Tag::Empty),
            self.hashes@ == before.hashes@.update(new_i, hash),
            self.data@ == before.data@.update(i, None).update(new_i, before.data@[i]),
        ensures
            self.rehashing(orig, hasher),
            self.elements() == before.elements(),
            model::count(self.tags(), Kind::Deleted) < model::count(before.tags(), Kind::Deleted),
    {
        let tag = Tag::Full(h2(hash));
        let mid = before.tags().update(new_i, tag);
        model::lemma_count_update(before.tags(), new_i, tag, Kind::Full);
        model::lemma_count_update(before.tags(), new_i, tag, Kind::Deleted);
        model::lemma_count_update(mid, i, Tag::Empty, Kind::Full);
        model::lemma_count_update(mid, i, Tag::Empty, Kind::Deleted);
        model::lemma_bag_move(before.data@, i, new_i);
        assert forall|j: int| #[trigger] self.is_full_at(j) implies {
            &&& self.tags()[j] == Tag::Full(h2(self.hashes@[j]))
            &&& model::settled(self.tags(), self.hashes@[j], j)
            &&& call_ensures(hasher, (&self.data@[j]->0,), Some(self.hashes@[j]))
        } by {
            if j != new_i {
                assert(before.is_full_at(j));
            }
            lemma_settled_fewer(before.tags(), self.tags(), self.hashes@[j], j);
        }
    }

    /// An element that takes the place of one that is still to be rehashed is
    /// rehashed there.
    proof fn lemma_swapped<F: Fn(&T) -> Option<u64>>(
        &self,
        before: &RawTableInner<T>,
        orig: &RawTableInner<T>,
        hasher: &F,
        i: int,
        new_i: int,
        hash: u64,
    )
        requires
            before.rehashing(orig, hasher),
            0 <= i < before.n(),
            0 <= new_i < before.n(),
            i != new_i,
            before.tags()[i] == Tag::Deleted,
            before.tags()[new_i] == Tag::Deleted,
            model::settled(before.tags(), hash, new_i),
            call_ensures(hasher, (&before.data@[i]->0,), Some(hash)),
            self.ctrl_wf(),
            self.bucket_mask == before.bucket_mask,
            self.block == before.block,
            self.ctrl_offset == before.ctrl_offset,
            self.items == before.items,
            self.tags() == before.tags().update(new_i, Tag::Full(h2(hash))),
            self.hashes@ == before.hashes@.update(new_i, hash),
            self.data@ == before.data@.update(i, before.data@[new_i]).update(
                new_i,
                before.data@[i],
            ),
        ensures
            self.rehashing(orig, hasher),
            self.elements() == before.elements(),
            model::count(self.tags(), Kind::Deleted) < model::count(before.tags(), Kind::Deleted),
    {
        let tag = Tag::Full(h2(hash));
        model::lemma_count_update(before.tags(), new_i, tag, Kind::Full);
        model::lemma_count_update(before.tags(), new_i, tag, Kind::Deleted);
        model::lemma_bag_swap(before.data@, i, new_i);
        assert forall|j: int| #[trigger] self.is_full_at(j) implies {
            &&& self.tags()[j] == Tag::Full(h2(self.hashes@[j]))
            &&& model::settled(self.tags(), self.hashes@[j], j)
            &&& call_ensures(hasher, (&self.data@[j]->0,), Some(self.hashes@[j]))
        } by {
            if j != new_i {
                assert(before.is_full_at(j));
            }
            lemma_settled_fewer(before.tags(), self.tags(), self.hashes@[j], j);
        }
    }

    /// Once the elements that were still to be rehashed are dropped, the table is
    /// well-formed, and holds the rest.
    proof fn lemma_reclaimed<F: Fn(&T) -> Option<u64>>(
        &self,
        stopped: &RawTableInner<T>,
        orig: &RawTableInner<T>,
        hasher: &F,
        i: int,
    )
        requires
            stopped.rehashing(orig, hasher),
            0 <= i < stopped.n(),
            stopped.tags()[i] == Tag::Deleted,
            self.ctrl_wf(),
            self.bucket_mask == stopped.bucket_mask,
            self.block == stopped.block,
            self.ctrl_offset == stopped.ctrl_offset,
            self.hashes == stopped.hashes,
            forall|j: int|
                0 <= j < stopped.n() ==> #[trigger] self.tags()[j] == if stopped.tags()[j]
                    == Tag::Deleted {
                    Tag::Empty
                } else {
                    stopped.tags()[j]
                },
            forall|j: int|
                0 <= j < stopped.n() ==> #[trigger] self.data@[j] == if stopped.tags()[j]
                    == Tag::Deleted {
                    None
                } else {
                    stopped.data@[j]
                },
            self.items == model::count(stopped.tags(), Kind::Full),
            self.growth_left == layout::capacity_of(stopped.n()) - self.items,
        ensures
            self.wf(),
            self.hashed_by(hasher),
            self.items < stopped.items,
            self.elements().subset_of(stopped.elements()),
    {
        model::lemma_count_occurs(stopped.tags(), Kind::Deleted, i);
        model::lemma_count_none(self.tags(), Kind::Deleted);
        lemma_count_matching(stopped.tags(), Kind::Full, self.tags(), Kind::Full);
        lemma_bag_subset(self.data@, stopped.data@);
        assert forall|j: int| 0 <= j < self.n() && #[trigger] self.tags()[j] is Full implies {
            &&& self.tags()[j] == Tag::Full(h2(self.hashes@[j]))
            &&& model::placed(self.tags(), self.hashes@[j], j)
        } by {
            assert(stopped.is_full_at(j));
            lemma_settled_fewer(stopped.tags(), self.tags(), self.hashes@[j], j);
        }
        assert forall|j: int| #[trigger] self.is_full_at(j) implies call_ensures(
            hasher,
            (&self.data@[j]->0,),
            Some(self.hashes@[j]),
        ) by {
            assert(stopped.is_full_at(j));
        }
    }
}

/// Buckets that stay full keep what is settled.
proof fn lemma_settled_fewer(tags: Seq<Tag>, after: Seq<Tag>, hash: u64, i: int)
    requires
        tags.len() == after.len(),
        model::settled(tags, hash, i),
        forall|j: int|
            0 <= j < tags.len() && #[trigger] tags[j] is Full ==> after[j] is Full,
    ensures
        model::settled(after, hash, i),
        model::placed(after, hash, i),
{
    assert forall|j: int| 0 <= j < after.len() && !(#[trigger] after[j] is Full) implies model::step_of(
        hash,
        after.len() as int,
        i,
    ) <= model::step_of(hash, after.len() as int, j) by {
        assert(!(tags[j] is Full));
    }
}

/// Tags that are of one kind just where others are of another are as many.
pub proof fn lemma_count_matching(a: Seq<Tag>, ka: Kind, b: Seq<Tag>, kb: Kind)
    requires
        a.len() == b.len(),
        forall|j: int|
            0 <= j < a.len() ==> (model::kind_of(#[trigger] a[j]) == ka <==> model::kind_of(b[j])
                == kb),
    ensures
        model::count(a, ka) == model::count(b, kb),
    decreases a.len(),
{
    if a.len() > 0 {
        assert(a[a.len() - 1] == a.last());
        assert forall|j: int| 0 <= j < a.drop_last().len() implies (model::kind_of(
            #[trigger] a.drop_last()[j],
        ) == ka <==> model::kind_of(b.drop_last()[j]) == kb) by {
            assert(a[j] == a.drop_last()[j]);
        }
        lemma_count_matching(a.drop_last(), ka, b.drop_last(), kb);
    }
}

/// Emptied buckets leave a part of what was held.
proof fn lemma_bag_subset<T>(less: Seq<Option<T>>, more: Seq<Option<T>>)
    requires
        less.len() == more.len(),
        forall|j: int|
            0 <= j < less.len() ==> #[trigger] less[j] is None || less[j] == more[j],
    ensures
        model::bag(less).subset_of(model::bag(more)),
    decreases less.len(),
{
    broadcast use vstd::multiset::group_multiset_axioms;

    if less.len() > 0 {
        assert(less[less.len() - 1] == less.last());
        assert forall|j: int| 0 <= j < less.drop_last().len() implies #[trigger] less.drop_last()[j] is None
            || less.drop_last()[j] == more.drop_last()[j] by {
            assert(less[j] == less.drop_last()[j]);
        }
        lemma_bag_subset(less.drop_last(), more.drop_last());
    }
}

/// A growth transaction: allocates the replacement table up front, finds the place of
/// each element in it, and then either commits (moving the elements, swapping the new
/// table into place and releasing the old allocation) or rolls back.
///
/// The original table keeps owning every element until
/// [`GrowthTransaction::commit`] runs.
pub struct GrowthTransaction<'a, T, A: Allocator> {
    /// The freshly allocated table the elements are migrated into. Its
    /// `growth_left` and `items` fields are only set on `commit`.
    pub new_table: RawTableInner<T>,
    /// The allocator of the original table.
    pub alloc: &'a A,
    /// The `TableLayout` of the original table.
    pub table_layout: TableLayout,
    /// From which bucket of the original table to which one of the new table each
    /// element moves.
    pub plan: Vec<(usize, usize)>,
}

impl<'a, T, A: Allocator> GrowthTransaction<'a, T, A> {
    /// Whether the first elements of `source`, as many as the plan has entries, have
    /// their place in the new table.
    pub open spec fn planned(&self, source: &RawTableInner<T>) -> bool {
        let from = model::full_indices(source.tags());
        let tags = self.new_table.tags();
        &&& self.new_table.ctrl_wf()
        &&& self.new_table.block_wf(self.table_layout)
        &&& self.new_table.items == 0
        &&& self.new_table.growth_left == layout::capacity_of(self.new_table.n())
        &&& source.items <= self.new_table.growth_left
        &&& self.plan@.len() <= from.len()
        &&& model::count(tags, Kind::Full) == self.plan@.len()
        &&& forall|p: int| 0 <= p < tags.len() ==> #[trigger] tags[p] != Tag::Deleted
        &&& forall|p: int|
            0 <= p < self.new_table.data@.len() ==> #[trigger] self.new_table.data@[p] is None
        &&& forall|k: int|
            #![trigger self.plan@[k]]
            0 <= k < self.plan@.len() ==> {
                &&& self.plan@[k].0 == from[k]
                &&& self.plan@[k].1 < tags.len()
                &&& tags[self.plan@[k].1 as int] == Tag::Full(
                    h2(self.new_table.hashes@[self.plan@[k].1 as int]),
                )
                &&& model::settled(
                    tags,
                    self.new_table.hashes@[self.plan@[k].1 as int],
                    self.plan@[k].1 as int,
                )
            }
        &&& forall|k: int, l: int|
            #![trigger self.plan@[k], self.plan@[l]]
            0 <= k < l < self.plan@.len() ==> self.plan@[k].1 != self.plan@[l].1
        &&& forall|p: int|
            0 <= p < tags.len() && #[trigger] tags[p] is Full ==> self.is_target(p)
        &&& model::fills_in_order(self.new_table.n(), self.entries())
        &&& tags == model::filled(self.new_table.n(), self.entries())
    }

    /// The hash and the bucket in the new table of each element that has its place.
    pub open spec fn entries(&self) -> Seq<(u64, int)> {
        Seq::new(
            self.plan@.len(),
            |k: int|
                (self.new_table.hashes@[self.plan@[k].1 as int], self.plan@[k].1 as int),
        )
    }

    /// Whether an element moves to bucket `p` of the new table.
    pub open spec fn is_target(&self, p: int) -> bool {
        exists|k: int| 0 <= k < self.plan@.len() && (#[trigger] self.plan@[k]).1 == p
    }

    /// Whether the hashes in the new table are those that the hash function returned.
    pub open spec fn planned_by<F: Fn(&T) -> Option<u64>>(
        &self,
        source: &RawTableInner<T>,
        hasher: &F,
    ) -> bool {
        forall|k: int|
            #![trigger self.plan@[k]]
            0 <= k < self.plan@.len() ==> call_ensures(
                hasher,
                (&source.data@[self.plan@[k].0 as int]->0,),
                Some(self.new_table.hashes@[self.plan@[k].1 as int]),
            )
    }

    /// Attempts to allocate a new hash table with at least enough capacity
    /// for inserting the given number of elements without reallocating,
    /// and returns a transaction owning it.
    pub fn begin(
        alloc: &'a A,
        table_layout: TableLayout,
        capacity: usize,
        fallibility: Fallibility,
    ) -> (r: Result<Self, TryReserveError>)
        requires
            table_layout.valid(),
            fallibility is Infallible ==> storage::capacity_fits(capacity, table_layout) && (
            capacity > 0 ==> alloc.never_refuses()),
        ensures
            match r {
                Ok(transaction) => {
                    &&& storage::capacity_fits(capacity, table_layout)
                    &&& transaction.new_table.is_cleared()
                    &&& transaction.new_table.block_wf(table_layout)
                    &&& transaction.new_table.growth_left >= capacity
                    &&& transaction.new_table.sized_for(alloc, capacity, table_layout)
                    &&& transaction.alloc == alloc
                    &&& transaction.table_layout == table_layout
                    &&& transaction.plan@.len() == 0
                },
                Err(TryReserveError::CapacityOverflow) => !storage::capacity_fits(
                    capacity,
                    table_layout,
                ),
                Err(TryReserveError::AllocError { layout }) => {
                    &&& capacity > 0
                    &&& storage::capacity_fits(capacity, table_layout)
                    &&& layout == table_layout.layout_spec(
                        layout::buckets_for(capacity, table_layout),
                    )
                    &&& storage::out_of_memory::<T, A>(
                        alloc,
                        table_layout,
                        layout::buckets_for(capacity, table_layout),
                    )
                },
            },
            fallibility is Infallible ==> r is Ok,
    {
        // On failure the error is returned to the caller and the original table is
        // left untouched.
        match RawTableInner::fallible_with_capacity(alloc, table_layout, capacity, fallibility) {
            Ok(new_table) => Ok(
                GrowthTransaction { new_table, alloc, table_layout, plan: Vec::new() },
            ),
            Err(error) => Err(error),
        }
    }

    /// Finds the place of all elements of `source` in the new table.
    ///
    /// If the hash function gives up, the transaction is to be rolled back.
    pub fn migrate(&mut self, source: &RawTableInner<T>, hasher: &impl Fn(&T) -> Option<u64>) -> (r:
        Result<(), HashFailed>)
        requires
            old(self).new_table.is_cleared(),
            old(self).new_table.block_wf(old(self).table_layout),
            old(self).plan@.len() == 0,
            source.wf(),
            source.hashable(hasher),
            source.items <= old(self).new_table.growth_left,
        ensures
            final(self).planned(source),
            final(self).alloc == old(self).alloc,
            final(self).table_layout == old(self).table_layout,
            final(self).new_table.same_but_ctrl(&old(self).new_table),
            match r {
                Ok(_) => {
                    &&& final(self).plan@.len() == model::full_indices(source.tags()).len()
                    &&& final(self).planned_by(source, hasher)
                },
                Err(_) => source.hash_gave_up(hasher),
            },
    {
        let ghost from = model::full_indices(source.tags());
        let mut indices = source.full_buckets_indices();
        proof {
            model::lemma_full_indices_len(source.tags());
            model::lemma_filter_members(
                |j: int| source.tags()[j] is Full,
                0,
                source.tags().len() as int,
            );
            model::lemma_count_none(self.new_table.tags(), Kind::Full);
            assert(self.new_table.tags() =~= model::filled(self.new_table.n(), self.entries()));
            assert(indices.remaining(source.tags()) =~= from.skip(0));
        }
        loop
            invariant
                source.wf(),
                source.hashable(hasher),
                from == model::full_indices(source.tags()),
                from.len() == source.items,
                forall|x: int| #[trigger] from.contains(x) ==> source.is_full_at(x),
                self.planned(source),
                self.planned_by(source, hasher),
                self.alloc == old(self).alloc,
                self.table_layout == old(self).table_layout,
                self.new_table.same_but_ctrl(&old(self).new_table),
                indices.wf(source.tags()),
                indices.remaining(source.tags()) == from.skip(self.plan@.len() as int),
            ensures
                self.planned(source),
                self.planned_by(source, hasher),
                self.plan@.len() == from.len(),
                self.alloc == old(self).alloc,
                self.table_layout == old(self).table_layout,
                self.new_table.same_but_ctrl(&old(self).new_table),
            decreases from.len() - self.plan@.len(),
        {
            let index: usize = match indices.next(source) {
                Some(index) => index,
                None => {
                    break;
                },
            };
            let ghost k = self.plan@.len() as int;
            proof {
                assert(from.contains(from[k]));
                assert(source.is_full_at(index as int));
                assert(from.skip(k).drop_first() =~= from.skip(k + 1));
                model::lemma_bag_take(source.data@, index as int);
                assert(source.elements().contains(source.data@[index as int]->0));
            }
            let hash: u64 = match hasher(source.data[index].as_ref().unwrap()) {
                Some(hash) => hash,
                None => {
                    return Err(HashFailed);
                },
            };
            let ghost before = *self;
            proof {
                // The load factor leaves room for one more element.
                model::lemma_count_total(self.new_table.tags());
                model::lemma_count_none(self.new_table.tags(), Kind::Deleted);
                let e = model::lemma_count_positive(self.new_table.tags(), Kind::Empty);
                assert(!(self.new_table.tags()[e] is Full));
                assert(self.new_table.bucket_mask > 0);
            }
            let (new_index, _) = self.new_table.prepare_insert_index(hash);
            self.plan.push((index, new_index));
            proof {
                Self::lemma_planned_one_more(&before, self, source, hasher, index, new_index, hash);
            }
        }
        Ok(())
    }

    /// One more element has its place in the new table.
    proof fn lemma_planned_one_more<F: Fn(&T) -> Option<u64>>(
        before: &Self,
        after: &Self,
        source: &RawTableInner<T>,
        hasher: &F,
        index: usize,
        new_index: usize,
        hash: u64,
    )
        requires
            before.planned(source),
            before.planned_by(source, hasher),
            before.plan@.len() < model::full_indices(source.tags()).len(),
            index == model::full_indices(source.tags())[before.plan@.len() as int],
            call_ensures(hasher, (&source.data@[index as int]->0,), Some(hash)),
            before.new_table.bucket_mask > 0,
            model::is_insert_slot(before.new_table.tags(), hash, new_index as int),
            after.new_table.ctrl_wf(),
            after.new_table.tags() == before.new_table.tags().update(
                new_index as int,
                Tag::Full(h2(hash)),
            ),
            after.new_table.hashes@ == before.new_table.hashes@.update(new_index as int, hash),
            after.new_table.same_but_ctrl(&before.new_table),
            after.new_table.items == before.new_table.items,
            after.new_table.growth_left == before.new_table.growth_left,
            after.alloc == before.alloc,
            after.table_layout == before.table_layout,
            after.plan@ == before.plan@.push((index, new_index)),
        ensures
            after.planned(source),
            after.planned_by(source, hasher),
    {
        let tags = before.new_table.tags();
        let tags2 = after.new_table.tags();
        let p = new_index as int;
        assert(after.entries() =~= before.entries().push((hash, p))) by {
            assert forall|k: int| 0 <= k < before.plan@.len() implies #[trigger] after.entries()[k]
                == before.entries()[k] by {
                assert(after.plan@[k] == before.plan@[k]);
                assert(tags[before.plan@[k].1 as int] is Full);
            }
        }
        assert(after.entries().drop_last() =~= before.entries());
        model::lemma_insert_slot_settled(tags, hash, p);
        model::lemma_count_update(tags, p, Tag::Full(h2(hash)), Kind::Full);
        assert forall|k: int|
            #![trigger after.plan@[k]]
            0 <= k < after.plan@.len() implies {
            &&& after.plan@[k].0 == model::full_indices(source.tags())[k]
            &&& after.plan@[k].1 < tags2.len()
            &&& tags2[after.plan@[k].1 as int] == Tag::Full(
                h2(after.new_table.hashes@[after.plan@[k].1 as int]),
            )
            &&& model::settled(
                tags2,
                after.new_table.hashes@[after.plan@[k].1 as int],
                after.plan@[k].1 as int,
            )
            &&& call_ensures(
                hasher,
                (&source.data@[after.plan@[k].0 as int]->0,),
                Some(after.new_table.hashes@[after.plan@[k].1 as int]),
            )
        } by {
            if k < before.plan@.len() {
                assert(after.plan@[k] == before.plan@[k]);
            }
            lemma_settled_fewer(
                tags,
                tags2,
                after.new_table.hashes@[after.plan@[k].1 as int],
                after.plan@[k].1 as int,
            );
        }
        assert forall|k: int, l: int|
            #![trigger after.plan@[k], after.plan@[l]]
            0 <= k < l < after.plan@.len() implies after.plan@[k].1 != after.plan@[l].1 by {
            assert(after.plan@[k] == before.plan@[k]);
            if l < before.plan@.len() {
                assert(after.plan@[l] == before.plan@[l]);
            }
        }
        assert forall|q: int| 0 <= q < tags2.len() && #[trigger] tags2[q] is Full implies after.is_target(
            q,
        ) by {
            let last = before.plan@.len() as int;
            if q == p {
                assert(after.plan@[last].1 == q);
            } else {
                assert(tags[q] is Full);
                assert(before.is_target(q));
                let k = choose|k: int|
                    0 <= k < before.plan@.len() && (#[trigger] before.plan@[k]).1 == q;
                assert(after.plan@[k] == before.plan@[k]);
            }
        }
    }

    /// Commits the transaction: the elements move to the new table, which is swapped
    /// into `source`, and the allocation previously held by `source` is released.
    pub fn commit(self, source: &mut RawTableInner<T>)
        requires
            old(source).wf(),
            old(source).block_wf(self.table_layout),
            self.planned(old(source)),
            self.plan@.len() == model::full_indices(old(source).tags()).len(),
        ensures
            final(source).wf(),
            final(source).block_wf(self.table_layout),
            final(source).elements() == old(source).elements(),
            final(source).items == old(source).items,
            final(source).growth_left == self.new_table.growth_left - old(source).items,
            final(source).bucket_mask == self.new_table.bucket_mask,
            final(source).block == self.new_table.block,
            final(source).tags() == self.new_table.tags(),
            final(source).hashes == self.new_table.hashes,
            old(source).freed(self.alloc, self.table_layout),
            forall|k: int|
                #![trigger self.plan@[k]]
                0 <= k < self.plan@.len() ==> final(source).data@[self.plan@[k].1 as int] == old(source).data@[self.plan@[k].0 as int],
    {
        let mut transaction = self;
        transaction.new_table.growth_left = transaction.new_table.growth_left - source.items;
        transaction.new_table.items = source.items;
        let ghost from = model::full_indices(source.tags());
        let ghost orig = *source;
        let ghost new0 = transaction.new_table;
        proof {
            broadcast use vstd::multiset::group_multiset_axioms;

            model::lemma_full_indices_len(source.tags());
            model::lemma_filter_members(
                |j: int| orig.tags()[j] is Full,
                0,
                orig.tags().len() as int,
            );
            model::lemma_bag_empty(new0.data@);
            assert(model::bag(new0.data@).add(model::bag(source.data@)) =~= orig.elements());
        }
        let mut k: usize = 0;
        while k < transaction.plan.len()
            invariant
                k <= transaction.plan@.len(),
                transaction.plan == self.plan,
                transaction.alloc == self.alloc,
                transaction.table_layout == self.table_layout,
                self.planned(&orig),
                self.plan@.len() == from.len(),
                orig.wf(),
                from == model::full_indices(orig.tags()),
                forall|x: int| #[trigger] from.contains(x) <==> orig.is_full_at(x),
                forall|a: int, b: int|
                    0 <= a < b < from.len() ==> #[trigger] from[a] < #[trigger] from[b],
                source.same_but_data(&orig),
                source.data@.len() == orig.data@.len(),
                transaction.new_table.same_but_data(&new0),
                transaction.new_table.data@.len() == new0.data@.len(),
                new0.tags() == self.new_table.tags(),
                new0.data == self.new_table.data,
                new0.ctrl == self.new_table.ctrl,
                new0.bucket_mask == self.new_table.bucket_mask,
                new0.hashes == self.new_table.hashes,
                forall|i: int|
                    0 <= i < orig.data@.len() && !(exists|l: int|
                        0 <= l < k && #[trigger] from[l] == i) ==> #[trigger] source.data@[i]
                        == orig.data@[i],
                forall|l: int| 0 <= l < k ==> source.data@[#[trigger] from[l]] is None,
                forall|p: int|
                    0 <= p < new0.data@.len() && !(exists|l: int|
                        0 <= l < k && (#[trigger] self.plan@[l]).1 == p)
                        ==> #[trigger] transaction.new_table.data@[p] is None,
                forall|l: int|
                    #![trigger self.plan@[l]]
                    0 <= l < k ==> transaction.new_table.data@[self.plan@[l].1 as int]
                        == orig.data@[self.plan@[l].0 as int],
                model::bag(transaction.new_table.data@).add(model::bag(source.data@))
                    == orig.elements(),
            decreases transaction.plan@.len() - k,
        {
            let (index, new_index) = transaction.plan[k];
            let ghost data0 = source.data@;
            let ghost to0 = transaction.new_table.data@;
            proof {
                assert(self.plan@[k as int] == (index, new_index));
                assert(from.contains(from[k as int]));
                assert(orig.is_full_at(index as int));
                assert(!(exists|l: int| 0 <= l < k && #[trigger] from[l] == index));
                assert(data0[index as int] == orig.data@[index as int]);
                assert(!(exists|l: int| 0 <= l < k && (#[trigger] self.plan@[l]).1 == new_index));
                assert(to0[new_index as int] is None);
                model::lemma_bag_take(data0, index as int);
                model::lemma_bag_put(to0, new_index as int, data0[index as int]->0);
            }
            let moved = source.data[index].take();
            transaction.new_table.data[new_index] = moved;
            proof {
                broadcast use vstd::multiset::group_multiset_axioms;

                let v = data0[index as int]->0;
                assert(model::bag(transaction.new_table.data@) == model::bag(to0).insert(v));
                assert(model::bag(data0) == model::bag(source.data@).insert(v));
                assert(model::bag(to0).insert(v).add(model::bag(source.data@)) =~= model::bag(to0).add(
                    model::bag(source.data@).insert(v),
                ));
                let kk = k as int;
                assert(from[kk] == index);
                assert forall|l: int| 0 <= l < kk + 1 implies source.data@[#[trigger] from[l]] is None by {
                    assert(from.contains(from[l]));
                    assert(orig.is_full_at(from[l]));
                }
                assert forall|i: int|
                    0 <= i < orig.data@.len() && !(exists|l: int|
                        0 <= l < kk + 1 && #[trigger] from[l] == i) implies #[trigger] source.data@[i]
                    == orig.data@[i] by {
                    if exists|l: int| 0 <= l < kk && #[trigger] from[l] == i {
                        let l = choose|l: int| 0 <= l < kk && #[trigger] from[l] == i;
                        assert(from[l] == i);
                    }
                    assert(i != index);
                }
                assert forall|p: int|
                    0 <= p < new0.data@.len() && !(exists|l: int|
                        0 <= l < kk + 1 && (#[trigger] self.plan@[l]).1
                            == p) implies #[trigger] transaction.new_table.data@[p] is None by {
                    if exists|l: int| 0 <= l < kk && (#[trigger] self.plan@[l]).1 == p {
                        let l = choose|l: int| 0 <= l < kk && (#[trigger] self.plan@[l]).1 == p;
                        assert(self.plan@[l].1 == p);
                    }
                    assert(p != new_index);
                }
            }
            k = k + 1;
        }
        proof {
            broadcast use vstd::multiset::group_multiset_axioms;

            // Every element has left the original table.
            assert forall|i: int| 0 <= i < source.data@.len() implies #[trigger] source.data@[i] is None by {
                if orig.is_full_at(i) {
                    assert(from.contains(i));
                    let l = from.index_of(i);
                    assert(from[l] == i);
                } else if exists|l: int| 0 <= l < k && #[trigger] from[l] == i {
                } else {
                    assert(source.data@[i] == orig.data@[i]);
                }
            }
            model::lemma_bag_empty(source.data@);
            assert(model::bag(transaction.new_table.data@).add(Multiset::<T>::empty())
                =~= model::bag(transaction.new_table.data@));
            let table = transaction.new_table;
            let tags = table.tags();
            assert(tags == self.new_table.tags());
            model::lemma_count_none(tags, Kind::Deleted);
            assert forall|p: int| 0 <= p < table.n() && #[trigger] tags[p] is Full implies {
                &&& tags[p] == Tag::Full(h2(table.hashes@[p]))
                &&& model::placed(tags, table.hashes@[p], p)
            } by {
                assert(self.is_target(p));
                let l = choose|l: int| 0 <= l < self.plan@.len() && (#[trigger] self.plan@[l]).1 == p;
                lemma_settled_fewer(tags, tags, table.hashes@[p], p);
            }
            if table.bucket_mask > 0 {
                assert forall|p: int| 0 <= p < table.n() implies (#[trigger] table.data@[p] is Some
                    <==> tags[p] is Full) by {
                    if tags[p] is Full {
                        assert(self.is_target(p));
                        let l = choose|l: int|
                            0 <= l < self.plan@.len() && (#[trigger] self.plan@[l]).1 == p;
                        assert(from.contains(from[l]));
                        assert(orig.is_full_at(self.plan@[l].0 as int));
                    } else if exists|l: int| 0 <= l < k && (#[trigger] self.plan@[l]).1 == p {
                        let l = choose|l: int| 0 <= l < k && (#[trigger] self.plan@[l]).1 == p;
                        assert(tags[self.plan@[l].1 as int] is Full);
                    }
                }
            }
            assert(table.wf());
        }
        core::mem::swap(source, &mut transaction.new_table);
        // The transaction now holds the memory of the original table.
        transaction.release();
    }

    /// Releases the allocation held by the transaction, without dropping any elements.
    ///
    /// Before `commit` this is the *new* table, and the original table is left
    /// untouched; after the swap in `commit` it is the *old* one.
    pub fn release(&mut self)
        requires
            old(self).new_table.ctrl_wf(),
            old(self).new_table.block_wf(old(self).table_layout),
        ensures
            final(self).new_table.block is None,
            final(self).new_table.bucket_mask == 0,
            final(self).alloc == old(self).alloc,
            final(self).table_layout == old(self).table_layout,
            old(self).new_table.freed(old(self).alloc, old(self).table_layout),
    {
        if !self.new_table.is_empty_singleton() {
            self.new_table.free_buckets(self.alloc, self.table_layout);
        }
    }
}

/// The capacity to which a table grows to make room for `additional` more elements:
/// at least the next size up.
pub open spec fn grown_capacity(items: int, additional: int, n: int) -> int {
    if items + additional > layout::capacity_of(n) + 1 {
        items + additional
    } else {
        layout::capacity_of(n) + 1
    }
}

/// Whether a replacement table of that capacity was allocated, and its block went back to
/// the allocator.
pub open spec fn rolled_back<A: Allocator>(
    alloc: &A,
    capacity: usize,
    table_layout: TableLayout,
) -> bool {
    exists|block: Block, n: int|
        {
            &&& #[trigger] allocator::given_back(alloc, block, table_layout.layout_spec(n))
            &&& allocator::granted(
                alloc,
                table_layout.layout_spec(layout::buckets_for(capacity, table_layout)),
                block,
            )
            &&& storage::fills(
                block,
                table_layout,
                layout::buckets_for(capacity, table_layout),
                n,
            )
        }
}

impl<T> RawTableInner<T> {
    /// Whether making room is a matter of rehashing in place: at most half of the
    /// capacity is needed, so much of it is locked up by deleted buckets.
    pub open spec fn rehash_suffices(&self, additional: usize) -> bool {
        self.items + additional <= layout::capacity_of(self.n()) / 2
    }

    /// Whether the table cannot become as large as making room calls for.
    pub open spec fn reserve_overflows(&self, additional: usize, table_layout: TableLayout) -> bool {
        ||| self.items + additional > usize::MAX
        ||| !self.rehash_suffices(additional) && !storage::capacity_fits(
            grown_capacity(self.items as int, additional as int, self.n()) as usize,
            table_layout,
        )
    }

    /// Whether this table was filled with the elements of another one, in the order of their
    /// buckets there, each going into the slot for its hash.
    pub open spec fn refilled_from(&self, before: &RawTableInner<T>) -> bool {
        exists|entries: Seq<(u64, int)>| #[trigger] self.refilled_by(before, entries)
    }

    /// Whether the elements of another table, in the order of their buckets there, went into
    /// these buckets with these hashes.
    pub open spec fn refilled_by(
        &self,
        before: &RawTableInner<T>,
        entries: Seq<(u64, int)>,
    ) -> bool {
        let from = model::full_indices(before.tags());
        &&& entries.len() == from.len()
        &&& model::fills_in_order(self.n(), entries)
        &&& self.tags() == model::filled(self.n(), entries)
        &&& forall|k: int|
            #![trigger entries[k]]
            0 <= k < entries.len() ==> {
                &&& self.hashes@[entries[k].1] == entries[k].0
                &&& self.data@[entries[k].1] == before.data@[from[k]]
            }
    }

    /// An empty table was filled with the elements of one that has none.
    pub proof fn lemma_refilled_with_nothing(&self, before: &RawTableInner<T>)
        requires
            self.is_cleared(),
            before.wf(),
            before.items == 0,
        ensures
            self.refilled_from(before),
    {
        model::lemma_full_indices_len(before.tags());
        let entries = Seq::<(u64, int)>::empty();
        assert(self.tags() =~= model::filled(self.n(), entries));
        assert(self.refilled_by(before, entries));
    }

    /// Whether the table is what growing another one to a capacity leaves: the same
    /// elements, each with the hash that the hash function returned, in a block that the
    /// allocator granted. The block of the other table went back.
    pub open spec fn resized_from<A: Allocator, F: Fn(&T) -> Option<u64>>(
        &self,
        before: &RawTableInner<T>,
        capacity: usize,
        hasher: &F,
        alloc: &A,
        table_layout: TableLayout,
    ) -> bool {
        &&& self.wf()
        &&& self.block_wf(table_layout)
        &&& self.elements() == before.elements()
        &&& self.items == before.items
        &&& self.growth_left + self.items == layout::capacity_of(self.n())
        &&& self.growth_left + self.items >= capacity
        &&& self.sized_for(alloc, capacity, table_layout)
        &&& self.hashed_by(hasher)
        &&& self.refilled_from(before)
        &&& before.freed(alloc, table_layout)
    }

    /// Allocates a new table of a different size and moves the contents of the
    /// current table into it.
    ///
    /// On any error the table is left untouched.
    pub fn resize_inner<A: Allocator>(
        &mut self,
        alloc: &A,
        capacity: usize,
        hasher: &impl Fn(&T) -> Option<u64>,
        fallibility: Fallibility,
        table_layout: TableLayout,
    ) -> (r: Result<(), GrowthError>)
        requires
            old(self).wf(),
            old(self).block_wf(table_layout),
            old(self).hashable(hasher),
            old(self).items <= capacity,
            fallibility is Infallible ==> storage::capacity_fits(capacity, table_layout) && (
            capacity > 0 ==> alloc.never_refuses()),
        ensures
            r is Ok ==> final(self).resized_from(old(self), capacity, hasher, alloc, table_layout),
            r is Err ==> *final(self) == *old(self),
            r is Ok ==> storage::capacity_fits(capacity, table_layout),
            match r {
                Ok(_) => true,
                Err(GrowthError::Reserve(TryReserveError::CapacityOverflow)) =>
                    !storage::capacity_fits(capacity, table_layout),
                Err(GrowthError::Reserve(TryReserveError::AllocError { layout })) => {
                    &&& capacity > 0
                    &&& storage::capacity_fits(capacity, table_layout)
                    &&& layout == table_layout.layout_spec(
                        layout::buckets_for(capacity, table_layout),
                    )
                    &&& storage::out_of_memory::<T, A>(
                        alloc,
                        table_layout,
                        layout::buckets_for(capacity, table_layout),
                    )
                },
                Err(GrowthError::HashFailed) => {
                    &&& storage::capacity_fits(capacity, table_layout)
                    &&& old(self).hash_gave_up(hasher)
                    &&& capacity > 0 ==> rolled_back(alloc, capacity, table_layout)
                },
            },
            fallibility is Infallible ==> !(r matches Err(GrowthError::Reserve(_))),
    {
        // Allocate the replacement table first. If the allocation fails, the
        // error is returned and the original table is left completely
        // untouched.
        let mut transaction = match GrowthTransaction::begin(
            alloc,
            table_layout,
            capacity,
            fallibility,
        ) {
            Ok(transaction) => transaction,
            Err(error) => return Err(GrowthError::Reserve(error)),
        };
        let ghost begun = transaction.new_table;
        // If the hash function gives up, the transaction is rolled back: the new
        // table's allocation is released and the original table is left untouched.
        let migrated = transaction.migrate(self, hasher);
        if migrated.is_err() {
            transaction.release();
            proof {
                if capacity > 0 {
                    layout::lemma_buckets_for(capacity, table_layout);
                    assert(allocator::given_back(
                        alloc,
                        begun.block->0,
                        table_layout.layout_spec(begun.n()),
                    ));
                }
            }
            return Err(GrowthError::HashFailed);
        }
        let ghost plan = transaction.plan@;
        let ghost new_table = transaction.new_table;
        let ghost planned = transaction;
        let ghost before = *self;
        // The new table is swapped into place and the old allocation is released
        // (without dropping the elements, since they have been moved into the new
        // table).
        transaction.commit(self);
        proof {
            assert(self.n() == begun.n());
            assert(self.refilled_by(&before, planned.entries())) by {
                assert forall|k: int|
                    #![trigger planned.entries()[k]]
                    0 <= k < planned.entries().len() implies self.data@[planned.entries()[k].1]
                    == before.data@[model::full_indices(before.tags())[k]] by {
                    assert(planned.plan@[k].0 == model::full_indices(before.tags())[k]);
                }
            }
            assert(self.sized_for(alloc, capacity, table_layout)) by {
                if capacity == 0 {
                    assert(self.data@.len() == 0);
                }
            }
            assert forall|i: int| #[trigger] self.is_full_at(i) implies call_ensures(
                hasher,
                (&self.data@[i]->0,),
                Some(self.hashes@[i]),
            ) by {
                assert(new_table.tags()[i] is Full);
                assert(planned.is_target(i));
                let k = choose|k: int| 0 <= k < plan.len() && (#[trigger] plan[k]).1 == i;
                assert(planned.plan@[k].1 == i);
            }
        }
        Ok(())
    }

    /// Reserves or rehashes to make room for `additional` more elements.
    ///
    /// On an error the table is left untouched, unless the hash function gives up
    /// during a rehash in place.
    pub fn reserve_rehash_inner<A: Allocator>(
        &mut self,
        alloc: &A,
        additional: usize,
        hasher: &impl Fn(&T) -> Option<u64>,
        fallibility: Fallibility,
        table_layout: TableLayout,
    ) -> (r: Result<(), GrowthError>)
        requires
            old(self).wf(),
            old(self).block_wf(table_layout),
            old(self).hashable(hasher),
            additional > 0 || old(self).bucket_mask > 0,
            fallibility is Infallible ==> !old(self).reserve_overflows(additional, table_layout) && (
            old(self).rehash_suffices(additional) || alloc.never_refuses()),
        ensures
            final(self).wf(),
            final(self).block_wf(table_layout),
            match r {
                Ok(_) => {
                    &&& !old(self).reserve_overflows(additional, table_layout)
                    &&& final(self).growth_left >= additional
                    &&& final(self).elements() == old(self).elements()
                    &&& final(self).items == old(self).items
                    &&& final(self).hashed_by(hasher)
                    &&& if old(self).rehash_suffices(additional) {
                        &&& final(self).n() == old(self).n()
                        &&& final(self).block == old(self).block
                        &&& final(self).rehashed_from(old(self))
                        &&& final(self).growth_left + final(self).items == layout::capacity_of(
                            final(self).n(),
                        )
                    } else {
                        final(self).resized_from(
                            old(self),
                            grown_capacity(
                                old(self).items as int,
                                additional as int,
                                old(self).n(),
                            ) as usize,
                            hasher,
                            alloc,
                            table_layout,
                        )
                    }
                },
                Err(GrowthError::Reserve(TryReserveError::CapacityOverflow)) => {
                    &&& old(self).reserve_overflows(additional, table_layout)
                    &&& *final(self) == *old(self)
                },
                Err(GrowthError::Reserve(TryReserveError::AllocError { layout })) => {
                    &&& !old(self).reserve_overflows(additional, table_layout)
                    &&& !old(self).rehash_suffices(additional)
                    &&& layout == table_layout.layout_spec(
                        layout::buckets_for(
                            grown_capacity(
                                old(self).items as int,
                                additional as int,
                                old(self).n(),
                            ) as usize,
                            table_layout,
                        ),
                    )
                    &&& storage::out_of_memory::<T, A>(
                        alloc,
                        table_layout,
                        layout::buckets_for(
                            grown_capacity(
                                old(self).items as int,
                                additional as int,
                                old(self).n(),
                            ) as usize,
                            table_layout,
                        ),
                    )
                    &&& *final(self) == *old(self)
                },
                Err(GrowthError::HashFailed) => {
                    &&& !old(self).reserve_overflows(additional, table_layout)
                    &&& old(self).hash_gave_up(hasher)
                    &&& if old(self).rehash_suffices(additional) {
                        &&& final(self).n() == old(self).n()
                        &&& final(self).block == old(self).block
                        &&& final(self).reclaimed_from(old(self), hasher)
                        &&& final(self).hashed_by(hasher)
                        &&& final(self).growth_left + final(self).items == layout::capacity_of(
                            final(self).n(),
                        )
                    } else {
                        &&& *final(self) == *old(self)
                        &&& rolled_back(
                            alloc,
                            grown_capacity(
                                old(self).items as int,
                                additional as int,
                                old(self).n(),
                            ) as usize,
                            table_layout,
                        )
                    }
                },
            },
            fallibility is Infallible ==> !(r matches Err(GrowthError::Reserve(_))),
    {
        let new_items: usize = match self.items.checked_add(additional) {
            Some(new_items) => new_items,
            None => return Err(GrowthError::Reserve(fallibility.capacity_overflow())),
        };
        let full_capacity: usize = bucket_mask_to_capacity(self.bucket_mask);
        if new_items <= full_capacity / 2 {
            // Rehash in-place without re-allocating if we have plenty of spare
            // capacity that is locked up due to deleted entries.
            match self.rehash_in_place(hasher) {
                Ok(_) => Ok(()),
                Err(_) => Err(GrowthError::HashFailed),
            }
        } else {
            // Otherwise, conservatively resize to at least the next size up
            // to avoid churning deletes into frequent rehashes.
            let capacity: usize = if new_items > full_capacity + 1 {
                new_items
            } else {
                full_capacity + 1
            };
            self.resize_inner(alloc, capacity, hasher, fallibility, table_layout)
        }
    }
}

} // verus!
