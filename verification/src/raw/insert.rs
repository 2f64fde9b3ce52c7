//! Insertion of elements into a table.
use crate::allocator::Allocator;
use crate::control::{h2, Tag};
use crate::raw::bucket::Bucket;
use crate::raw::layout;
use crate::raw::model;
use crate::raw::storage::RawTableInner;
use crate::raw::table::RawTable;
use vstd::prelude::*;

verus! {

impl<T> RawTableInner<T> {
    /// Whether an element of that hash may be written to bucket `i`: the bucket is not
    /// full, a lookup of the hash reaches it, and the load factor admits it.
    pub open spec fn accepts(&self, hash: u64, i: int) -> bool {
        &&& 0 <= i < self.n()
        &&& !(self.tags()[i] is Full)
        &&& model::placed(self.tags(), hash, i)
        &&& self.tags()[i] == Tag::Empty ==> self.growth_left > 0
    }

    /// Whether the slot for an element of that hash is empty, and filling it would
    /// exceed the load factor.
    pub open spec fn is_out_of_room(&self, hash: u64) -> bool {
        &&& self.growth_left == 0
        &&& forall|i: int| #[trigger]
            model::is_insert_slot(self.tags(), hash, i) ==> self.tags()[i] == Tag::Empty
    }

    /// Checks whether the table has to grow to take an element of that hash.
    ///
    /// We can avoid growing the table once we have reached our load factor if we are replacing
    /// a tombstone. This works since the number of empty slots does not change in this case.
    pub fn out_of_room(&self, hash: u64) -> (r: bool)
        requires
            self.wf(),
        ensures
            r == self.is_out_of_room(hash),
    {
        if self.growth_left > 0 {
            return false;
        }
        proof {
            let e = self.lemma_has_empty();
            assert(!(self.tags()[e] is Full));
        }
        let index: usize = self.find_insert_index(hash);
        proof {
            assert forall|i: int| #[trigger]
                model::is_insert_slot(self.tags(), hash, i) implies i == index by {
                model::lemma_insert_slot_unique(self.tags(), hash, i, index as int);
            }
        }
        self.ctrl(index).special_is_empty()
    }

    /// In a table that need not grow, the slot for a hash accepts an element of it.
    proof fn lemma_slot_accepts(&self, hash: u64, i: int)
        requires
            self.wf(),
            model::is_insert_slot(self.tags(), hash, i),
            !self.is_out_of_room(hash),
        ensures
            self.accepts(hash, i),
    {
        model::lemma_insert_slot_settled(self.tags(), hash, i);
        if self.growth_left == 0 {
            let j = choose|j: int| #[trigger]
                model::is_insert_slot(self.tags(), hash, j) && self.tags()[j] != Tag::Empty;
            model::lemma_insert_slot_unique(self.tags(), hash, i, j);
        }
    }

    /// A table with room has memory.
    pub proof fn lemma_room_is_allocated(&self)
        requires
            self.wf(),
            self.growth_left > 0,
        ensures
            self.bucket_mask > 0,
    {
    }
}

impl<T, A: Allocator> RawTable<T, A> {
    /// Writes an element to a bucket that accepts it.
    fn insert_recorded(&mut self, tag: Tag, index: usize, value: T, Ghost(hash): Ghost<u64>) -> (r:
        Bucket<T>)
        requires
            old(self).wf(),
            old(self).table.accepts(hash, index as int),
            tag == Tag::Full(h2(hash)),
        ensures
            final(self).wf(),
            final(self).alloc == old(self).alloc,
            final(self).table.inserted_from(&old(self).table, index as int, hash, value),
            final(self).is_bucket(&r, index as int),
            final(self).elements() == old(self).elements().insert(value),
    {
        let old_ctrl = self.table.ctrl(index);
        assert(self.table.bucket_mask > 0);
        self.table.record_item_insert_at(index, old_ctrl, tag, Ghost(hash));
        let bucket = self.table.bucket(index);
        bucket.write(&mut self.table, value);
        proof {
            self.table.lemma_inserted_elements(&old(self).table, index as int, hash, value);
        }
        bucket
    }

    /// Inserts a new element into the table at the given index with the given tag,
    /// and returns its raw bucket.
    ///
    /// `index` must be a slot for a hash with that tag, such as one that
    /// `find_or_find_insert_index` returns, or the one that `remove_tagged` freed. The
    /// element counts as inserted with the hash that the bucket had last, if the tag is
    /// that of this hash.
    pub fn insert_tagged_at_index(&mut self, tag: Tag, index: usize, value: T) -> (r: Bucket<T>)
        requires
            old(self).wf(),
            exists|hash: u64| #[trigger]
                old(self).table.accepts(hash, index as int) && tag == Tag::Full(h2(hash)),
        ensures
            final(self).wf(),
            final(self).alloc == old(self).alloc,
            exists|hash: u64|
                {
                    &&& #[trigger] old(self).table.accepts(hash, index as int)
                    &&& tag == Tag::Full(h2(hash))
                    &&& {
                        let last = old(self).table.hashes@[index as int];
                        old(self).table.accepts(last, index as int) && tag == Tag::Full(h2(last))
                            ==> hash == last
                    }
                    &&& final(self).table.inserted_from(
                        &old(self).table,
                        index as int,
                        hash,
                        value,
                    )
                },
            final(self).is_bucket(&r, index as int),
            final(self).elements() == old(self).elements().insert(value),
    {
        let ghost last = self.table.hashes@[index as int];
        let ghost hash = if self.table.accepts(last, index as int) && tag == Tag::Full(h2(last)) {
            last
        } else {
            choose|hash: u64| #[trigger]
                self.table.accepts(hash, index as int) && tag == Tag::Full(h2(hash))
        };
        self.insert_recorded(tag, index, value, Ghost(hash))
    }

    /// Inserts a new element into the table at the given index with the given hash,
    /// and returns its raw bucket.
    ///
    /// `index` must be a slot for the hash, such as one that
    /// `find_or_find_insert_index` returns.
    pub fn insert_at_index(&mut self, hash: u64, index: usize, value: T) -> (r: Bucket<T>)
        requires
            old(self).wf(),
            old(self).table.accepts(hash, index as int),
        ensures
            final(self).wf(),
            final(self).alloc == old(self).alloc,
            final(self).table.inserted_from(&old(self).table, index as int, hash, value),
            final(self).is_bucket(&r, index as int),
            final(self).elements() == old(self).elements().insert(value),
    {
        self.insert_recorded(Tag::full(hash), index, value, Ghost(hash))
    }

    /// What inserting an element leaves: the table, which first makes room if it is
    /// out of it, with the element in the slot for its hash.
    pub open spec fn inserted<F: Fn(&T) -> u64>(
        &self,
        before: &Self,
        i: int,
        hash: u64,
        value: T,
        hasher: &F,
    ) -> bool {
        &&& self.wf()
        &&& self.alloc == before.alloc
        &&& self.holds(i, hash, value)
        &&& self.elements() == before.elements().insert(value)
        &&& exists|grown: RawTableInner<T>|
            {
                &&& if before.table.is_out_of_room(hash) {
                    grown.grown_from(
                        &before.table,
                        1,
                        hasher,
                        &before.alloc,
                        layout::table_layout_of::<T>(),
                    )
                } else {
                    grown == before.table
                }
                &&& grown.wf()
                &&& model::is_insert_slot(grown.tags(), hash, i)
                &&& #[trigger] self.table.inserted_from(&grown, i, hash, value)
            }
    }

    /// Inserts a new element into the table, and returns its raw bucket.
    ///
    /// This does not check if the given element already exists in the table.
    ///
    /// If the hash function may panic, make room with `reserve_rehash` first.
    pub fn insert(&mut self, hash: u64, value: T, hasher: impl Fn(&T) -> u64) -> (r: Bucket<T>)
        requires
            old(self).wf(),
            old(self).table.is_out_of_room(hash) ==> old(self).table.hashable_with(&hasher)
                && old(self).can_grow(1),
        ensures
            exists|i: int| #[trigger]
                final(self).is_bucket(&r, i) && final(self).inserted(
                    old(self),
                    i,
                    hash,
                    value,
                    &hasher,
                ),
    {
        if self.table.out_of_room(hash) {
            self.reserve(1, &hasher);
        }
        proof {
            let e = self.table.lemma_has_empty();
            assert(!(self.table.tags()[e] is Full));
        }
        let index: usize = self.table.find_insert_index(hash);
        let ghost grown = self.table;
        proof {
            self.table.lemma_slot_accepts(hash, index as int);
        }
        let bucket = self.insert_at_index(hash, index, value);
        proof {
            assert(self.is_bucket(&bucket, index as int));
            assert(self.table.inserted_from(&grown, index as int, hash, value));
        }
        bucket
    }

    /// Inserts a new element into the table, and returns a mutable reference to it.
    ///
    /// This does not check if the given element already exists in the table.
    pub fn insert_entry(&mut self, hash: u64, value: T, hasher: impl Fn(&T) -> u64) -> (r: &mut T)
        requires
            old(self).wf(),
            old(self).table.is_out_of_room(hash) ==> old(self).table.hashable_with(&hasher)
                && old(self).can_grow(1),
        ensures
            *r == value,
            final(self).wf(),
            final(self).alloc == old(self).alloc,
            final(self).elements() == old(self).elements().insert(*final(r)),
            exists|i: int| #[trigger]
                final(self).holds(i, hash, *final(r)) && exists|grown: RawTableInner<T>|
                    {
                        &&& if old(self).table.is_out_of_room(hash) {
                            grown.grown_from(
                                &old(self).table,
                                1,
                                &hasher,
                                &old(self).alloc,
                                layout::table_layout_of::<T>(),
                            )
                        } else {
                            grown == old(self).table
                        }
                        &&& grown.wf()
                        &&& model::is_insert_slot(grown.tags(), hash, i)
                        &&& #[trigger] final(self).table.inserted_from(
                            &grown,
                            i,
                            hash,
                            *final(r),
                        )
                    },
    {
        let bucket = self.insert(hash, value, hasher);
        let ghost i = choose|i: int| #[trigger]
            self.is_bucket(&bucket, i) && self.inserted(old(self), i, hash, value, &hasher);
        let ghost mid = *self;
        let r = bucket.as_mut(&mut self.table);
        proof {
            lemma_bag_replace(mid.table.data@, i, *final(r));
            broadcast use vstd::multiset::group_multiset_axioms;

            assert(old(self).elements().insert(value).remove(value) =~= old(self).elements());
            let grown = choose|grown: RawTableInner<T>|
                {
                    &&& if old(self).table.is_out_of_room(hash) {
                        grown.grown_from(
                            &old(self).table,
                            1,
                            &hasher,
                            &old(self).alloc,
                            layout::table_layout_of::<T>(),
                        )
                    } else {
                        grown == old(self).table
                    }
                    &&& grown.wf()
                    &&& model::is_insert_slot(grown.tags(), hash, i)
                    &&& #[trigger] mid.table.inserted_from(&grown, i, hash, value)
                };
            assert(mid.table.data@.update(i, Some(*final(r))) =~= grown.data@.update(
                i,
                Some(*final(r)),
            ));
            assert(after_borrow(self).holds(i, hash, *final(r)));
            assert(after_borrow(self).table.inserted_from(&grown, i, hash, *final(r)));
        }
        r
    }

    /// Inserts a new element into the table, without growing the table.
    ///
    /// There must be enough space in the table to insert the new element.
    ///
    /// This does not check if the given element already exists in the table.
    pub fn insert_no_grow(&mut self, hash: u64, value: T) -> (r: Bucket<T>)
        requires
            old(self).wf(),
            !old(self).table.is_out_of_room(hash),
        ensures
            final(self).wf(),
            final(self).alloc == old(self).alloc,
            exists|i: int|
                {
                    &&& #[trigger] model::is_insert_slot(old(self).table.tags(), hash, i)
                    &&& final(self).is_bucket(&r, i)
                    &&& final(self).table.inserted_from(&old(self).table, i, hash, value)
                },
            final(self).elements() == old(self).elements().insert(value),
    {
        proof {
            let e = self.table.lemma_has_empty();
            assert(!(self.table.tags()[e] is Full));
        }
        let index: usize = self.table.find_insert_index(hash);
        proof {
            self.table.lemma_slot_accepts(hash, index as int);
        }
        self.insert_at_index(hash, index, value)
    }

    /// Searches for an element in the table. If the element is not found,
    /// returns `Err` with the position of a slot where an element with the
    /// same hash could be inserted.
    ///
    /// This function may resize the table if additional space is required for
    /// inserting an element. If the hash function may panic, make room with
    /// `reserve_rehash` first.
    pub fn find_or_find_insert_index(
        &mut self,
        hash: u64,
        eq: impl Fn(&T) -> bool,
        hasher: impl Fn(&T) -> u64,
    ) -> (r: Result<Bucket<T>, usize>)
        requires
            old(self).wf(),
            forall|v: T| #[trigger] old(self).elements().contains(v) ==> call_requires(&eq, (&v,)),
            old(self).table.growth_left == 0 ==> old(self).table.hashable_with(&hasher) && old(self).can_grow(1),
        ensures
            final(self).wf(),
            final(self).alloc == old(self).alloc,
            final(self).elements() == old(self).elements(),
            final(self).table.growth_left >= 1,
            if old(self).table.growth_left >= 1 {
                *final(self) == *old(self)
            } else {
                final(self).table.grown_from(
                    &old(self).table,
                    1,
                    &hasher,
                    &old(self).alloc,
                    layout::table_layout_of::<T>(),
                )
            },
            match r {
                Ok(bucket) => exists|i: int| #[trigger]
                    final(self).is_bucket(&bucket, i) && final(self).table.picks(hash, &eq, i),
                Err(index) => {
                    &&& final(self).table.picks_none(hash, &eq)
                    &&& model::is_insert_slot(final(self).table.tags(), hash, index as int)
                    &&& final(self).table.accepts(hash, index as int)
                },
            },
    {
        self.reserve(1, &hasher);
        proof {
            self.table.lemma_room_is_allocated();
            assert forall|i: int| #[trigger]
                model::is_candidate(self.table.tags(), hash, i) implies call_requires(
                &eq,
                (&self.table.data@[i]->0,),
            ) by {
                model::lemma_bag_take(self.table.data@, i);
                assert(old(self).elements().contains(self.table.data@[i]->0));
            }
        }
        match self.table.find_entry_or_slot(hash, &eq) {
            Ok(index) => {
                let bucket = self.bucket(index);
                assert(self.is_bucket(&bucket, index as int));
                Ok(bucket)
            },
            Err(index) => {
                proof {
                    model::lemma_insert_slot_settled(self.table.tags(), hash, index as int);
                }
                Err(index)
            },
        }
    }

    /// Temporarily removes a bucket, applying the given function to the removed
    /// element and optionally put back the returned value in the same bucket.
    ///
    /// Returns tag for bucket if the bucket is emptied out.
    pub fn replace_bucket_with<F: FnOnce(T) -> Option<T>>(&mut self, bucket: Bucket<T>, f: F) -> (r:
        Option<Tag>)
        requires
            old(self).wf(),
            exists|i: int| #[trigger]
                old(self).is_bucket(&bucket, i) && old(self).table.is_full_at(i),
            forall|i: int| #[trigger]
                old(self).is_bucket(&bucket, i) ==> call_requires(
                    f,
                    (old(self).table.data@[i]->0,),
                ),
        ensures
            final(self).wf(),
            final(self).alloc == old(self).alloc,
            exists|i: int|
                {
                    &&& #[trigger] old(self).is_bucket(&bucket, i)
                    &&& match r {
                        None => exists|value: T|
                            {
                                &&& #[trigger] call_ensures(
                                    f,
                                    (old(self).table.data@[i]->0,),
                                    Some(value),
                                )
                                &&& final(self).table.data@ == old(self).table.data@.update(i, Some(value))
                                &&& final(self).table.tags() == old(self).table.tags()
                                &&& final(self).table.hashes == old(self).table.hashes
                                &&& final(self).table.items == old(self).table.items
                                &&& final(self).table.growth_left == old(self).table.growth_left
                                &&& final(self).table.bucket_mask == old(self).table.bucket_mask
                                &&& final(self).table.block == old(self).table.block
                                &&& final(self).table.ctrl_offset == old(self).table.ctrl_offset
                            },
                        Some(tag) => {
                            &&& call_ensures(f, (old(self).table.data@[i]->0,), None)
                            &&& tag == old(self).table.tags()[i]
                            &&& final(self).table.erased_from(&old(self).table, i)
                        },
                    }
                },
    {
        let index: usize = self.bucket_index(&bucket);
        let old_ctrl = self.table.ctrl(index);
        let old_growth_left: usize = self.table.growth_left;
        let (item, _) = self.remove(bucket);
        let ghost emptied = *self;
        assert(old(self).is_bucket(&bucket, index as int));
        match f(item) {
            Some(new_item) => {
                self.table.growth_left = old_growth_left;
                self.table.set_ctrl(index, old_ctrl);
                self.table.items = self.table.items + 1;
                let bucket = self.table.bucket(index);
                bucket.write(&mut self.table, new_item);
                proof {
                    assert(self.table.tags() =~= old(self).table.tags());
                    assert(self.table.data@ =~= old(self).table.data@.update(
                        index as int,
                        Some(new_item),
                    ));
                }
                None
            },
            None => Some(old_ctrl),
        }
    }
}

/// Overwriting an element replaces it in what is held.
proof fn lemma_bag_replace<T>(data: Seq<Option<T>>, i: int, value: T)
    requires
        0 <= i < data.len(),
        data[i] is Some,
    ensures
        model::bag(data.update(i, Some(value))) == model::bag(data).remove(data[i]->0).insert(value),
{
    model::lemma_bag_take(data, i);
    model::lemma_bag_put(data.update(i, None), i, value);
    assert(data.update(i, None).update(i, Some(value)) =~= data.update(i, Some(value)));
}

} // verus!
