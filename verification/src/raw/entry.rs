//! Lookup and removal of the elements of a table.
use crate::allocator::Allocator;
use crate::control::{h2, Tag};
use crate::raw::bucket::Bucket;
use crate::raw::model;
use crate::raw::storage;
use crate::raw::storage::RawTableInner;
use crate::raw::table::RawTable;
use vstd::prelude::*;

verus! {

impl<T> RawTableInner<T> {
    /// Whether `eq` may be asked for every element that a lookup of `hash` compares.
    pub open spec fn askable<F: Fn(&T) -> bool>(&self, hash: u64, eq: &F) -> bool {
        forall|i: int| #[trigger]
            model::is_candidate(self.tags(), hash, i) ==> call_requires(eq, (&self.data@[i]->0,))
    }

    /// Whether a lookup of `hash` picks bucket `i`: `eq` accepts the element there, and
    /// rejects the elements of all buckets that the lookup compares before.
    pub open spec fn picks<F: Fn(&T) -> bool>(&self, hash: u64, eq: &F, i: int) -> bool {
        &&& model::is_candidate(self.tags(), hash, i)
        &&& call_ensures(eq, (&self.data@[i]->0,), true)
        &&& forall|j: int| #[trigger]
            model::is_candidate(self.tags(), hash, j) && model::rank(hash, self.n(), j)
                < model::rank(hash, self.n(), i) ==> call_ensures(
                eq,
                (&self.data@[j]->0,),
                false,
            )
    }

    /// Whether a lookup of `hash` picks nothing: `eq` rejects every element that it
    /// compares.
    pub open spec fn picks_none<F: Fn(&T) -> bool>(&self, hash: u64, eq: &F) -> bool {
        forall|j: int| #[trigger]
            model::is_candidate(self.tags(), hash, j) ==> call_ensures(
                eq,
                (&self.data@[j]->0,),
                false,
            )
    }

    /// Whether this table comes from another one by inserting an element at bucket `i`.
    pub open spec fn inserted_from(&self, before: &Self, i: int, hash: u64, value: T) -> bool {
        &&& self.bucket_mask == before.bucket_mask
        &&& self.block == before.block
        &&& self.ctrl_offset == before.ctrl_offset
        &&& self.tags() == before.tags().update(i, Tag::Full(h2(hash)))
        &&& self.hashes@ == before.hashes@.update(i, hash)
        &&& self.data@ == before.data@.update(i, Some(value))
        &&& self.items == before.items + 1
        &&& self.growth_left == before.growth_left - if before.tags()[i] == Tag::Empty {
            1int
        } else {
            0
        }
    }

    /// Whether this table comes from another one by erasing the element at bucket `i`.
    pub open spec fn erased_from(&self, before: &Self, i: int) -> bool {
        &&& self.bucket_mask == before.bucket_mask
        &&& self.block == before.block
        &&& self.ctrl_offset == before.ctrl_offset
        &&& self.tags() == before.tags().update(
            i,
            if storage::in_full_run(before.tags(), i) {
                Tag::Deleted
            } else {
                Tag::Empty
            },
        )
        &&& self.hashes == before.hashes
        &&& self.data@ == before.data@.update(i, None)
        &&& self.items == before.items - 1
        &&& self.growth_left == before.growth_left + if storage::in_full_run(before.tags(), i) {
            0int
        } else {
            1
        }
    }

    /// An element that was inserted with a hash is compared by every lookup of it.
    pub proof fn lemma_entry_is_candidate(&self, i: int, hash: u64, value: T)
        requires
            self.wf(),
            self.holds(i, hash, value),
        ensures
            model::is_candidate(self.tags(), hash, i),
    {
    }

    /// Inserting an element adds it to the elements of the table.
    pub proof fn lemma_inserted_elements(&self, before: &Self, i: int, hash: u64, value: T)
        requires
            before.wf(),
            before.bucket_mask > 0,
            0 <= i < before.n(),
            !(before.tags()[i] is Full),
            self.inserted_from(before, i, hash, value),
        ensures
            self.elements() == before.elements().insert(value),
    {
        model::lemma_bag_put(before.data@, i, value);
    }

    /// Erasing an element takes it from the elements of the table.
    pub proof fn lemma_erased_elements(&self, before: &Self, i: int)
        requires
            before.wf(),
            before.is_full_at(i),
            self.erased_from(before, i),
        ensures
            before.elements() == self.elements().insert(before.data@[i]->0),
            self.elements() == before.elements().remove(before.data@[i]->0),
            before.elements().contains(before.data@[i]->0),
    {
        model::lemma_bag_take(before.data@, i);
    }

    /// Looks up an element, returning the index of its bucket.
    pub fn find_entry(&self, hash: u64, eq: &impl Fn(&T) -> bool) -> (r: Option<usize>)
        requires
            self.wf(),
            self.askable(hash, eq),
        ensures
            match r {
                Some(i) => self.picks(hash, eq, i as int),
                None => self.picks_none(hash, eq),
            },
    {
        let ghost e = self.lemma_has_empty();
        assert(self.tags()[e] == Tag::Empty);
        let ask = |index: usize| -> (b: bool)
            requires
                self.wf(),
                model::is_candidate(self.tags(), hash, index as int),
                call_requires(eq, (&self.data@[index as int]->0,)),
            ensures
                call_ensures(eq, (&self.data@[index as int]->0,), b),
            { eq(self.data[index].as_ref().unwrap()) };
        let r = self.find_inner(hash, &ask);
        proof {
            let n = self.n();
            assert forall|j: int| #[trigger] model::is_candidate(self.tags(), hash, j) implies
                model::is_candidate(self.tags(), hash, (j as usize) as int) && (j as usize) == j by {}
        }
        r
    }

    /// Looks up an element, returning the index of its bucket, or of the bucket where it
    /// may be inserted.
    pub fn find_entry_or_slot(&self, hash: u64, eq: &impl Fn(&T) -> bool) -> (r: Result<
        usize,
        usize,
    >)
        requires
            self.wf(),
            self.askable(hash, eq),
        ensures
            match r {
                Ok(i) => self.picks(hash, eq, i as int),
                Err(i) => self.picks_none(hash, eq) && model::is_insert_slot(
                    self.tags(),
                    hash,
                    i as int,
                ),
            },
    {
        let ghost e = self.lemma_has_empty();
        assert(self.tags()[e] == Tag::Empty);
        let ask = |index: usize| -> (b: bool)
            requires
                self.wf(),
                model::is_candidate(self.tags(), hash, index as int),
                call_requires(eq, (&self.data@[index as int]->0,)),
            ensures
                call_ensures(eq, (&self.data@[index as int]->0,), b),
            { eq(self.data[index].as_ref().unwrap()) };
        let r = self.find_or_find_insert_index_inner(hash, &ask);
        proof {
            assert forall|j: int| #[trigger] model::is_candidate(self.tags(), hash, j) implies
                model::is_candidate(self.tags(), hash, (j as usize) as int) && (j as usize) == j by {}
        }
        r
    }
}

impl<T, A: Allocator> RawTable<T, A> {
    /// Searches for an element in the table.
    pub fn find(&self, hash: u64, eq: impl Fn(&T) -> bool) -> (r: Option<Bucket<T>>)
        requires
            self.wf(),
            self.table.askable(hash, &eq),
        ensures
            match r {
                Some(bucket) => exists|i: int| #[trigger]
                    self.is_bucket(&bucket, i) && self.table.picks(hash, &eq, i),
                None => self.table.picks_none(hash, &eq),
            },
    {
        match self.table.find_entry(hash, &eq) {
            Some(index) => {
                let bucket = self.bucket(index);
                assert(self.is_bucket(&bucket, index as int));
                Some(bucket)
            },
            None => None,
        }
    }

    /// Gets a reference to an element in the table.
    pub fn get(&self, hash: u64, eq: impl Fn(&T) -> bool) -> (r: Option<&T>)
        requires
            self.wf(),
            self.table.askable(hash, &eq),
        ensures
            match r {
                Some(value) => exists|i: int| #[trigger]
                    self.table.picks(hash, &eq, i) && self.table.data@[i] == Some(*value),
                None => self.table.picks_none(hash, &eq),
            },
    {
        match self.table.find_entry(hash, &eq) {
            Some(index) => {
                assert(self.table.picks(hash, &eq, index as int));
                self.table.data[index].as_ref()
            },
            None => None,
        }
    }

    /// Gets a mutable reference to an element in the table.
    pub fn get_mut(&mut self, hash: u64, eq: impl Fn(&T) -> bool) -> (r: Option<&mut T>)
        requires
            old(self).wf(),
            old(self).table.askable(hash, &eq),
        ensures
            final(self).wf(),
            final(self).alloc == old(self).alloc,
            final(self).table.same_but_data(&old(self).table),
            match r {
                Some(value) => exists|i: int|
                    {
                        &&& #[trigger] old(self).table.picks(hash, &eq, i)
                        &&& old(self).table.data@[i] == Some(*value)
                        &&& final(self).table.data@ == old(self).table.data@.update(
                            i,
                            Some(*final(value)),
                        )
                    },
                None => {
                    &&& old(self).table.picks_none(hash, &eq)
                    &&& final(self).table.data@ == old(self).table.data@
                },
            },
    {
        match self.table.find_entry(hash, &eq) {
            Some(index) => {
                assert(old(self).table.picks(hash, &eq, index as int));
                self.table.data[index].as_mut()
            },
            None => None,
        }
    }

    /// Gets a reference to an element in the table at the given bucket index.
    pub fn get_bucket(&self, index: usize) -> (r: Option<&T>)
        requires
            self.wf(),
        ensures
            r is Some <==> self.table.is_full_at(index as int),
            r matches Some(value) ==> self.table.data@[index as int] == Some(*value),
    {
        if index < self.num_buckets() && self.is_bucket_full(index) {
            self.table.data[index].as_ref()
        } else {
            None
        }
    }

    /// Gets a mutable reference to an element in the table at the given bucket index.
    pub fn get_bucket_mut(&mut self, index: usize) -> (r: Option<&mut T>)
        requires
            old(self).wf(),
        ensures
            final(self).wf(),
            final(self).alloc == old(self).alloc,
            final(self).table.same_but_data(&old(self).table),
            r is Some <==> old(self).table.is_full_at(index as int),
            match r {
                Some(value) => {
                    &&& old(self).table.data@[index as int] == Some(*value)
                    &&& final(self).table.data@ == old(self).table.data@.update(
                        index as int,
                        Some(*final(value)),
                    )
                },
                None => final(self).table.data@ == old(self).table.data@,
            },
    {
        if index < self.num_buckets() && self.is_bucket_full(index) {
            self.table.data[index].as_mut()
        } else {
            None
        }
    }

    /// Returns the bucket at an index, but only after verifying that
    /// the index is in-bounds and the bucket is occupied.
    pub fn checked_bucket(&self, index: usize) -> (r: Option<Bucket<T>>)
        requires
            self.wf(),
        ensures
            r is Some <==> self.table.is_full_at(index as int),
            r matches Some(bucket) ==> self.is_bucket(&bucket, index as int),
    {
        if index < self.num_buckets() && self.is_bucket_full(index) {
            Some(self.bucket(index))
        } else {
            None
        }
    }

    /// Erases an element from the table without dropping it. The caller has to take
    /// the element out of its bucket.
    fn erase_no_drop(&mut self, item: &Bucket<T>)
        requires
            old(self).wf(),
            exists|i: int| #[trigger]
                old(self).is_bucket(item, i) && old(self).table.is_full_at(i),
        ensures
            final(self).alloc == old(self).alloc,
            final(self).table.sound(),
            final(self).table.data_room(),
            forall|i: int| #[trigger]
                old(self).is_bucket(item, i) ==> {
                    &&& final(self).table.same_but_ctrl(&old(self).table)
                    &&& final(self).table.hashes == old(self).table.hashes
                    &&& final(self).table.items == old(self).table.items - 1
                    &&& final(self).table.tags() == old(self).table.tags().update(
                        i,
                        if storage::in_full_run(old(self).table.tags(), i) {
                            Tag::Deleted
                        } else {
                            Tag::Empty
                        },
                    )
                    &&& final(self).table.growth_left == old(self).table.growth_left
                        + if storage::in_full_run(old(self).table.tags(), i) {
                        0int
                    } else {
                        1
                    }
                },
    {
        let index: usize = self.bucket_index(item);
        self.table.erase(index);
    }

    /// Erases an element from the table, dropping it in place.
    pub fn erase(&mut self, item: Bucket<T>)
        requires
            old(self).wf(),
            exists|i: int| #[trigger]
                old(self).is_bucket(&item, i) && old(self).table.is_full_at(i),
        ensures
            final(self).wf(),
            final(self).alloc == old(self).alloc,
            forall|i: int| #[trigger]
                old(self).is_bucket(&item, i) ==> {
                    &&& final(self).table.erased_from(&old(self).table, i)
                    &&& old(self).elements() == final(self).elements().insert(
                        old(self).table.data@[i]->0,
                    )
                },
    {
        let ghost i = choose|i: int| #[trigger]
            self.is_bucket(&item, i) && self.table.is_full_at(i);
        // Erase the element from the table first since drop might panic.
        self.erase_no_drop(&item);
        assert(item.is_at(self.table.ctrl_offset as int, i));
        item.drop(&mut self.table);
        proof {
            self.lemma_removed(old(self), &item, i);
        }
    }

    /// A table whose element was erased and taken out is well-formed.
    proof fn lemma_removed(&self, before: &Self, item: &Bucket<T>, i: int)
        requires
            before.wf(),
            before.is_bucket(item, i),
            before.table.is_full_at(i),
            self.alloc == before.alloc,
            self.table.erased_from(&before.table, i),
            self.table.sound(),
        ensures
            self.wf(),
            before.elements() == self.elements().insert(before.table.data@[i]->0),
            forall|j: int| #[trigger] before.is_bucket(item, j) ==> j == i,
    {
        self.table.lemma_erased_elements(&before.table, i);
        assert forall|j: int| #[trigger] before.is_bucket(item, j) implies j == i by {
            before.lemma_bucket_unique(item, i, j);
        }
    }

    /// Removes an element from the table, returning it.
    ///
    /// This also returns an index to the newly free bucket.
    pub fn remove(&mut self, item: Bucket<T>) -> (r: (T, usize))
        requires
            old(self).wf(),
            exists|i: int| #[trigger]
                old(self).is_bucket(&item, i) && old(self).table.is_full_at(i),
        ensures
            final(self).wf(),
            final(self).alloc == old(self).alloc,
            old(self).is_bucket(&item, r.1 as int),
            old(self).table.data@[r.1 as int] == Some(r.0),
            final(self).table.erased_from(&old(self).table, r.1 as int),
            old(self).elements() == final(self).elements().insert(r.0),
    {
        let (value, index, _) = self.remove_tagged(item);
        (value, index)
    }

    /// Removes an element from the table, returning it.
    ///
    /// This also returns an index to the newly free bucket
    /// and the former `Tag` for that bucket.
    pub fn remove_tagged(&mut self, item: Bucket<T>) -> (r: (T, usize, Tag))
        requires
            old(self).wf(),
            exists|i: int| #[trigger]
                old(self).is_bucket(&item, i) && old(self).table.is_full_at(i),
        ensures
            final(self).wf(),
            final(self).alloc == old(self).alloc,
            old(self).is_bucket(&item, r.1 as int),
            old(self).table.data@[r.1 as int] == Some(r.0),
            old(self).table.tags()[r.1 as int] == r.2,
            final(self).table.erased_from(&old(self).table, r.1 as int),
            old(self).elements() == final(self).elements().insert(r.0),
    {
        let index: usize = self.bucket_index(&item);
        let tag = self.table.ctrl(index);
        self.table.erase(index);
        assert(item.is_at(self.table.ctrl_offset as int, index as int));
        let value = item.read(&mut self.table);
        proof {
            self.lemma_removed(old(self), &item, index as int);
        }
        (value, index, tag)
    }

    /// Finds and removes an element from the table, returning it.
    pub fn remove_entry(&mut self, hash: u64, eq: impl Fn(&T) -> bool) -> (r: Option<T>)
        requires
            old(self).wf(),
            old(self).table.askable(hash, &eq),
        ensures
            final(self).wf(),
            final(self).alloc == old(self).alloc,
            match r {
                Some(value) => {
                    &&& exists|i: int|
                        {
                            &&& #[trigger] old(self).table.picks(hash, &eq, i)
                            &&& old(self).table.data@[i] == Some(value)
                            &&& final(self).table.erased_from(&old(self).table, i)
                        }
                    &&& old(self).elements() == final(self).elements().insert(value)
                },
                None => {
                    &&& old(self).table.picks_none(hash, &eq)
                    &&& *final(self) == *old(self)
                },
            },
    {
        match self.table.find_entry(hash, &eq) {
            Some(index) => {
                let bucket = self.bucket(index);
                assert(self.is_bucket(&bucket, index as int));
                assert(old(self).table.picks(hash, &eq, index as int));
                let (value, removed) = self.remove(bucket);
                proof {
                    self.lemma_removed(old(self), &bucket, removed as int);
                }
                Some(value)
            },
            None => None,
        }
    }
}

} // verus!
