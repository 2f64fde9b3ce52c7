//! Clearing, cloning and dropping tables.
use crate::allocator;
use crate::allocator::{Allocator, Block, Layout, TryReserveError};
use crate::raw::layout;
use crate::raw::layout::{Fallibility, TableLayout};
use crate::raw::model;
use crate::raw::storage;
use crate::raw::storage::RawTableInner;
use crate::raw::table::RawTable;
use vstd::multiset::Multiset;
use vstd::prelude::*;

verus! {

impl<T, A: Allocator> RawTable<T, A> {
    /// Marks all table buckets as empty without dropping their contents.
    pub fn clear_no_drop(&mut self)
        requires
            old(self).wf(),
        ensures
            final(self).wf(),
            final(self).alloc == old(self).alloc,
            final(self).table.is_cleared(),
            final(self).table.n() == old(self).table.n(),
            final(self).table.block == old(self).table.block,
            final(self).elements() == Multiset::<T>::empty(),
    {
        self.table.clear_no_drop();
    }

    /// Removes all elements from the table without freeing the backing memory.
    ///
    /// If dropping an element panics, the table is left empty.
    pub fn clear(&mut self)
        requires
            old(self).wf(),
        ensures
            final(self).wf(),
            final(self).alloc == old(self).alloc,
            final(self).elements() == Multiset::<T>::empty(),
            final(self).table.items == 0,
            if old(self).table.items == 0 {
                *final(self) == *old(self)
            } else {
                &&& final(self).table.is_cleared()
                &&& final(self).table.n() == old(self).table.n()
                &&& final(self).table.block == old(self).table.block
            },
    {
        if self.is_empty() {
            // Special case empty table to avoid surprising O(capacity) time.
            proof {
                self.lemma_no_items_no_elements();
            }
            return;
        }
        // The table is empty before the elements are dropped, so it is empty even if that
        // panics.
        storage::drop_all(self.table.take_elements());
    }

    /// Drops the elements of the table and gives its memory back, leaving a table
    /// without memory.
    pub fn drop(&mut self)
        requires
            old(self).wf(),
        ensures
            final(self).wf(),
            final(self).alloc == old(self).alloc,
            final(self).table.bucket_mask == 0,
            final(self).elements() == Multiset::<T>::empty(),
            old(self).table.freed(&old(self).alloc, layout::table_layout_of::<T>()),
    {
        let table_layout = TableLayout::new::<T>();
        self.table.drop_inner_table(&self.alloc, table_layout);
        proof {
            model::lemma_bag_empty(self.table.data@);
            self.table.lemma_data_room();
        }
    }

    /// Converts the table into its storage without a block, and its block with the
    /// layout and the allocator to give it back.
    pub(crate) fn into_parts(self) -> (r: (RawTableInner<T>, Option<(Block, Layout, A)>))
        requires
            self.wf(),
        ensures
            r.0.block is None,
            r.0.bucket_mask == self.table.bucket_mask,
            r.0.ctrl == self.table.ctrl,
            r.0.data == self.table.data,
            r.0.growth_left == self.table.growth_left,
            r.0.items == self.table.items,
            r.0.ctrl_offset == self.table.ctrl_offset,
            r.0.hashes == self.table.hashes,
            r.1 is Some <==> self.table.bucket_mask > 0,
            r.1 matches Some((block, layout, alloc)) ==> {
                &&& self.table.block == Some(block)
                &&& layout == layout::table_layout_of::<T>().layout_spec(self.table.n())
                &&& block.fits(layout)
                &&& alloc == self.alloc
                &&& allocator::granted(&alloc, block.requested_spec(), block)
            },
    {
        let mut table = self.table;
        if table.is_empty_singleton() {
            (table, None)
        } else {
            let layout = table.allocation_info(TableLayout::new::<T>()).1;
            let block = table.block.take().unwrap();
            (table, Some((block, layout, self.alloc)))
        }
    }

    /// Converts the table into a raw allocation, without dropping its contents.
    pub fn into_allocation(self) -> (r: Option<(Block, Layout, A)>)
        requires
            self.wf(),
        ensures
            r is Some <==> self.table.bucket_mask > 0,
            r matches Some((block, layout, alloc)) ==> {
                &&& self.table.block == Some(block)
                &&& layout == layout::table_layout_of::<T>().layout_spec(self.table.n())
                &&& block.fits(layout)
                &&& alloc == self.alloc
                &&& allocator::granted(&alloc, block.requested_spec(), block)
            },
    {
        let (table, allocation) = self.into_parts();
        storage::forget_entries(table.data);
        allocation
    }
}

impl<T, A: Allocator + Default> Default for RawTable<T, A> {
    fn default() -> (r: Self)
        ensures
            r.wf(),
            r.table.is_new(),
            call_ensures(A::default, (), r.alloc),
    {
        Self::new_in(A::default())
    }
}

impl<T: Clone> RawTableInner<T> {
    /// Whether this table has the same control bytes as another one, and clones of
    /// its elements, each in the same bucket and with the same hash.
    pub open spec fn cloned_from(&self, source: &Self) -> bool {
        &&& self.bucket_mask == source.bucket_mask
        &&& self.ctrl@ == source.ctrl@
        &&& self.tags() == source.tags()
        &&& self.hashes == source.hashes
        &&& self.items == source.items
        &&& self.growth_left == source.growth_left
        &&& clones_of(self.data@, source.data@)
    }
}

/// Whether the elements of one table are clones of those of another.
pub open spec fn clones_of<T: Clone>(data: Seq<Option<T>>, source: Seq<Option<T>>) -> bool {
    &&& data.len() == source.len()
    &&& forall|i: int|
        #![trigger data[i]]
        #![trigger source[i]]
        0 <= i < source.len() ==> match (data[i], source[i]) {
            (Some(copy), Some(value)) => cloned(value, copy),
            (None, None) => true,
            _ => false,
        }
}

/// Clones that equal what they are clones of make up the same elements.
pub proof fn lemma_clones_same_elements<T: Clone>(data: Seq<Option<T>>, source: Seq<Option<T>>)
    requires
        clones_of(data, source),
        forall|v: T, w: T| #[trigger] cloned(v, w) ==> v == w,
    ensures
        model::bag(data) == model::bag(source),
{
    assert(data =~= source);
}

impl<T: Clone, A: Allocator + Clone> RawTable<T, A> {
    /// Clones the elements of another table, bucket by bucket.
    fn clone_data(source: &Self) -> (r: Vec<Option<T>>)
        requires
            source.wf(),
            source.table.bucket_mask > 0,
        ensures
            clones_of(r@, source.table.data@),
    {
        let buckets: usize = source.num_buckets();
        let mut data: Vec<Option<T>> = Vec::new();
        let mut i: usize = 0;
        while i < buckets
            invariant
                i <= buckets,
                buckets == source.table.data@.len(),
                data@.len() == i,
                forall|j: int|
                    0 <= j < i ==> match (#[trigger] data@[j], source.table.data@[j]) {
                        (Some(copy), Some(value)) => cloned(value, copy),
                        (None, None) => true,
                        _ => false,
                    },
            decreases buckets - i,
        {
            match &source.table.data[i] {
                Some(value) => {
                    let copy = value.clone();
                    data.push(Some(copy));
                },
                None => {
                    data.push(None);
                },
            }
            i = i + 1;
        }
        data
    }

    /// Common code for `clone` and `clone_from`: makes a table that holds nothing, and
    /// has as many buckets, a clone of another one.
    ///
    /// The elements are cloned before anything changes, so if that panics, the table
    /// still holds nothing.
    pub fn clone_from_impl(&mut self, source: &Self)
        requires
            source.wf(),
            source.table.bucket_mask > 0,
            old(self).wf(),
            old(self).table.is_cleared(),
            old(self).table.n() == source.table.n(),
        ensures
            final(self).wf(),
            final(self).alloc == old(self).alloc,
            final(self).table.block == old(self).table.block,
            final(self).table.cloned_from(&source.table),
    {
        let data = Self::clone_data(source);
        // Copy the control bytes unchanged.
        let num_ctrl_bytes: usize = self.table.num_ctrl_bytes();
        let ghost before = self.table;
        let mut i: usize = 0;
        while i < num_ctrl_bytes
            invariant
                i <= num_ctrl_bytes,
                num_ctrl_bytes == self.table.ctrl@.len(),
                num_ctrl_bytes == source.table.ctrl@.len(),
                self.alloc == old(self).alloc,
                self.table.same_but_ctrl(&before),
                forall|j: int|
                    0 <= j < i ==> #[trigger] self.table.ctrl@[j] == source.table.ctrl@[j],
            decreases num_ctrl_bytes - i,
        {
            self.table.ctrl[i] = source.table.ctrl[i];
            i = i + 1;
        }
        self.table.data = data;
        self.table.items = source.table.items;
        self.table.growth_left = source.table.growth_left;
        self.table.hashes = Ghost(source.table.hashes@);
        proof {
            assert(self.table.ctrl@ =~= source.table.ctrl@);
            assert(self.table.tags() =~= source.table.tags());
        }
    }

    /// Copies a table: each element is cloned into the same bucket of a new table with
    /// as many buckets.
    pub fn clone(&self) -> (r: Self)
        requires
            self.wf(),
            self.table.bucket_mask > 0 ==> forall|a: A| #[trigger]
                cloned(self.alloc, a) ==> a.never_refuses(),
        ensures
            r.wf(),
            cloned(self.alloc, r.alloc),
            self.table.bucket_mask == 0 ==> r.table.is_new(),
            self.table.bucket_mask > 0 ==> r.table.cloned_from(&self.table),
    {
        let alloc = self.alloc.clone();
        assert(cloned(self.alloc, alloc));
        if self.table.is_empty_singleton() {
            Self::new_in(alloc)
        } else {
            let table = RawTableInner::new_exact(
                &alloc,
                TableLayout::new::<T>(),
                self.num_buckets(),
                Fallibility::Infallible,
            ).unwrap();
            proof {
                table.lemma_data_room();
            }
            let mut new_table = RawTable { table, alloc };
            new_table.clone_from_impl(self);
            new_table
        }
    }

    /// Makes this table a copy of another one, reusing its memory if it has as many
    /// buckets.
    ///
    /// The elements of this table are dropped first. If there is no memory for the copy, or
    /// if dropping or cloning an element panics, the table is left empty.
    pub fn try_clone_from(&mut self, source: &Self, fallibility: Fallibility) -> (r: Result<
        (),
        TryReserveError,
    >)
        requires
            old(self).wf(),
            source.wf(),
            source.table.bucket_mask > 0 && source.table.n() != old(self).table.n() && fallibility is Infallible
                ==> old(self).alloc.never_refuses(),
        ensures
            final(self).wf(),
            final(self).alloc == old(self).alloc,
            match r {
                Ok(_) => final(self).replaced_by(old(self), source),
                Err(error) => {
                    &&& fallibility is Fallible
                    &&& source.table.bucket_mask > 0
                    &&& source.table.n() != old(self).table.n()
                    &&& error == (TryReserveError::AllocError {
                        layout: layout::table_layout_of::<T>().layout_spec(source.table.n()),
                    })
                    &&& storage::out_of_memory_exact::<T, A>(
                        &old(self).alloc,
                        layout::table_layout_of::<T>(),
                        source.table.n(),
                    )
                    &&& final(self).table.is_cleared()
                    &&& final(self).table.n() == old(self).table.n()
                    &&& final(self).table.block == old(self).table.block
                },
            },
    {
        let table_layout = TableLayout::new::<T>();
        if source.table.is_empty_singleton() {
            let mut old_inner = RawTableInner::new();
            core::mem::swap(&mut self.table, &mut old_inner);
            old_inner.drop_inner_table(&self.alloc, table_layout);
            proof {
                self.table.lemma_data_room();
            }
        } else {
            // The table is empty before its elements are dropped, so it is empty even if
            // that panics.
            storage::drop_all(self.table.take_elements());
            // If necessary, resize our table to match the source.
            if self.num_buckets() != source.num_buckets() {
                let mut old_inner = match RawTableInner::new_exact(
                    &self.alloc,
                    table_layout,
                    source.num_buckets(),
                    fallibility,
                ) {
                    Ok(new_inner) => new_inner,
                    Err(error) => return Err(error),
                };
                core::mem::swap(&mut self.table, &mut old_inner);
                if !old_inner.is_empty_singleton() {
                    old_inner.free_buckets(&self.alloc, table_layout);
                }
                proof {
                    self.table.lemma_data_room();
                }
            }
            self.clone_from_impl(source);
        }
        Ok(())
    }

    /// Whether this table comes from another one by making it a copy of `source`. Unless the
    /// block of the other one is used again, it went back to the allocator.
    pub open spec fn replaced_by(&self, before: &Self, source: &Self) -> bool {
        &&& if source.table.bucket_mask == 0 {
            self.table.is_new()
        } else {
            self.table.cloned_from(&source.table)
        }
        &&& if source.table.bucket_mask > 0 && source.table.n() == before.table.n() {
            self.table.block == before.table.block
        } else {
            before.table.freed(&before.alloc, layout::table_layout_of::<T>())
        }
    }

    /// Makes this table a copy of another one, reusing its memory if it has as many
    /// buckets.
    ///
    /// The elements of this table are dropped first. If dropping or cloning an element
    /// panics, the table is left empty.
    pub fn clone_from(&mut self, source: &Self)
        requires
            old(self).wf(),
            source.wf(),
            source.table.bucket_mask > 0 && source.table.n() != old(self).table.n() ==> old(self).alloc.never_refuses(),
        ensures
            final(self).wf(),
            final(self).alloc == old(self).alloc,
            final(self).replaced_by(old(self), source),
    {
        let _result = self.try_clone_from(source, Fallibility::Infallible);
    }
}

} // verus!
