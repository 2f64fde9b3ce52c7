//! Iterators that take the elements out of a table.
use crate::allocator;
use crate::allocator::{Allocator, Block, Global, Layout};
use crate::raw::iter::RawIter;
use crate::raw::layout;
use crate::raw::model;
use crate::raw::storage::RawTableInner;
use crate::raw::table::RawTable;
use core::marker::PhantomData;
use vstd::prelude::*;

verus! {

/// The elements of the buckets at these indices.
pub open spec fn elements_at<T>(data: Seq<Option<T>>, indices: Seq<int>) -> Seq<T> {
    indices.map_values(|i: int| data[i]->0)
}

/// Whether an iterator over a table goes on to occupied buckets only.
pub open spec fn is_source<T>(table: &RawTableInner<T>, iter: &RawIter<T>) -> bool {
    &&& table.data_room()
    &&& iter.wf(table.tags())
    &&& forall|j: int| #[trigger]
        iter.remaining(table.tags()).contains(j) ==> 0 <= j < table.n() && table.data@[j] is Some
    &&& forall|a: int, b: int|
        0 <= a < b < iter.remaining(table.tags()).len() ==> #[trigger] iter.remaining(
            table.tags(),
        )[a] < #[trigger] iter.remaining(table.tags())[b]
}

/// An iterator over all full buckets of a table goes on to occupied buckets only.
proof fn lemma_is_source<T>(table: &RawTableInner<T>, iter: &RawIter<T>)
    requires
        table.wf(),
        table.data_room(),
        iter.wf(table.tags()),
    ensures
        is_source(table, iter),
{
    let tags = table.tags();
    model::lemma_filter_members(|j: int| iter.iter.pending(tags, j), 0, tags.len() as int);
    assert forall|j: int| #[trigger] iter.remaining(tags).contains(j) implies 0 <= j < table.n()
        && table.data@[j] is Some by {
        assert(iter.iter.pending(tags, j));
        assert(tags[j] is Full) by {
            if j < iter.iter.next_ctrl {
                assert(iter.iter.current_group.0.bit(j - iter.iter.data));
            }
        }
    }
}

/// Takes the next element out of its bucket.
fn take_next<T>(table: &mut RawTableInner<T>, iter: &mut RawIter<T>) -> (r: Option<T>)
    requires
        is_source(old(table), old(iter)),
    ensures
        is_source(final(table), final(iter)),
        final(table).same_but_data(old(table)),
        final(table).data@.len() == old(table).data@.len(),
        match r {
            Some(value) => {
                let all = elements_at(
                    old(table).data@,
                    old(iter).remaining(old(table).tags()),
                );
                &&& all.len() > 0
                &&& value == all[0]
                &&& elements_at(final(table).data@, final(iter).remaining(old(table).tags()))
                    == all.drop_first()
                &&& final(table).data@ == old(table).data@.update(
                    old(iter).remaining(old(table).tags())[0],
                    None,
                )
                &&& old(table).data@[old(iter).remaining(old(table).tags())[0]] == Some(value)
                &&& final(iter).remaining(old(table).tags()) == old(iter).remaining(
                    old(table).tags(),
                ).drop_first()
            },
            None => {
                &&& old(iter).remaining(old(table).tags()).len() == 0
                &&& *final(iter) == *old(iter)
                &&& *final(table) == *old(table)
            },
        },
{
    let ghost tags = table.tags();
    let ghost indices = iter.remaining(tags);
    match iter.next(table) {
        Some(item) => {
            proof {
                assert(indices.contains(indices[0]));
                assert(item.is_at(table.ctrl_offset as int, indices[0]));
                assert(table.bucket_mask > 0);
            }
            let value = item.read(table);
            proof {
                let rest = iter.remaining(tags);
                assert(table.tags() == tags);
                assert(elements_at(table.data@, rest) =~= elements_at(
                    old(table).data@,
                    indices,
                ).drop_first()) by {
                    assert forall|k: int| 0 <= k < rest.len() implies #[trigger] elements_at(
                        table.data@,
                        rest,
                    )[k] == elements_at(old(table).data@, indices).drop_first()[k] by {
                        assert(rest[k] == indices[k + 1]);
                        assert(indices[0] < indices[k + 1]);
                        assert(indices.contains(indices[k + 1]));
                    }
                }
                assert forall|j: int| #[trigger] rest.contains(j) implies 0 <= j < table.n()
                    && table.data@[j] is Some by {
                    let k = rest.index_of(j);
                    assert(indices[k + 1] == j);
                    assert(indices.contains(j));
                    assert(indices[0] < indices[k + 1]);
                }
                assert forall|a: int, b: int| 0 <= a < b < rest.len() implies #[trigger] rest[a]
                    < #[trigger] rest[b] by {
                    assert(rest[a] == indices[a + 1]);
                    assert(rest[b] == indices[b + 1]);
                }
            }
            Some(value)
        },
        None => None,
    }
}

/// Iterator which consumes a table and returns elements.
pub struct RawIntoIter<T, A: Allocator = Global> {
    pub iter: RawIter<T>,
    /// The buckets of the table, without its block.
    pub table: RawTableInner<T>,
    /// The memory of the table.
    pub allocation: Option<(Block, Layout, A)>,
}

impl<T, A: Allocator> RawIntoIter<T, A> {
    /// The elements that are still to be returned, in order.
    pub open spec fn remaining(&self) -> Seq<T> {
        elements_at(self.table.data@, self.iter.remaining(self.table.tags()))
    }

    /// Whether the iterator has the elements that it has to return, and can give the
    /// memory of the table back.
    pub open spec fn wf(&self) -> bool {
        &&& is_source(&self.table, &self.iter)
        &&& self.allocation matches Some((block, layout, alloc)) ==> block.fits(layout)
            && allocator::granted(&alloc, block.requested_spec(), block)
    }

    /// Returns an iterator over the buckets of the elements that are still to be
    /// returned.
    pub fn iter(&self) -> (r: RawIter<T>)
        ensures
            r == self.iter,
    {
        self.iter.clone()
    }

    /// Returns the next element.
    pub fn next(&mut self) -> (r: Option<T>)
        requires
            old(self).wf(),
        ensures
            final(self).wf(),
            final(self).allocation == old(self).allocation,
            match r {
                Some(value) => {
                    &&& old(self).remaining().len() > 0
                    &&& value == old(self).remaining()[0]
                    &&& final(self).remaining() == old(self).remaining().drop_first()
                },
                None => old(self).remaining().len() == 0 && *final(self) == *old(self),
            },
    {
        take_next(&mut self.table, &mut self.iter)
    }

    /// Returns the bounds on the number of elements that are still to be returned.
    pub fn size_hint(&self) -> (r: (usize, Option<usize>))
        requires
            self.wf(),
        ensures
            r == (self.iter.items, Some(self.iter.items)),
            r.0 == self.remaining().len(),
    {
        self.iter.size_hint()
    }

    /// Drops all remaining elements and gives the memory of the table back.
    pub fn drop(&mut self)
        requires
            old(self).wf(),
        ensures
            final(self).wf(),
            final(self).allocation is None,
            final(self).remaining().len() == 0,
            old(self).allocation matches Some((block, layout, alloc)) ==> allocator::given_back(
                &alloc,
                block,
                layout,
            ),
    {
        // Drop all remaining elements
        self.iter.drop_elements(&mut self.table);
        // Free the table
        if let Some((block, layout, alloc)) = self.allocation.take() {
            alloc.deallocate(block, layout);
        }
    }
}

impl<T, A: Allocator> Default for RawIntoIter<T, A> {
    fn default() -> (r: Self)
        ensures
            r.wf(),
            r.allocation is None,
            r.remaining().len() == 0,
    {
        let table: RawTableInner<T> = RawTableInner::new();
        let iter = table.iter();
        proof {
            lemma_is_source(&table, &iter);
        }
        RawIntoIter { iter, table, allocation: None }
    }
}

/// Iterator which consumes elements without freeing the table storage.
///
/// The table is moved into the iterator for the duration of the drain. This
/// ensures that an empty table is left if the drain iterator is leaked.
pub struct RawDrain<'a, T, A: Allocator = Global> {
    pub iter: RawIter<T>,
    pub table: RawTableInner<T>,
    pub orig_table: &'a mut RawTableInner<T>,
    pub marker: PhantomData<A>,
}

impl<'a, T, A: Allocator> RawDrain<'a, T, A> {
    /// The elements that are still to be returned, in order.
    pub open spec fn remaining(&self) -> Seq<T> {
        elements_at(self.table.data@, self.iter.remaining(self.table.tags()))
    }

    /// Whether the iterator has the elements that it has to return.
    pub open spec fn wf(&self) -> bool {
        is_source(&self.table, &self.iter)
    }

    /// Returns an iterator over the buckets of the elements that are still to be
    /// returned.
    pub fn iter(&self) -> (r: RawIter<T>)
        ensures
            r == self.iter,
    {
        self.iter.clone()
    }

    /// Returns the next element.
    pub fn next(&mut self) -> (r: Option<T>)
        requires
            old(self).wf(),
        ensures
            final(self).wf(),
            final(self).table.same_but_data(&old(self).table),
            *final(self).orig_table == *old(self).orig_table,
            *final(final(self).orig_table) == *final(old(self).orig_table),
            match r {
                Some(value) => {
                    &&& old(self).remaining().len() > 0
                    &&& value == old(self).remaining()[0]
                    &&& final(self).remaining() == old(self).remaining().drop_first()
                },
                None => {
                    &&& old(self).remaining().len() == 0
                    &&& final(self).remaining().len() == 0
                },
            },
    {
        take_next(&mut self.table, &mut self.iter)
    }

    /// Returns the bounds on the number of elements that are still to be returned.
    pub fn size_hint(&self) -> (r: (usize, Option<usize>))
        requires
            self.wf(),
        ensures
            r == (self.iter.items, Some(self.iter.items)),
            r.0 == self.remaining().len(),
    {
        self.iter.size_hint()
    }

    /// Drops all remaining elements and moves the table, now empty, back to where it
    /// came from.
    pub fn drop(self)
        requires
            self.wf(),
        ensures
            final(self.orig_table).is_cleared(),
            final(self.orig_table).bucket_mask == self.table.bucket_mask,
            final(self.orig_table).block == self.table.block,
            final(self.orig_table).ctrl_offset == self.table.ctrl_offset,
    {
        let mut drain = self;
        // Drop all remaining elements.
        drain.iter.drop_elements(&mut drain.table);
        // Reset the contents of the table now that all elements have been
        // dropped.
        drain.table.clear_no_drop();
        // Move the now empty table back to its original location.
        *drain.orig_table = drain.table;
    }
}

impl<T, A: Allocator> RawTable<T, A> {
    /// Returns an iterator over every element in the table.
    pub fn iter(&self) -> (r: RawIter<T>)
        requires
            self.wf(),
        ensures
            r.wf(self.table.tags()),
            r.items == self.table.items,
            r.remaining(self.table.tags()) == model::full_indices(self.table.tags()),
    {
        self.table.iter()
    }

    /// Returns an iterator which consumes all elements from the table.
    ///
    /// Iteration starts at the provided iterator's current location, which has to
    /// cover all items that remain in the table.
    pub fn into_iter_from(self, iter: RawIter<T>) -> (r: RawIntoIter<T, A>)
        requires
            self.wf(),
            iter.wf(self.table.tags()),
            iter.items == self.table.items,
        ensures
            r.wf(),
            r.iter == iter,
            r.remaining() == elements_at(
                self.table.data@,
                iter.remaining(self.table.tags()),
            ),
            r.allocation is Some <==> self.table.bucket_mask > 0,
            r.allocation matches Some((block, layout, alloc)) ==> {
                &&& self.table.block == Some(block)
                &&& layout == layout::table_layout_of::<T>().layout_spec(self.table.n())
                &&& alloc == self.alloc
            },
    {
        proof {
            lemma_is_source(&self.table, &iter);
        }
        let (table, allocation) = self.into_parts();
        RawIntoIter { iter, table, allocation }
    }

    /// Returns an iterator which consumes all elements from the table.
    pub fn into_iter(self) -> (r: RawIntoIter<T, A>)
        requires
            self.wf(),
        ensures
            r.wf(),
            r.remaining() == elements_at(
                self.table.data@,
                model::full_indices(self.table.tags()),
            ),
            r.allocation is Some <==> self.table.bucket_mask > 0,
            r.allocation matches Some((block, layout, alloc)) ==> {
                &&& self.table.block == Some(block)
                &&& layout == layout::table_layout_of::<T>().layout_spec(self.table.n())
                &&& alloc == self.alloc
            },
    {
        let iter = self.iter();
        self.into_iter_from(iter)
    }

    /// Returns an iterator which removes all elements from the table without
    /// freeing the memory.
    ///
    /// Iteration starts at the provided iterator's current location, which has to
    /// cover all items that remain in the table.
    pub fn drain_iter_from(&mut self, iter: RawIter<T>) -> (r: RawDrain<'_, T, A>)
        requires
            old(self).wf(),
            iter.wf(old(self).table.tags()),
            iter.items == old(self).table.items,
        ensures
            r.wf(),
            r.iter == iter,
            r.table == old(self).table,
            r.remaining() == elements_at(
                old(self).table.data@,
                iter.remaining(old(self).table.tags()),
            ),
            (*r.orig_table).is_new(),
            *final(r.orig_table) == final(self).table,
            final(self).alloc == old(self).alloc,
    {
        proof {
            lemma_is_source(&self.table, &iter);
        }
        let mut table = RawTableInner::new();
        core::mem::swap(&mut self.table, &mut table);
        RawDrain { iter, table, orig_table: &mut self.table, marker: PhantomData }
    }

    /// Returns an iterator which removes all elements from the table without
    /// freeing the memory.
    pub fn drain(&mut self) -> (r: RawDrain<'_, T, A>)
        requires
            old(self).wf(),
        ensures
            r.wf(),
            r.table == old(self).table,
            r.remaining() == elements_at(
                old(self).table.data@,
                model::full_indices(old(self).table.tags()),
            ),
            (*r.orig_table).is_new(),
            *final(r.orig_table) == final(self).table,
            final(self).alloc == old(self).alloc,
    {
        let iter = self.iter();
        self.drain_iter_from(iter)
    }
}

} // verus!
