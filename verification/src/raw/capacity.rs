//! Making room in a table, and giving room back.
use crate::allocator::{Allocator, Layout, TryReserveError};
use crate::raw::growth;
use crate::raw::growth::GrowthError;
use crate::raw::layout;
use crate::raw::layout::{capacity_to_buckets, Fallibility, TableLayout};
use crate::raw::storage;
use crate::raw::storage::RawTableInner;
use crate::raw::table::RawTable;
use vstd::multiset::Multiset;
use vstd::prelude::*;

verus! {

impl<T> RawTableInner<T> {
    /// Whether the hash of every element is what the hash function returned for it.
    pub open spec fn hashed_with<F: Fn(&T) -> u64>(&self, hasher: &F) -> bool {
        forall|i: int| #[trigger]
            self.is_full_at(i) ==> call_ensures(hasher, (&self.data@[i]->0,), self.hashes@[i])
    }

    /// Whether the hash function may be called on every element of the table.
    pub open spec fn hashable_with<F: Fn(&T) -> u64>(&self, hasher: &F) -> bool {
        forall|v: T| #[trigger] self.elements().contains(v) ==> call_requires(hasher, (&v,))
    }

    /// Whether this table comes from another one by making room for more elements,
    /// which had no room. If it takes another block, that of the other table went back to
    /// the allocator.
    pub open spec fn grown_from<A: Allocator, F: Fn(&T) -> u64>(
        &self,
        before: &Self,
        additional: usize,
        hasher: &F,
        alloc: &A,
        table_layout: TableLayout,
    ) -> bool {
        &&& self.elements() == before.elements()
        &&& self.items == before.items
        &&& self.hashed_with(hasher)
        &&& self.growth_left >= additional
        &&& self.growth_left + self.items == layout::capacity_of(self.n())
        &&& if before.rehash_suffices(additional) {
            &&& self.n() == before.n()
            &&& self.block == before.block
            &&& self.rehashed_from(before)
        } else {
            &&& self.sized_for(
                alloc,
                growth::grown_capacity(
                    before.items as int,
                    additional as int,
                    before.n(),
                ) as usize,
                table_layout,
            )
            &&& self.refilled_from(before)
            &&& before.freed(alloc, table_layout)
        }
    }
}

impl<T, A: Allocator> RawTable<T, A> {
    /// Whether making room cannot fail: the table does not become too large, and the
    /// allocator refuses nothing that is asked of it.
    pub open spec fn can_grow(&self, additional: usize) -> bool {
        &&& !self.table.reserve_overflows(additional, layout::table_layout_of::<T>())
        &&& self.table.rehash_suffices(additional) || self.alloc.never_refuses()
    }

    /// Out-of-line slow path for `reserve` and `try_reserve`.
    ///
    /// The hash function returns `None` to give up. The table is left untouched then,
    /// unless it was being rehashed in place, in which case the elements that had not
    /// been rehashed are dropped.
    pub fn reserve_rehash(
        &mut self,
        additional: usize,
        hasher: &impl Fn(&T) -> Option<u64>,
        fallibility: Fallibility,
    ) -> (r: Result<(), GrowthError>)
        requires
            old(self).wf(),
            old(self).table.hashable(hasher),
            additional > 0 || old(self).table.bucket_mask > 0,
            fallibility is Infallible ==> old(self).can_grow(additional),
        ensures
            final(self).wf(),
            final(self).alloc == old(self).alloc,
            match r {
                Ok(_) => {
                    &&& !old(self).table.reserve_overflows(
                        additional,
                        layout::table_layout_of::<T>(),
                    )
                    &&& final(self).table.growth_left >= additional
                    &&& final(self).elements() == old(self).elements()
                    &&& final(self).table.items == old(self).table.items
                    &&& final(self).table.hashed_by(hasher)
                    &&& final(self).table.growth_left + final(self).table.items
                        == layout::capacity_of(final(self).table.n())
                    &&& if old(self).table.rehash_suffices(additional) {
                        &&& final(self).table.n() == old(self).table.n()
                        &&& final(self).table.block == old(self).table.block
                        &&& final(self).table.rehashed_from(&old(self).table)
                    } else {
                        &&& final(self).table.sized_for(
                            &old(self).alloc,
                            growth::grown_capacity(
                                old(self).table.items as int,
                                additional as int,
                                old(self).table.n(),
                            ) as usize,
                            layout::table_layout_of::<T>(),
                        )
                        &&& final(self).table.refilled_from(&old(self).table)
                        &&& old(self).table.freed(
                            &old(self).alloc,
                            layout::table_layout_of::<T>(),
                        )
                    }
                },
                Err(GrowthError::Reserve(TryReserveError::CapacityOverflow)) => {
                    &&& old(self).table.reserve_overflows(
                        additional,
                        layout::table_layout_of::<T>(),
                    )
                    &&& *final(self) == *old(self)
                },
                Err(GrowthError::Reserve(TryReserveError::AllocError { layout })) => {
                    &&& old(self).refused_layout(additional, layout)
                    &&& *final(self) == *old(self)
                },
                Err(GrowthError::HashFailed) => {
                    &&& !old(self).table.reserve_overflows(
                        additional,
                        layout::table_layout_of::<T>(),
                    )
                    &&& old(self).table.hash_gave_up(hasher)
                    &&& if old(self).table.rehash_suffices(additional) {
                        &&& final(self).table.n() == old(self).table.n()
                        &&& final(self).table.block == old(self).table.block
                        &&& final(self).table.reclaimed_from(&old(self).table, hasher)
                        &&& final(self).table.hashed_by(hasher)
                        &&& final(self).table.growth_left + final(self).table.items
                            == layout::capacity_of(final(self).table.n())
                    } else {
                        &&& *final(self) == *old(self)
                        &&& growth::rolled_back(
                            &old(self).alloc,
                            growth::grown_capacity(
                                old(self).table.items as int,
                                additional as int,
                                old(self).table.n(),
                            ) as usize,
                            layout::table_layout_of::<T>(),
                        )
                    }
                },
            },
            fallibility is Infallible ==> !(r matches Err(GrowthError::Reserve(_))),
    {
        let table_layout = TableLayout::new::<T>();
        let r = self.table.reserve_rehash_inner(
            &self.alloc,
            additional,
            hasher,
            fallibility,
            table_layout,
        );
        proof {
            self.table.lemma_data_room();
        }
        r
    }

    /// Whether this is the layout of the table that making room asks the allocator for,
    /// and there is no memory for that table.
    pub open spec fn refused_layout(&self, additional: usize, layout: Layout) -> bool {
        let table_layout = layout::table_layout_of::<T>();
        let capacity = growth::grown_capacity(
            self.table.items as int,
            additional as int,
            self.table.n(),
        );
        let buckets = layout::buckets_for(capacity as usize, table_layout);
        &&& !self.table.reserve_overflows(additional, table_layout)
        &&& !self.table.rehash_suffices(additional)
        &&& layout == table_layout.layout_spec(buckets)
        &&& storage::out_of_memory::<T, A>(&self.alloc, table_layout, buckets)
    }

    /// Ensures that at least `additional` items can be inserted into the table
    /// without reallocation.
    ///
    /// A hash function that may panic goes to `reserve_rehash`, where it can give up.
    pub fn reserve(&mut self, additional: usize, hasher: impl Fn(&T) -> u64)
        requires
            old(self).wf(),
            additional > old(self).table.growth_left ==> old(self).table.hashable_with(&hasher)
                && old(self).can_grow(additional),
        ensures
            final(self).wf(),
            final(self).alloc == old(self).alloc,
            final(self).table.growth_left >= additional,
            final(self).elements() == old(self).elements(),
            if additional <= old(self).table.growth_left {
                *final(self) == *old(self)
            } else {
                final(self).table.grown_from(
                    &old(self).table,
                    additional,
                    &hasher,
                    &old(self).alloc,
                    layout::table_layout_of::<T>(),
                )
            },
    {
        if additional > self.table.growth_left {
            let h = &hasher;
            let total = |v: &T| -> (hash: Option<u64>)
                requires
                    call_requires(h, (v,)),
                ensures
                    hash is Some,
                    call_ensures(h, (v,), hash->0),
                { Some(h(v)) };
            let _result = self.reserve_rehash(additional, &total, Fallibility::Infallible);
            proof {
                assert(_result is Ok);
                assert forall|i: int| #[trigger] self.table.is_full_at(i) implies call_ensures(
                    &hasher,
                    (&self.table.data@[i]->0,),
                    self.table.hashes@[i],
                ) by {
                    assert(call_ensures(
                        &total,
                        (&self.table.data@[i]->0,),
                        Some(self.table.hashes@[i]),
                    ));
                }
            }
        }
    }

    /// Tries to ensure that at least `additional` items can be inserted into
    /// the table without reallocation.
    ///
    /// On an error the table is left untouched. A hash function that may panic goes to
    /// `reserve_rehash`, where it can give up.
    pub fn try_reserve(&mut self, additional: usize, hasher: impl Fn(&T) -> u64) -> (r: Result<
        (),
        TryReserveError,
    >)
        requires
            old(self).wf(),
            additional > old(self).table.growth_left ==> old(self).table.hashable_with(&hasher),
        ensures
            final(self).wf(),
            final(self).alloc == old(self).alloc,
            match r {
                Ok(_) => {
                    &&& final(self).table.growth_left >= additional
                    &&& final(self).elements() == old(self).elements()
                    &&& if additional <= old(self).table.growth_left {
                        *final(self) == *old(self)
                    } else {
                        &&& !old(self).table.reserve_overflows(
                            additional,
                            layout::table_layout_of::<T>(),
                        )
                        &&& final(self).table.grown_from(
                            &old(self).table,
                            additional,
                            &hasher,
                            &old(self).alloc,
                            layout::table_layout_of::<T>(),
                        )
                    }
                },
                Err(TryReserveError::CapacityOverflow) => {
                    &&& additional > old(self).table.growth_left
                    &&& old(self).table.reserve_overflows(
                        additional,
                        layout::table_layout_of::<T>(),
                    )
                    &&& *final(self) == *old(self)
                },
                Err(TryReserveError::AllocError { layout }) => {
                    &&& additional > old(self).table.growth_left
                    &&& old(self).refused_layout(additional, layout)
                    &&& *final(self) == *old(self)
                },
            },
    {
        if additional > self.table.growth_left {
            let h = &hasher;
            let total = |v: &T| -> (hash: Option<u64>)
                requires
                    call_requires(h, (v,)),
                ensures
                    hash is Some,
                    call_ensures(h, (v,), hash->0),
                { Some(h(v)) };
            match self.reserve_rehash(additional, &total, Fallibility::Fallible) {
                Ok(_) => {
                    proof {
                        assert forall|i: int| #[trigger] self.table.is_full_at(
                            i,
                        ) implies call_ensures(
                            &hasher,
                            (&self.table.data@[i]->0,),
                            self.table.hashes@[i],
                        ) by {
                            assert(call_ensures(
                                &total,
                                (&self.table.data@[i]->0,),
                                Some(self.table.hashes@[i]),
                            ));
                        }
                    }
                    Ok(())
                },
                Err(GrowthError::Reserve(error)) => Err(error),
                Err(GrowthError::HashFailed) => {
                    assert(false);
                    Ok(())
                },
            }
        } else {
            Ok(())
        }
    }

    /// Allocates a new table of a different size and moves the contents of the
    /// current table into it.
    ///
    /// The hash function returns `None` to give up. On any error the table is left
    /// untouched.
    pub fn resize(
        &mut self,
        capacity: usize,
        hasher: &impl Fn(&T) -> Option<u64>,
        fallibility: Fallibility,
    ) -> (r: Result<(), GrowthError>)
        requires
            old(self).wf(),
            old(self).table.hashable(hasher),
            old(self).table.items <= capacity,
            fallibility is Infallible ==> storage::capacity_fits(
                capacity,
                layout::table_layout_of::<T>(),
            ) && (capacity > 0 ==> old(self).alloc.never_refuses()),
        ensures
            final(self).wf(),
            final(self).alloc == old(self).alloc,
            r is Ok ==> final(self).table.resized_from(
                &old(self).table,
                capacity,
                hasher,
                &old(self).alloc,
                layout::table_layout_of::<T>(),
            ),
            r is Err ==> *final(self) == *old(self),
            match r {
                Ok(_) => storage::capacity_fits(capacity, layout::table_layout_of::<T>()),
                Err(GrowthError::Reserve(TryReserveError::CapacityOverflow)) =>
                    !storage::capacity_fits(capacity, layout::table_layout_of::<T>()),
                Err(GrowthError::Reserve(TryReserveError::AllocError { layout })) => {
                    &&& capacity > 0
                    &&& storage::capacity_fits(capacity, layout::table_layout_of::<T>())
                    &&& layout == layout::table_layout_of::<T>().layout_spec(
                        layout::buckets_for(capacity, layout::table_layout_of::<T>()),
                    )
                    &&& storage::out_of_memory::<T, A>(
                        &old(self).alloc,
                        layout::table_layout_of::<T>(),
                        layout::buckets_for(capacity, layout::table_layout_of::<T>()),
                    )
                },
                Err(GrowthError::HashFailed) => {
                    &&& storage::capacity_fits(capacity, layout::table_layout_of::<T>())
                    &&& old(self).table.hash_gave_up(hasher)
                    &&& capacity > 0 ==> growth::rolled_back(
                        &old(self).alloc,
                        capacity,
                        layout::table_layout_of::<T>(),
                    )
                },
            },
            fallibility is Infallible ==> !(r matches Err(GrowthError::Reserve(_))),
    {
        let table_layout = TableLayout::new::<T>();
        let r = self.table.resize_inner(
            &self.alloc,
            capacity,
            hasher,
            fallibility,
            table_layout,
        );
        proof {
            self.table.lemma_data_room();
        }
        r
    }

    /// The number of elements that a table shrunk to `min_size` has room for.
    pub open spec fn shrink_size(&self, min_size: usize) -> usize {
        if self.table.items > min_size {
            self.table.items
        } else {
            min_size
        }
    }

    /// Whether fewer buckets are enough for that many elements.
    pub open spec fn shrinks_to(&self, size: usize) -> bool {
        &&& size < 15 || size * 8 <= usize::MAX
        &&& size > 0 ==> layout::buckets_for(size, layout::table_layout_of::<T>()) < self.table.n()
    }

    /// Whether this table has the buckets that shrinking to that many elements leaves.
    pub open spec fn shrunk_to(&self, size: usize) -> bool {
        &&& self.table.sized_for(&self.alloc, size, layout::table_layout_of::<T>())
        &&& self.table.growth_left + self.table.items == layout::capacity_of(self.table.n())
        &&& self.table.growth_left + self.table.items >= size
    }

    /// Shrinks the table to fit `max(self.len(), min_size)` elements.
    ///
    /// The hash function returns `None` to give up. On any error the table is left
    /// untouched.
    pub fn shrink_rehash(
        &mut self,
        min_size: usize,
        hasher: &impl Fn(&T) -> Option<u64>,
        fallibility: Fallibility,
    ) -> (r: Result<(), GrowthError>)
        requires
            old(self).wf(),
            old(self).shrink_size(min_size) > 0 && old(self).shrinks_to(
                old(self).shrink_size(min_size),
            ) ==> old(self).table.hashable(hasher) && (fallibility is Infallible ==> old(self).alloc.never_refuses()),
        ensures
            final(self).wf(),
            final(self).alloc == old(self).alloc,
            final(self).elements() == old(self).elements(),
            final(self).table.items == old(self).table.items,
            ({
                let size = old(self).shrink_size(min_size);
                match r {
                    Ok(_) => if size == 0 {
                        &&& final(self).table.is_new()
                        &&& old(self).table.freed(
                            &old(self).alloc,
                            layout::table_layout_of::<T>(),
                        )
                    } else if old(self).shrinks_to(size) {
                        &&& final(self).shrunk_to(size)
                        &&& final(self).table.hashed_by(hasher)
                        &&& final(self).table.refilled_from(&old(self).table)
                        &&& old(self).table.freed(
                            &old(self).alloc,
                            layout::table_layout_of::<T>(),
                        )
                    } else {
                        *final(self) == *old(self)
                    },
                    Err(GrowthError::Reserve(TryReserveError::CapacityOverflow)) => false,
                    Err(GrowthError::Reserve(TryReserveError::AllocError { layout })) => {
                        &&& size > 0
                        &&& old(self).shrinks_to(size)
                        &&& layout == layout::table_layout_of::<T>().layout_spec(
                            layout::buckets_for(size, layout::table_layout_of::<T>()),
                        )
                        &&& storage::out_of_memory::<T, A>(
                            &old(self).alloc,
                            layout::table_layout_of::<T>(),
                            layout::buckets_for(size, layout::table_layout_of::<T>()),
                        )
                        &&& *final(self) == *old(self)
                    },
                    Err(GrowthError::HashFailed) => {
                        &&& size > 0
                        &&& old(self).shrinks_to(size)
                        &&& old(self).table.hash_gave_up(hasher)
                        &&& growth::rolled_back(
                            &old(self).alloc,
                            size,
                            layout::table_layout_of::<T>(),
                        )
                        &&& *final(self) == *old(self)
                    },
                }
            }),
            fallibility is Infallible ==> !(r matches Err(GrowthError::Reserve(_))),
    {
        let table_layout = TableLayout::new::<T>();
        // Calculate the minimal number of elements that we need to reserve
        // space for.
        let min_size: usize = if self.table.items > min_size {
            self.table.items
        } else {
            min_size
        };
        if min_size == 0 {
            let mut old_inner = RawTableInner::new();
            core::mem::swap(&mut self.table, &mut old_inner);
            old_inner.drop_inner_table(&self.alloc, table_layout);
            proof {
                old(self).lemma_no_items_no_elements();
                self.table.lemma_data_room();
            }
            return Ok(());
        }
        // Calculate the number of buckets that we need for this number of
        // elements. If the calculation overflows then the requested bucket
        // count must be larger than what we have right and nothing needs to be
        // done.
        let min_buckets: usize = match capacity_to_buckets(min_size, table_layout) {
            Some(min_buckets) => min_buckets,
            None => return Ok(()),
        };
        // If we have more buckets than we need, shrink the table.
        if min_buckets < self.num_buckets() {
            proof {
                // A smaller table than one that was allocated can be allocated.
                layout::lemma_len_monotone(table_layout, min_buckets as int, self.table.n());
                layout::lemma_buckets_for(min_size, table_layout);
            }
            // Fast path if the table is empty
            if self.table.items == 0 {
                let mut old_inner = match RawTableInner::fallible_with_capacity(
                    &self.alloc,
                    table_layout,
                    min_size,
                    fallibility,
                ) {
                    Ok(new_inner) => new_inner,
                    Err(error) => return Err(GrowthError::Reserve(error)),
                };
                core::mem::swap(&mut self.table, &mut old_inner);
                old_inner.drop_inner_table(&self.alloc, table_layout);
                proof {
                    old(self).lemma_no_items_no_elements();
                    self.table.lemma_data_room();
                    self.table.lemma_refilled_with_nothing(&old(self).table);
                }
                Ok(())
            } else {
                self.resize(min_size, hasher, fallibility)
            }
        } else {
            Ok(())
        }
    }

    /// Shrinks the table to fit `max(self.len(), min_size)` elements.
    pub fn shrink_to(&mut self, min_size: usize, hasher: impl Fn(&T) -> u64)
        requires
            old(self).wf(),
            old(self).shrink_size(min_size) > 0 && old(self).shrinks_to(
                old(self).shrink_size(min_size),
            ) ==> old(self).table.hashable_with(&hasher) && old(self).alloc.never_refuses(),
        ensures
            final(self).wf(),
            final(self).alloc == old(self).alloc,
            final(self).elements() == old(self).elements(),
            final(self).table.items == old(self).table.items,
            ({
                let size = old(self).shrink_size(min_size);
                if size == 0 {
                    &&& final(self).table.is_new()
                    &&& old(self).table.freed(&old(self).alloc, layout::table_layout_of::<T>())
                } else if old(self).shrinks_to(size) {
                    &&& final(self).shrunk_to(size)
                    &&& final(self).table.hashed_with(&hasher)
                    &&& final(self).table.refilled_from(&old(self).table)
                    &&& old(self).table.freed(&old(self).alloc, layout::table_layout_of::<T>())
                } else {
                    *final(self) == *old(self)
                }
            }),
    {
        let h = &hasher;
        let total = |v: &T| -> (hash: Option<u64>)
            requires
                call_requires(h, (v,)),
            ensures
                hash is Some,
                call_ensures(h, (v,), hash->0),
            { Some(h(v)) };
        let _result = self.shrink_rehash(min_size, &total, Fallibility::Infallible);
        proof {
            assert(_result is Ok);
            if self.table.hashed_by(&total) {
                assert forall|i: int| #[trigger] self.table.is_full_at(i) implies call_ensures(
                    &hasher,
                    (&self.table.data@[i]->0,),
                    self.table.hashes@[i],
                ) by {
                    assert(call_ensures(
                        &total,
                        (&self.table.data@[i]->0,),
                        Some(self.table.hashes@[i]),
                    ));
                }
            }
        }
    }

    /// A table without items has no elements.
    pub proof fn lemma_no_items_no_elements(&self)
        requires
            self.wf(),
            self.table.items == 0,
        ensures
            self.elements() == Multiset::<T>::empty(),
    {
        broadcast use vstd::multiset::group_multiset_axioms;

        self.table.lemma_items_are_elements();
        assert(self.elements() =~= Multiset::<T>::empty()) by {
            assert forall|v: T| #[trigger] self.elements().count(v) == 0 by {
                if self.elements().count(v) > 0 {
                    assert(self.elements().remove(v).len() < 0);
                }
            }
        }
    }
}

} // verus!
