//! Extraction of the elements that a predicate selects.
use crate::allocator::Allocator;
use crate::raw::iter::RawIter;
use crate::raw::model;
use crate::raw::storage::RawTableInner;
use crate::raw::table::RawTable;
use vstd::prelude::*;

verus! {

/// Iterator which removes the elements that a predicate selects.
pub struct RawExtractIf<'a, T, A: Allocator> {
    pub iter: RawIter<T>,
    pub table: &'a mut RawTable<T, A>,
}

/// Asks the predicate for an element, which it may change.
fn ask<T, F: Fn(&mut T) -> bool>(f: &F, value: &mut T) -> (r: bool)
    requires
        forall|m: &mut T| *m == *old(value) ==> #[trigger] call_requires(f, (m,)),
    ensures
        exists|m: &mut T|
            *m == *old(value) && *final(m) == *final(value) && #[trigger] call_ensures(f, (m,), r),
{
    f(value)
}

/// Buckets that were not passed by are as they were.
proof fn lemma_passed_by<T>(
    before: Seq<Option<T>>,
    after: Seq<Option<T>>,
    indices: Seq<int>,
    k: int,
)
    requires
        0 <= k <= indices.len(),
        forall|i: int|
            0 <= i < before.len() && !(exists|l: int| 0 <= l < k && #[trigger] indices[l] == i)
                ==> #[trigger] after[i] == before[i],
    ensures
        forall|i: int|
            0 <= i < before.len() && !indices.take(k).contains(i) ==> #[trigger] after[i]
                == before[i],
{
    assert forall|i: int| 0 <= i < before.len() && !indices.take(k).contains(i) implies #[trigger] after[i]
        == before[i] by {
        if exists|l: int| 0 <= l < k && #[trigger] indices[l] == i {
            let l = choose|l: int| 0 <= l < k && #[trigger] indices[l] == i;
            assert(indices.take(k)[l] == i);
        }
    }
}

impl<'a, T, A: Allocator> RawExtractIf<'a, T, A> {
    /// Whether the iterator is within its table.
    pub open spec fn wf(&self) -> bool {
        &&& self.table.wf()
        &&& self.iter.wf(self.table.table.tags())
    }

    /// The indices of the buckets that are still to be looked at, in order.
    pub open spec fn remaining(&self) -> Seq<int> {
        self.iter.remaining(self.table.table.tags())
    }

    /// The element at bucket `i`.
    pub open spec fn element(&self, i: int) -> T {
        self.table.table.data@[i]->0
    }

    /// Whether there are that many buckets to pass by.
    pub open spec fn can_pass(&self, k: int) -> bool {
        0 <= k <= self.remaining().len()
    }

    /// Removes and returns the next element that the predicate selects. The elements
    /// in front of it stay, as the predicate left them.
    pub fn next<F: Fn(&mut T) -> bool>(&mut self, f: &F) -> (r: Option<T>)
        requires
            old(self).wf(),
            forall|i: int, m: &mut T|
                #![trigger old(self).remaining().contains(i), call_requires(f, (m,))]
                old(self).remaining().contains(i) && *m == old(self).element(i) ==> call_requires(
                    f,
                    (m,),
                ),
        ensures
            final(self).wf(),
            final(self).table.alloc == old(self).table.alloc,
            *final(final(self).table) == *final(old(self).table),
            exists|k: int|
                {
                    &&& #[trigger] old(self).can_pass(k)
                    &&& final(self).remaining() == old(self).remaining().skip(
                        if r is Some {
                            k + 1
                        } else {
                            k
                        },
                    )
                    &&& forall|i: int| #[trigger]
                        old(self).remaining().take(k).contains(i) ==> exists|m: &mut T|
                            {
                                &&& *m == old(self).element(i)
                                &&& *final(m) == final(self).element(i)
                                &&& #[trigger] call_ensures(f, (m,), false)
                            }
                    &&& forall|i: int|
                        0 <= i < old(self).table.table.data@.len() && !old(self).remaining().take(
                            if r is Some {
                                k + 1
                            } else {
                                k
                            },
                        ).contains(i) ==> #[trigger] final(self).table.table.data@[i] == old(self).table.table.data@[i]
                    &&& match r {
                        Some(value) => {
                            &&& k < old(self).remaining().len()
                            &&& exists|m: &mut T|
                                {
                                    &&& *m == old(self).element(old(self).remaining()[k])
                                    &&& *final(m) == value
                                    &&& #[trigger] call_ensures(f, (m,), true)
                                }
                            &&& exists|asked: RawTableInner<T>|
                                {
                                    &&& asked.same_but_data(&old(self).table.table)
                                    &&& asked.data@.len() == old(self).table.table.data@.len()
                                    &&& #[trigger] final(self).table.table.erased_from(
                                        &asked,
                                        old(self).remaining()[k],
                                    )
                                }
                        },
                        None => {
                            &&& k == old(self).remaining().len()
                            &&& final(self).table.table.same_but_data(&old(self).table.table)
                        },
                    }
                },
    {
        let ghost tags = self.table.table.tags();
        let ghost indices = self.remaining();
        let ghost mut k: int = 0;
        proof {
            assert(indices.skip(0) =~= indices);
            model::lemma_filter_members(
                |j: int| self.iter.iter.pending(tags, j),
                0,
                tags.len() as int,
            );
            assert forall|l: int| 0 <= l < indices.len() implies 0 <= #[trigger] indices[l]
                < self.table.table.data@.len() by {
                assert(indices.contains(indices[l]));
            }
        }
        loop
            invariant
                self.wf(),
                0 <= k <= indices.len(),
                indices == old(self).remaining(),
                tags == old(self).table.table.tags(),
                self.table.table.tags() == tags,
                self.table.alloc == old(self).table.alloc,
                self.table.table.same_but_data(&old(self).table.table),
                self.table.table.data@.len() == old(self).table.table.data@.len(),
                self.iter.remaining(tags) == indices.skip(k),
                forall|a: int, b: int|
                    0 <= a < b < indices.len() ==> #[trigger] indices[a] < #[trigger] indices[b],
                forall|l: int|
                    0 <= l < indices.len() ==> 0 <= #[trigger] indices[l]
                        < self.table.table.data@.len(),
                forall|i: int| #[trigger]
                    indices.take(k).contains(i) ==> exists|m: &mut T|
                        {
                            &&& *m == old(self).element(i)
                            &&& *final(m) == self.element(i)
                            &&& #[trigger] call_ensures(f, (m,), false)
                        },
                forall|i: int|
                    0 <= i < self.table.table.data@.len() && !(exists|l: int|
                        0 <= l < k && #[trigger] indices[l] == i)
                        ==> #[trigger] self.table.table.data@[i] == old(self).table.table.data@[i],
                forall|i: int, m: &mut T|
                    #![trigger indices.contains(i), call_requires(f, (m,))]
                    indices.contains(i) && *m == old(self).element(i) ==> call_requires(f, (m,)),
                *final(self.table) == *final(old(self).table),
            decreases indices.len() - k,
        {
            match self.iter.next(&self.table.table) {
                Some(item) => {
                    let ghost i = indices[k];
                    let ghost before = self.table.table;
                    proof {
                        assert(self.table.is_bucket(&item, i));
                        assert(indices.skip(k).drop_first() =~= indices.skip(k + 1));
                        assert(!(exists|l: int| 0 <= l < k && #[trigger] indices[l] == i));
                        assert(indices.contains(i));
                    }
                    let m = item.as_mut(&mut self.table.table);
                    let selected: bool = ask(f, m);
                    proof {
                        assert(self.table.table.data@ == before.data@.update(
                            i,
                            self.table.table.data@[i],
                        ));
                        assert(exists|m: &mut T|
                            {
                                &&& *m == old(self).element(i)
                                &&& *final(m) == self.element(i)
                                &&& #[trigger] call_ensures(f, (m,), selected)
                            });
                        assert forall|j: int| #[trigger]
                            indices.take(k).contains(j) implies j != i && 0 <= j
                            < before.data@.len() by {
                            let l = indices.take(k).index_of(j);
                            assert(indices[l] == j);
                        }
                        assert forall|j: int| #[trigger]
                            indices.take(k + 1).contains(j) implies j == i || indices.take(
                            k,
                        ).contains(j) by {
                            let l = indices.take(k + 1).index_of(j);
                            if l < k {
                                assert(indices.take(k)[l] == j);
                            }
                        }
                    }
                    if selected {
                        let ghost mid = self.table.table;
                        assert(self.table.is_bucket(&item, i));
                        assert(mid.data@ == before.data@.update(i, mid.data@[i]));
                        let ghost asked = *self.table;
                        let (value, removed) = self.table.remove(item);
                        proof {
                            asked.lemma_bucket_unique(&item, i, removed as int);
                            let erased = self.table.table.tags()[i];
                            assert(self.table.table.tags() == tags.update(i, erased));
                            self.iter.lemma_yielded_may_be_erased(tags, i, erased);
                            lemma_passed_by(
                                old(self).table.table.data@,
                                self.table.table.data@,
                                indices,
                                k + 1,
                            );
                        }
                        assert(old(self).can_pass(k));
                        return Some(value);
                    }
                    proof {
                        k = k + 1;
                    }
                },
                None => {
                    proof {
                        lemma_passed_by(
                            old(self).table.table.data@,
                            self.table.table.data@,
                            indices,
                            k,
                        );
                    }
                    assert(old(self).can_pass(k));
                    return None;
                },
            }
        }
    }
}

} // verus!
