//! Calls that take the elements that a predicate selects out of a table.
use crate::allocator::Allocator;
use crate::raw::extract::RawExtractIf;
use crate::raw::model;
use crate::raw::storage::RawTableInner;
use crate::raw::table::RawTable;
use vstd::prelude::*;

verus! {

/// The first step of an extraction asks the predicate about the elements in the order of the
/// buckets, until it selects one. That one is taken out and returned; those before it stay, as
/// the predicate left them; and those behind it are as they were. If the predicate selects
/// none, it has been asked about each.
pub proof fn lemma_first_extraction<'a, T, A: Allocator, F: Fn(&mut T) -> bool>(
    before: RawExtractIf<'a, T, A>,
    f: &F,
    r: Option<T>,
    after: RawExtractIf<'a, T, A>,
    old_table: RawTable<T, A>,
    new_table: RawTable<T, A>,
)
    requires
        *before.table == old_table,
        *after.table == new_table,
        old_table.wf(),
        call_ensures(RawTable::<T, A>::iter, (&old_table,), before.iter),
        exists|m: &mut RawExtractIf<'a, T, A>|
            *m == before && *final(m) == after && #[trigger] call_ensures(
                RawExtractIf::<T, A>::next::<F>,
                (m, f),
                r,
            ),
    ensures
        new_table.wf(),
        new_table.alloc == old_table.alloc,
        new_table.table.bucket_mask == old_table.table.bucket_mask,
        new_table.table.data@.len() == old_table.table.data@.len(),
        new_table.table.items == old_table.table.items - if r is Some {
            1int
        } else {
            0
        },
        exists|stop: int|
            #![trigger new_table.table.data@[stop]]
            {
                &&& 0 <= stop <= old_table.table.data@.len()
                &&& forall|i: int|
                    0 <= i < stop && #[trigger] old_table.table.data@[i] is Some ==> {
                        &&& new_table.table.data@[i] is Some
                        &&& exists|m: &mut T|
                            {
                                &&& *m == old_table.table.data@[i]->0
                                &&& *final(m) == new_table.table.data@[i]->0
                                &&& #[trigger] call_ensures(f, (m,), false)
                            }
                    }
                &&& forall|i: int|
                    stop < i < old_table.table.data@.len() ==> #[trigger] new_table.table.data@[i]
                        == old_table.table.data@[i]
                &&& match r {
                    Some(value) => {
                        &&& stop < old_table.table.data@.len()
                        &&& old_table.table.data@[stop] is Some
                        &&& new_table.table.data@[stop] is None
                        &&& exists|m: &mut T|
                            {
                                &&& *m == old_table.table.data@[stop]->0
                                &&& *final(m) == value
                                &&& #[trigger] call_ensures(f, (m,), true)
                            }
                    },
                    None => stop == old_table.table.data@.len(),
                }
            },
{
    let table = old_table.table;
    let all = model::full_indices(table.tags());
    crate::raw::calls::iteration::lemma_full_are_occupied(&table);
    assert(before.wf());
    assert(before.remaining() == all);
    let k = choose|k: int|
        {
            &&& #[trigger] before.can_pass(k)
            &&& after.remaining() == all.skip(
                if r is Some {
                    k + 1
                } else {
                    k
                },
            )
            &&& forall|i: int| #[trigger]
                all.take(k).contains(i) ==> exists|m: &mut T|
                    {
                        &&& *m == before.element(i)
                        &&& *final(m) == after.element(i)
                        &&& #[trigger] call_ensures(f, (m,), false)
                    }
            &&& forall|i: int|
                0 <= i < table.data@.len() && !all.take(
                    if r is Some {
                        k + 1
                    } else {
                        k
                    },
                ).contains(i) ==> #[trigger] new_table.table.data@[i] == table.data@[i]
            &&& match r {
                Some(value) => {
                    &&& k < all.len()
                    &&& exists|m: &mut T|
                        {
                            &&& *m == before.element(all[k])
                            &&& *final(m) == value
                            &&& #[trigger] call_ensures(f, (m,), true)
                        }
                    &&& exists|asked: RawTableInner<T>|
                        {
                            &&& asked.same_but_data(&table)
                            &&& asked.data@.len() == table.data@.len()
                            &&& #[trigger] new_table.table.erased_from(&asked, all[k])
                        }
                },
                None => {
                    &&& k == all.len()
                    &&& new_table.table.same_but_data(&table)
                },
            }
        };
    let stop = if r is Some {
        all[k]
    } else {
        table.data@.len() as int
    };
    let held = new_table.table.data@[stop];
    assert forall|i: int| 0 <= i < stop && #[trigger] table.data@[i] is Some implies {
        &&& new_table.table.data@[i] is Some
        &&& exists|m: &mut T|
            {
                &&& *m == table.data@[i]->0
                &&& *final(m) == new_table.table.data@[i]->0
                &&& #[trigger] call_ensures(f, (m,), false)
            }
    } by {
        assert(all.contains(i));
        let l = all.index_of(i);
        if r is Some && l >= k {
            assert(all[k] <= all[l]);
        }
        assert(all.take(k)[l] == i);
        assert(all.take(k).contains(i));
        assert(table.tags()[i] is Full);
        assert(new_table.table.tags()[i] is Full);
    }
    assert forall|i: int| stop < i < table.data@.len() implies #[trigger] new_table.table.data@[i]
        == table.data@[i] by {
        let upto = if r is Some {
            k + 1
        } else {
            k
        };
        if all.take(upto).contains(i) {
            let l = all.take(upto).index_of(i);
            assert(all[l] == i);
            assert(r is Some && l <= k);
            assert(all[l] <= all[k]);
        }
    }
}


/// Every further step goes on in the same way, from the bucket behind the one that was emptied
/// last.
pub proof fn lemma_further_extraction<'a, T, A: Allocator, F: Fn(&mut T) -> bool>(
    before: RawExtractIf<'a, T, A>,
    f: &F,
    r: Option<T>,
    after: RawExtractIf<'a, T, A>,
    old_table: RawTable<T, A>,
    new_table: RawTable<T, A>,
    remaining: Seq<int>,
    left: Seq<int>,
)
    requires
        *before.table == old_table,
        *after.table == new_table,
        old_table.wf(),
        before.iter.wf(old_table.table.tags()),
        remaining == before.iter.remaining(old_table.table.tags()),
        left == after.iter.remaining(new_table.table.tags()),
        exists|m: &mut RawExtractIf<'a, T, A>|
            *m == before && *final(m) == after && #[trigger] call_ensures(
                RawExtractIf::<T, A>::next::<F>,
                (m, f),
                r,
            ),
    ensures
        new_table.wf(),
        new_table.alloc == old_table.alloc,
        new_table.table.bucket_mask == old_table.table.bucket_mask,
        after.iter.wf(new_table.table.tags()),
        new_table.table.items == old_table.table.items - if r is Some {
            1int
        } else {
            0
        },
        left.len() <= remaining.len(),
        left == remaining.skip(remaining.len() - left.len()),
        r is None ==> left.len() == 0,
        r is Some ==> left.len() < remaining.len(),
        forall|l: int|
            #![trigger remaining[l]]
            0 <= l < remaining.len() - left.len() - (if r is Some {
                1int
            } else {
                0
            }) ==> {
                let i = remaining[l];
                exists|m: &mut T|
                    {
                        &&& *m == old_table.table.data@[i]->0
                        &&& *final(m) == new_table.table.data@[i]->0
                        &&& #[trigger] call_ensures(f, (m,), false)
                    }
            },
        r matches Some(value) ==> {
            let i = remaining[remaining.len() - left.len() - 1];
            &&& new_table.table.data@[i] is None
            &&& exists|m: &mut T|
                {
                    &&& *m == old_table.table.data@[i]->0
                    &&& *final(m) == value
                    &&& #[trigger] call_ensures(f, (m,), true)
                }
        },
        forall|i: int|
            0 <= i < old_table.table.data@.len() && !remaining.contains(i)
                ==> #[trigger] new_table.table.data@[i] == old_table.table.data@[i],
        forall|l: int|
            #![trigger left[l]]
            0 <= l < left.len() ==> new_table.table.data@[left[l]]
                == old_table.table.data@[left[l]],
{
    let table = old_table.table;
    let tags = table.tags();
    model::lemma_filter_members(
        |j: int| before.iter.iter.pending(tags, j),
        0,
        tags.len() as int,
    );
    assert(before.wf());
    assert(before.remaining() == remaining);
    let k = choose|k: int|
        {
            &&& #[trigger] before.can_pass(k)
            &&& after.remaining() == remaining.skip(
                if r is Some {
                    k + 1
                } else {
                    k
                },
            )
            &&& forall|i: int| #[trigger]
                remaining.take(k).contains(i) ==> exists|m: &mut T|
                    {
                        &&& *m == before.element(i)
                        &&& *final(m) == after.element(i)
                        &&& #[trigger] call_ensures(f, (m,), false)
                    }
            &&& forall|i: int|
                0 <= i < table.data@.len() && !remaining.take(
                    if r is Some {
                        k + 1
                    } else {
                        k
                    },
                ).contains(i) ==> #[trigger] new_table.table.data@[i] == table.data@[i]
            &&& match r {
                Some(value) => {
                    &&& k < remaining.len()
                    &&& exists|m: &mut T|
                        {
                            &&& *m == before.element(remaining[k])
                            &&& *final(m) == value
                            &&& #[trigger] call_ensures(f, (m,), true)
                        }
                    &&& exists|asked: RawTableInner<T>|
                        {
                            &&& asked.same_but_data(&table)
                            &&& asked.data@.len() == table.data@.len()
                            &&& #[trigger] new_table.table.erased_from(&asked, remaining[k])
                        }
                },
                None => {
                    &&& k == remaining.len()
                    &&& new_table.table.same_but_data(&table)
                },
            }
        };
    let upto = if r is Some {
        k + 1
    } else {
        k
    };
    assert(left == remaining.skip(upto));
    assert(remaining.len() - left.len() == upto);
    assert forall|l: int| 0 <= l < remaining.len() implies 0 <= #[trigger] remaining[l]
        < table.n() by {
        assert(remaining.contains(remaining[l]));
    }
    assert forall|l: int|
        #![trigger remaining[l]]
        0 <= l < k implies ({
        let i = remaining[l];
        exists|m: &mut T|
            {
                &&& *m == old_table.table.data@[i]->0
                &&& *final(m) == new_table.table.data@[i]->0
                &&& #[trigger] call_ensures(f, (m,), false)
            }
    }) by {
        assert(remaining.take(k)[l] == remaining[l]);
        assert(remaining.take(k).contains(remaining[l]));
    }
    assert forall|i: int|
        0 <= i < table.data@.len() && !remaining.contains(i) implies #[trigger] new_table.table.data@[i]
        == table.data@[i] by {
        if remaining.take(upto).contains(i) {
            let l = remaining.take(upto).index_of(i);
            assert(remaining[l] == i);
        }
    }
    assert forall|l: int|
        #![trigger left[l]]
        0 <= l < left.len() implies new_table.table.data@[left[l]] == table.data@[left[l]] by {
        let i = left[l];
        assert(i == remaining[upto + l]);
        assert(table.bucket_mask > 0) by {
            assert(remaining.contains(i));
            assert(table.tags()[i] is Full);
        }
        if remaining.take(upto).contains(i) {
            let o = remaining.take(upto).index_of(i);
            assert(remaining[o] == i);
        }
    }
}

} // verus!
