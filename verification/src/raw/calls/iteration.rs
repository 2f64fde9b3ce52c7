//! Calls that walk over the elements of a table.
use crate::allocator::Allocator;
use crate::raw::bucket::Bucket;
use crate::raw::drain;
use crate::raw::drain::{RawDrain, RawIntoIter};
use crate::raw::iter;
use crate::raw::iter::{FullBucketsIndices, RawIter, RawIterRange};
use crate::raw::model;
use crate::raw::storage::RawTableInner;
use crate::raw::table::RawTable;
use vstd::prelude::*;

verus! {

/// Of a well-formed table, the full buckets are those that hold something, and there are as
/// many of them as items.
pub proof fn lemma_full_are_occupied<T>(table: &RawTableInner<T>)
    requires
        table.wf(),
    ensures
        model::full_indices(table.tags()).len() == table.items,
        forall|a: int, b: int|
            0 <= a < b < model::full_indices(table.tags()).len()
                ==> #[trigger] model::full_indices(table.tags())[a]
                < #[trigger] model::full_indices(table.tags())[b],
        forall|k: int|
            0 <= k < model::full_indices(table.tags()).len() ==> 0
                <= #[trigger] model::full_indices(table.tags())[k] < table.data@.len()
                && table.data@[model::full_indices(table.tags())[k]] is Some,
        forall|i: int|
            0 <= i < table.data@.len() && #[trigger] table.data@[i] is Some
                ==> model::full_indices(table.tags()).contains(i),
{
    let tags = table.tags();
    let all = model::full_indices(tags);
    model::lemma_full_indices_len(tags);
    model::lemma_filter_members(|j: int| tags[j] is Full, 0, tags.len() as int);
    assert forall|k: int| 0 <= k < all.len() implies 0 <= #[trigger] all[k] < table.data@.len()
        && table.data@[all[k]] is Some by {
        assert(all.contains(all[k]));
        assert(tags[all[k]] is Full);
    }
    assert forall|i: int| 0 <= i < table.data@.len() && #[trigger] table.data@[i] is Some implies
        all.contains(i) by {
        assert(tags[i] is Full);
    }
}

/// Folding over a table takes in every element, in the order of the buckets: if a closure
/// computes a function of what was accumulated and of the element of a bucket, then the
/// result is that function folded over all the buckets that hold something.
pub proof fn lemma_fold_takes_in_every_element<T, A: Allocator, B, F: Fn(B, Bucket<T>) -> B>(
    table: &RawTable<T, A>,
    it: RawIter<T>,
    init: B,
    f: &F,
    r: B,
    g: spec_fn(B, T) -> B,
)
    requires
        table.wf(),
        call_ensures(RawTable::<T, A>::iter, (table,), it),
        call_ensures(RawIter::<T>::fold::<B, F>, (it, &table.table, init, f), r),
        forall|acc: B, bucket: Bucket<T>, i: int, out: B|
            0 <= i < table.table.data@.len() && table.table.data@[i] is Some
                && #[trigger] bucket.is_at(table.table.ctrl_offset as int, i)
                && #[trigger] call_ensures(f, (acc, bucket), out) ==> out == g(
                acc,
                table.table.data@[i]->0,
            ),
    ensures
        r == table.table.data@.fold_left(
            init,
            |acc: B, held: Option<T>|
                match held {
                    Some(value) => g(acc, value),
                    None => acc,
                },
        ),
{
    let tags = table.table.tags();
    let base = table.table.ctrl_offset as int;
    let all = model::full_indices(tags);
    lemma_full_are_occupied(&table.table);
    let accs = choose|accs: Seq<B>| #[trigger]
        iter::folds(f, base, all, accs) && accs[0] == init && r == accs.last();
    if table.table.bucket_mask > 0 {
        lemma_fold_prefix(&table.table, init, f, accs, g, table.table.n());
        assert(table.table.data@.take(table.table.n()) =~= table.table.data@);
    } else {
        assert(all.len() == 0) by {
            if all.len() > 0 {
                assert(0 <= all[0] < table.table.data@.len());
            }
        }
        assert(table.table.data@.len() == 0);
    }
}

/// What is accumulated over the first `n` buckets.
proof fn lemma_fold_prefix<T, B, F: Fn(B, Bucket<T>) -> B>(
    table: &RawTableInner<T>,
    init: B,
    f: &F,
    accs: Seq<B>,
    g: spec_fn(B, T) -> B,
    n: int,
)
    requires
        table.wf(),
        table.bucket_mask > 0,
        0 <= n <= table.n(),
        iter::folds(f, table.ctrl_offset as int, model::full_indices(table.tags()), accs),
        accs[0] == init,
        forall|acc: B, bucket: Bucket<T>, i: int, out: B|
            0 <= i < table.data@.len() && table.data@[i] is Some && #[trigger] bucket.is_at(
                table.ctrl_offset as int,
                i,
            ) && #[trigger] call_ensures(f, (acc, bucket), out) ==> out == g(
                acc,
                table.data@[i]->0,
            ),
    ensures
        ({
            let tags = table.tags();
            let some = model::filter_range(|j: int| tags[j] is Full, 0, n);
            &&& some.len() < accs.len()
            &&& accs[some.len() as int] == table.data@.take(n).fold_left(
                init,
                |acc: B, held: Option<T>|
                    match held {
                        Some(value) => g(acc, value),
                        None => acc,
                    },
            )
        }),
    decreases n,
{
    let tags = table.tags();
    let p = |j: int| tags[j] is Full;
    let h = |acc: B, held: Option<T>|
        match held {
            Some(value) => g(acc, value),
            None => acc,
        };
    let base = table.ctrl_offset as int;
    let all = model::full_indices(tags);
    model::lemma_filter_split(p, 0, n, tags.len() as int);
    if n > 0 {
        lemma_fold_prefix(table, init, f, accs, g, n - 1);
        let less = model::filter_range(p, 0, n - 1);
        model::lemma_filter_split(p, 0, n - 1, n);
        reveal_with_fuel(model::filter_range, 2);
        assert(table.data@.take(n).drop_last() =~= table.data@.take(n - 1));
        assert(table.data@.take(n).last() == table.data@[n - 1]);
        let k = less.len() as int;
        assert(table.data@.take(n).fold_left(init, h) == h(
            table.data@.take(n - 1).fold_left(init, h),
            table.data@[n - 1],
        ));
        if p(n - 1) {
            assert(all[k] == n - 1);
            assert(iter::folds_one(f, base, all[k], accs[k], accs[k + 1]));
            let bucket = choose|bucket: Bucket<T>| #[trigger]
                bucket.is_at(base, all[k]) && call_ensures(f, (accs[k], bucket), accs[k + 1]);
            assert(table.data@[n - 1] is Some);
            assert(bucket.is_at(base, n - 1));
            assert(accs[k + 1] == g(accs[k], table.data@[n - 1]->0));
        } else {
            assert(table.data@[n - 1] is None);
        }
    } else {
        assert(table.data@.take(0).len() == 0);
    }
}

/// Counting by a fold counts every element: if a closure adds one each time, the result is
/// larger by the number of elements.
pub proof fn lemma_fold_counts_every_element<T, A: Allocator, B, F: Fn(B, Bucket<T>) -> B>(
    table: &RawTable<T, A>,
    it: RawIter<T>,
    init: B,
    f: &F,
    r: B,
    counted: spec_fn(B) -> int,
)
    requires
        table.wf(),
        call_ensures(RawTable::<T, A>::iter, (table,), it),
        call_ensures(RawIter::<T>::fold::<B, F>, (it, &table.table, init, f), r),
        forall|acc: B, bucket: Bucket<T>, out: B| #[trigger]
            call_ensures(f, (acc, bucket), out) ==> counted(out) == counted(acc) + 1,
    ensures
        counted(r) == counted(init) + table.table.items,
        counted(r) == counted(init) + table.elements().len(),
{
    lemma_full_are_occupied(&table.table);
    table.table.lemma_items_are_elements();
    let all = model::full_indices(table.table.tags());
    let base = table.table.ctrl_offset as int;
    let accs = choose|accs: Seq<B>| #[trigger]
        iter::folds(f, base, all, accs) && accs[0] == init && r == accs.last();
    lemma_counted(f, base, all, accs, counted, all.len() as int);
}

/// What is counted over the first `k` indices.
proof fn lemma_counted<T, B, F: Fn(B, Bucket<T>) -> B>(
    f: &F,
    base: int,
    indices: Seq<int>,
    accs: Seq<B>,
    counted: spec_fn(B) -> int,
    k: int,
)
    requires
        iter::folds(f, base, indices, accs),
        0 <= k <= indices.len(),
        forall|acc: B, bucket: Bucket<T>, out: B| #[trigger]
            call_ensures(f, (acc, bucket), out) ==> counted(out) == counted(acc) + 1,
    ensures
        k < accs.len(),
        counted(accs[k]) == counted(accs[0]) + k,
    decreases k,
{
    if k > 0 {
        lemma_counted(f, base, indices, accs, counted, k - 1);
        assert(iter::folds_one(f, base, indices[k - 1], accs[k - 1], accs[k]));
    }
}

/// Folding agrees with stepping: a fold from wherever an iterator stands is a step to the
/// next element and a fold from there.
pub proof fn lemma_fold_agrees_with_next<T, B, F: Fn(B, Bucket<T>) -> B>(
    table: &RawTableInner<T>,
    it: RawIter<T>,
    item: Option<Bucket<T>>,
    stepped: RawIter<T>,
    init: B,
    f: &F,
    r: B,
    rest: B,
    g: spec_fn(B, int) -> B,
)
    requires
        table.data_room(),
        it.wf(table.tags()),
        exists|m: &mut RawIter<T>|
            *m == it && *final(m) == stepped && #[trigger] call_ensures(
                RawIter::<T>::next,
                (m, table),
                item,
            ),
        call_ensures(RawIter::<T>::fold::<B, F>, (it, table, init, f), r),
        forall|acc: B, bucket: Bucket<T>, i: int, out: B| #[trigger]
            bucket.is_at(table.ctrl_offset as int, i) && #[trigger] call_ensures(
                f,
                (acc, bucket),
                out,
            ) ==> out == g(acc, i),
        item matches Some(bucket) ==> exists|i: int| #[trigger]
            bucket.is_at(table.ctrl_offset as int, i) && call_ensures(
                RawIter::<T>::fold::<B, F>,
                (stepped, table, g(init, i), f),
                rest,
            ),
    ensures
        match item {
            Some(_) => r == rest,
            None => r == init,
        },
{
    let base = table.ctrl_offset as int;
    let all = it.remaining(table.tags());
    let accs = choose|accs: Seq<B>| #[trigger]
        iter::folds(f, base, all, accs) && accs[0] == init && r == accs.last();
    if item is Some {
        let bucket = item->0;
        let less = stepped.remaining(table.tags());
        let i = choose|i: int| #[trigger]
            bucket.is_at(base, i) && call_ensures(
                RawIter::<T>::fold::<B, F>,
                (stepped, table, g(init, i), f),
                rest,
            );
        lemma_same_index::<T>(base, &bucket, i, all[0]);
        let others = choose|others: Seq<B>| #[trigger]
            iter::folds(f, base, less, others) && others[0] == g(init, i) && rest
                == others.last();
        assert(iter::folds_one(f, base, all[0], accs[0], accs[1]));
        lemma_same_fold(f, base, all, accs, less, others, g, less.len() as int);
    }
}

/// A bucket has one index.
proof fn lemma_same_index<T>(base: int, bucket: &Bucket<T>, i: int, j: int)
    requires
        bucket.is_at(base, i),
        bucket.is_at(base, j),
    ensures
        i == j,
{
    let size = vstd::layout::size_of::<T>() as int;
    if size > 0 {
        assert(i == j) by (nonlinear_arith)
            requires
                base - i * size == base - j * size,
                size > 0,
        ;
    }
}

/// A fold from the second index on goes the same way as the whole one.
proof fn lemma_same_fold<T, B, F: Fn(B, Bucket<T>) -> B>(
    f: &F,
    base: int,
    all: Seq<int>,
    accs: Seq<B>,
    less: Seq<int>,
    others: Seq<B>,
    g: spec_fn(B, int) -> B,
    k: int,
)
    requires
        iter::folds(f, base, all, accs),
        iter::folds(f, base, less, others),
        all.len() > 0,
        less == all.drop_first(),
        accs[1] == others[0],
        0 <= k <= less.len(),
        forall|acc: B, bucket: Bucket<T>, i: int, out: B| #[trigger]
            bucket.is_at(base, i) && #[trigger] call_ensures(f, (acc, bucket), out) ==> out == g(
                acc,
                i,
            ),
    ensures
        accs[k + 1] == others[k],
    decreases k,
{
    if k > 0 {
        lemma_same_fold(f, base, all, accs, less, others, g, k - 1);
        assert(less[k - 1] == all[k]);
        assert(iter::folds_one(f, base, all[k], accs[k], accs[k + 1]));
        assert(iter::folds_one(f, base, less[k - 1], others[k - 1], others[k]));
    }
}


/// Where an iterator stands after `k` steps.
proof fn lemma_run<T>(
    table: &RawTableInner<T>,
    steps: Seq<&mut RawIter<T>>,
    its: Seq<RawIter<T>>,
    out: Seq<Bucket<T>>,
    k: int,
)
    requires
        table.wf(),
        table.data_room(),
        steps.len() == out.len() + 1,
        forall|k: int| 0 <= k < steps.len() ==> *(#[trigger] steps[k]) == its[k],
        steps[0].wf(table.tags()),
        steps[0].remaining(table.tags()) == model::full_indices(table.tags()),
        forall|k: int|
            #![trigger steps[k]]
            #![trigger out[k]]
            0 <= k < out.len() ==> call_ensures(
                RawIter::<T>::next,
                (steps[k], table),
                Some(out[k]),
            ) && *final(steps[k]) == its[k + 1],
        0 <= k <= out.len(),
    ensures
        steps[k].wf(table.tags()),
        k <= model::full_indices(table.tags()).len(),
        steps[k].remaining(table.tags()) == model::full_indices(table.tags()).skip(k),
        k > 0 ==> out[k - 1].is_at(
            table.ctrl_offset as int,
            model::full_indices(table.tags())[k - 1],
        ),
    decreases k,
{
    let all = model::full_indices(table.tags());
    if k > 0 {
        lemma_run(table, steps, its, out, k - 1);
        let bucket = out[k - 1];
        assert(all.skip(k - 1).drop_first() =~= all.skip(k));
    } else {
        assert(all.skip(0) =~= all);
    }
}

/// Stepping through a table yields every occupied bucket, each once, in the order of their
/// indices; and the number of elements that are still to come is known at each step.
pub proof fn lemma_iter_yields_every_bucket<T, A: Allocator>(
    table: &RawTable<T, A>,
    steps: Seq<&mut RawIter<T>>,
    its: Seq<RawIter<T>>,
    out: Seq<Bucket<T>>,
    k: int,
    hint: (usize, Option<usize>),
) -> (indices: Seq<int>)
    requires
        table.wf(),
        steps.len() == out.len() + 1,
        forall|k: int| 0 <= k < steps.len() ==> *(#[trigger] steps[k]) == its[k],
        call_ensures(RawTable::<T, A>::iter, (table,), *steps[0]),
        forall|k: int|
            #![trigger steps[k]]
            #![trigger out[k]]
            0 <= k < out.len() ==> call_ensures(
                RawIter::<T>::next,
                (steps[k], &table.table),
                Some(out[k]),
            ) && *final(steps[k]) == its[k + 1],
        call_ensures(RawIter::<T>::next, (steps.last(), &table.table), None),
        0 <= k <= out.len(),
        call_ensures(RawIter::<T>::size_hint, (&*steps[k],), hint),
    ensures
        out.len() == table.table.items,
        indices.len() == out.len(),
        forall|k: int|
            #![trigger out[k]]
            #![trigger indices[k]]
            0 <= k < out.len() ==> {
                &&& 0 <= indices[k] < table.table.data@.len()
                &&& table.table.data@[indices[k]] is Some
                &&& out[k].is_at(table.table.ctrl_offset as int, indices[k])
            },
        forall|a: int, b: int|
            0 <= a < b < indices.len() ==> #[trigger] indices[a] < #[trigger] indices[b],
        forall|i: int|
            0 <= i < table.table.data@.len() && #[trigger] table.table.data@[i] is Some
                ==> indices.contains(i),
        hint == ((out.len() - k) as usize, Some((out.len() - k) as usize)),
{
    let all = model::full_indices(table.table.tags());
    lemma_full_are_occupied(&table.table);
    lemma_run(&table.table, steps, its, out, out.len() as int);
    lemma_run(&table.table, steps, its, out, k);
    assert(all.skip(out.len() as int).len() == all.len() - out.len());
    assert forall|k: int|
        #![trigger out[k]]
        #![trigger all[k]]
        0 <= k < out.len() implies {
        &&& 0 <= all[k] < table.table.data@.len()
        &&& table.table.data@[all[k]] is Some
        &&& out[k].is_at(table.table.ctrl_offset as int, all[k])
    } by {
        lemma_run(&table.table, steps, its, out, k + 1);
    }
    all
}

/// Where an iterator over indices stands after `k` steps.
proof fn lemma_run_of_indices<T>(
    table: &RawTableInner<T>,
    steps: Seq<&mut FullBucketsIndices>,
    its: Seq<FullBucketsIndices>,
    out: Seq<usize>,
    k: int,
)
    requires
        table.wf(),
        steps.len() == out.len() + 1,
        forall|k: int| 0 <= k < steps.len() ==> *(#[trigger] steps[k]) == its[k],
        steps[0].wf(table.tags()),
        steps[0].remaining(table.tags()) == model::full_indices(table.tags()),
        forall|k: int|
            #![trigger steps[k]]
            #![trigger out[k]]
            0 <= k < out.len() ==> call_ensures(
                FullBucketsIndices::next::<T>,
                (steps[k], table),
                Some(out[k]),
            ) && *final(steps[k]) == its[k + 1],
        0 <= k <= out.len(),
    ensures
        steps[k].wf(table.tags()),
        k <= model::full_indices(table.tags()).len(),
        steps[k].remaining(table.tags()) == model::full_indices(table.tags()).skip(k),
        k > 0 ==> out[k - 1] == model::full_indices(table.tags())[k - 1],
    decreases k,
{
    let all = model::full_indices(table.tags());
    if k > 0 {
        lemma_run_of_indices(table, steps, its, out, k - 1);
        let index = out[k - 1];
        assert(all.skip(k - 1).drop_first() =~= all.skip(k));
    } else {
        assert(all.skip(0) =~= all);
    }
}

/// Stepping through the full buckets yields the index of every occupied bucket, each once and
/// in ascending order.
pub proof fn lemma_full_buckets_indices_yields_every_index<T, A: Allocator>(
    table: &RawTable<T, A>,
    steps: Seq<&mut FullBucketsIndices>,
    its: Seq<FullBucketsIndices>,
    out: Seq<usize>,
)
    requires
        table.wf(),
        steps.len() == out.len() + 1,
        forall|k: int| 0 <= k < steps.len() ==> *(#[trigger] steps[k]) == its[k],
        call_ensures(RawTable::<T, A>::full_buckets_indices, (table,), *steps[0]),
        forall|k: int|
            #![trigger steps[k]]
            #![trigger out[k]]
            0 <= k < out.len() ==> call_ensures(
                FullBucketsIndices::next::<T>,
                (steps[k], &table.table),
                Some(out[k]),
            ) && *final(steps[k]) == its[k + 1],
        call_ensures(FullBucketsIndices::next::<T>, (steps.last(), &table.table), None),
    ensures
        out.len() == table.table.items,
        forall|k: int|
            0 <= k < out.len() ==> #[trigger] out[k] < table.table.data@.len()
                && table.table.data@[out[k] as int] is Some,
        forall|a: int, b: int| 0 <= a < b < out.len() ==> #[trigger] out[a] < #[trigger] out[b],
        forall|i: usize|
            i < table.table.data@.len() && table.table.data@[i as int] is Some
                ==> #[trigger] out.contains(i),
{
    let all = model::full_indices(table.table.tags());
    lemma_full_are_occupied(&table.table);
    lemma_run_of_indices(&table.table, steps, its, out, out.len() as int);
    assert(all.skip(out.len() as int).len() == all.len() - out.len());
    assert forall|j: int| 0 <= j < out.len() implies #[trigger] out[j] == all[j] by {
        lemma_run_of_indices(&table.table, steps, its, out, j + 1);
    }
    assert forall|i: usize|
        i < table.table.data@.len() && table.table.data@[i as int] is Some implies #[trigger] out.contains(
        i,
    ) by {
        assert(all.contains(i as int));
        let k = all.index_of(i as int);
        assert(out[k] == i);
    }
}

/// The elements of the occupied buckets, in order.
pub proof fn lemma_elements_in_order<T>(table: &RawTableInner<T>)
    requires
        table.wf(),
    ensures
        ({
            let all = drain::elements_at(table.data@, model::full_indices(table.tags()));
            &&& all.len() == table.items
            &&& all.to_multiset() == table.elements()
            &&& all == table.data@.filter(|held: Option<T>| held is Some).map_values(
                |held: Option<T>| held->0,
            )
        }),
{
    lemma_full_are_occupied(table);
    crate::raw::laws::lemma_iteration_yields_elements(table);
    let tags = table.tags();
    let all = drain::elements_at(table.data@, model::full_indices(tags));
    let kept = table.data@.filter(|held: Option<T>| held is Some).map_values(
        |held: Option<T>| held->0,
    );
    if table.bucket_mask > 0 {
        lemma_filtered(table.data@, |j: int| tags[j] is Full, table.n());
        assert(table.data@.take(table.n()) =~= table.data@);
    } else {
        reveal(Seq::filter);
        assert(all =~= kept);
    }
}

/// The elements of the first `n` buckets, in order.
proof fn lemma_filtered<T>(data: Seq<Option<T>>, p: spec_fn(int) -> bool, n: int)
    requires
        0 <= n <= data.len(),
        forall|j: int| 0 <= j < n ==> (#[trigger] p(j) <==> data[j] is Some),
    ensures
        drain::elements_at(data, model::filter_range(p, 0, n)) == data.take(n).filter(
            |held: Option<T>| held is Some,
        ).map_values(|held: Option<T>| held->0),
    decreases n,
{
    reveal(Seq::filter);
    let kept = |held: Option<T>| held is Some;
    let value = |held: Option<T>| held->0;
    let all = model::filter_range(p, 0, n);
    if n > 0 {
        let less = model::filter_range(p, 0, n - 1);
        lemma_filtered(data, p, n - 1);
        model::lemma_filter_split(p, 0, n - 1, n);
        reveal_with_fuel(model::filter_range, 2);
        assert(data.take(n).drop_last() =~= data.take(n - 1));
        assert(data.take(n).last() == data[n - 1]);
        if p(n - 1) {
            assert(all =~= less.push(n - 1));
            assert(drain::elements_at(data, all) =~= drain::elements_at(data, less).push(
                data[n - 1]->0,
            ));
            assert(data.take(n).filter(kept) == data.take(n - 1).filter(kept).push(data[n - 1]));
            assert(data.take(n - 1).filter(kept).push(data[n - 1]).map_values(value)
                =~= data.take(n - 1).filter(kept).map_values(value).push(data[n - 1]->0));
        } else {
            assert(all =~= less);
        }
    } else {
        assert(drain::elements_at(data, all) =~= Seq::<T>::empty());
        assert(data.take(0).filter(kept).map_values(value) =~= Seq::<T>::empty());
    }
}

/// What an iterator that consumes a table has still to return after `k` steps.
proof fn lemma_run_of_into_iter<T, A: Allocator>(
    steps: Seq<&mut RawIntoIter<T, A>>,
    its: Seq<RawIntoIter<T, A>>,
    out: Seq<T>,
    k: int,
)
    requires
        steps.len() == out.len() + 1,
        forall|k: int| 0 <= k < steps.len() ==> *(#[trigger] steps[k]) == its[k],
        steps[0].wf(),
        forall|k: int|
            #![trigger steps[k]]
            #![trigger out[k]]
            0 <= k < out.len() ==> call_ensures(RawIntoIter::<T, A>::next, (steps[k],), Some(out[k]))
                && *final(steps[k]) == its[k + 1],
        0 <= k <= out.len(),
    ensures
        steps[k].wf(),
        steps[k].allocation == steps[0].allocation,
        steps[0].remaining() == out.take(k) + steps[k].remaining(),
    decreases k,
{
    if k > 0 {
        lemma_run_of_into_iter(steps, its, out, k - 1);
        let value = out[k - 1];
        let rest = steps[k - 1].remaining();
        assert(rest =~= seq![value] + rest.drop_first());
        assert(out.take(k) =~= out.take(k - 1).push(value));
        assert(out.take(k - 1) + (seq![value] + rest.drop_first()) =~= out.take(k)
            + steps[k].remaining());
    } else {
        assert(out.take(0) + steps[0].remaining() =~= steps[0].remaining());
    }
}

/// Consuming a table returns its elements, each once and in the order of the buckets, also if
/// that starts from an iterator over all of them.
pub proof fn lemma_into_iter_returns_every_element<T, A: Allocator>(
    table: RawTable<T, A>,
    whole: RawIter<T>,
    steps: Seq<&mut RawIntoIter<T, A>>,
    its: Seq<RawIntoIter<T, A>>,
    out: Seq<T>,
    hint: (usize, Option<usize>),
)
    requires
        table.wf(),
        steps.len() == out.len() + 1,
        forall|k: int| 0 <= k < steps.len() ==> *(#[trigger] steps[k]) == its[k],
        call_ensures(RawTable::<T, A>::iter, (&table,), whole),
        call_ensures(RawTable::<T, A>::into_iter, (table,), *steps[0]) || call_ensures(
            RawTable::<T, A>::into_iter_from,
            (table, whole),
            *steps[0],
        ),
        call_ensures(RawIntoIter::<T, A>::size_hint, (&*steps[0],), hint),
        forall|k: int|
            #![trigger steps[k]]
            #![trigger out[k]]
            0 <= k < out.len() ==> call_ensures(RawIntoIter::<T, A>::next, (steps[k],), Some(out[k]))
                && *final(steps[k]) == its[k + 1],
        call_ensures(RawIntoIter::<T, A>::next, (steps.last(),), None),
    ensures
        out.len() == table.table.items,
        out.to_multiset() == table.elements(),
        out == table.table.data@.filter(|held: Option<T>| held is Some).map_values(
            |held: Option<T>| held->0,
        ),
        hint == (table.table.items, Some(table.table.items)),
{
    lemma_elements_in_order(&table.table);
    lemma_run_of_into_iter(steps, its, out, out.len() as int);
    assert(out.take(out.len() as int) =~= out);
    assert(out + steps.last().remaining() =~= out);
}

/// An iterator that is dropped while it consumes a table gives the memory of the table back.
pub proof fn lemma_dropped_into_iter_gives_memory_back<T, A: Allocator>(
    table: RawTable<T, A>,
    steps: Seq<&mut RawIntoIter<T, A>>,
    its: Seq<RawIntoIter<T, A>>,
    out: Seq<T>,
    after: RawIntoIter<T, A>,
)
    requires
        table.wf(),
        steps.len() == out.len() + 1,
        forall|k: int| 0 <= k < steps.len() ==> *(#[trigger] steps[k]) == its[k],
        call_ensures(RawTable::<T, A>::into_iter, (table,), *steps[0]),
        forall|k: int|
            #![trigger steps[k]]
            #![trigger out[k]]
            0 <= k < out.len() ==> call_ensures(RawIntoIter::<T, A>::next, (steps[k],), Some(out[k]))
                && *final(steps[k]) == its[k + 1],
        call_ensures(RawIntoIter::<T, A>::drop, (steps.last(),), ()),
        *final(steps.last()) == after,
    ensures
        after.allocation is None,
        table.table.bucket_mask > 0 ==> table.table.block is Some && call_ensures(
            A::deallocate,
            (
                &table.alloc,
                table.table.block->0,
                crate::raw::layout::table_layout_of::<T>().layout_spec(
                    table.table.bucket_mask + 1,
                ),
            ),
            (),
        ),
{
    lemma_run_of_into_iter(steps, its, out, out.len() as int);
}


/// What a drain has still to return after `k` steps.
proof fn lemma_run_of_drain<'a, T, A: Allocator>(
    steps: Seq<&mut RawDrain<'a, T, A>>,
    its: Seq<RawDrain<'a, T, A>>,
    out: Seq<T>,
    k: int,
)
    requires
        steps.len() == out.len() + 1,
        forall|k: int| 0 <= k < steps.len() ==> *(#[trigger] steps[k]) == its[k],
        steps[0].wf(),
        forall|k: int|
            #![trigger steps[k]]
            #![trigger out[k]]
            0 <= k < out.len() ==> call_ensures(
                RawDrain::<T, A>::next,
                (steps[k],),
                Some(out[k]),
            ) && *final(steps[k]) == its[k + 1],
        0 <= k <= out.len(),
    ensures
        steps[k].wf(),
        steps[k].table.same_but_data(&steps[0].table),
        *final(steps[k].orig_table) == *final(steps[0].orig_table),
        steps[0].remaining() == out.take(k) + steps[k].remaining(),
    decreases k,
{
    if k > 0 {
        lemma_run_of_drain(steps, its, out, k - 1);
        let value = out[k - 1];
        let rest = steps[k - 1].remaining();
        assert(rest =~= seq![value] + rest.drop_first());
        assert(out.take(k) =~= out.take(k - 1).push(value));
        assert(out.take(k - 1) + (seq![value] + rest.drop_first()) =~= out.take(k)
            + steps[k].remaining());
    } else {
        assert(out.take(0) + steps[0].remaining() =~= steps[0].remaining());
    }
}

/// Draining a table returns its elements, each once and in the order of the buckets, also if
/// that starts from an iterator over all of them.
pub proof fn lemma_drain_returns_every_element<'a, T, A: Allocator>(
    before: RawTable<T, A>,
    whole: RawIter<T>,
    steps: Seq<&mut RawDrain<'a, T, A>>,
    its: Seq<RawDrain<'a, T, A>>,
    out: Seq<T>,
    hint: (usize, Option<usize>),
)
    requires
        before.wf(),
        steps.len() == out.len() + 1,
        forall|k: int| 0 <= k < steps.len() ==> *(#[trigger] steps[k]) == its[k],
        call_ensures(RawTable::<T, A>::iter, (&before,), whole),
        (exists|m: &'a mut RawTable<T, A>|
            *m == before && #[trigger] call_ensures(
                RawTable::<T, A>::drain,
                (m,),
                *steps[0],
            )) || (exists|m: &'a mut RawTable<T, A>|
            *m == before && #[trigger] call_ensures(
                RawTable::<T, A>::drain_iter_from,
                (m, whole),
                *steps[0],
            )),
        call_ensures(RawDrain::<T, A>::size_hint, (&*steps[0],), hint),
        forall|k: int|
            #![trigger steps[k]]
            #![trigger out[k]]
            0 <= k < out.len() ==> call_ensures(
                RawDrain::<T, A>::next,
                (steps[k],),
                Some(out[k]),
            ) && *final(steps[k]) == its[k + 1],
        call_ensures(RawDrain::<T, A>::next, (steps.last(),), None),
    ensures
        out.len() == before.table.items,
        out.to_multiset() == before.elements(),
        out == before.table.data@.filter(|held: Option<T>| held is Some).map_values(
            |held: Option<T>| held->0,
        ),
        hint == (before.table.items, Some(before.table.items)),
{
    lemma_elements_in_order(&before.table);
    lemma_run_of_drain(steps, its, out, out.len() as int);
    assert(out.take(out.len() as int) =~= out);
    assert(out + steps.last().remaining() =~= out);
}

/// A drain that is dropped after any number of steps leaves a table without elements that has
/// the memory and all the room of the drained one.
pub proof fn lemma_dropped_drain_leaves_an_empty_table<'a, T, A: Allocator>(
    before: RawTable<T, A>,
    steps: Seq<&mut RawDrain<'a, T, A>>,
    its: Seq<RawDrain<'a, T, A>>,
    out: Seq<T>,
    after: RawTable<T, A>,
)
    requires
        crate::raw::calls::memory::addressable::<T>(),
        before.wf(),
        steps.len() == out.len() + 1,
        forall|k: int| 0 <= k < steps.len() ==> *(#[trigger] steps[k]) == its[k],
        exists|m: &'a mut RawTable<T, A>|
            *m == before && *final(m) == after && #[trigger] call_ensures(
                RawTable::<T, A>::drain,
                (m,),
                *steps[0],
            ),
        forall|k: int|
            #![trigger steps[k]]
            #![trigger out[k]]
            0 <= k < out.len() ==> call_ensures(
                RawDrain::<T, A>::next,
                (steps[k],),
                Some(out[k]),
            ) && *final(steps[k]) == its[k + 1],
        call_ensures(RawDrain::<T, A>::drop, (*steps.last(),), ()),
    ensures
        after.wf(),
        after.alloc == before.alloc,
        after.table.items == 0,
        after.elements() == vstd::multiset::Multiset::<T>::empty(),
        after.table.bucket_mask == before.table.bucket_mask,
        after.table.block == before.table.block,
        after.table.growth_left == crate::raw::calls::memory::room(before.table.bucket_mask + 1),
{
    lemma_run_of_drain(steps, its, out, out.len() as int);
    crate::raw::calls::memory::lemma_plain_sizes::<T>(before.table.n());
    assert(after.table == *final(steps[0].orig_table));
}


/// A range of buckets covers the occupied buckets in it, and its two parts cover what it
/// covers, the first one before the second.
pub proof fn lemma_ranges_cover_their_buckets<T>(
    table: &RawTableInner<T>,
    ctrl: usize,
    len: usize,
    whole: RawIterRange<T>,
    parts: (RawIterRange<T>, Option<RawIterRange<T>>),
)
    requires
        table.wf(),
        table.bucket_mask > 0,
        ctrl + len <= table.bucket_mask + 1,
        call_ensures(RawIterRange::<T>::new, (table, ctrl, len), whole),
        call_ensures(RawIterRange::<T>::split, (whole, table), parts),
    ensures
        forall|i: int| #[trigger]
            whole.remaining(table.tags()).contains(i) <==> ctrl <= i < ctrl + len
                && table.data@[i] is Some,
        forall|a: int, b: int|
            0 <= a < b < whole.remaining(table.tags()).len() ==> #[trigger] whole.remaining(
                table.tags(),
            )[a] < #[trigger] whole.remaining(table.tags())[b],
        whole.remaining(table.tags()) == match parts.1 {
            Some(tail) => parts.0.remaining(table.tags()) + tail.remaining(table.tags()),
            None => parts.0.remaining(table.tags()),
        },
{
    let tags = table.tags();
    let p = |j: int| whole.data <= j < whole.end && tags[j] is Full;
    model::lemma_filter_members(p, 0, table.n());
    assert(whole.remaining(tags) == model::filter_range(p, 0, table.n()));
    assert forall|i: int| #[trigger] whole.remaining(tags).contains(i) <==> ctrl <= i < ctrl + len
        && table.data@[i] is Some by {
        if 0 <= i < table.n() {
            assert(table.data@[i] is Some <==> tags[i] is Full);
        }
    }
}

/// A step of a range yields the first bucket that it has still to cover.
pub proof fn lemma_range_yields_the_first_bucket<T>(
    table: &RawTableInner<T>,
    before: RawIterRange<T>,
    r: Option<Bucket<T>>,
    after: RawIterRange<T>,
)
    requires
        table.wf(),
        table.data_room(),
        before.wf(table.tags()),
        exists|m: &mut RawIterRange<T>|
            *m == before && *final(m) == after && #[trigger] call_ensures(
                RawIterRange::<T>::next,
                (m, table),
                r,
            ),
    ensures
        after.wf(table.tags()),
        match r {
            Some(bucket) => {
                let all = before.remaining(table.tags());
                &&& all.len() > 0
                &&& bucket.is_at(table.ctrl_offset as int, all[0])
                &&& after.remaining(table.tags()) == all.drop_first()
            },
            None => {
                &&& before.remaining(table.tags()).len() == 0
                &&& after.remaining(table.tags()).len() == 0
            },
        },
{
}


/// A drain that is leaked leaves a table without elements and without memory.
pub proof fn lemma_leaked_drain_leaves_a_new_table<'a, T, A: Allocator>(
    before: RawTable<T, A>,
    drain: RawDrain<'a, T, A>,
    after: RawTable<T, A>,
)
    requires
        before.wf(),
        exists|m: &'a mut RawTable<T, A>|
            *m == before && *final(m) == after && #[trigger] call_ensures(
                RawTable::<T, A>::drain,
                (m,),
                drain,
            ),
        // Nothing is written back.
        *final(drain.orig_table) == *drain.orig_table,
    ensures
        after.table.bucket_mask == 0,
        after.table.items == 0,
        after.table.data@.len() == 0,
        after.table.block is None,
        after.alloc == before.alloc,
{
}

/// Folding over the range of all buckets takes in every element, too.
pub proof fn lemma_range_fold_takes_in_every_element<T, B, F: Fn(B, Bucket<T>) -> B>(
    table: &RawTableInner<T>,
    range: RawIterRange<T>,
    init: B,
    f: &F,
    r: B,
    g: spec_fn(B, T) -> B,
)
    requires
        table.wf(),
        table.bucket_mask > 0,
        call_ensures(
            RawIterRange::<T>::new,
            (table, 0usize, (table.bucket_mask + 1) as usize),
            range,
        ),
        call_ensures(
            RawIterRange::<T>::fold_impl::<B, F>,
            (range, table, table.items, init, f),
            r,
        ),
        forall|acc: B, bucket: Bucket<T>, i: int, out: B|
            0 <= i < table.data@.len() && table.data@[i] is Some && #[trigger] bucket.is_at(
                table.ctrl_offset as int,
                i,
            ) && #[trigger] call_ensures(f, (acc, bucket), out) ==> out == g(
                acc,
                table.data@[i]->0,
            ),
    ensures
        r == table.data@.fold_left(
            init,
            |acc: B, held: Option<T>|
                match held {
                    Some(value) => g(acc, value),
                    None => acc,
                },
        ),
{
    let tags = table.tags();
    let base = table.ctrl_offset as int;
    let all = model::full_indices(tags);
    lemma_full_are_occupied(table);
    model::lemma_filter_same(
        |j: int| range.data <= j < range.end && tags[j] is Full,
        |j: int| tags[j] is Full,
        0,
        table.n(),
    );
    assert(range.remaining(tags) == all);
    let accs = choose|accs: Seq<B>| #[trigger]
        iter::folds(f, base, all, accs) && accs[0] == init && r == accs.last();
    lemma_fold_prefix(table, init, f, accs, g, table.n());
    assert(table.data@.take(table.n()) =~= table.data@);
}

} // verus!
