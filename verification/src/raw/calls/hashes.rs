//! Calls that walk over the buckets that may hold an element of a hash.
use crate::allocator::Allocator;
use crate::control::{h2, Tag};
use crate::raw::bucket::Bucket;
use crate::raw::iter_hash;
use crate::raw::iter_hash::{RawIterHash, RawIterHashIndices};
use crate::raw::model;
use crate::raw::storage::RawTableInner;
use crate::raw::table::RawTable;
use vstd::prelude::*;

verus! {

/// Where an iterator stands after `k` steps.
proof fn lemma_run<T>(
    table: &RawTableInner<T>,
    hash: u64,
    steps: Seq<&mut RawIterHash<T>>,
    its: Seq<RawIterHash<T>>,
    out: Seq<Bucket<T>>,
    k: int,
)
    requires
        table.wf(),
        steps.len() == out.len() + 1,
        forall|k: int| 0 <= k < steps.len() ==> *(#[trigger] steps[k]) == its[k],
        steps[0].inner.wf(table.tags()),
        steps[0].inner.hash@ == hash,
        steps[0].inner.remaining(table.tags()) == iter_hash::candidate_ranks(table.tags(), hash),
        forall|k: int|
            #![trigger steps[k]]
            #![trigger out[k]]
            0 <= k < out.len() ==> call_ensures(
                RawIterHash::<T>::next,
                (steps[k], table),
                Some(out[k]),
            ) && *final(steps[k]) == its[k + 1],
        0 <= k <= out.len(),
    ensures
        steps[k].inner.wf(table.tags()),
        steps[k].inner.hash@ == hash,
        k <= iter_hash::candidate_ranks(table.tags(), hash).len(),
        steps[k].inner.remaining(table.tags()) == iter_hash::candidate_ranks(
            table.tags(),
            hash,
        ).skip(k),
        k > 0 ==> out[k - 1].is_at(
            table.ctrl_offset as int,
            iter_hash::at_rank(
                hash,
                table.n(),
                iter_hash::candidate_ranks(table.tags(), hash)[k - 1],
            ),
        ),
    decreases k,
{
    let all = iter_hash::candidate_ranks(table.tags(), hash);
    if k > 0 {
        lemma_run(table, hash, steps, its, out, k - 1);
        let bucket = out[k - 1];
        assert(all.skip(k - 1).drop_first() =~= all.skip(k));
    } else {
        assert(all.skip(0) =~= all);
    }
}

/// Whether an iterator over the indices of a hash has these ranks still to visit.
#[verifier::opaque]
spec fn stands<T>(
    table: &RawTableInner<T>,
    hash: u64,
    it: RawIterHashIndices,
    rest: Seq<int>,
) -> bool {
    &&& it.wf(table.tags())
    &&& it.hash@ == hash
    &&& it.remaining(table.tags()) == rest
}

/// One step of an iterator over indices.
proof fn lemma_index_step<T>(
    table: &RawTableInner<T>,
    hash: u64,
    step: &mut RawIterHashIndices,
    index: usize,
    rest: Seq<int>,
)
    requires
        stands(table, hash, *old(step), rest),
        call_ensures(RawIterHashIndices::next::<T>, (step, table), Some(index)),
    ensures
        rest.len() > 0,
        index == iter_hash::at_rank(hash, table.n(), rest[0]),
        stands(table, hash, *final(step), rest.drop_first()),
{
    reveal(stands);
}

/// Where an iterator over indices stands after `k` steps.
proof fn lemma_run_of_indices<T>(
    table: &RawTableInner<T>,
    hash: u64,
    steps: Seq<&mut RawIterHashIndices>,
    its: Seq<RawIterHashIndices>,
    out: Seq<usize>,
    all: Seq<int>,
    k: int,
)
    requires
        steps.len() == out.len() + 1,
        forall|k: int| 0 <= k < steps.len() ==> *(#[trigger] steps[k]) == its[k],
        stands(table, hash, *steps[0], all),
        forall|k: int|
            #![trigger steps[k]]
            #![trigger out[k]]
            0 <= k < out.len() ==> call_ensures(
                RawIterHashIndices::next::<T>,
                (steps[k], table),
                Some(out[k]),
            ) && *final(steps[k]) == its[k + 1],
        0 <= k <= out.len(),
    ensures
        k <= all.len(),
        stands(table, hash, *steps[k], all.skip(k)),
        k > 0 ==> out[k - 1] == iter_hash::at_rank(hash, table.n(), all[k - 1]),
    decreases k,
{
    if k > 0 {
        lemma_run_of_indices(table, hash, steps, its, out, all, k - 1);
        lemma_index_step(table, hash, steps[k - 1], out[k - 1], all.skip(k - 1));
        assert(all.skip(k - 1).drop_first() =~= all.skip(k));
    } else {
        assert(all.skip(0) =~= all);
    }
}

/// The buckets of a hash: each is occupied and has the tag of the hash, no two are the same,
/// and all the elements that are held under the hash are there.
proof fn lemma_buckets_of_hash<T>(table: &RawTableInner<T>, hash: u64) -> (indices: Seq<int>)
    requires
        table.wf(),
    ensures
        indices.len() == iter_hash::candidate_ranks(table.tags(), hash).len(),
        forall|k: int|
            0 <= k < indices.len() ==> {
                &&& #[trigger] indices[k] == iter_hash::at_rank(
                    hash,
                    table.n(),
                    iter_hash::candidate_ranks(table.tags(), hash)[k],
                )
                &&& 0 <= indices[k] < table.data@.len()
                &&& table.data@[indices[k]] is Some
                &&& table.ctrl@[indices[k]] == Tag::Full(h2(hash))
            },
        indices.no_duplicates(),
        forall|i: int|
            0 <= i < table.data@.len() && #[trigger] table.data@[i] is Some && table.hashes@[i]
                == hash ==> indices.contains(i),
{
    let tags = table.tags();
    let n = table.n();
    let ranks = iter_hash::candidate_ranks(tags, hash);
    let indices = Seq::new(ranks.len(), |k: int| iter_hash::at_rank(hash, n, ranks[k]));
    iter_hash::lemma_candidate_ranks(tags, hash);
    model::lemma_filter_members(
        |r: int| iter_hash::is_candidate_rank(tags, hash, r),
        0,
        model::groups(n) * 16,
    );
    assert forall|k: int| 0 <= k < indices.len() implies {
        &&& #[trigger] indices[k] == iter_hash::at_rank(hash, n, ranks[k])
        &&& 0 <= indices[k] < table.data@.len()
        &&& table.data@[indices[k]] is Some
        &&& table.ctrl@[indices[k]] == Tag::Full(h2(hash))
        &&& model::rank(hash, n, indices[k]) == ranks[k]
    } by {
        assert(ranks.contains(ranks[k]));
        let r = ranks[k];
        assert(iter_hash::is_candidate_rank(tags, hash, r));
        assert(tags[indices[k]] is Full);
        assert(table.bucket_mask > 0);
        assert(table.ctrl@[indices[k]] == tags[indices[k]]);
        vstd::arithmetic::div_mod::lemma_fundamental_div_mod(r, 16);
        assert(0 <= r / 16 < model::groups(n)) by (nonlinear_arith)
            requires
                0 <= r < model::groups(n) * 16,
        ;
        model::lemma_slot_unique(hash, n, r / 16, r % 16);
    }
    assert forall|i: int|
        0 <= i < table.data@.len() && #[trigger] table.data@[i] is Some && table.hashes@[i]
            == hash implies indices.contains(i) by {
        assert(tags[i] is Full);
        crate::raw::laws::lemma_hash_iteration_is_complete(table, i, hash, table.data@[i]->0);
        let k = ranks.index_of(model::rank(hash, n, i));
        assert(indices[k] == i);
    }
    indices
}

/// An iterator over the buckets of a hash yields every element that is held under the hash.
/// What it yields is occupied and has the tag of the hash, and it yields no bucket twice.
pub proof fn lemma_iter_hash_yields_every_entry<T, A: Allocator>(
    table: &RawTable<T, A>,
    hash: u64,
    steps: Seq<&mut RawIterHash<T>>,
    its: Seq<RawIterHash<T>>,
    out: Seq<Bucket<T>>,
) -> (indices: Seq<int>)
    requires
        table.wf(),
        steps.len() == out.len() + 1,
        forall|k: int| 0 <= k < steps.len() ==> *(#[trigger] steps[k]) == its[k],
        call_ensures(RawTable::<T, A>::iter_hash, (table, hash), *steps[0]),
        forall|k: int|
            #![trigger steps[k]]
            #![trigger out[k]]
            0 <= k < out.len() ==> call_ensures(
                RawIterHash::<T>::next,
                (steps[k], &table.table),
                Some(out[k]),
            ) && *final(steps[k]) == its[k + 1],
        call_ensures(RawIterHash::<T>::next, (steps.last(), &table.table), None),
    ensures
        indices.len() == out.len(),
        indices.no_duplicates(),
        forall|k: int|
            #![trigger out[k]]
            #![trigger indices[k]]
            0 <= k < out.len() ==> {
                &&& 0 <= indices[k] < table.table.data@.len()
                &&& table.table.data@[indices[k]] is Some
                &&& table.table.ctrl@[indices[k]] == Tag::Full(h2(hash))
                &&& out[k].is_at(table.table.ctrl_offset as int, indices[k])
            },
        forall|i: int|
            0 <= i < table.table.data@.len() && #[trigger] table.table.data@[i] is Some
                && table.table.hashes@[i] == hash ==> indices.contains(i),
{
    let indices = lemma_buckets_of_hash(&table.table, hash);
    let all = iter_hash::candidate_ranks(table.table.tags(), hash);
    lemma_run(&table.table, hash, steps, its, out, out.len() as int);
    assert(all.skip(out.len() as int).len() == all.len() - out.len());
    assert forall|k: int|
        #![trigger out[k]]
        #![trigger indices[k]]
        0 <= k < out.len() implies {
        &&& 0 <= indices[k] < table.table.data@.len()
        &&& table.table.data@[indices[k]] is Some
        &&& table.table.ctrl@[indices[k]] == Tag::Full(h2(hash))
        &&& out[k].is_at(table.table.ctrl_offset as int, indices[k])
    } by {
        lemma_run(&table.table, hash, steps, its, out, k + 1);
    }
    indices
}

/// An iterator over the bucket indices of a hash yields every element that is held under the
/// hash. What it yields is occupied and has the tag of the hash, and it yields no index twice.
pub proof fn lemma_iter_hash_buckets_yields_every_index<T, A: Allocator>(
    table: &RawTable<T, A>,
    hash: u64,
    steps: Seq<&mut RawIterHashIndices>,
    its: Seq<RawIterHashIndices>,
    out: Seq<usize>,
)
    requires
        table.wf(),
        steps.len() == out.len() + 1,
        forall|k: int| 0 <= k < steps.len() ==> *(#[trigger] steps[k]) == its[k],
        call_ensures(RawTable::<T, A>::iter_hash_buckets, (table, hash), *steps[0]),
        forall|k: int|
            #![trigger steps[k]]
            #![trigger out[k]]
            0 <= k < out.len() ==> call_ensures(
                RawIterHashIndices::next::<T>,
                (steps[k], &table.table),
                Some(out[k]),
            ) && *final(steps[k]) == its[k + 1],
        call_ensures(RawIterHashIndices::next::<T>, (steps.last(), &table.table), None),
    ensures
        out.no_duplicates(),
        forall|k: int|
            0 <= k < out.len() ==> {
                &&& #[trigger] out[k] < table.table.data@.len()
                &&& table.table.data@[out[k] as int] is Some
                &&& table.table.ctrl@[out[k] as int] == Tag::Full(h2(hash))
            },
        forall|i: usize|
            i < table.table.data@.len() && table.table.data@[i as int] is Some
                && table.table.hashes@[i as int] == hash ==> #[trigger] out.contains(i),
{
    let indices = lemma_buckets_of_hash(&table.table, hash);
    let all = iter_hash::candidate_ranks(table.table.tags(), hash);
    assert(stands(&table.table, hash, *steps[0], all)) by {
        reveal(stands);
    }
    lemma_run_of_indices(&table.table, hash, steps, its, out, all, out.len() as int);
    assert(all.skip(out.len() as int).len() == 0) by {
        reveal(stands);
    }
    assert(all.skip(out.len() as int).len() == all.len() - out.len());
    assert forall|j: int| 0 <= j < out.len() implies #[trigger] out[j] == indices[j] by {
        lemma_run_of_indices(&table.table, hash, steps, its, out, all, j + 1);
    }
    assert forall|i: usize|
        i < table.table.data@.len() && table.table.data@[i as int] is Some
            && table.table.hashes@[i as int] == hash implies #[trigger] out.contains(i) by {
        assert(indices.contains(i as int));
        let k = indices.index_of(i as int);
        assert(out[k] == i);
    }
}

} // verus!
