//! Mutable references to several elements of a table at once.
use crate::allocator::Allocator;
use crate::raw::model;
use crate::raw::storage::RawTableInner;
use crate::raw::table::RawTable;
use vstd::prelude::*;

verus! {

/// Whether no bucket is wanted twice.
pub open spec fn all_distinct(wanted: Seq<Option<usize>>) -> bool {
    forall|p: int, q: int|
        0 <= p < q < wanted.len() && #[trigger] wanted[p] is Some ==> wanted[p]
            != #[trigger] wanted[q]
}

/// Finds the last bucket below `limit` that is wanted.
fn last_wanted(wanted: &Vec<Option<usize>>, limit: usize) -> (r: Option<(usize, usize)>)
    ensures
        match r {
            Some((query, index)) => {
                &&& query < wanted@.len()
                &&& wanted@[query as int] == Some(index)
                &&& index < limit
                &&& forall|q: int|
                    0 <= q < wanted@.len() && (#[trigger] wanted@[q]) is Some && wanted@[q]->0
                        < limit ==> wanted@[q]->0 <= index
            },
            None => forall|q: int|
                0 <= q < wanted@.len() && (#[trigger] wanted@[q]) is Some ==> wanted@[q]->0 >= limit,
        },
{
    let mut best: Option<(usize, usize)> = None;
    let mut q: usize = 0;
    while q < wanted.len()
        invariant
            q <= wanted@.len(),
            match best {
                Some((query, index)) => {
                    &&& query < q
                    &&& wanted@[query as int] == Some(index)
                    &&& index < limit
                    &&& forall|p: int|
                        0 <= p < q && (#[trigger] wanted@[p]) is Some && wanted@[p]->0 < limit
                            ==> wanted@[p]->0 <= index
                },
                None => forall|p: int|
                    0 <= p < q && (#[trigger] wanted@[p]) is Some ==> wanted@[p]->0 >= limit,
            },
        decreases wanted@.len() - q,
    {
        if let Some(index) = wanted[q] {
            if index < limit {
                best = match best {
                    Some((query, top)) => if index > top {
                        Some((q, index))
                    } else {
                        Some((query, top))
                    },
                    None => Some((q, index)),
                };
            }
        }
        q = q + 1;
    }
    best
}

/// Splits off a mutable reference to each wanted element, which all are distinct.
fn split_refs<'a, T>(data: &'a mut [Option<T>], wanted: &Vec<Option<usize>>) -> (r: Vec<
    Option<&'a mut T>,
>)
    requires
        all_distinct(wanted@),
        forall|q: int|
            0 <= q < wanted@.len() && (#[trigger] wanted@[q]) is Some && wanted@[q]->0
                < old(data)@.len() ==> old(data)@[wanted@[q]->0 as int] is Some,
    ensures
        r@.len() == wanted@.len(),
        final(data)@.len() == old(data)@.len(),
        forall|q: int|
            #![trigger r@[q]]
            0 <= q < wanted@.len() ==> {
                &&& r@[q] is Some <==> wanted@[q] is Some && wanted@[q]->0 < old(data)@.len()
                &&& r@[q] is Some ==> old(data)@[wanted@[q]->0 as int] == Some(*(r@[q]->0))
                &&& r@[q] is Some ==> final(data)@[wanted@[q]->0 as int] == Some(*final(r@[q]->0))
            },
        forall|i: int|
            0 <= i < old(data)@.len() && !wanted@.contains(Some(i as usize))
                ==> #[trigger] final(data)@[i] == old(data)@[i],
        forall|i: int|
            0 <= i < old(data)@.len() ==> (#[trigger] final(data)@[i] is Some <==> old(data)@[i] is Some),
    decreases old(data)@.len(),
{
    match last_wanted(wanted, data.len()) {
        None => {
            let mut refs: Vec<Option<&'a mut T>> = Vec::new();
            let mut q: usize = 0;
            while q < wanted.len()
                invariant
                    q <= wanted@.len(),
                    refs@.len() == q,
                    forall|p: int| 0 <= p < q ==> #[trigger] refs@[p] is None,
                decreases wanted@.len() - q,
            {
                refs.push(None);
                q = q + 1;
            }
            refs
        },
        Some((query, index)) => {
            let (front, back) = data.split_at_mut(index);
            let mut refs = split_refs(front, wanted);
            refs[query] = match back.first_mut() {
                Some(slot) => slot.as_mut(),
                None => None,
            };
            refs
        },
    }
}

impl<T> RawTableInner<T> {
    /// Whether `eq` may be asked about the elements that the lookup of a query compares.
    pub open spec fn query_askable<F: Fn(usize, &T) -> bool>(
        &self,
        hash: u64,
        eq: &F,
        query: usize,
    ) -> bool {
        forall|i: int| #[trigger]
            model::is_candidate(self.tags(), hash, i) ==> call_requires(
                eq,
                (query, &self.data@[i]->0),
            )
    }

    /// Whether the lookup of a query finds this: the bucket that it picks, if any.
    pub open spec fn query_finds<F: Fn(usize, &T) -> bool>(
        &self,
        hash: u64,
        eq: &F,
        query: usize,
        found: Option<usize>,
    ) -> bool {
        match found {
            Some(i) => {
                &&& model::is_candidate(self.tags(), hash, i as int)
                &&& call_ensures(eq, (query, &self.data@[i as int]->0), true)
                &&& forall|j: int| #[trigger]
                    model::is_candidate(self.tags(), hash, j) && model::rank(hash, self.n(), j)
                        < model::rank(hash, self.n(), i as int) ==> call_ensures(
                        eq,
                        (query, &self.data@[j]->0),
                        false,
                    )
            },
            None => forall|j: int| #[trigger]
                model::is_candidate(self.tags(), hash, j) ==> call_ensures(
                    eq,
                    (query, &self.data@[j]->0),
                    false,
                ),
        }
    }
}

/// Whether query `q` is the first one that found its bucket.
pub open spec fn is_first(found: Seq<Option<usize>>, q: int) -> bool {
    forall|p: int| 0 <= p < q ==> #[trigger] found[p] != found[q]
}

impl<T, A: Allocator> RawTable<T, A> {
    /// Whether `eq` may be asked about the elements that the lookups of the queries
    /// compare.
    pub open spec fn queries_askable<F: Fn(usize, &T) -> bool>(
        &self,
        hashes: Seq<u64>,
        eq: &F,
    ) -> bool {
        forall|q: usize|
            q < hashes.len() ==> #[trigger] self.table.query_askable(hashes[q as int], eq, q)
    }

    /// Whether the lookups of the queries find these buckets.
    pub open spec fn queries_find<F: Fn(usize, &T) -> bool>(
        &self,
        hashes: Seq<u64>,
        eq: &F,
        found: Seq<Option<usize>>,
    ) -> bool {
        &&& found.len() == hashes.len()
        &&& forall|q: usize|
            #![trigger found[q as int]]
            q < hashes.len() ==> self.table.query_finds(
                hashes[q as int],
                eq,
                q,
                found[q as int],
            )
    }

    /// Looks up a bucket for each of `N` hashes.
    ///
    /// The `eq` argument should be a closure such that `eq(i, k)` returns true if `k` is equal to
    /// the `i`th key to be looked up.
    pub fn get_disjoint_mut_pointers<const N: usize, F: Fn(usize, &T) -> bool>(
        &self,
        hashes: [u64; N],
        eq: &F,
    ) -> (r: Vec<Option<usize>>)
        requires
            self.wf(),
            self.queries_askable(hashes@, eq),
        ensures
            self.queries_find(hashes@, eq, r@),
    {
        let mut found: Vec<Option<usize>> = Vec::new();
        let mut q: usize = 0;
        while q < N
            invariant
                q <= N,
                self.wf(),
                self.queries_askable(hashes@, eq),
                found@.len() == q,
                forall|p: usize|
                    #![trigger found@[p as int]]
                    p < q ==> self.table.query_finds(hashes@[p as int], eq, p, found@[p as int]),
            decreases N - q,
        {
            let query: usize = q;
            let hash: u64 = hashes[query];
            assert(self.table.query_askable(hash, eq, query));
            let ask = |value: &T| -> (b: bool)
                requires
                    call_requires(eq, (query, value)),
                ensures
                    call_ensures(eq, (query, value), b),
                { eq(query, value) };
            let index = self.table.find_entry(hash, &ask);
            proof {
                assert(self.table.query_finds(hash, eq, query, index)) by {
                    if index is Some {
                        assert(self.table.picks(hash, &ask, index->0 as int));
                    } else {
                        assert(self.table.picks_none(hash, &ask));
                    }
                }
            }
            found.push(index);
            q = q + 1;
        }
        found
    }

    /// Attempts to get mutable references to `N` entries in the table at once.
    ///
    /// Returns the results of each query. At most one mutable reference will be returned to any
    /// entry: `None` will be returned for a query that finds the entry of an earlier one, and
    /// for one that finds nothing.
    ///
    /// The `eq` argument should be a closure such that `eq(i, k)` returns true if `k` is equal to
    /// the `i`th key to be looked up.
    pub fn get_disjoint_mut<const N: usize, F: Fn(usize, &T) -> bool>(
        &mut self,
        hashes: [u64; N],
        eq: &F,
    ) -> (r: Vec<Option<&mut T>>)
        requires
            old(self).wf(),
            old(self).queries_askable(hashes@, eq),
        ensures
            final(self).wf(),
            final(self).alloc == old(self).alloc,
            final(self).table.same_but_data(&old(self).table),
            r@.len() == N,
            exists|found: Seq<Option<usize>>|
                {
                    &&& #[trigger] old(self).queries_find(hashes@, eq, found)
                    &&& forall|q: int|
                        #![trigger r@[q]]
                        0 <= q < N ==> {
                            &&& r@[q] is Some <==> found[q] is Some && is_first(found, q)
                            &&& r@[q] is Some ==> old(self).table.data@[found[q]->0 as int] == Some(
                                *(r@[q]->0),
                            )
                            &&& r@[q] is Some ==> final(self).table.data@[found[q]->0 as int]
                                == Some(*final(r@[q]->0))
                        }
                    &&& forall|i: int|
                        0 <= i < old(self).table.data@.len() && !found.contains(Some(i as usize))
                            ==> #[trigger] final(self).table.data@[i] == old(self).table.data@[i]
                },
    {
        let found = self.get_disjoint_mut_pointers(hashes, eq);
        let mut wanted: Vec<Option<usize>> = Vec::new();
        let mut q: usize = 0;
        while q < N
            invariant
                q <= N,
                found@.len() == N,
                wanted@.len() == q,
                forall|p: int|
                    0 <= p < q ==> #[trigger] wanted@[p] == if is_first(found@, p) {
                        found@[p]
                    } else {
                        None
                    },
            decreases N - q,
        {
            let mut first: bool = true;
            let mut p: usize = 0;
            while p < q
                invariant
                    p <= q < N,
                    found@.len() == N,
                    first <==> forall|o: int| 0 <= o < p ==> #[trigger] found@[o] != found@[q as int],
                decreases q - p,
            {
                if same_bucket(found[p], found[q]) {
                    first = false;
                }
                p = p + 1;
            }
            wanted.push(
                if first {
                    found[q]
                } else {
                    None
                },
            );
            q = q + 1;
        }
        proof {
            assert(old(self).queries_find(hashes@, eq, found@));
            lemma_first_distinct(found@, wanted@);
            assert forall|p: int| 0 <= p < N && (#[trigger] wanted@[p]) is Some implies wanted@[p]->0
                < self.table.data@.len() && self.table.data@[wanted@[p]->0 as int] is Some by {
                let pp = p as usize;
                assert(self.table.query_finds(
                    hashes@[pp as int],
                    eq,
                    pp,
                    found@[pp as int],
                ));
            }
            assert forall|i: usize| #[trigger] wanted@.contains(Some(i)) implies found@.contains(
                Some(i),
            ) by {
                let p = wanted@.index_of(Some(i));
                assert(found@[p] == Some(i));
            }
        }
        split_refs(self.table.data.as_mut_slice(), &wanted)
    }

    /// Gets mutable references to `N` entries in the table at once, which have to be
    /// distinct.
    pub fn get_disjoint_unchecked_mut<const N: usize, F: Fn(usize, &T) -> bool>(
        &mut self,
        hashes: [u64; N],
        eq: &F,
    ) -> (r: Vec<Option<&mut T>>)
        requires
            old(self).wf(),
            old(self).queries_askable(hashes@, eq),
            forall|found: Seq<Option<usize>>| #[trigger]
                old(self).queries_find(hashes@, eq, found) ==> all_distinct(found),
        ensures
            final(self).wf(),
            final(self).alloc == old(self).alloc,
            final(self).table.same_but_data(&old(self).table),
            r@.len() == N,
            exists|found: Seq<Option<usize>>|
                {
                    &&& #[trigger] old(self).queries_find(hashes@, eq, found)
                    &&& forall|q: int|
                        #![trigger r@[q]]
                        0 <= q < N ==> {
                            &&& r@[q] is Some <==> found[q] is Some
                            &&& r@[q] is Some ==> old(self).table.data@[found[q]->0 as int] == Some(
                                *(r@[q]->0),
                            )
                            &&& r@[q] is Some ==> final(self).table.data@[found[q]->0 as int]
                                == Some(*final(r@[q]->0))
                        }
                    &&& forall|i: int|
                        0 <= i < old(self).table.data@.len() && !found.contains(Some(i as usize))
                            ==> #[trigger] final(self).table.data@[i] == old(self).table.data@[i]
                },
    {
        let found = self.get_disjoint_mut_pointers(hashes, eq);
        proof {
            assert(old(self).queries_find(hashes@, eq, found@));
            assert forall|p: int| 0 <= p < N && (#[trigger] found@[p]) is Some implies found@[p]->0
                < self.table.data@.len() && self.table.data@[found@[p]->0 as int] is Some by {
                let pp = p as usize;
                assert(self.table.query_finds(
                    hashes@[pp as int],
                    eq,
                    pp,
                    found@[pp as int],
                ));
            }
        }
        split_refs(self.table.data.as_mut_slice(), &found)
    }
}

/// Checks whether two lookups had the same outcome.
fn same_bucket(a: Option<usize>, b: Option<usize>) -> (r: bool)
    ensures
        r == (a == b),
{
    match (a, b) {
        (Some(i), Some(j)) => i == j,
        (None, None) => true,
        _ => false,
    }
}

/// The first queries of each bucket want distinct buckets.
proof fn lemma_first_distinct(found: Seq<Option<usize>>, wanted: Seq<Option<usize>>)
    requires
        found.len() == wanted.len(),
        forall|p: int|
            0 <= p < found.len() ==> #[trigger] wanted[p] == if is_first(found, p) {
                found[p]
            } else {
                None
            },
    ensures
        all_distinct(wanted),
{
    assert forall|p: int, q: int|
        0 <= p < q < wanted.len() && #[trigger] wanted[p] is Some implies wanted[p]
        != #[trigger] wanted[q] by {
        if wanted[q] is Some {
            assert(found[p] != found[q]);
        }
    }
}

} // verus!
