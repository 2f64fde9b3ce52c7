//! Calls that look up several elements at once.
use crate::allocator::Allocator;
use crate::raw::disjoint;
use crate::raw::model;
use crate::raw::table::RawTable;
use vstd::prelude::*;

verus! {

/// Every query finds its element: if the table holds an element under the hash of a query,
/// and `eq` can only accept it, the query finds a bucket; if it can accept no other element,
/// the query finds a bucket that holds the element. What is found is accepted by `eq`.
pub proof fn lemma_every_query_finds_its_entry<
    T,
    A: Allocator,
    const N: usize,
    F: Fn(usize, &T) -> bool,
>(
    table: &RawTable<T, A>,
    hashes: [u64; N],
    eq: &F,
    r: Vec<Option<usize>>,
    q: usize,
    i: int,
    value: T,
)
    requires
        table.wf(),
        call_ensures(RawTable::<T, A>::get_disjoint_mut_pointers::<N, F>, (table, hashes, eq), r),
        q < N,
        0 <= i < table.table.data@.len(),
        table.table.data@[i] == Some(value),
        table.table.hashes@[i] == hashes@[q as int],
        forall|answer: bool| #[trigger] call_ensures(eq, (q, &value), answer) ==> answer,
    ensures
        r@.len() == N,
        r@[q as int] matches Some(found) && {
            &&& found < table.table.data@.len()
            &&& table.table.data@[found as int] is Some
            &&& call_ensures(eq, (q, &table.table.data@[found as int]->0), true)
        },
        (forall|j: int|
            0 <= j < table.table.data@.len() && #[trigger] table.table.data@[j] is Some
                && call_ensures(eq, (q, &table.table.data@[j]->0), true)
                ==> table.table.data@[j] == Some(value)) ==> table.table.data@[r@[q as int]->0 as int]
            == Some(value),
{
    assert(table.table.tags()[i] is Full);
    assert(model::is_candidate(table.table.tags(), hashes@[q as int], i));
    assert(table.table.query_finds(hashes@[q as int], eq, q, r@[q as int]));
    if r@[q as int] is None {
        assert(call_ensures(eq, (q, &table.table.data@[i]->0), false));
    }
}

/// A query that finds nothing has rejected every element that the table holds under its hash.
pub proof fn lemma_nothing_found_is_absent<
    T,
    A: Allocator,
    const N: usize,
    F: Fn(usize, &T) -> bool,
>(
    table: &RawTable<T, A>,
    hashes: [u64; N],
    eq: &F,
    r: Vec<Option<usize>>,
    q: usize,
    i: int,
)
    requires
        table.wf(),
        call_ensures(RawTable::<T, A>::get_disjoint_mut_pointers::<N, F>, (table, hashes, eq), r),
        q < N,
        r@[q as int] is None,
        0 <= i < table.table.data@.len(),
        table.table.data@[i] is Some,
        table.table.hashes@[i] == hashes@[q as int],
    ensures
        call_ensures(eq, (q, &table.table.data@[i]->0), false),
{
    assert(table.table.tags()[i] is Full);
    assert(model::is_candidate(table.table.tags(), hashes@[q as int], i));
    assert(table.table.query_finds(hashes@[q as int], eq, q, r@[q as int]));
}

/// Every query gets a reference to its element, unless an earlier one got it: if the table
/// holds an element under the hash of a query, and `eq` accepts it and no other element for
/// that query, then this query or an earlier one has a reference to such an element.
pub proof fn lemma_every_query_gets_its_entry<
    T,
    A: Allocator,
    const N: usize,
    F: Fn(usize, &T) -> bool,
>(
    before: RawTable<T, A>,
    hashes: [u64; N],
    eq: &F,
    r: Vec<Option<&mut T>>,
    q: usize,
    i: int,
    value: T,
)
    requires
        before.wf(),
        exists|m: &mut RawTable<T, A>|
            *m == before && #[trigger] call_ensures(
                RawTable::<T, A>::get_disjoint_mut::<N, F>,
                (m, hashes, eq),
                r,
            ),
        q < N,
        0 <= i < before.table.data@.len(),
        before.table.data@[i] == Some(value),
        before.table.hashes@[i] == hashes@[q as int],
        forall|answer: bool| #[trigger] call_ensures(eq, (q, &value), answer) ==> answer,
        forall|j: int|
            0 <= j < before.table.data@.len() && #[trigger] before.table.data@[j] is Some
                && call_ensures(eq, (q, &before.table.data@[j]->0), true)
                ==> before.table.data@[j] == Some(value),
    ensures
        r@.len() == N,
        exists|p: int|
            0 <= p <= q && #[trigger] r@[p] is Some && *(r@[p]->0) == value,
        r@[q as int] is Some ==> *(r@[q as int]->0) == value,
        (forall|p: int|
            0 <= p < q && #[trigger] r@[p] is Some ==> *(r@[p]->0) != value) ==> r@[q as int] is Some,
{
    let found = choose|found: Seq<Option<usize>>|
        {
            &&& #[trigger] before.queries_find(hashes@, eq, found)
            &&& forall|q: int|
                #![trigger r@[q]]
                0 <= q < N ==> {
                    &&& r@[q] is Some <==> found[q] is Some && disjoint::is_first(found, q)
                    &&& r@[q] is Some ==> before.table.data@[found[q]->0 as int] == Some(
                        *(r@[q]->0),
                    )
                }
        };
    assert(before.table.tags()[i] is Full);
    assert(model::is_candidate(before.table.tags(), hashes@[q as int], i));
    assert(before.table.query_finds(hashes@[q as int], eq, q, found[q as int]));
    if found[q as int] is None {
        assert(call_ensures(eq, (q, &before.table.data@[i]->0), false));
    }
    let p = lemma_first(found, q as int);
    assert(r@[p] is Some);
    assert(r@[q as int] is Some <==> found[q as int] is Some && disjoint::is_first(
        found,
        q as int,
    ));
}

/// Of the queries that found a bucket there is a first one.
proof fn lemma_first(found: Seq<Option<usize>>, q: int) -> (p: int)
    requires
        0 <= q < found.len(),
    ensures
        0 <= p <= q,
        found[p] == found[q],
        disjoint::is_first(found, p),
    decreases q,
{
    if disjoint::is_first(found, q) {
        q
    } else {
        let o = choose|o: int| 0 <= o < q && #[trigger] found[o] == found[q];
        lemma_first(found, o)
    }
}

/// The references are to elements of the table, one at most to each bucket. What is written
/// through them goes into these buckets, and the others stay as they were.
pub proof fn lemma_references_are_to_distinct_entries<
    T,
    A: Allocator,
    const N: usize,
    F: Fn(usize, &T) -> bool,
>(
    before: RawTable<T, A>,
    hashes: [u64; N],
    eq: &F,
    r: Vec<Option<&mut T>>,
    after: RawTable<T, A>,
)
    requires
        before.wf(),
        exists|m: &mut RawTable<T, A>|
            *m == before && *final(m) == after && #[trigger] call_ensures(
                RawTable::<T, A>::get_disjoint_mut::<N, F>,
                (m, hashes, eq),
                r,
            ),
    ensures
        after.wf(),
        after.alloc == before.alloc,
        after.table.bucket_mask == before.table.bucket_mask,
        after.table.items == before.table.items,
        after.table.growth_left == before.table.growth_left,
        after.table.hashes == before.table.hashes,
        after.table.data@.len() == before.table.data@.len(),
        r@.len() == N,
        exists|buckets: Seq<int>| #[trigger]
            buckets.len() == N && {
                &&& forall|q: int|
                    #![trigger r@[q]]
                    0 <= q < N && r@[q] is Some ==> {
                        &&& 0 <= buckets[q] < before.table.data@.len()
                        &&& before.table.data@[buckets[q]] == Some(*(r@[q]->0))
                        &&& after.table.data@[buckets[q]] == Some(*final(r@[q]->0))
                        &&& call_ensures(eq, (q as usize, &*(r@[q]->0)), true)
                    }
                &&& forall|p: int, q: int|
                    #![trigger r@[p], r@[q]]
                    0 <= p < q < N && r@[p] is Some && r@[q] is Some ==> buckets[p] != buckets[q]
                &&& forall|i: int|
                    0 <= i < before.table.data@.len() && #[trigger] after.table.data@[i]
                        != before.table.data@[i] ==> exists|q: int|
                        0 <= q < N && #[trigger] r@[q] is Some && buckets[q] == i
            },
{
    let found = choose|found: Seq<Option<usize>>|
        {
            &&& #[trigger] before.queries_find(hashes@, eq, found)
            &&& forall|q: int|
                #![trigger r@[q]]
                0 <= q < N ==> {
                    &&& r@[q] is Some <==> found[q] is Some && disjoint::is_first(found, q)
                    &&& r@[q] is Some ==> before.table.data@[found[q]->0 as int] == Some(
                        *(r@[q]->0),
                    )
                    &&& r@[q] is Some ==> after.table.data@[found[q]->0 as int] == Some(
                        *final(r@[q]->0),
                    )
                }
            &&& forall|i: int|
                0 <= i < before.table.data@.len() && !found.contains(Some(i as usize))
                    ==> #[trigger] after.table.data@[i] == before.table.data@[i]
        };
    let buckets = Seq::new(N as nat, |q: int| found[q]->0 as int);
    assert forall|q: int|
        #![trigger r@[q]]
        0 <= q < N && r@[q] is Some implies {
        &&& 0 <= buckets[q] < before.table.data@.len()
        &&& before.table.data@[buckets[q]] == Some(*(r@[q]->0))
        &&& after.table.data@[buckets[q]] == Some(*final(r@[q]->0))
        &&& call_ensures(eq, (q as usize, &*(r@[q]->0)), true)
    } by {
        let qq = q as usize;
        assert(before.table.query_finds(hashes@[qq as int], eq, qq, found[qq as int]));
    }
    assert forall|i: int|
        0 <= i < before.table.data@.len() && #[trigger] after.table.data@[i]
            != before.table.data@[i] implies exists|q: int|
        0 <= q < N && #[trigger] r@[q] is Some && buckets[q] == i by {
        assert(found.contains(Some(i as usize)));
        let q = lemma_first(found, found.index_of(Some(i as usize)));
        assert(r@[q] is Some && buckets[q] == i);
    }
    assert(buckets.len() == N);
}


/// Without the check for duplicates, every query gets a reference to its element: if the table
/// holds an element under the hash of a query, and `eq` can only accept it, there is one, and
/// it is to that element if `eq` can accept no other.
pub proof fn lemma_every_unchecked_query_gets_its_entry<
    T,
    A: Allocator,
    const N: usize,
    F: Fn(usize, &T) -> bool,
>(
    before: RawTable<T, A>,
    hashes: [u64; N],
    eq: &F,
    r: Vec<Option<&mut T>>,
    q: usize,
    i: int,
    value: T,
)
    requires
        before.wf(),
        exists|m: &mut RawTable<T, A>|
            *m == before && #[trigger] call_ensures(
                RawTable::<T, A>::get_disjoint_unchecked_mut::<N, F>,
                (m, hashes, eq),
                r,
            ),
        q < N,
        0 <= i < before.table.data@.len(),
        before.table.data@[i] == Some(value),
        before.table.hashes@[i] == hashes@[q as int],
        forall|answer: bool| #[trigger] call_ensures(eq, (q, &value), answer) ==> answer,
        forall|j: int|
            0 <= j < before.table.data@.len() && #[trigger] before.table.data@[j] is Some
                && call_ensures(eq, (q, &before.table.data@[j]->0), true)
                ==> before.table.data@[j] == Some(value),
    ensures
        r@.len() == N,
        r@[q as int] is Some,
        *(r@[q as int]->0) == value,
{
    let found = choose|found: Seq<Option<usize>>|
        {
            &&& #[trigger] before.queries_find(hashes@, eq, found)
            &&& forall|q: int|
                #![trigger r@[q]]
                0 <= q < N ==> {
                    &&& r@[q] is Some <==> found[q] is Some
                    &&& r@[q] is Some ==> before.table.data@[found[q]->0 as int] == Some(
                        *(r@[q]->0),
                    )
                }
        };
    assert(before.table.tags()[i] is Full);
    assert(model::is_candidate(before.table.tags(), hashes@[q as int], i));
    assert(before.table.query_finds(hashes@[q as int], eq, q, found[q as int]));
    if found[q as int] is None {
        assert(call_ensures(eq, (q, &before.table.data@[i]->0), false));
    }
    assert(r@[q as int] is Some <==> found[q as int] is Some);
}

} // verus!
