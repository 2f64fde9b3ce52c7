//! The raw hash table: a typed wrapper that combines storage, probing and growth.
use crate::allocator;
use crate::allocator::{Allocator, Global, TryReserveError};
use crate::control::Tag;
use crate::raw::bucket::Bucket;
use crate::raw::iter::FullBucketsIndices;
use crate::raw::iter_hash;
use crate::raw::iter_hash::{RawIterHash, RawIterHashIndices};
use crate::raw::layout;
use crate::raw::layout::{Fallibility, TableLayout};
use crate::raw::model;
use crate::raw::model::Kind;
use crate::raw::storage;
use crate::raw::storage::RawTableInner;
use vstd::arithmetic::power2::*;
use vstd::multiset::Multiset;
use vstd::prelude::*;

verus! {

/// A raw hash table.
///
/// The table stores elements under hashes that its users compute. It knows nothing
/// of equality: lookups take a function that says which element is meant.
pub struct RawTable<T, A: Allocator = Global> {
    pub table: RawTableInner<T>,
    pub alloc: A,
}

impl<T> RawTable<T, Global> {
    /// Creates a new empty hash table without allocating any memory.
    ///
    /// In effect this returns a table with exactly 1 bucket, which is never
    /// written to since the load factor keeps at least 1 bucket free.
    pub fn new() -> (r: Self)
        ensures
            r.wf(),
            r.table.is_new(),
            r.elements() == Multiset::<T>::empty(),
    {
        Self::new_in(Global)
    }

    /// Allocates a new hash table with at least enough capacity for inserting
    /// the given number of elements without reallocating.
    pub fn with_capacity(capacity: usize) -> (r: Self)
        requires
            storage::capacity_fits(capacity, layout::table_layout_of::<T>()),
        ensures
            r.wf(),
            r.table.is_cleared(),
            r.table.growth_left >= capacity,
            r.table.sized_for(&Global, capacity, layout::table_layout_of::<T>()),
            capacity > 0 ==> r.table.n() == layout::buckets_for(
                capacity,
                layout::table_layout_of::<T>(),
            ),
            r.elements() == Multiset::<T>::empty(),
    {
        Self::with_capacity_in(capacity, Global)
    }
}

impl<T, A: Allocator> RawTable<T, A> {
    /// What holds of every table: its storage is well-formed, and it is in a block that its
    /// allocator granted.
    pub open spec fn wf(&self) -> bool {
        &&& self.table.wf()
        &&& self.table.block_wf(layout::table_layout_of::<T>())
        &&& self.table.data_room()
        &&& self.table.block matches Some(block) ==> allocator::granted(
            &self.alloc,
            block.requested_spec(),
            block,
        )
    }

    /// The elements of the table.
    pub open spec fn elements(&self) -> Multiset<T> {
        self.table.elements()
    }

    /// Whether bucket `i` holds this element, which was inserted with this hash.
    pub open spec fn holds(&self, i: int, hash: u64, value: T) -> bool {
        self.table.holds(i, hash, value)
    }

    /// Whether this is the bucket at index `i` of the table.
    pub open spec fn is_bucket(&self, bucket: &Bucket<T>, i: int) -> bool {
        0 <= i < self.table.n() && bucket.is_at(self.table.ctrl_offset as int, i)
    }

    /// A bucket has one index.
    pub proof fn lemma_bucket_unique(&self, bucket: &Bucket<T>, i: int, j: int)
        requires
            self.is_bucket(bucket, i),
            self.is_bucket(bucket, j),
        ensures
            i == j,
    {
        let size = vstd::layout::size_of::<T>() as int;
        if size > 0 {
            assert(j == i) by (nonlinear_arith)
                requires
                    self.table.ctrl_offset - j * size == self.table.ctrl_offset - i * size,
                    size > 0,
            ;
        }
    }

    /// Creates a new empty hash table without allocating any memory, using the
    /// given allocator.
    pub fn new_in(alloc: A) -> (r: Self)
        ensures
            r.wf(),
            r.table.is_new(),
            r.elements() == Multiset::<T>::empty(),
            r.alloc == alloc,
    {
        let _layout = TableLayout::new::<T>();
        RawTable { table: RawTableInner::new(), alloc }
    }

    /// Allocates a new hash table with the given number of buckets, or with more of
    /// them if the allocator grants a larger block.
    pub fn new_uninitialized(alloc: A, buckets: usize, fallibility: Fallibility) -> (r: Result<
        Self,
        TryReserveError,
    >)
        requires
            is_pow2(buckets as int),
            buckets >= 2,
            fallibility is Infallible ==> layout::table_layout_of::<T>().allocatable(
                buckets as int,
            ) && alloc.never_refuses(),
        ensures
            match r {
                Ok(table) => {
                    &&& table.wf()
                    &&& table.table.is_cleared()
                    &&& table.table.n() >= buckets
                    &&& table.table.allocated_for(
                        &alloc,
                        buckets as int,
                        layout::table_layout_of::<T>(),
                    )
                    &&& table.alloc == alloc
                    &&& layout::table_layout_of::<T>().allocatable(buckets as int)
                },
                Err(TryReserveError::CapacityOverflow) => !layout::table_layout_of::<T>().allocatable(
                    buckets as int,
                ),
                Err(TryReserveError::AllocError { layout }) => {
                    &&& layout::table_layout_of::<T>().allocatable(buckets as int)
                    &&& layout == layout::table_layout_of::<T>().layout_spec(buckets as int)
                    &&& storage::out_of_memory::<T, A>(
                        &alloc,
                        layout::table_layout_of::<T>(),
                        buckets as int,
                    )
                },
            },
            fallibility is Infallible ==> r is Ok,
    {
        let table_layout = TableLayout::new::<T>();
        match RawTableInner::new_uninitialized(&alloc, table_layout, buckets, fallibility) {
            Ok(table) => {
                proof {
                    table.lemma_data_room();
                }
                Ok(RawTable { table, alloc })
            },
            Err(error) => Err(error),
        }
    }

    /// Allocates a new hash table using the given allocator, with at least enough capacity for
    /// inserting the given number of elements without reallocating.
    pub fn with_capacity_in(capacity: usize, alloc: A) -> (r: Self)
        requires
            storage::capacity_fits(capacity, layout::table_layout_of::<T>()),
            capacity > 0 ==> alloc.never_refuses(),
        ensures
            r.wf(),
            r.table.is_cleared(),
            r.table.growth_left >= capacity,
            r.table.sized_for(&alloc, capacity, layout::table_layout_of::<T>()),
            r.elements() == Multiset::<T>::empty(),
            r.alloc == alloc,
    {
        let table = RawTableInner::with_capacity(&alloc, TableLayout::new::<T>(), capacity);
        proof {
            table.lemma_data_room();
        }
        RawTable { table, alloc }
    }

    /// Returns a reference to the underlying allocator.
    pub fn allocator(&self) -> (r: &A)
        ensures
            *r == self.alloc,
    {
        &self.alloc
    }

    /// Returns the address of the end of the elements, which is the start of the
    /// control bytes.
    pub fn data_end(&self) -> (r: usize)
        ensures
            r == self.table.ctrl_offset,
    {
        self.table.data_end()
    }

    /// Returns the address of the start of the elements.
    pub fn data_start(&self) -> (r: usize)
        requires
            self.wf(),
            self.table.bucket_mask > 0,
        ensures
            r == self.table.ctrl_offset - self.table.n() * vstd::layout::size_of::<T>(),
    {
        let size: usize = core::mem::size_of::<T>();
        let ghost n = self.table.n();
        assert(n * size >= 0) by (nonlinear_arith)
            requires
                n >= 0,
                size >= 0,
        ;
        self.data_end() - self.num_buckets() * size
    }

    /// Returns the size in bytes of the layout that the table has from its allocator, or
    /// zero if it has no memory.
    ///
    /// The returned number is informational only.
    pub fn allocation_size(&self) -> (r: usize)
        requires
            self.wf(),
        ensures
            r == if self.table.bucket_mask == 0 {
                0
            } else {
                layout::table_layout_of::<T>().len_spec(self.table.n())
            },
    {
        self.table.allocation_size_or_zero(TableLayout::new::<T>())
    }

    /// Returns the index of a bucket from a `Bucket`.
    pub fn bucket_index(&self, bucket: &Bucket<T>) -> (r: usize)
        requires
            self.wf(),
            exists|i: int| #[trigger] self.is_bucket(bucket, i),
        ensures
            self.is_bucket(bucket, r as int),
            forall|i: int| #[trigger] self.is_bucket(bucket, i) ==> i == r,
    {
        proof {
            let i = choose|i: int| #[trigger] self.is_bucket(bucket, i);
            assert(bucket.is_at(self.table.ctrl_offset as int, i));
        }
        let r: usize = bucket.to_base_index(self.data_end());
        proof {
            let i = choose|i: int| #[trigger] self.is_bucket(bucket, i);
            assert(bucket.is_at(self.table.ctrl_offset as int, i));
            assert forall|j: int| #[trigger] self.is_bucket(bucket, j) implies j == r by {
                assert(bucket.is_at(self.table.ctrl_offset as int, j));
            }
        }
        r
    }

    /// Returns the bucket at an index.
    pub fn bucket(&self, index: usize) -> (r: Bucket<T>)
        requires
            self.wf(),
            self.table.bucket_mask > 0,
            index < self.table.n(),
        ensures
            self.is_bucket(&r, index as int),
    {
        self.table.bucket(index)
    }

    /// Returns the number of elements the map can hold without reallocating.
    ///
    /// This number is a lower bound; the table might be able to hold
    /// more, but is guaranteed to be able to hold at least this many.
    pub fn capacity(&self) -> (r: usize)
        requires
            self.wf(),
        ensures
            r == self.table.items + self.table.growth_left,
    {
        self.table.items + self.table.growth_left
    }

    /// Returns the number of elements in the table.
    pub fn len(&self) -> (r: usize)
        ensures
            r == self.table.items,
            self.wf() ==> r == self.elements().len(),
    {
        proof {
            if self.wf() {
                self.table.lemma_items_are_elements();
            }
        }
        self.table.items
    }

    /// Returns `true` if the table contains no elements.
    pub fn is_empty(&self) -> (r: bool)
        ensures
            r == (self.table.items == 0),
            self.wf() ==> r == (self.elements().len() == 0),
    {
        self.len() == 0
    }

    /// Returns the number of buckets in the table.
    pub fn num_buckets(&self) -> (r: usize)
        requires
            self.table.bucket_mask < usize::MAX,
        ensures
            r == self.table.n(),
    {
        self.table.bucket_mask + 1
    }

    /// Checks whether the bucket at `index` is full.
    pub fn is_bucket_full(&self, index: usize) -> (r: bool)
        requires
            self.wf(),
            index < self.table.n(),
        ensures
            r == self.table.is_full_at(index as int),
    {
        self.table.is_bucket_full(index)
    }
}

impl<T, A: Allocator> RawTable<T, A> {
    /// Returns an iterator over occupied buckets that could match a given hash.
    ///
    /// `RawTable` only stores 7 bits of the hash value, so this iterator may
    /// return items that have a hash value different than the one provided. You
    /// should always validate the returned values before using them.
    pub fn iter_hash(&self, hash: u64) -> (r: RawIterHash<T>)
        requires
            self.wf(),
        ensures
            r.inner.wf(self.table.tags()),
            r.inner.hash@ == hash,
            r.inner.remaining(self.table.tags()) == iter_hash::candidate_ranks(
                self.table.tags(),
                hash,
            ),
    {
        RawIterHash::new(&self.table, hash)
    }

    /// Returns an iterator over occupied bucket indices that could match a given hash.
    ///
    /// `RawTable` only stores 7 bits of the hash value, so this iterator may
    /// return items that have a hash value different than the one provided. You
    /// should always validate the returned values before using them.
    pub fn iter_hash_buckets(&self, hash: u64) -> (r: RawIterHashIndices)
        requires
            self.wf(),
        ensures
            r.wf(self.table.tags()),
            r.hash@ == hash,
            r.remaining(self.table.tags()) == iter_hash::candidate_ranks(self.table.tags(), hash),
    {
        RawIterHashIndices::new(&self.table, hash)
    }

    /// Returns an iterator over full buckets indices in the table.
    pub fn full_buckets_indices(&self) -> (r: FullBucketsIndices)
        requires
            self.wf(),
        ensures
            r.wf(self.table.tags()),
            r.items == self.table.items,
            r.remaining(self.table.tags()) == model::full_indices(self.table.tags()),
    {
        self.table.full_buckets_indices()
    }
}

impl<T> RawTableInner<T> {
    /// The number of items is the number of elements.
    pub proof fn lemma_items_are_elements(&self)
        requires
            self.wf(),
        ensures
            self.items == self.elements().len(),
    {
        broadcast use vstd::multiset::group_multiset_axioms;

        if self.bucket_mask == 0 {
            model::lemma_count_none(self.tags(), Kind::Full);
            assert(self.elements() == Multiset::<T>::empty());
        } else {
            assert forall|i: int| 0 <= i < self.data@.len() implies (#[trigger] self.data@[i] is Some
                <==> model::kind_of(self.tags()[i]) == Kind::Full) by {}
            lemma_bag_len(self.data@, self.tags());
        }
    }
}

/// Buckets that are occupied just where the tag is full hold as many elements as
/// there are full tags.
proof fn lemma_bag_len<T>(data: Seq<Option<T>>, tags: Seq<Tag>)
    requires
        data.len() == tags.len(),
        forall|i: int|
            0 <= i < data.len() ==> (#[trigger] data[i] is Some <==> model::kind_of(tags[i])
                == Kind::Full),
    ensures
        model::bag(data).len() == model::count(tags, Kind::Full),
    decreases data.len(),
{
    broadcast use vstd::multiset::group_multiset_axioms;

    if data.len() > 0 {
        assert(data[data.len() - 1] == data.last());
        assert forall|i: int| 0 <= i < data.drop_last().len() implies (
        #[trigger] data.drop_last()[i] is Some <==> model::kind_of(tags.drop_last()[i])
            == Kind::Full) by {
            assert(data.drop_last()[i] == data[i]);
        }
        lemma_bag_len(data.drop_last(), tags.drop_last());
    }
}

} // verus!
