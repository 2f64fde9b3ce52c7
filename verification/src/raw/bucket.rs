//! Buckets by address: where in the block of its table an element lies.
//!
//! Addresses are byte offsets from the start of the block. The elements lie in
//! front of the control bytes, in reverse order:
//!
//! ```none
//! [Padding], T_last, ..., T1, T0, | C0, C1, ..., C_last, mirrored group
//!                                 ^ base
//! ```
use core::marker::PhantomData;
use vstd::arithmetic::div_mod::*;
use vstd::prelude::*;

verus! {

/// A reference to a hash table bucket containing a `T`.
///
/// This is the address of the end of the element. However if the element has no
/// size, it is one more than the index of the element in the table.
pub struct Bucket<T> {
    pub ptr: usize,
    pub marker: PhantomData<T>,
}

/// The address of bucket `index`, in a table whose elements end at `base`.
pub open spec fn bucket_addr(base: int, index: int, size: int) -> int {
    if size == 0 {
        index + 1
    } else {
        base - index * size
    }
}

/// Whether a table of `n` buckets has room for its elements in front of `base`.
pub open spec fn has_data_room(base: int, n: int, size: int) -> bool {
    0 < n <= isize::MAX && n * size <= base
}

/// Distinct buckets do not overlap, and all of them lie between the start of the
/// block and the control bytes.
pub proof fn lemma_buckets_disjoint(base: int, n: int, size: int, i: int, j: int)
    requires
        size > 0,
        has_data_room(base, n, size),
        0 <= i < j < n,
    ensures
        bucket_addr(base, j, size) <= bucket_addr(base, i, size) - size,
        0 <= bucket_addr(base, j, size) - size,
        bucket_addr(base, i, size) <= base,
{
    assert(j * size >= i * size + size) by (nonlinear_arith)
        requires
            i < j,
            size > 0,
    ;
    assert(n * size >= j * size + size) by (nonlinear_arith)
        requires
            j < n,
            size > 0,
    ;
    assert(i * size >= 0) by (nonlinear_arith)
        requires
            i >= 0,
            size > 0,
    ;
}

proof fn lemma_addr_room(base: int, n: int, size: int, index: int)
    requires
        size >= 0,
        has_data_room(base, n, size),
        0 <= index < n,
    ensures
        0 <= index * size,
        index * size + size <= base,
{
    assert(n * size >= index * size + size) by (nonlinear_arith)
        requires
            index < n,
            size >= 0,
    ;
    assert(index * size >= 0) by (nonlinear_arith)
        requires
            index >= 0,
            size >= 0,
    ;
}

impl<T> Clone for Bucket<T> {
    fn clone(&self) -> (r: Self)
        ensures
            r == *self,
    {
        Bucket { ptr: self.ptr, marker: PhantomData }
    }
}

impl<T> Bucket<T> {
    /// Whether this is bucket `index` of a table whose elements end at `base`.
    pub open spec fn is_at(&self, base: int, index: int) -> bool {
        self.ptr == bucket_addr(base, index, vstd::layout::size_of::<T>() as int)
    }

    /// Creates the bucket at `index`, in a table whose elements end at `base`.
    pub fn from_base_index(base: usize, index: usize) -> (r: Self)
        requires
            exists|n: int| #[trigger]
                has_data_room(base as int, n, vstd::layout::size_of::<T>() as int) && index < n,
        ensures
            r.is_at(base as int, index as int),
            r.ptr > 0,
    {
        let size: usize = core::mem::size_of::<T>();
        let ghost n = choose|n: int| #[trigger]
            has_data_room(base as int, n, vstd::layout::size_of::<T>() as int) && index < n;
        proof {
            lemma_addr_room(base as int, n, size as int, index as int);
        }
        let ptr: usize = if size == 0 {
            index + 1
        } else {
            base - index * size
        };
        Bucket { ptr, marker: PhantomData }
    }

    /// Calculates the index of a bucket as the distance between two addresses.
    ///
    /// This function is the inverse of [`Bucket::from_base_index`].
    pub fn to_base_index(&self, base: usize) -> (r: usize)
        requires
            exists|index: int| #[trigger] self.is_at(base as int, index) && 0 <= index < usize::MAX,
        ensures
            self.is_at(base as int, r as int),
            forall|index: int| #[trigger] self.is_at(base as int, index) ==> index == r,
    {
        let size: usize = core::mem::size_of::<T>();
        let ghost index = choose|index: int| #[trigger]
            self.is_at(base as int, index) && 0 <= index < usize::MAX;
        proof {
            assert forall|other: int| #[trigger] self.is_at(base as int, other) implies other
                == index by {
                if size != 0 {
                    assert(other == index) by (nonlinear_arith)
                        requires
                            base - other * size == base - index * size,
                            size != 0,
                    ;
                }
            }
            if size != 0 {
                assert(index * size >= 0) by (nonlinear_arith)
                    requires
                        index >= 0,
                        size >= 0,
                ;
                lemma_div_by_multiple(index, size as int);
            }
        }
        if size == 0 {
            self.ptr - 1
        } else {
            (base - self.ptr) / size
        }
    }

    /// Returns the address of the start of the element.
    ///
    /// An element without a size lies anywhere that is aligned.
    pub fn as_ptr(&self) -> (r: usize)
        requires
            vstd::layout::size_of::<T>() <= self.ptr,
        ensures
            r == if vstd::layout::size_of::<T>() == 0 {
                vstd::layout::align_of::<T>() as int
            } else {
                self.ptr - vstd::layout::size_of::<T>()
            },
    {
        let size: usize = core::mem::size_of::<T>();
        if size == 0 {
            core::mem::align_of::<T>()
        } else {
            self.ptr - size
        }
    }

    /// Creates the bucket that is `offset` buckets behind this one.
    pub fn next_n(&self, offset: usize) -> (r: Self)
        requires
            exists|base: int, n: int, index: int|
                {
                    &&& #[trigger] has_data_room(base, n, vstd::layout::size_of::<T>() as int)
                    &&& base <= usize::MAX
                    &&& #[trigger] self.is_at(base, index)
                    &&& 0 <= index
                    &&& index + offset < n
                },
        ensures
            forall|base: int, index: int| #[trigger]
                self.is_at(base, index) ==> r.is_at(base, index + offset),
    {
        let size: usize = core::mem::size_of::<T>();
        let ghost (base, n, index) = choose|base: int, n: int, index: int|
            {
                &&& #[trigger] has_data_room(base, n, vstd::layout::size_of::<T>() as int)
                &&& base <= usize::MAX
                &&& #[trigger] self.is_at(base, index)
                &&& 0 <= index
                &&& index + offset < n
            };
        proof {
            lemma_addr_room(base, n, size as int, index + offset);
            assert((index + offset) * size == index * size + offset * size) by (nonlinear_arith);
            assert(index * size >= 0) by (nonlinear_arith)
                requires
                    index >= 0,
                    size >= 0,
            ;
            assert(offset * size >= 0) by (nonlinear_arith)
                requires
                    offset >= 0,
                    size >= 0,
            ;
        }
        let ptr: usize = if size == 0 {
            self.ptr + offset
        } else {
            self.ptr - offset * size
        };
        let r = Bucket { ptr, marker: PhantomData };
        assert forall|b: int, i: int| #[trigger] self.is_at(b, i) implies r.is_at(b, i + offset) by {
            assert((i + offset) * size == i * size + offset * size) by (nonlinear_arith);
        }
        r
    }
}

} // verus!
