//! Allocators: who grants a table the memory for its buckets.
//!
//! An allocator hands out [`Block`]s, which are what a table has to account for: it asks for
//! one before it has buckets, and gives it back when it has them no more. The buckets
//! themselves are vectors on the heap of the standard library, whichever allocator is used.
use vstd::prelude::*;

verus! {

/// Size and alignment of a block of memory.
#[derive(Clone, Copy, PartialEq, Eq, Structural, Debug)]
pub struct Layout {
    pub size: usize,
    pub align: usize,
}

/// The allocator refused a request.
#[derive(Clone, Copy, PartialEq, Eq, Structural, Debug)]
pub struct AllocError;

/// Why a table could not grow.
#[derive(Clone, Copy, PartialEq, Eq, Structural, Debug)]
pub enum TryReserveError {
    /// The requested capacity exceeds what the address space can hold.
    CapacityOverflow,
    /// The allocator refused a block of this layout.
    AllocError { layout: Layout },
}

/// A block of memory that an allocator granted.
///
/// A block is not copied, so whoever holds it is the one who has yet to give it back. It is
/// for allocators to make one: a table only takes what `allocate` grants.
#[derive(Debug)]
pub struct Block {
    requested: Layout,
    len: usize,
}

impl Block {
    /// The layout that was asked for.
    pub closed spec fn requested_spec(self) -> Layout {
        self.requested
    }

    /// The size that was granted.
    pub closed spec fn len_spec(self) -> usize {
        self.len
    }

    /// Whether `layout` may be used to give the block back: it has the alignment
    /// that was asked for, and a size between the requested and the granted one.
    pub open spec fn fits(self, layout: Layout) -> bool {
        &&& layout.align == self.requested_spec().align
        &&& self.requested_spec().size <= layout.size <= self.len_spec()
    }

    /// Creates a block of `len` bytes, with which an allocator answers a request for
    /// `requested`.
    pub fn new(requested: Layout, len: usize) -> (r: Block)
        requires
            requested.size <= len,
        ensures
            r.requested_spec() == requested,
            r.len_spec() == len,
    {
        Block { requested, len }
    }

    /// Returns the size that was granted.
    pub fn len(&self) -> (r: usize)
        ensures
            r == self.len_spec(),
    {
        self.len
    }
}

/// A source of memory blocks.
pub trait Allocator {
    /// Whether every request is granted. An allocator that says nothing may refuse.
    open spec fn never_refuses(&self) -> bool {
        false
    }

    /// Whether a granted block has just the requested size. An allocator that says nothing
    /// may grant more.
    open spec fn is_exact(&self) -> bool {
        false
    }

    /// Asks for a block. A granted block may be larger than the request.
    fn allocate(&self, layout: Layout) -> (r: Result<Block, AllocError>)
        ensures
            r matches Ok(block) ==> block.requested_spec() == layout && block.fits(layout),
            self.never_refuses() ==> r is Ok,
            self.is_exact() ==> (r matches Ok(block) ==> block.len_spec() == layout.size),
    ;

    /// Gives a block back.
    fn deallocate(&self, block: Block, layout: Layout)
        requires
            block.fits(layout),
    ;
}

/// Whether the allocator granted this block when it was asked for that layout.
pub open spec fn granted<A: Allocator>(alloc: &A, layout: Layout, block: Block) -> bool {
    call_ensures(A::allocate, (alloc, layout), Ok(block))
}

/// Whether the allocator refused when it was asked for that layout.
pub open spec fn refused<A: Allocator>(alloc: &A, layout: Layout) -> bool {
    call_ensures(A::allocate, (alloc, layout), Err(AllocError))
}

/// Whether the allocator got this block back, with that layout.
pub open spec fn given_back<A: Allocator>(alloc: &A, block: Block, layout: Layout) -> bool {
    call_ensures(A::deallocate, (alloc, block, layout), ())
}

/// The default allocator: it grants every request, with exactly the requested size.
#[derive(Clone, Copy, Debug)]
pub struct Global;

impl Allocator for Global {
    open spec fn never_refuses(&self) -> bool {
        true
    }

    open spec fn is_exact(&self) -> bool {
        true
    }

    fn allocate(&self, layout: Layout) -> (r: Result<Block, AllocError>)
        ensures
            r matches Ok(block) && block.len_spec() == layout.size,
    {
        Ok(Block::new(layout, layout.size))
    }

    fn deallocate(&self, block: Block, layout: Layout) {
    }
}

impl Default for Global {
    fn default() -> (r: Global)
        ensures
            r == Global,
    {
        Global
    }
}

} // verus!
