//! Capacity and layout computations.
use crate::allocator::{Layout, TryReserveError};
use crate::control::Group;
use crate::math;
use vstd::arithmetic::power2::*;
use vstd::prelude::*;

verus! {

/// Whether memory allocation errors should return an error or abort.
#[derive(Clone, Copy, PartialEq, Eq, Structural, Debug)]
pub enum Fallibility {
    Fallible,
    Infallible,
}

impl Fallibility {
    /// Error to return on capacity overflow.
    ///
    /// An infallible operation has no error to return: its callers keep the
    /// capacity from overflowing.
    pub fn capacity_overflow(self) -> (r: TryReserveError)
        requires
            self is Fallible,
        ensures
            r is CapacityOverflow,
    {
        TryReserveError::CapacityOverflow
    }

    /// Error to return on allocation error.
    pub fn alloc_err(self, layout: Layout) -> (r: TryReserveError)
        requires
            self is Fallible,
        ensures
            r == (TryReserveError::AllocError { layout }),
    {
        TryReserveError::AllocError { layout }
    }
}

/// The smallest power of two that is at least `x`.
pub open spec fn next_pow2_spec(x: nat) -> nat
    decreases x,
{
    if x <= 1 {
        1
    } else {
        2 * next_pow2_spec(((x + 1) / 2) as nat)
    }
}

/// The largest power of two that is at most `x`, for positive `x`.
pub open spec fn prev_pow2_spec(x: nat) -> nat
    decreases x,
{
    if x <= 1 {
        1
    } else {
        2 * prev_pow2_spec((x / 2) as nat)
    }
}

pub proof fn lemma_next_pow2(x: nat)
    ensures
        is_pow2(next_pow2_spec(x) as int),
        x <= next_pow2_spec(x),
        forall|p: int| is_pow2(p) && x <= p ==> next_pow2_spec(x) <= p,
    decreases x,
{
    reveal(is_pow2);
    if x > 1 {
        let h = ((x + 1) / 2) as nat;
        lemma_next_pow2(h);
        assert forall|p: int| is_pow2(p) && x <= p implies next_pow2_spec(x) <= p by {
            math::lemma_pow2_half(p);
            assert(h <= p / 2);
        }
    } else {
        assert forall|p: int| is_pow2(p) && x <= p implies 1 <= p by {
            math::lemma_pow2_positive(p);
        }
    }
}

pub proof fn lemma_prev_pow2(x: nat)
    requires
        x > 0,
    ensures
        is_pow2(prev_pow2_spec(x) as int),
        prev_pow2_spec(x) <= x,
        x < 2 * prev_pow2_spec(x),
        forall|p: int| is_pow2(p) && p <= x ==> p <= prev_pow2_spec(x),
    decreases x,
{
    reveal(is_pow2);
    if x > 1 {
        let h = (x / 2) as nat;
        lemma_prev_pow2(h);
        assert forall|p: int| is_pow2(p) && p <= x implies p <= prev_pow2_spec(x) by {
            if p > 1 {
                math::lemma_pow2_half(p);
                assert(p / 2 <= h);
            }
        }
    }
}

proof fn lemma_leading_zeros_prev_pow2(z: u64)
    requires
        z > 0,
    ensures
        0 <= vstd::std_specs::bits::u64_leading_zeros(z) <= 63,
        pow2((63 - vstd::std_specs::bits::u64_leading_zeros(z)) as nat) == prev_pow2_spec(z as nat),
    decreases z,
{
    reveal(vstd::std_specs::bits::u64_leading_zeros);
    let lz = vstd::std_specs::bits::u64_leading_zeros(z);
    vstd::std_specs::bits::axiom_u64_leading_zeros(z);
    lemma2_to64();
    if z > 1 {
        lemma_leading_zeros_prev_pow2(z / 2);
        lemma_pow2_unfold((63 - lz) as nat);
    } else {
        assert(z / 2 == 0);
        vstd::std_specs::bits::axiom_u64_leading_zeros(0);
        assert(lz == vstd::std_specs::bits::u64_leading_zeros(0) - 1);
    }
}

/// Find the previous power of 2. If it's already a power of 2, it's unchanged.
pub fn prev_pow2(z: usize) -> (r: usize)
    requires
        z > 0,
    ensures
        r == prev_pow2_spec(z as nat),
        is_pow2(r as int),
        r <= z < 2 * r,
{
    let wide: u64 = z as u64;
    let zeros: u32 = wide.leading_zeros();
    proof {
        lemma_leading_zeros_prev_pow2(wide);
        lemma_prev_pow2(z as nat);
        let e = (63 - zeros) as nat;
        if e >= usize::BITS {
            lemma_pow2_strictly_increases((usize::BITS - 1) as nat, e);
            lemma2_to64();
            lemma2_to64_rest();
        }
        vstd::bits::lemma_usize_shl_is_mul(1, (63 - zeros) as usize);
    }
    1usize << ((63 - zeros) as usize)
}

/// Returns the smallest power of two that is at least `x`.
pub fn next_power_of_two(x: usize) -> (r: usize)
    requires
        next_pow2_spec(x as nat) <= usize::MAX,
    ensures
        r == next_pow2_spec(x as nat),
{
    if x <= 1 {
        1
    } else {
        let p: usize = prev_pow2(x - 1);
        proof {
            lemma_next_pow2(x as nat);
            math::lemma_pow2_double(p as int);
            let n = next_pow2_spec(x as nat) as int;
            if n < 2 * p {
                if p < n {
                    math::lemma_pow2_gap(p as int, n);
                }
            }
        }
        p * 2
    }
}

/// A power of two that fits in a `usize` is at most half of its range.
pub proof fn lemma_pow2_usize_bound(n: int)
    requires
        is_pow2(n),
        n <= usize::MAX,
    ensures
        n <= isize::MAX + 1,
{
    math::lemma_pow2_positive(n);
    if n > isize::MAX + 1 {
        lemma2_to64();
        lemma2_to64_rest();
        let e = (usize::BITS - 1) as nat;
        is_pow2_equiv(isize::MAX + 1);
        vstd::arithmetic::power2::lemma_pow2(e);
        assert(vstd::arithmetic::power::pow(2, e) == isize::MAX + 1);
        assert(is_pow2(isize::MAX + 1));
        math::lemma_pow2_gap(isize::MAX + 1, n);
    }
}

/// Size and control alignment of the element type, which is all that the layout
/// of a table depends on.
#[derive(Clone, Copy, PartialEq, Eq, Structural, Debug)]
pub struct TableLayout {
    pub size: usize,
    pub ctrl_align: usize,
}

/// The table layout of elements of type `T`.
pub open spec fn table_layout_of<T>() -> TableLayout {
    TableLayout {
        size: vstd::layout::size_of::<T>() as usize,
        ctrl_align: if vstd::layout::align_of::<T>() > 16 {
            vstd::layout::align_of::<T>() as usize
        } else {
            16
        },
    }
}

impl TableLayout {
    /// Whether the control alignment is a power of two no smaller than a group,
    /// which divides the element size unless it is just the group width.
    pub open spec fn valid(self) -> bool {
        &&& is_pow2(self.ctrl_align as int)
        &&& self.ctrl_align >= Group::WIDTH
        &&& self.ctrl_align == Group::WIDTH || self.size as int % self.ctrl_align as int == 0
    }

    /// Where the control bytes start: after the buckets, rounded up to the alignment.
    pub open spec fn ctrl_offset_spec(self, buckets: int) -> int {
        math::round_up(self.size * buckets, self.ctrl_align as int)
    }

    /// Bytes needed for the buckets, their control bytes and a mirrored group of that
    /// width.
    pub open spec fn len_with(self, buckets: int, group_width: int) -> int {
        self.ctrl_offset_spec(buckets) + buckets + group_width
    }

    /// Whether that many bytes are within the largest allocation.
    pub open spec fn allocatable_with(self, buckets: int, group_width: int) -> bool {
        self.len_with(buckets, group_width) <= isize::MAX - (self.ctrl_align - 1)
    }

    /// Bytes needed for the buckets, their control bytes and the mirrored group.
    pub open spec fn len_spec(self, buckets: int) -> int {
        self.len_with(buckets, Group::WIDTH as int)
    }

    /// Whether a table of that many buckets is within the largest allocation.
    pub open spec fn allocatable(self, buckets: int) -> bool {
        self.allocatable_with(buckets, Group::WIDTH as int)
    }

    /// The layout of a table of that many buckets.
    pub open spec fn layout_spec(self, buckets: int) -> Layout {
        Layout { size: self.len_spec(buckets) as usize, align: self.ctrl_align }
    }

    /// Whether the buckets take up at least one unit of the control alignment.
    pub open spec fn roomy(self, buckets: int) -> bool {
        self.size == 0 || self.size * buckets >= self.ctrl_align
    }

    /// Computes the layout of elements of type `T`.
    pub fn new<T>() -> (r: TableLayout)
        ensures
            r == table_layout_of::<T>(),
            r.valid(),
            r.size == vstd::layout::size_of::<T>(),
    {
        vstd::layout::layout_for_type_is_valid::<T>();
        let size: usize = core::mem::size_of::<T>();
        let align: usize = core::mem::align_of::<T>();
        proof {
            lemma2_to64();
            is_pow2_equiv(16);
            vstd::arithmetic::power2::lemma_pow2(4);
            assert(vstd::arithmetic::power::pow(2, 4) == 16);
        }
        TableLayout {
            size,
            ctrl_align: if align > Group::WIDTH {
                align
            } else {
                Group::WIDTH
            },
        }
    }

    /// Computes the layout of a table of that many buckets, and where in it the
    /// control bytes start. Returns `None` if the table is too large to allocate.
    pub fn calculate_layout_for(self, buckets: usize) -> (r: Option<(Layout, usize)>)
        requires
            self.valid(),
            is_pow2(buckets as int),
        ensures
            r is Some <==> self.allocatable(buckets as int),
            r matches Some((layout, ctrl_offset)) ==> {
                &&& layout.size == self.len_spec(buckets as int)
                &&& layout.align == self.ctrl_align
                &&& ctrl_offset == self.ctrl_offset_spec(buckets as int)
            },
    {
        self.layout_with(buckets, Group::WIDTH)
    }

    /// Computes the layout of a table of that many buckets, with a mirrored group of that
    /// width.
    fn layout_with(self, buckets: usize, group_width: usize) -> (r: Option<(Layout, usize)>)
        requires
            self.valid(),
            is_pow2(buckets as int),
        ensures
            r is Some <==> self.allocatable_with(buckets as int, group_width as int),
            r matches Some((layout, ctrl_offset)) ==> {
                &&& layout.size == self.len_with(buckets as int, group_width as int)
                &&& layout.align == self.ctrl_align
                &&& ctrl_offset == self.ctrl_offset_spec(buckets as int)
            },
    {
        let size: usize = self.size;
        let ctrl_align: usize = self.ctrl_align;
        proof {
            lemma_pow2_usize_bound(buckets as int);
            lemma_pow2_usize_bound(ctrl_align as int);
            assert(size * buckets >= 0) by (nonlinear_arith);
            lemma_round_up(size * buckets, ctrl_align as int);
        }
        let bytes: usize = match size.checked_mul(buckets) {
            Some(bytes) => bytes,
            None => return None,
        };
        let padded: usize = match bytes.checked_add(ctrl_align - 1) {
            Some(padded) => padded,
            None => return None,
        };
        let mask: usize = ctrl_align - 1;
        let ctrl_offset: usize = padded & !mask;
        proof {
            math::lemma_mask_is_mod(padded, mask);
            assert((padded & !mask) == padded - (padded & mask)) by (bit_vector);
            vstd::arithmetic::div_mod::lemma_fundamental_div_mod(padded as int, ctrl_align as int);
            let q = padded as int / ctrl_align as int;
            assert(ctrl_align * q == q * ctrl_align) by (nonlinear_arith);
        }
        let ctrl_bytes: usize = match buckets.checked_add(group_width) {
            Some(ctrl_bytes) => ctrl_bytes,
            None => return None,
        };
        let len: usize = match ctrl_offset.checked_add(ctrl_bytes) {
            Some(len) => len,
            None => return None,
        };
        // An allocation must not exceed `isize::MAX` when rounded up to its alignment.
        if len > isize::MAX as usize - (ctrl_align - 1) {
            return None;
        }
        Some((Layout { size: len, align: ctrl_align }, ctrl_offset))
    }
}

/// Rounding up gives the least multiple that is not below.
pub proof fn lemma_round_up(x: int, align: int)
    requires
        x >= 0,
        align > 0,
    ensures
        x <= math::round_up(x, align) < x + align,
        math::round_up(x, align) % align == 0,
        x % align == 0 ==> math::round_up(x, align) == x,
{
    let y = x + align - 1;
    let q = y / align;
    vstd::arithmetic::div_mod::lemma_fundamental_div_mod(y, align);
    vstd::arithmetic::div_mod::lemma_mod_multiples_basic(q, align);
    assert(align * q == q * align) by (nonlinear_arith);
    if x % align == 0 {
        let p = x / align;
        vstd::arithmetic::div_mod::lemma_fundamental_div_mod(x, align);
        vstd::arithmetic::div_mod::lemma_fundamental_div_mod_converse(y, align, p, align - 1);
    }
}

/// The number of elements that a table may hold before it grows.
pub open spec fn capacity_of(buckets: int) -> int {
    if buckets <= 8 {
        buckets - 1
    } else {
        (buckets / 8) * 7
    }
}

/// The fewest buckets that a table of elements of that size is given. Small elements get
/// more of them, so that the buckets are not dwarfed by the padding in front of the control
/// bytes.
pub open spec fn min_buckets(size: usize) -> int {
    if size <= 1 {
        16
    } else if size <= 3 {
        8
    } else {
        4
    }
}

/// The first number of buckets, doubling from `buckets` up, whose load factor admits `cap`
/// elements.
pub open spec fn buckets_from(buckets: int, cap: int) -> int
    decreases 4 * cap + 32 - buckets,
    when buckets > 0
{
    if capacity_of(buckets) >= cap {
        buckets
    } else {
        buckets_from(2 * buckets, cap)
    }
}

/// The number of buckets that hold `cap` elements at the maximum load factor.
pub open spec fn buckets_for(cap: usize, table_layout: TableLayout) -> int {
    buckets_from(min_buckets(table_layout.size), cap as int)
}

/// Doubling a power of two leads to the smallest one that is large enough.
proof fn lemma_buckets_from(buckets: int, cap: int)
    requires
        is_pow2(buckets),
    ensures
        is_pow2(buckets_from(buckets, cap)),
        buckets_from(buckets, cap) >= buckets,
        capacity_of(buckets_from(buckets, cap)) >= cap,
        forall|p: int|
            is_pow2(p) && buckets <= p && #[trigger] capacity_of(p) >= cap ==> buckets_from(
                buckets,
                cap,
            ) <= p,
    decreases 4 * cap + 32 - buckets,
{
    math::lemma_pow2_positive(buckets);
    if capacity_of(buckets) < cap {
        math::lemma_pow2_double(buckets);
        lemma_buckets_from(2 * buckets, cap);
        assert forall|p: int|
            is_pow2(p) && buckets <= p && #[trigger] capacity_of(p) >= cap implies buckets_from(
            buckets,
            cap,
        ) <= p by {
            math::lemma_pow2_gap(buckets, p);
        }
    }
}

/// The number of buckets for a capacity is the smallest power of two, from the fewest
/// buckets for the element size up, whose load factor admits the capacity.
pub proof fn lemma_buckets_for_is_smallest(cap: usize, table_layout: TableLayout, buckets: int)
    requires
        is_pow2(buckets),
        buckets >= min_buckets(table_layout.size),
        capacity_of(buckets) >= cap,
    ensures
        is_pow2(buckets_for(cap, table_layout)),
        buckets_for(cap, table_layout) >= min_buckets(table_layout.size),
        capacity_of(buckets_for(cap, table_layout)) >= cap,
        buckets_for(cap, table_layout) <= buckets,
{
    assert(is_pow2(4) && is_pow2(8) && is_pow2(16)) by {
        reveal_with_fuel(is_pow2, 6);
    }
    lemma_buckets_from(min_buckets(table_layout.size), cap as int);
}

/// Beyond the small tables, seven eighths of the buckets have to hold the capacity.
proof fn lemma_buckets_for_large(cap: usize, table_layout: TableLayout)
    requires
        cap >= 15,
    ensures
        buckets_for(cap, table_layout) == next_pow2_spec((cap * 8 / 7) as nat),
{
    let adj = (cap * 8 / 7) as nat;
    let b = next_pow2_spec(adj) as int;
    lemma_next_pow2(adj);
    assert(is_pow2(4) && is_pow2(8) && is_pow2(16)) by {
        reveal_with_fuel(is_pow2, 6);
    }
    math::lemma_pow2_gap(16, b);
    math::lemma_pow2_divides(8, b);
    assert(capacity_of(b) >= cap);
    lemma_buckets_from(min_buckets(table_layout.size), cap as int);
    let h = buckets_for(cap, table_layout);
    math::lemma_pow2_gap(8, h);
    math::lemma_pow2_divides(8, h);
    assert(h >= adj);
}

/// The chosen number of buckets is a power of two, is roomy, and its load factor
/// admits the requested capacity.
pub proof fn lemma_buckets_for(cap: usize, table_layout: TableLayout)
    requires
        cap > 0,
        table_layout.valid(),
    ensures
        is_pow2(buckets_for(cap, table_layout)),
        buckets_for(cap, table_layout) >= 4,
        table_layout.roomy(buckets_for(cap, table_layout)),
        capacity_of(buckets_for(cap, table_layout)) >= cap,
        cap * 8 <= usize::MAX ==> buckets_for(cap, table_layout) <= usize::MAX,
{
    let b = buckets_for(cap, table_layout);
    let size = table_layout.size;
    lemma2_to64();
    assert(is_pow2(4) && is_pow2(8) && is_pow2(16)) by {
        reveal_with_fuel(is_pow2, 6);
    }
    lemma_buckets_from(min_buckets(size), cap as int);
    if cap >= 15 {
        let adj = (cap * 8 / 7) as nat;
        lemma_buckets_for_large(cap, table_layout);
        lemma_next_pow2(adj);
        if cap * 8 <= usize::MAX && b > usize::MAX {
            let top = (isize::MAX + 1) as int;
            let e = (usize::BITS - 1) as nat;
            lemma2_to64_rest();
            is_pow2_equiv(top);
            vstd::arithmetic::power2::lemma_pow2(e);
            assert(vstd::arithmetic::power::pow(2, e) == top);
        }
    } else {
        assert(capacity_of(16) >= cap);
    }
    if size > 0 {
        if table_layout.ctrl_align == Group::WIDTH {
            assert(size * b >= 16) by (nonlinear_arith)
                requires
                    size >= 1,
                    b >= 4,
                    size == 1 ==> b >= 16,
                    size == 2 ==> b >= 8,
                    size == 3 ==> b >= 8,
            ;
        } else {
            assert(size >= table_layout.ctrl_align) by {
                if size < table_layout.ctrl_align {
                    vstd::arithmetic::div_mod::lemma_small_mod(
                        size as nat,
                        table_layout.ctrl_align as nat,
                    );
                }
            }
            assert(size * b >= size) by (nonlinear_arith)
                requires
                    b >= 4,
                    size >= 0,
            ;
        }
    }
}

/// Returns the number of buckets needed to hold the given number of items,
/// taking the maximum load factor into account.
///
/// Returns `None` if an overflow occurs.
///
/// This ensures that `buckets * table_layout.size >= table_layout.ctrl_align`.
pub fn capacity_to_buckets(cap: usize, table_layout: TableLayout) -> (r: Option<usize>)
    requires
        cap > 0,
        table_layout.valid(),
    ensures
        r is Some <==> (cap < 15 || cap * 8 <= usize::MAX),
        r matches Some(buckets) ==> {
            &&& buckets == buckets_for(cap, table_layout)
            &&& is_pow2(buckets as int)
            &&& table_layout.roomy(buckets as int)
            &&& capacity_of(buckets as int) >= cap
        },
{
    proof {
        lemma_buckets_for(cap, table_layout);
        if cap >= 15 {
            lemma_buckets_for_large(cap, table_layout);
        } else {
            reveal_with_fuel(buckets_from, 4);
        }
    }
    // Small tables keep at least one bucket empty, so that lookups terminate.
    if cap < 15 {
        // Small elements get more buckets, so that the buckets are not dwarfed by
        // the padding in front of the control bytes.
        let min_cap: usize = if table_layout.size <= 1 {
            14
        } else if table_layout.size <= 3 {
            7
        } else {
            3
        };
        let cap: usize = if min_cap > cap {
            min_cap
        } else {
            cap
        };
        // A table of two buckets could hold only one element, so it is skipped.
        let buckets: usize = if cap < 4 {
            4
        } else if cap < 8 {
            8
        } else {
            16
        };
        return Some(buckets);
    }
    // Otherwise one bucket in eight is kept empty.
    let adjusted_cap: usize = match cap.checked_mul(8) {
        Some(scaled) => scaled / 7,
        None => return None,
    };
    Some(next_power_of_two(adjusted_cap))
}

/// Returns the maximum effective capacity for the given bucket mask, taking
/// the maximum load factor into account.
pub fn bucket_mask_to_capacity(bucket_mask: usize) -> (r: usize)
    requires
        bucket_mask < usize::MAX,
    ensures
        r == capacity_of(bucket_mask + 1),
        r <= bucket_mask,
{
    if bucket_mask < 8 {
        // Tables of 1, 2, 4 or 8 buckets keep one bucket empty.
        bucket_mask
    } else {
        // Larger tables keep one bucket in eight empty.
        ((bucket_mask + 1) / 8) * 7
    }
}

/// Whatever capacity is asked for, the buckets of the table take up at least as
/// many bytes as the control alignment, unless the elements have no size.
pub proof fn ensure_bucket_bytes_at_least_ctrl_align(table_layout: TableLayout, cap: usize)
    requires
        cap > 0,
        table_layout.valid(),
    ensures
        table_layout.size != 0 ==> table_layout.size * buckets_for(cap, table_layout)
            >= table_layout.ctrl_align,
{
    lemma_buckets_for(cap, table_layout);
}

impl TableLayout {
    /// Whether a table of that many buckets, with a mirrored group of that width, fits in a
    /// block of that size.
    pub open spec fn fits_with(self, buckets: int, allocation_size: int, group_width: int) -> bool {
        &&& is_pow2(buckets)
        &&& self.allocatable_with(buckets, group_width)
        &&& self.len_with(buckets, group_width) <= allocation_size
    }

    /// Whether a table of that many buckets fits in a block of that size.
    pub open spec fn fits_in(self, buckets: int, allocation_size: int) -> bool {
        self.fits_with(buckets, allocation_size, Group::WIDTH as int)
    }
}

/// A larger table needs no less memory.
pub proof fn lemma_len_monotone(table_layout: TableLayout, a: int, b: int)
    requires
        table_layout.valid(),
        0 <= a <= b,
    ensures
        table_layout.ctrl_offset_spec(a) <= table_layout.ctrl_offset_spec(b),
        table_layout.len_spec(a) <= table_layout.len_spec(b),
{
    let size = table_layout.size as int;
    let align = table_layout.ctrl_align as int;
    assert(size * a <= size * b) by (nonlinear_arith)
        requires
            0 <= a <= b,
            size >= 0,
    ;
    let x = size * a + align - 1;
    let y = size * b + align - 1;
    math::lemma_pow2_positive(align);
    vstd::arithmetic::div_mod::lemma_div_is_ordered(x, y, align);
    assert((x / align) * align <= (y / align) * align) by (nonlinear_arith)
        requires
            x / align <= y / align,
            align >= 0,
    ;
}

/// Finds the largest number of buckets that can fit in `allocation_size`
/// provided the given `TableLayout`.
pub fn maximum_buckets_in(
    allocation_size: usize,
    table_layout: TableLayout,
    group_width: usize,
) -> (r: usize)
    requires
        table_layout.valid(),
        exists|p: int| #[trigger] table_layout.fits_with(p, allocation_size as int, group_width as int),
    ensures
        table_layout.fits_with(r as int, allocation_size as int, group_width as int),
        forall|p: int| #[trigger] table_layout.fits_with(p, allocation_size as int, group_width as int) ==> p <= r,
{
    let ghost w = choose|p: int| table_layout.fits_with(p, allocation_size as int, group_width as int);
    let ghost size = table_layout.size as int;
    let ghost z = allocation_size as int;
    proof {
        // Leaving the padding aside, `p` buckets take `p * (size + 1)` bytes.
        assert forall|p: int| #[trigger] table_layout.fits_with(p, z, group_width as int) implies 1 <= p && p * (size + 1)
            <= z - group_width && p <= (z - group_width) / (size + 1) by {
            math::lemma_pow2_positive(p);
            math::lemma_pow2_positive(table_layout.ctrl_align as int);
            assert(size * p >= 0) by (nonlinear_arith)
                requires
                    size >= 0,
                    p >= 1,
            ;
            lemma_round_up(size * p, table_layout.ctrl_align as int);
            assert(p * (size + 1) == size * p + p) by (nonlinear_arith);
            vstd::arithmetic::div_mod::lemma_div_is_ordered(
                p * (size + 1),
                z - group_width,
                size + 1,
            );
            vstd::arithmetic::div_mod::lemma_div_by_multiple(p, size + 1);
        }
        assert(table_layout.fits_with(w, z, group_width as int));
    }
    // An element as large as the address space leaves no room for a bucket.
    assert(table_layout.size < usize::MAX) by {
        assert(w * (size + 1) >= size + 1) by (nonlinear_arith)
            requires
                w >= 1,
                size >= 0,
        ;
    }
    let x: usize = (allocation_size - group_width) / (table_layout.size + 1);
    let mut buckets: usize = prev_pow2(x);
    proof {
        lemma_prev_pow2(x as nat);
    }
    loop
        invariant
            table_layout.valid(),
            table_layout.fits_with(w, allocation_size as int, group_width as int),
            is_pow2(buckets as int),
            forall|p: int| #[trigger]
                table_layout.fits_with(p, allocation_size as int, group_width as int) ==> p <= buckets,
        decreases buckets,
    {
        if let Some((layout, _)) = table_layout.layout_with(buckets, group_width) {
            if layout.size <= allocation_size {
                return buckets;
            }
        }
        proof {
            // The padding in front of the control bytes did not fit.
            math::lemma_pow2_positive(w);
            assert(!table_layout.fits_with(buckets as int, allocation_size as int, group_width as int));
            assert(w < buckets);
            math::lemma_pow2_half(buckets as int);
            assert forall|p: int| #[trigger]
                table_layout.fits_with(p, allocation_size as int, group_width as int) implies p <= buckets / 2 by {
                math::lemma_pow2_gap(p, buckets as int);
            }
        }
        buckets = buckets / 2;
    }
}

} // verus!
