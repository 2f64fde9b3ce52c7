//! Calls that compute with sizes.
use crate::allocator::Layout;
use crate::control::{BitMask, BitMaskIter, Group, Tag};
use crate::math;
use crate::raw::layout;
use crate::raw::layout::TableLayout;
use crate::raw::probe;
use vstd::arithmetic::power2::*;
use vstd::prelude::*;

verus! {

/// The layout of a type: its size, and its alignment or that of a group.
pub proof fn lemma_layout_of_type<T>(r: TableLayout)
    requires
        vstd::layout::align_of::<T>() <= usize::MAX,
        call_ensures(TableLayout::new::<T>, (), r),
    ensures
        r.size == vstd::layout::size_of::<T>(),
        r.ctrl_align == if vstd::layout::align_of::<T>() > 16 {
            vstd::layout::align_of::<T>() as int
        } else {
            16
        },
        r.valid(),
{
}

/// The layout of a number of buckets: the elements come first, padded to the alignment, and a
/// control byte for each bucket and for each byte of a group behind them. There is none if
/// that is more than the largest allocation.
pub proof fn lemma_calculate_layout_for(
    table_layout: TableLayout,
    buckets: usize,
    r: Option<(Layout, usize)>,
)
    requires
        table_layout.valid(),
        is_pow2(buckets as int),
        call_ensures(TableLayout::calculate_layout_for, (table_layout, buckets), r),
    ensures
        ({
            let size = table_layout.size * buckets;
            let align = table_layout.ctrl_align as int;
            &&& r matches Some((layout, ctrl_offset)) ==> {
                &&& size <= ctrl_offset < size + align
                &&& ctrl_offset as int % align == 0
                &&& layout.size == ctrl_offset + buckets + 16
                &&& layout.align == align
                &&& layout.size + align - 1 <= isize::MAX
            }
            &&& r is None ==> size + buckets + 16 + 2 * (align - 1) > isize::MAX
        }),
{
    let size = table_layout.size as int;
    let b = buckets as int;
    math::lemma_pow2_positive(b);
    math::lemma_pow2_positive(table_layout.ctrl_align as int);
    assert(size * b >= 0) by (nonlinear_arith)
        requires
            size >= 0,
            b >= 0,
    ;
    layout::lemma_round_up(size * b, table_layout.ctrl_align as int);
}

/// The number of buckets for a capacity has room for it and is the smallest power of two that
/// has, from sixteen, eight or four up, by the size of the elements. There is none only if
/// eight times the capacity overflows.
pub proof fn lemma_capacity_to_buckets(cap: usize, table_layout: TableLayout, r: Option<usize>)
    requires
        cap > 0,
        table_layout.valid(),
        call_ensures(layout::capacity_to_buckets, (cap, table_layout), r),
    ensures
        r is None ==> 8 * cap > usize::MAX,
        8 * cap > usize::MAX && cap >= 15 ==> r is None,
        r matches Some(buckets) ==> {
            let fewest = if table_layout.size <= 1 {
                16
            } else if table_layout.size <= 3 {
                8
            } else {
                4int
            };
            &&& is_pow2(buckets as int)
            &&& buckets >= fewest
            &&& buckets <= 8 ==> cap <= buckets - 1
            &&& buckets > 8 ==> 8 * cap <= 7 * buckets
            &&& buckets == fewest || (if buckets <= 16 {
                cap > buckets / 2 - 1
            } else {
                8 * cap > 7 * (buckets / 2)
            })
        },
{
    if r is Some {
        let buckets = r->0 as int;
        assert(is_pow2(4) && is_pow2(8) && is_pow2(16)) by {
            reveal_with_fuel(is_pow2, 6);
        }
        layout::lemma_buckets_for(cap, table_layout);
        layout::lemma_buckets_for_is_smallest(cap, table_layout, buckets);
        if buckets > 8 {
            math::lemma_pow2_divides(8, buckets);
        }
        if buckets > layout::min_buckets(table_layout.size) {
            math::lemma_pow2_gap(layout::min_buckets(table_layout.size), buckets);
            math::lemma_pow2_half(buckets);
            if buckets > 16 {
                math::lemma_pow2_gap(16, buckets);
                math::lemma_pow2_divides(8, buckets / 2);
            } else {
                if 8 < buckets {
                    math::lemma_pow2_gap(8, buckets);
                }
            }
            if layout::capacity_of(buckets / 2) >= cap {
                layout::lemma_buckets_for_is_smallest(cap, table_layout, buckets / 2);
            }
        }
    }
}

/// The capacity of a table is one less than its buckets if these are few, and else seven
/// eighths of them.
pub proof fn lemma_bucket_mask_to_capacity(bucket_mask: usize, r: usize)
    requires
        bucket_mask < usize::MAX,
        call_ensures(layout::bucket_mask_to_capacity, (bucket_mask,), r),
    ensures
        bucket_mask < 8 ==> r == bucket_mask,
        bucket_mask >= 8 ==> r == ((bucket_mask + 1) / 8) * 7,
{
}

/// The most buckets in an allocation fit in it, and twice as many do not.
pub proof fn lemma_maximum_buckets_in(
    allocation_size: usize,
    table_layout: TableLayout,
    group_width: usize,
    r: usize,
)
    requires
        table_layout.valid(),
        exists|p: int| #[trigger]
            table_layout.fits_with(p, allocation_size as int, group_width as int),
        call_ensures(
            layout::maximum_buckets_in,
            (allocation_size, table_layout, group_width),
            r,
        ),
    ensures
        is_pow2(r as int),
        ({
            let align = table_layout.ctrl_align as int;
            let one = ((table_layout.size * r + align - 1) / align) * align + r + group_width;
            let two = ((table_layout.size * (2 * r) + align - 1) / align) * align + 2 * r
                + group_width;
            &&& one <= allocation_size
            &&& one + align - 1 <= isize::MAX
            &&& two > allocation_size || two + align - 1 > isize::MAX
        }),
{
    math::lemma_pow2_double(r as int);
    math::lemma_pow2_positive(r as int);
    if table_layout.fits_with(2 * r, allocation_size as int, group_width as int) {
        assert(2 * r <= r);
    }
}

/// Powers of two near a number.
pub proof fn lemma_powers_of_two(z: usize, below: usize, above: usize)
    requires
        z > 0,
        call_ensures(layout::prev_pow2, (z,), below),
        call_ensures(layout::next_power_of_two, (z,), above),
    ensures
        is_pow2(below as int),
        below <= z < 2 * below,
        is_pow2(above as int),
        above / 2 < z <= above,
{
    layout::lemma_next_pow2(z as nat);
    if above > 1 {
        math::lemma_pow2_half(above as int);
        if z <= above / 2 {
            assert(above <= (above / 2) as int);
        }
    }
}

/// The part of a hash that selects a bucket, and the part that is its tag: the seven bits at
/// the top of a machine word.
pub proof fn lemma_parts_of_a_hash(hash: u64, start: usize, tag: Tag)
    requires
        call_ensures(probe::h1, (hash,), start),
        call_ensures(Tag::full, (hash,), tag),
    ensures
        start == hash as usize,
        tag == Tag::Full(((hash >> ((usize::BITS - 7) as u64)) & 0x7f) as u8),
{
}

/// A group is searched byte by byte: each search marks just the bytes that it is for.
pub proof fn lemma_group_searches(
    group: &Group,
    tag: Tag,
    same: BitMask,
    empty: BitMask,
    free: BitMask,
    full: BitMask,
    i: u16,
)
    requires
        call_ensures(Group::match_tag, (group, tag), same),
        call_ensures(Group::match_empty, (group,), empty),
        call_ensures(Group::match_empty_or_deleted, (group,), free),
        call_ensures(Group::match_full, (group,), full),
        i < 16,
    ensures
        (same.0 >> i) & 1 == 1 <==> group.0@[i as int] == tag,
        (empty.0 >> i) & 1 == 1 <==> group.0@[i as int] == Tag::Empty,
        (free.0 >> i) & 1 == 1 <==> !(group.0@[i as int] is Full),
        (full.0 >> i) & 1 == 1 <==> group.0@[i as int] is Full,
{
    assert(same.bit(i as int) <==> group@[i as int] == tag);
    assert(empty.bit(i as int) <==> group@[i as int] == Tag::Empty);
    assert(free.bit(i as int) <==> !(group@[i as int] is Full));
    assert(full.bit(i as int) <==> group@[i as int] is Full);
}

/// Preparing a group for a rehash makes full bytes deleted and all others empty.
pub proof fn lemma_group_conversion(group: Group, r: Group, i: int)
    requires
        call_ensures(Group::convert_special_to_empty_and_full_to_deleted, (group,), r),
        0 <= i < 16,
    ensures
        r.0@[i] == if group.0@[i] is Full {
            Tag::Deleted
        } else {
            Tag::Empty
        },
{
    assert(r@[i] == if group@[i] is Full {
        Tag::Deleted
    } else {
        Tag::Empty
    });
}

/// The bits of a mask: whether any is set, the lowest one that is, and how many zeros are
/// below the lowest and above the highest one.
pub proof fn lemma_bits_of_a_mask(
    mask: BitMask,
    any: bool,
    lowest: Option<usize>,
    trailing: usize,
    leading: usize,
    i: u16,
)
    requires
        call_ensures(BitMask::any_bit_set, (mask,), any),
        call_ensures(BitMask::lowest_set_bit, (mask,), lowest),
        call_ensures(BitMask::trailing_zeros, (mask,), trailing),
        call_ensures(BitMask::leading_zeros, (mask,), leading),
        i < 16,
    ensures
        (mask.0 >> i) & 1 == 1 ==> any && lowest is Some && lowest->0 <= i && trailing <= i
            && leading <= 15 - i,
        any ==> lowest is Some && trailing < 16 && leading < 16,
        lowest matches Some(l) ==> any && l < 16 && trailing == l && (mask.0 >> (l as u16)) & 1
            == 1,
        lowest is None ==> !any && trailing == 16 && leading == 16,
        leading < 16 ==> any && (mask.0 >> ((15 - leading) as u16)) & 1 == 1,
{
    if (mask.0 >> i) & 1 == 1 {
        assert(mask.bit(i as int));
    }
    if any {
        let j = choose|j: int| mask.bit(j);
        assert(mask.bit(j));
    }
    if lowest is Some {
        assert(mask.bit(lowest->0 as int));
    }
    if trailing < 16 {
        assert(mask.bit(trailing as int));
    }
    if leading < 16 {
        assert(mask.bit(15 - leading));
    }
}

/// Stepping through a mask returns its lowest bit and clears just that one.
pub proof fn lemma_steps_through_a_mask(
    before: BitMaskIter,
    r: Option<usize>,
    after: BitMaskIter,
    i: u16,
)
    requires
        exists|m: &mut BitMaskIter|
            *m == before && *final(m) == after && #[trigger] call_ensures(
                BitMaskIter::next,
                (m,),
                r,
            ),
        i < 16,
    ensures
        r matches Some(l) ==> {
            &&& l < 16
            &&& (before.0.0 >> (l as u16)) & 1 == 1
            &&& i < l ==> (before.0.0 >> i) & 1 != 1
            &&& (after.0.0 >> i) & 1 == 1 <==> (before.0.0 >> i) & 1 == 1 && i != l
        },
        r is None ==> (before.0.0 >> i) & 1 != 1 && after == before,
{
    assert(before.0.bit(i as int) <==> (before.0.0 >> i) & 1 == 1);
    assert(after.0.bit(i as int) <==> (after.0.0 >> i) & 1 == 1);
    if r is Some {
        assert(before.0.bit(r->0 as int));
    }
}

} // verus!
