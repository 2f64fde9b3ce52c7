//! Tests of the capacity and layout computations.
use raw_table::allocator::{Layout, TryReserveError};
use raw_table::raw::bucket::Bucket;
use raw_table::raw::layout::{
    bucket_mask_to_capacity, capacity_to_buckets, maximum_buckets_in, next_power_of_two, prev_pow2,
    Fallibility, TableLayout,
};
use raw_table::raw::RawTable;

const WIDTH: usize = 16;

#[test]
fn test_prev_pow2() {
    // Skip 0, not defined for that input.
    let mut pow2: usize = 1;
    while (pow2 << 1) > 0 {
        let next_pow2 = pow2 << 1;
        assert_eq!(pow2, prev_pow2(pow2));
        // Need to skip 2, because it's also a power of 2, so it doesn't
        // return the previous power of 2.
        if next_pow2 > 2 {
            assert_eq!(pow2, prev_pow2(pow2 + 1));
            assert_eq!(pow2, prev_pow2(next_pow2 - 1));
        }
        pow2 = next_pow2;
    }
}

fn check_minimum_capacity<T>() {
    let raw_table: RawTable<T> = RawTable::with_capacity(1);
    let actual_buckets = raw_table.num_buckets();
    let min_buckets = WIDTH / size_of::<T>();
    assert!(
        actual_buckets >= min_buckets,
        "expected at least {min_buckets} buckets, got {actual_buckets} buckets"
    );
}

#[test]
fn test_minimum_capacity_for_small_types() {
    check_minimum_capacity::<u8>();
    check_minimum_capacity::<u16>();
}

#[test]
fn powers_of_two() {
    assert_eq!(next_power_of_two(0), 1);
    assert_eq!(next_power_of_two(1), 1);
    assert_eq!(next_power_of_two(17), 32);
    assert_eq!(next_power_of_two(32), 32);
    for x in 1..5000usize {
        assert_eq!(next_power_of_two(x), x.next_power_of_two());
    }
}

#[test]
fn table_layout_of_types() {
    assert_eq!(TableLayout::new::<u8>(), TableLayout { size: 1, ctrl_align: 16 });
    assert_eq!(TableLayout::new::<()>(), TableLayout { size: 0, ctrl_align: 16 });
    assert_eq!(TableLayout::new::<(u64, u64)>(), TableLayout { size: 16, ctrl_align: 16 });
    assert_eq!(TableLayout::new::<[u8; 9]>(), TableLayout { size: 9, ctrl_align: 16 });
}

#[test]
fn layouts_are_computed() {
    let bytes = TableLayout { size: 1, ctrl_align: 16 };
    assert_eq!(
        bytes.calculate_layout_for(16),
        Some((Layout { size: 48, align: 16 }, 16))
    );
    // The nine-byte elements of eight buckets are padded up to the alignment.
    let nine = TableLayout { size: 9, ctrl_align: 16 };
    assert_eq!(
        nine.calculate_layout_for(8),
        Some((Layout { size: 80 + 8 + 16, align: 16 }, 80))
    );
    let wide = TableLayout { size: 64, ctrl_align: 64 };
    assert_eq!(
        wide.calculate_layout_for(4),
        Some((Layout { size: 256 + 4 + 16, align: 64 }, 256))
    );
}

#[test]
fn layouts_that_overflow_are_refused() {
    let large = TableLayout { size: usize::MAX / 2, ctrl_align: 16 };
    assert_eq!(large.calculate_layout_for(4), None);
    let words = TableLayout { size: 8, ctrl_align: 16 };
    assert_eq!(words.calculate_layout_for(1 << 61), None);
    assert_eq!(words.calculate_layout_for(1 << 60), None);
    assert!(words.calculate_layout_for(1 << 58).is_some());
    let zero = TableLayout { size: 0, ctrl_align: 16 };
    assert_eq!(zero.calculate_layout_for(1 << 63), None);
    assert!(zero.calculate_layout_for(1 << 62).is_some());
}

#[test]
fn buckets_for_small_capacities() {
    let word = TableLayout { size: 8, ctrl_align: 16 };
    for (cap, buckets) in [(1, 4), (3, 4), (4, 8), (7, 8), (8, 16), (14, 16), (15, 32), (28, 32), (29, 64)] {
        assert_eq!(capacity_to_buckets(cap, word), Some(buckets));
    }
    // Small elements start with more buckets.
    assert_eq!(capacity_to_buckets(1, TableLayout { size: 1, ctrl_align: 16 }), Some(16));
    assert_eq!(capacity_to_buckets(1, TableLayout { size: 0, ctrl_align: 16 }), Some(16));
    assert_eq!(capacity_to_buckets(1, TableLayout { size: 2, ctrl_align: 16 }), Some(8));
    assert_eq!(capacity_to_buckets(1, TableLayout { size: 3, ctrl_align: 16 }), Some(8));
    assert_eq!(capacity_to_buckets(1, TableLayout { size: 4, ctrl_align: 16 }), Some(4));
}

#[test]
fn buckets_for_huge_capacities() {
    let word = TableLayout { size: 8, ctrl_align: 16 };
    assert_eq!(capacity_to_buckets(usize::MAX, word), None);
    assert_eq!(capacity_to_buckets(usize::MAX / 8 + 1, word), None);
    assert_eq!(capacity_to_buckets(usize::MAX / 8, word), Some(1 << 62));
}

#[test]
fn capacity_of_masks() {
    assert_eq!(bucket_mask_to_capacity(0), 0);
    assert_eq!(bucket_mask_to_capacity(3), 3);
    assert_eq!(bucket_mask_to_capacity(7), 7);
    assert_eq!(bucket_mask_to_capacity(15), 14);
    assert_eq!(bucket_mask_to_capacity(31), 28);
    assert_eq!(bucket_mask_to_capacity(1023), 896);
}

#[test]
fn chosen_buckets_admit_the_capacity() {
    for size in [0, 1, 2, 3, 4, 8, 24, 100] {
        let layout = TableLayout { size, ctrl_align: 16 };
        for cap in 1..3000 {
            let buckets = capacity_to_buckets(cap, layout).unwrap();
            assert!(bucket_mask_to_capacity(buckets - 1) >= cap);
            assert!(size == 0 || size * buckets >= 16);
        }
    }
}

#[test]
fn the_largest_table_fits_its_block() {
    let nine = TableLayout { size: 9, ctrl_align: 16 };
    // Eight buckets need 104 bytes because of the padding.
    assert_eq!(maximum_buckets_in(103, nine, WIDTH), 4);
    assert_eq!(maximum_buckets_in(104, nine, WIDTH), 8);
    let word = TableLayout { size: 8, ctrl_align: 16 };
    assert_eq!(maximum_buckets_in(52, word, WIDTH), 4);
    assert_eq!(maximum_buckets_in(87, word, WIDTH), 4);
    assert_eq!(maximum_buckets_in(88, word, WIDTH), 8);
    for size in [0, 1, 3, 5, 7, 9, 16, 40] {
        let layout = TableLayout { size, ctrl_align: 16 };
        for bytes in 300..2000 {
            let buckets = maximum_buckets_in(bytes, layout, WIDTH);
            assert!(layout.calculate_layout_for(buckets).unwrap().0.size <= bytes);
            assert!(layout.calculate_layout_for(2 * buckets).unwrap().0.size > bytes);
        }
    }
}

#[test]
fn fallible_errors() {
    let layout = Layout { size: 48, align: 16 };
    assert_eq!(
        Fallibility::Fallible.capacity_overflow(),
        TryReserveError::CapacityOverflow
    );
    assert_eq!(
        Fallibility::Fallible.alloc_err(layout),
        TryReserveError::AllocError { layout }
    );
}

#[test]
fn bucket_addresses() {
    let bucket: Bucket<u64> = Bucket::from_base_index(320, 3);
    assert_eq!(bucket.ptr, 296);
    assert_eq!(bucket.as_ptr(), 288);
    assert_eq!(bucket.to_base_index(320), 3);
    assert_eq!(bucket.next_n(5).to_base_index(320), 8);
    assert_eq!(bucket.clone().ptr, bucket.ptr);
    // Elements without a size are told apart by their index.
    let bucket: Bucket<()> = Bucket::from_base_index(0, 3);
    assert_eq!(bucket.ptr, 4);
    assert_eq!(bucket.as_ptr(), 1);
    assert_eq!(bucket.to_base_index(0), 3);
    assert_eq!(bucket.next_n(2).to_base_index(0), 5);
}

#[test]
fn buckets_do_not_overlap() {
    for i in 0..8usize {
        let bucket: Bucket<[u8; 24]> = Bucket::from_base_index(192, i);
        assert_eq!(bucket.as_ptr(), 192 - 24 * (i + 1));
        assert_eq!(bucket.as_ptr() + 24, bucket.ptr);
        assert_eq!(bucket.to_base_index(192), i);
    }
}

#[test]
fn moderate_capacities_fit() {
    for size in [0, 1, 8, 100, 4096] {
        let layout = TableLayout { size, ctrl_align: 16 };
        for cap in [1, 14, 15, 1000, 1 << 20, 1 << 30] {
            let buckets = capacity_to_buckets(cap, layout).unwrap();
            assert!(buckets <= 4 * cap + 16);
            assert!(layout.calculate_layout_for(buckets).is_some());
        }
    }
}

#[test]
fn the_group_width_counts_in_the_block() {
    let word = TableLayout { size: 8, ctrl_align: 16 };
    assert_eq!(maximum_buckets_in(80, word, 8), 8);
    assert_eq!(maximum_buckets_in(79, word, 8), 4);
    assert_eq!(maximum_buckets_in(76, word, 4), 8);
    let five = TableLayout { size: 5, ctrl_align: 16 };
    assert_eq!(maximum_buckets_in(64, five, WIDTH), 4);
    assert_eq!(maximum_buckets_in(72, five, WIDTH), 8);
}
