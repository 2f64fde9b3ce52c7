//! Tests of growth: what a failure leaves of a table.
use raw_table::allocator::{AllocError, Allocator, Block, Global, Layout, TryReserveError};
use raw_table::raw::growth::GrowthError;
use raw_table::raw::layout::Fallibility;
use raw_table::raw::RawTable;
use std::cell::Cell;
use std::rc::Rc;

/// Counts the number of live instances, so tests can detect double drops
/// and leaks.
struct DropTag(Rc<Cell<usize>>);

impl DropTag {
    fn new(live: &Rc<Cell<usize>>) -> Self {
        live.set(live.get() + 1);
        Self(live.clone())
    }
}

impl Drop for DropTag {
    fn drop(&mut self) {
        self.0.set(self.0.get() - 1);
    }
}

/// A hash function state that gives up on the Nth call.
struct FailOnNthCall {
    calls: Cell<usize>,
    fail_at: usize,
}

impl FailOnNthCall {
    fn new(fail_at: usize) -> Self {
        Self { calls: Cell::new(0), fail_at }
    }

    fn check(&self) -> Option<()> {
        let call = self.calls.get();
        self.calls.set(call + 1);
        if call == self.fail_at {
            None
        } else {
            Some(())
        }
    }
}

/// Builds a table of 100 `(u64, DropTag)` elements with 60 tombstones.
fn build_table_with_tombstones(live: &Rc<Cell<usize>>) -> RawTable<(u64, DropTag)> {
    let mut table = RawTable::new();
    for i in 0..100u64 {
        table.insert(i, (i, DropTag::new(live)), |e: &(u64, DropTag)| e.0);
    }
    for i in 0..60u64 {
        let removed = table.remove_entry(i, |e: &(u64, DropTag)| e.0 == i);
        assert_eq!(removed.map(|(k, _)| k), Some(i));
    }
    assert_eq!(table.len(), 40);
    table
}

/// If the hash function gives up while the growth transaction migrates elements into
/// the new table, the transaction must roll back and leave the original table
/// completely untouched.
#[test]
fn resize_hasher_panic_rolls_back_to_original_table() {
    for panic_at in 0..100 {
        let live = Rc::new(Cell::new(0));
        let mut table = RawTable::new();
        for i in 0..100u64 {
            table.insert(i, (i, DropTag::new(&live)), |e: &(u64, DropTag)| e.0);
        }
        let capacity_before = table.capacity();
        let buckets_before = table.num_buckets();

        let state = FailOnNthCall::new(panic_at);
        // Force a resize (not an in-place rehash) whose migration
        // gives up on the Nth hash call.
        let result = table.reserve_rehash(
            250,
            &|e: &(u64, DropTag)| {
                state.check()?;
                Some(e.0)
            },
            Fallibility::Infallible,
        );
        assert_eq!(result, Err(GrowthError::HashFailed), "the migration should stop on call {panic_at}");

        // The original table is preserved: same shape, same elements,
        // and no element was dropped or leaked by the rollback.
        assert_eq!(table.len(), 100);
        assert_eq!(table.capacity(), capacity_before);
        assert_eq!(table.num_buckets(), buckets_before);
        assert_eq!(live.get(), 100);
        for i in 0..100u64 {
            assert!(table.find(i, |e: &(u64, DropTag)| e.0 == i).is_some());
        }

        drop(table);
        assert_eq!(live.get(), 0);
    }
}

/// If the hash function gives up during an in-place rehash, exactly the elements that
/// have not been rehashed yet must be reclaimed - no double drops, no leaks.
#[test]
fn rehash_in_place_hasher_panic_reclaims_unmoved_elements() {
    // Count the number of hash calls of a clean rehash run.
    let live = Rc::new(Cell::new(0));
    let total_calls = {
        let mut table = build_table_with_tombstones(&live);
        let calls = Cell::new(0usize);
        let result = table.table.rehash_in_place(&|e: &(u64, DropTag)| {
            calls.set(calls.get() + 1);
            Some(e.0)
        });
        assert!(result.is_ok());
        assert_eq!(table.len(), 40);
        drop(table);
        assert_eq!(live.get(), 0);
        calls.get()
    };
    assert!(total_calls >= 40);

    for panic_at in 0..total_calls {
        let live = Rc::new(Cell::new(0));
        let mut table = build_table_with_tombstones(&live);
        let state = FailOnNthCall::new(panic_at);
        let result = table.table.rehash_in_place(&|e: &(u64, DropTag)| {
            state.check()?;
            Some(e.0)
        });
        assert!(result.is_err(), "the rehash should stop on call {panic_at}");

        // The elements that were not rehashed in time have been reclaimed:
        // the live count matches the table length and every survivor is
        // still findable.
        let remaining = table.len();
        assert_eq!(live.get(), remaining);
        let mut found = 0;
        for i in 0..100u64 {
            if table.find(i, |e: &(u64, DropTag)| e.0 == i).is_some() {
                found += 1;
            }
        }
        assert_eq!(found, remaining);

        drop(table);
        assert_eq!(live.get(), 0);
    }
}

/// An allocator that starts failing once the shared allocation counter
/// reaches the shared limit.
#[derive(Clone)]
struct FailAfterN {
    allocs: Rc<Cell<usize>>,
    fail_at: Rc<Cell<usize>>,
}

impl Allocator for FailAfterN {
    fn allocate(&self, layout: Layout) -> Result<Block, AllocError> {
        let count = self.allocs.get();
        self.allocs.set(count + 1);
        if count >= self.fail_at.get() {
            return Err(AllocError);
        }
        Global.allocate(layout)
    }

    fn deallocate(&self, block: Block, layout: Layout) {
        Global.deallocate(block, layout)
    }
}

/// If the allocation of the replacement table fails, the growth transaction never
/// starts and the original table is left completely untouched.
#[test]
fn alloc_failure_preserves_original_table() {
    let allocs = Rc::new(Cell::new(0));
    let fail_at = Rc::new(Cell::new(usize::MAX));
    let alloc = FailAfterN { allocs: allocs.clone(), fail_at: fail_at.clone() };

    let mut table = RawTable::new_in(alloc);
    for i in 0..50u64 {
        table.insert(i, i, |k: &u64| *k);
    }
    let capacity_before = table.capacity();
    let buckets_before = table.num_buckets();

    // The next allocation (the replacement table of the growth
    // transaction) fails.
    fail_at.set(allocs.get());
    let result = table.try_reserve(500, |k: &u64| *k);
    assert!(result.is_err());

    // The original table is preserved.
    assert_eq!(table.len(), 50);
    assert_eq!(table.capacity(), capacity_before);
    assert_eq!(table.num_buckets(), buckets_before);
    for i in 0..50u64 {
        assert!(table.find(i, |k: &u64| *k == i).is_some());
    }

    // With the failure disarmed, the same reserve succeeds.
    fail_at.set(usize::MAX);
    assert!(table.try_reserve(500, |k: &u64| *k).is_ok());
    for i in 0..50u64 {
        assert!(table.find(i, |k: &u64| *k == i).is_some());
    }
}

#[test]
fn try_reserve_reports_its_errors() {
    let mut table: RawTable<u64> = RawTable::new();
    table.insert(1, 1, |k: &u64| *k);
    assert_eq!(
        table.try_reserve(usize::MAX, |k: &u64| *k),
        Err(TryReserveError::CapacityOverflow)
    );
    assert_eq!(
        table.try_reserve(usize::MAX / 16, |k: &u64| *k),
        Err(TryReserveError::CapacityOverflow)
    );
    // This fits in the address space, but not in the memory of any machine.
    assert_eq!(
        table.try_reserve(1 << 55, |k: &u64| *k),
        Err(TryReserveError::AllocError {
            layout: Layout { size: (1 << 59) + (1 << 56) + 16, align: 16 }
        })
    );
    assert_eq!(table.len(), 1);
    assert!(table.get(1, |k: &u64| *k == 1).is_some());
}

#[test]
fn refused_blocks_are_reported_with_their_layout() {
    let alloc = FailAfterN { allocs: Rc::new(Cell::new(0)), fail_at: Rc::new(Cell::new(0)) };
    let mut table: RawTable<u64, FailAfterN> = RawTable::new_in(alloc);
    assert_eq!(
        table.try_reserve(1, |k: &u64| *k),
        Err(TryReserveError::AllocError { layout: Layout { size: 32 + 4 + 16, align: 16 } })
    );
    assert_eq!(table.num_buckets(), 1);
    let failed: Result<RawTable<u64, FailAfterN>, TryReserveError> = RawTable::new_uninitialized(
        FailAfterN { allocs: Rc::new(Cell::new(0)), fail_at: Rc::new(Cell::new(0)) },
        8,
        Fallibility::Fallible,
    );
    assert_eq!(
        failed.err(),
        Some(TryReserveError::AllocError { layout: Layout { size: 64 + 8 + 16, align: 16 } })
    );
    let overflow: Result<RawTable<u64>, TryReserveError> =
        RawTable::new_uninitialized(Global, 1 << 62, Fallibility::Fallible);
    assert_eq!(overflow.err(), Some(TryReserveError::CapacityOverflow));
}

/// An allocator that keeps count of the bytes that it granted, in blocks larger than
/// what it is asked for.
#[derive(Clone)]
struct Generous {
    extra: usize,
    granted: Rc<Cell<usize>>,
    blocks: Rc<Cell<usize>>,
}

impl Generous {
    fn new(extra: usize) -> Self {
        Self { extra, granted: Rc::new(Cell::new(0)), blocks: Rc::new(Cell::new(0)) }
    }
}

impl Allocator for Generous {
    fn allocate(&self, layout: Layout) -> Result<Block, AllocError> {
        let len = layout.size + self.extra;
        self.granted.set(self.granted.get() + len);
        self.blocks.set(self.blocks.get() + 1);
        Ok(Block::new(layout, len))
    }

    fn deallocate(&self, block: Block, layout: Layout) {
        assert!(layout.size <= block.len());
        self.granted.set(self.granted.get() - block.len());
        self.blocks.set(self.blocks.get() - 1);
    }
}

#[test]
fn oversized_blocks_are_used() {
    let alloc = Generous::new(100);
    let mut table: RawTable<u64, Generous> = RawTable::with_capacity_in(3, alloc.clone());
    // Four buckets need 52 bytes, and eight of them 88; the block has 152.
    assert_eq!(table.num_buckets(), 8);
    assert_eq!(table.capacity(), 7);
    assert_eq!(table.allocation_size(), 88);
    for i in 0..200u64 {
        table.insert(i, i, |k: &u64| *k);
    }
    for i in 0..200u64 {
        assert_eq!(table.get(i, |k: &u64| *k == i), Some(&i));
    }
    assert_eq!(alloc.blocks.get(), 1);
    // A clone has exactly as many buckets, whatever the allocator grants.
    let mut copy = table.clone();
    assert_eq!(copy.num_buckets(), table.num_buckets());
    assert_eq!(copy.len(), 200);
    assert_eq!(alloc.blocks.get(), 2);
    copy.drop();
    table.drop();
    assert_eq!(alloc.blocks.get(), 0);
    assert_eq!(alloc.granted.get(), 0);
}

#[test]
fn padding_counts_in_oversized_blocks() {
    // Four buckets of nine bytes need 68 bytes, and eight of them 104.
    for (extra, buckets) in [(0, 4), (35, 4), (36, 8)] {
        let alloc = Generous::new(extra);
        let mut table: RawTable<[u8; 9], Generous> = RawTable::with_capacity_in(1, alloc.clone());
        assert_eq!(table.num_buckets(), buckets);
        table.drop();
        assert_eq!(alloc.blocks.get(), 0);
    }
}

#[test]
fn every_block_is_given_back() {
    let alloc = Generous::new(0);
    let mut table: RawTable<u64, Generous> = RawTable::new_in(alloc.clone());
    assert_eq!(alloc.blocks.get(), 0);
    for i in 0..500u64 {
        table.insert(i, i, |k: &u64| *k);
    }
    assert_eq!(alloc.blocks.get(), 1);
    table.shrink_to(600, |k: &u64| *k);
    assert_eq!(alloc.blocks.get(), 1);
    table.clear();
    assert_eq!(alloc.blocks.get(), 1);
    table.shrink_to(20, |k: &u64| *k);
    assert_eq!(alloc.blocks.get(), 1);
    assert_eq!(table.num_buckets(), 32);
    table.shrink_to(0, |k: &u64| *k);
    assert_eq!(alloc.blocks.get(), 0);
    assert_eq!(table.num_buckets(), 1);
    assert_eq!(table.allocation_size(), 0);
    for i in 0..10u64 {
        table.insert(i, i, |k: &u64| *k);
    }
    let mut iter = table.into_iter();
    assert!(iter.next().is_some());
    assert_eq!(alloc.blocks.get(), 1);
    iter.drop();
    assert_eq!(alloc.blocks.get(), 0);
}

#[test]
fn into_allocation_hands_over_the_block() {
    let mut table: RawTable<u64> = RawTable::new();
    assert!(RawTable::<u64>::new().into_allocation().is_none());
    table.insert(1, 1, |k: &u64| *k);
    let (block, layout, _) = table.into_allocation().unwrap();
    assert_eq!(block.len(), 52);
    assert_eq!(layout, Layout { size: 52, align: 16 });
}

#[test]
fn reserve_makes_room() {
    let mut table: RawTable<u64> = RawTable::new();
    table.reserve(0, |k: &u64| *k);
    assert_eq!(table.num_buckets(), 1);
    table.reserve(100, |k: &u64| *k);
    assert_eq!(table.num_buckets(), 128);
    assert_eq!(table.capacity(), 112);
    for i in 0..112u64 {
        table.insert(i, i, |k: &u64| *k);
        assert_eq!(table.num_buckets(), 128);
    }
    table.insert(112, 112, |k: &u64| *k);
    assert_eq!(table.num_buckets(), 256);
}

#[test]
fn tombstones_are_cleared_in_place() {
    let mut table: RawTable<u64> = RawTable::new();
    for i in 0..112u64 {
        table.insert(i, i, |k: &u64| *k);
    }
    assert_eq!(table.num_buckets(), 128);
    for i in 0..100u64 {
        assert_eq!(table.remove_entry(i, |k: &u64| *k == i), Some(i));
    }
    assert!(table.capacity() < 112);
    table.reserve(40, |k: &u64| *k);
    // Twelve elements and forty more are less than half of the capacity.
    assert_eq!(table.num_buckets(), 128);
    assert_eq!(table.capacity(), 112);
    for i in 100..112u64 {
        assert_eq!(table.get(i, |k: &u64| *k == i), Some(&i));
    }
}

#[test]
fn resize_moves_the_contents() {
    let mut table: RawTable<u64> = RawTable::new();
    for i in 0..20u64 {
        table.insert(i, i, |k: &u64| *k);
    }
    assert_eq!(table.resize(100, &|k: &u64| Some(*k), Fallibility::Fallible), Ok(()));
    assert_eq!(table.num_buckets(), 128);
    assert_eq!(table.len(), 20);
    for i in 0..20u64 {
        assert_eq!(table.get(i, |k: &u64| *k == i), Some(&i));
    }
    assert_eq!(
        table.resize(usize::MAX, &|k: &u64| Some(*k), Fallibility::Fallible),
        Err(GrowthError::Reserve(TryReserveError::CapacityOverflow))
    );
    assert_eq!(
        table.resize(20, &|_: &u64| None, Fallibility::Fallible),
        Err(GrowthError::HashFailed)
    );
    assert_eq!(table.num_buckets(), 128);
    assert_eq!(table.len(), 20);
}

#[test]
fn shrink_keeps_the_elements() {
    let mut table: RawTable<u64> = RawTable::with_capacity(1000);
    for i in 0..20u64 {
        table.insert(i, i, |k: &u64| *k);
    }
    assert_eq!(table.num_buckets(), 2048);
    table.shrink_to(3000, |k: &u64| *k);
    assert_eq!(table.num_buckets(), 2048);
    table.shrink_to(usize::MAX, |k: &u64| *k);
    assert_eq!(table.num_buckets(), 2048);
    table.shrink_to(100, |k: &u64| *k);
    assert_eq!(table.num_buckets(), 128);
    table.shrink_to(0, |k: &u64| *k);
    assert_eq!(table.num_buckets(), 32);
    assert_eq!(table.len(), 20);
    for i in 0..20u64 {
        assert_eq!(table.get(i, |k: &u64| *k == i), Some(&i));
    }
}

#[test]
fn shrinking_reports_its_errors() {
    let allocs = Rc::new(Cell::new(0));
    let fail_at = Rc::new(Cell::new(usize::MAX));
    let alloc = FailAfterN { allocs: allocs.clone(), fail_at: fail_at.clone() };
    let mut table: RawTable<u64, FailAfterN> = RawTable::new_in(alloc);
    table.reserve(1000, |k: &u64| *k);
    for i in 0..20u64 {
        table.insert(i, i, |k: &u64| *k);
    }
    assert_eq!(table.num_buckets(), 2048);
    fail_at.set(allocs.get());
    assert_eq!(
        table.shrink_rehash(0, &|k: &u64| Some(*k), Fallibility::Fallible),
        Err(GrowthError::Reserve(TryReserveError::AllocError {
            layout: Layout { size: 256 + 32 + 16, align: 16 }
        }))
    );
    fail_at.set(usize::MAX);
    let give_up = |k: &u64| if *k == 13 { None } else { Some(*k) };
    assert_eq!(
        table.shrink_rehash(0, &give_up, Fallibility::Fallible),
        Err(GrowthError::HashFailed)
    );
    assert_eq!((table.num_buckets(), table.len()), (2048, 20));
    assert_eq!(table.shrink_rehash(0, &|k: &u64| Some(*k), Fallibility::Fallible), Ok(()));
    assert_eq!((table.num_buckets(), table.len()), (32, 20));
    for i in 0..20u64 {
        assert_eq!(table.get(i, |k: &u64| *k == i), Some(&i));
    }
}

#[test]
fn rehashed_elements_survive_a_hash_that_fails() {
    // Every element is at home in its bucket, so the elements in front of the one that
    // fails stay.
    let mut table: RawTable<u64> = RawTable::with_capacity(14);
    for i in 0..10u64 {
        table.insert(i, i, |k: &u64| *k);
    }
    let give_up = |k: &u64| if *k == 6 { None } else { Some(*k) };
    assert!(table.table.rehash_in_place(&give_up).is_err());
    assert_eq!(table.len(), 6);
    assert_eq!(table.capacity(), 14);
    for i in 0..10u64 {
        assert_eq!(table.get(i, |k: &u64| *k == i).is_some(), i < 6);
    }
}

#[test]
fn there_is_always_an_empty_bucket() {
    let mut table: RawTable<u64> = RawTable::new();
    for i in 0..2000u64 {
        table.insert(i, i, |k: &u64| *k);
        assert!(table.len() <= table.capacity());
        assert!(table.capacity() < table.num_buckets());
        if i % 3 == 0 {
            table.remove_entry(i, |k: &u64| *k == i);
        }
    }
}

#[test]
fn growth_swaps_blocks() {
    let alloc = Generous::new(0);
    let mut table: RawTable<u64, Generous> = RawTable::new_in(alloc.clone());
    for i in 0..100u64 {
        table.insert(i, i, |k: &u64| *k);
        assert_eq!(alloc.blocks.get(), 1);
        assert_eq!(alloc.granted.get(), table.allocation_size());
    }
    // A growth that is rolled back gives the new block back.
    let give_up = |k: &u64| if *k == 99 { None } else { Some(*k) };
    let result = table.reserve_rehash(500, &give_up, Fallibility::Fallible);
    assert_eq!(result, Err(GrowthError::HashFailed));
    assert_eq!((alloc.blocks.get(), table.num_buckets()), (1, 128));
    assert_eq!(alloc.granted.get(), table.allocation_size());
    // A copy over a table of another size gives the old block back.
    let mut other: RawTable<u64, Generous> = RawTable::with_capacity_in(7, alloc.clone());
    assert_eq!(alloc.blocks.get(), 2);
    other.clone_from(&table);
    assert_eq!(alloc.blocks.get(), 2);
    assert_eq!(alloc.granted.get(), 2 * table.allocation_size());
    other.clone_from(&RawTable::new_in(alloc.clone()));
    assert_eq!(alloc.blocks.get(), 1);
    table.drop();
    assert_eq!((alloc.blocks.get(), alloc.granted.get()), (0, 0));
}

#[test]
fn cloning_reports_a_refusal() {
    let allocs = Rc::new(Cell::new(0));
    let fail_at = Rc::new(Cell::new(usize::MAX));
    let alloc = FailAfterN { allocs: allocs.clone(), fail_at: fail_at.clone() };
    let mut source: RawTable<u64, FailAfterN> = RawTable::new_in(alloc.clone());
    for i in 0..20u64 {
        source.insert(i, i, |k: &u64| *k);
    }
    let mut table: RawTable<u64, FailAfterN> = RawTable::with_capacity_in(3, alloc);
    table.insert(7, 7, |k: &u64| *k);
    fail_at.set(allocs.get());
    assert_eq!(
        table.try_clone_from(&source, Fallibility::Fallible),
        Err(TryReserveError::AllocError { layout: Layout { size: 256 + 32 + 16, align: 16 } })
    );
    assert_eq!((table.num_buckets(), table.len(), table.capacity()), (4, 0, 3));
    fail_at.set(usize::MAX);
    assert_eq!(table.try_clone_from(&source, Fallibility::Fallible), Ok(()));
    assert_eq!((table.num_buckets(), table.len()), (32, 20));
    // A table with as many buckets needs no memory.
    fail_at.set(allocs.get());
    assert_eq!(table.try_clone_from(&source, Fallibility::Fallible), Ok(()));
    assert_eq!(table.len(), 20);
}

#[test]
fn default_tables_have_exact_bucket_counts() {
    let mut table: RawTable<u64> = RawTable::new();
    table.insert(1, 1, |k: &u64| *k);
    assert_eq!(table.try_reserve(usize::MAX, |k: &u64| *k), Err(TryReserveError::CapacityOverflow));
    assert_eq!((table.len(), table.capacity(), table.num_buckets()), (1, 3, 4));
    let table: RawTable<u64> = RawTable::with_capacity(28);
    assert_eq!(table.num_buckets(), 32);
    // Groups start at the probe position, unaligned, and wrap.
    assert!(!table.table.is_in_same_group(15, 16, 0));
    assert!(table.table.is_in_same_group(15, 16, 15));
    assert!(table.table.is_in_same_group(31, 0, 31));
    for (additional, buckets, capacity) in [(16, 128, 112), (17, 256, 224)] {
        let mut table: RawTable<u64> = RawTable::new();
        for i in 0..100u64 {
            table.insert(i, i, |k: &u64| *k);
        }
        for i in 0..60u64 {
            assert_eq!(table.remove_entry(i, |k: &u64| *k == i), Some(i));
        }
        assert_eq!(table.remove_entry(0, |k: &u64| *k == 0), None);
        assert_eq!((table.num_buckets(), table.capacity(), table.len()), (128, 52, 40));
        table.reserve(additional, |k: &u64| *k);
        assert_eq!((table.num_buckets(), table.capacity(), table.len()), (buckets, capacity, 40));
    }
    let mut table: RawTable<u64> = RawTable::with_capacity(28);
    for i in 16..32u64 {
        table.insert(i, i, |k: &u64| *k);
    }
    table.insert(48, 48, |k: &u64| *k);
    assert!(table.table.rehash_in_place(&|k: &u64| Some(*k)).is_ok());
    assert_eq!((table.len(), table.capacity(), table.num_buckets()), (17, 28, 32));
    for k in (16..32u64).chain(48..49) {
        assert_eq!(table.get(k, |x: &u64| *x == k), Some(&k));
    }
}

#[test]
fn growth_fills_the_slots_in_bucket_order() {
    let mut table: RawTable<(u64, u64)> = RawTable::with_capacity(14);
    for i in 0..10u64 {
        table.insert(3, (3, i), |e: &(u64, u64)| e.0);
    }
    table.insert(3 + 32, (3 + 32, 10), |e: &(u64, u64)| e.0);
    assert_eq!(table.resize(28, &|e: &(u64, u64)| Some(e.0), Fallibility::Fallible), Ok(()));
    for i in 0..11usize {
        assert_eq!(table.get_bucket(3 + i).map(|e| e.1), Some(i as u64));
    }
    assert_eq!(table.resize(112, &|e: &(u64, u64)| Some(e.0), Fallibility::Fallible), Ok(()));
    for i in 0..10usize {
        assert_eq!(table.get_bucket(3 + i).map(|e| e.1), Some(i as u64));
    }
    assert_eq!(table.get_bucket(35), Some(&(35, 10)));
}

#[test]
fn an_in_place_rehash_keeps_elements_in_their_group() {
    let mut table: RawTable<u64> = RawTable::with_capacity(28);
    // The last of these finds its group full, and goes into the next one.
    for i in 0..17u64 {
        table.insert(0, i, |_: &u64| 0);
    }
    for i in 0..3u64 {
        table.remove_entry(0, |x: &u64| *x == i);
    }
    assert!(table.table.rehash_in_place(&|_: &u64| Some(0)).is_ok());
    // It moves into the first bucket; the others stay.
    assert_eq!(table.get_bucket(0), Some(&16));
    for i in 3..16usize {
        assert_eq!(table.get_bucket(i), Some(&(i as u64)));
    }
    assert_eq!((table.len(), table.capacity()), (14, 28));
}
