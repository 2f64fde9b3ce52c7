//! Tests of the table as a whole: lookup, insertion, removal and cloning.
use raw_table::allocator::Global;
use raw_table::control::Tag;
use raw_table::raw::layout::Fallibility;
use raw_table::raw::RawTable;
use std::cell::{Cell, RefCell};
use std::rc::Rc;

const WIDTH: usize = 16;

#[test]
fn rehash() {
    let mut table = RawTable::new();
    let hasher = |i: &u64| *i;
    for i in 0..100 {
        table.insert(i, i, hasher);
    }

    for i in 0..100u64 {
        assert_eq!(
            table.find(i, |x: &u64| *x == i).map(|b| *b.as_ref(&table.table)),
            Some(i)
        );
        assert!(table.find(i + 100, |x: &u64| *x == i + 100).is_none());
    }

    assert!(table.table.rehash_in_place(&|i: &u64| Some(hasher(i))).is_ok());

    for i in 0..100u64 {
        assert_eq!(
            table.find(i, |x: &u64| *x == i).map(|b| *b.as_ref(&table.table)),
            Some(i)
        );
        assert!(table.find(i + 100, |x: &u64| *x == i + 100).is_none());
    }
}

/// A table whose buckets were never filled can be dropped.
#[test]
fn test_drop_uninitialized() {
    let table = RawTable::<(u64, Vec<i32>)>::new_uninitialized(Global, 8, Fallibility::Infallible)
        .unwrap();
    assert_eq!(table.num_buckets(), 8);
    drop(table);
    let mut table =
        RawTable::<(u64, Vec<i32>)>::new_uninitialized(Global, 8, Fallibility::Infallible).unwrap();
    table.drop();
    assert_eq!(table.num_buckets(), 1);
}

/// We don't try to drop data if the `items` are zero, even if there are full control
/// bytes.
#[test]
fn test_drop_zero_items() {
    let mut table =
        RawTable::<(u64, Vec<i32>)>::new_uninitialized(Global, 8, Fallibility::Infallible).unwrap();

    // We simulate, as it were, a full table.
    for i in 0..table.capacity() {
        table.table.ctrl[i] = Tag::Full(0);
    }
    // Fix up the trailing control bytes.
    let buckets = table.num_buckets();
    if buckets < WIDTH {
        for i in 0..buckets {
            table.table.ctrl[WIDTH + i] = table.table.ctrl[i];
        }
    } else {
        for i in 0..WIDTH {
            table.table.ctrl[buckets + i] = table.table.ctrl[i];
        }
    }
    table.drop();
    assert_eq!(table.num_buckets(), 1);
}

#[test]
fn an_empty_table_has_nothing() {
    let table: RawTable<u64> = RawTable::new();
    assert_eq!(table.len(), 0);
    assert!(table.is_empty());
    assert_eq!(table.capacity(), 0);
    assert_eq!(table.num_buckets(), 1);
    assert!(table.find(0, |_: &u64| true).is_none());
    assert!(table.get(u64::MAX, |_: &u64| true).is_none());
    assert!(table.get_bucket(0).is_none());
    assert!(table.checked_bucket(0).is_none());
    assert!(!table.is_bucket_full(0));
}

#[test]
fn insert_and_find() {
    let mut table: RawTable<u64> = RawTable::new();
    for i in 0..1000u64 {
        let bucket = table.insert(i, i, |x: &u64| *x);
        assert_eq!(*bucket.as_ref(&table.table), i);
        assert_eq!(table.len(), i as usize + 1);
    }
    for i in 0..1000u64 {
        assert_eq!(table.get(i, |x: &u64| *x == i), Some(&i));
    }
    assert!(table.get(1001, |x: &u64| *x == 1001).is_none());
}

#[test]
fn colliding_hashes_are_told_apart() {
    let mut table: RawTable<u64> = RawTable::new();
    for i in 0..300u64 {
        table.insert(42, i, |_: &u64| 42);
    }
    for i in 0..300u64 {
        assert_eq!(table.get(42, |x: &u64| *x == i), Some(&i));
    }
    for i in (0..300u64).step_by(2) {
        assert_eq!(table.remove_entry(42, |x: &u64| *x == i), Some(i));
    }
    for i in 0..300u64 {
        assert_eq!(table.get(42, |x: &u64| *x == i).is_some(), i % 2 == 1);
    }
}

#[test]
fn the_first_match_in_probe_order_is_found() {
    let mut table: RawTable<(u64, u64)> = RawTable::with_capacity(14);
    assert_eq!(table.num_buckets(), 16);
    // The hash selects bucket three, and the buckets behind it follow.
    for i in 0..5u64 {
        let bucket = table.insert(3, (3, i), |e: &(u64, u64)| e.0);
        assert_eq!(table.bucket_index(&bucket), 3 + i as usize);
    }
    assert_eq!(table.get(3, |_: &(u64, u64)| true), Some(&(3, 0)));
    let first = table.find(3, |_: &(u64, u64)| true).unwrap();
    assert_eq!(table.remove(first), ((3, 0), 3));
    assert_eq!(table.get(3, |_: &(u64, u64)| true), Some(&(3, 1)));
    // The freed bucket is the next one to be filled.
    let bucket = table.insert(3, (3, 9), |e: &(u64, u64)| e.0);
    assert_eq!(table.bucket_index(&bucket), 3);
}

#[test]
fn small_tables_wrap_around() {
    let mut table: RawTable<u64> = RawTable::with_capacity(3);
    assert_eq!(table.num_buckets(), 4);
    let indices: Vec<usize> = (0..3u64)
        .map(|i| {
            let bucket = table.insert(3, i, |_: &u64| 3);
            table.bucket_index(&bucket)
        })
        .collect();
    // Behind the last bucket the search starts again at the front.
    assert_eq!(indices, vec![3, 0, 1]);
    for i in 0..3u64 {
        assert_eq!(table.get(3, |x: &u64| *x == i), Some(&i));
    }
    // A bucket of a small table never becomes a tombstone.
    assert_eq!(table.remove_entry(3, |x: &u64| *x == 0), Some(0));
    assert_eq!(table.table.ctrl(3), Tag::Empty);
    assert_eq!(table.capacity(), 3);
}

#[test]
fn erasing_within_a_full_group_leaves_a_tombstone() {
    let mut table: RawTable<u64> = RawTable::with_capacity(28);
    assert_eq!(table.num_buckets(), 32);
    for i in 0..20u64 {
        table.insert(0, i, |_: &u64| 0);
    }
    assert_eq!(table.capacity(), 28);
    assert_eq!(table.remove_entry(0, |x: &u64| *x == 10), Some(10));
    assert_eq!(table.table.ctrl(10), Tag::Deleted);
    assert_eq!(table.capacity(), 27);
    // The elements behind the tombstone are still found.
    for i in 11..20u64 {
        assert_eq!(table.get(0, |x: &u64| *x == i), Some(&i));
    }
    // The tombstone is filled again without using up capacity.
    let bucket = table.insert(0, 99, |_: &u64| 0);
    assert_eq!(table.bucket_index(&bucket), 10);
    assert_eq!(table.capacity(), 28);
}

#[test]
fn tombstones_are_reused_at_full_load() {
    let mut table: RawTable<u64> = RawTable::with_capacity(28);
    assert!(RawTable::<u64>::new().table.out_of_room(0));
    for i in 0..28u64 {
        assert!(!table.table.out_of_room(0));
        table.insert(0, i, |_: &u64| 0);
    }
    assert!(table.table.out_of_room(0));
    assert_eq!(table.remove_entry(0, |x: &u64| *x == 10), Some(10));
    assert_eq!(table.table.growth_left, 0);
    assert!(!table.table.out_of_room(0));
    table.insert(0, 99, |_: &u64| 0);
    assert_eq!(table.num_buckets(), 32);
    // Without a tombstone the table grows.
    table.insert(0, 100, |_: &u64| 0);
    assert_eq!(table.num_buckets(), 64);
    assert_eq!(table.len(), 29);
}

#[test]
fn control_bytes_are_mirrored() {
    let mut table: RawTable<u64> = RawTable::with_capacity(28);
    for i in 0..28u64 {
        table.insert(i * 0x0123_4567_89ab_cdef, i, |x: &u64| *x * 0x0123_4567_89ab_cdef);
    }
    assert_eq!(table.num_buckets(), 32);
    assert_eq!(table.table.ctrl.len(), 48);
    for i in 0..16 {
        assert_eq!(table.table.ctrl[32 + i], table.table.ctrl[i]);
    }
    for i in 0..48 {
        assert_eq!(table.table.ctrl(i), table.table.ctrl[i]);
    }
    let empty: RawTable<u64> = RawTable::new();
    assert_eq!(empty.table.ctrl(16), Tag::Empty);
    let mut small: RawTable<u64> = RawTable::with_capacity(7);
    for i in 0..7u64 {
        small.insert(i, i, |x: &u64| *x);
    }
    assert_eq!(small.num_buckets(), 8);
    for i in 0..8 {
        assert_eq!(small.table.ctrl[8 + i], Tag::Empty);
        assert_eq!(small.table.ctrl[16 + i], small.table.ctrl[i]);
    }
}

#[test]
fn tags_keep_the_top_of_the_hash() {
    let mut table: RawTable<u64> = RawTable::with_capacity(3);
    let hash = 0xfe00_0000_0000_0001u64;
    table.insert(hash, 7, |_: &u64| hash);
    assert_eq!(table.table.ctrl(1), Tag::Full(0x7f));
    assert_eq!(Tag::full(0x0200_0000_0000_0000), Tag::Full(1));
    assert!(Tag::full(0).is_full());
    assert!(Tag::Empty.is_special());
    assert!(Tag::Empty.special_is_empty());
    assert!(!Tag::Deleted.special_is_empty());
}

#[test]
fn remove_undoes_insert() {
    let mut table: RawTable<u64> = RawTable::new();
    for i in 0..10u64 {
        table.insert(i, i, |x: &u64| *x);
    }
    let bucket = table.insert(77, 77, |x: &u64| *x);
    let (value, _) = table.remove(bucket);
    assert_eq!(value, 77);
    assert_eq!(table.len(), 10);
    assert!(table.get(77, |x: &u64| *x == 77).is_none());
    for i in 0..10u64 {
        assert!(table.get(i, |x: &u64| *x == i).is_some());
    }
}

#[test]
fn reinsertion_undoes_remove() {
    let mut table: RawTable<u64> = RawTable::with_capacity(28);
    for i in 0..20u64 {
        table.insert(0, i, |_: &u64| 0);
    }
    for i in 0..20u64 {
        let tags = table.table.ctrl.clone();
        let capacity = table.capacity();
        let bucket = table.find(0, |x: &u64| *x == i).unwrap();
        let (value, index, tag) = table.remove_tagged(bucket);
        assert_eq!((value, index, tag), (i, i as usize, Tag::full(0)));
        table.insert_tagged_at_index(tag, index, value);
        assert_eq!(table.table.ctrl, tags);
        assert_eq!(table.capacity(), capacity);
        assert_eq!(table.len(), 20);
    }
}

#[test]
fn erase_drops_the_element() {
    let counter = Rc::new(());
    let mut table: RawTable<(u64, Rc<()>)> = RawTable::new();
    for i in 0..5u64 {
        table.insert(i, (i, counter.clone()), |e: &(u64, Rc<()>)| e.0);
    }
    assert_eq!(Rc::strong_count(&counter), 6);
    let bucket = table.find(2, |e: &(u64, Rc<()>)| e.0 == 2).unwrap();
    table.erase(bucket);
    assert_eq!(Rc::strong_count(&counter), 5);
    assert_eq!(table.len(), 4);
    table.clear();
    assert_eq!(Rc::strong_count(&counter), 1);
    assert!(table.is_empty());
    assert_eq!(table.num_buckets(), 8);
}

#[test]
fn clear_no_drop_forgets_the_elements() {
    let counter = Rc::new(());
    let mut table: RawTable<(u64, Rc<()>)> = RawTable::new();
    for i in 0..5u64 {
        table.insert(i, (i, counter.clone()), |e: &(u64, Rc<()>)| e.0);
    }
    table.clear_no_drop();
    assert_eq!(table.len(), 0);
    assert_eq!(table.capacity(), 7);
    drop(table);
    // The elements were neither kept nor dropped.
    assert_eq!(Rc::strong_count(&counter), 6);
}

#[test]
fn mutable_access() {
    let mut table: RawTable<(u64, u64)> = RawTable::new();
    for i in 0..20u64 {
        *table.insert_entry(i, (i, 0), |e: &(u64, u64)| e.0) = (i, i);
    }
    table.get_mut(5, |e: &(u64, u64)| e.0 == 5).unwrap().1 = 500;
    assert!(table.get_mut(50, |e: &(u64, u64)| e.0 == 50).is_none());
    assert_eq!(table.get(5, |e: &(u64, u64)| e.0 == 5), Some(&(5, 500)));
    let bucket = table.find(6, |e: &(u64, u64)| e.0 == 6).unwrap();
    let index = table.bucket_index(&bucket);
    table.get_bucket_mut(index).unwrap().1 = 600;
    assert_eq!(table.get_bucket(index), Some(&(6, 600)));
    assert!(table.get_bucket_mut(1000).is_none());
    assert_eq!(table.checked_bucket(index).map(|b| b.ptr), Some(bucket.ptr));
}

#[test]
fn find_or_insert() {
    let mut table: RawTable<(u64, u64)> = RawTable::new();
    for round in 0..3u64 {
        for i in 0..50u64 {
            let found = table.find_or_find_insert_index(
                i,
                |e: &(u64, u64)| e.0 == i,
                |e: &(u64, u64)| e.0,
            );
            match found {
                Ok(bucket) => {
                    assert!(round > 0);
                    bucket.as_mut(&mut table.table).1 += 1;
                }
                Err(index) => {
                    assert_eq!(round, 0);
                    table.insert_at_index(i, index, (i, 0));
                }
            }
        }
    }
    assert_eq!(table.len(), 50);
    for i in 0..50u64 {
        assert_eq!(table.get(i, |e: &(u64, u64)| e.0 == i), Some(&(i, 2)));
    }
}

#[test]
fn insert_without_growth() {
    let mut table: RawTable<u64> = RawTable::with_capacity(14);
    for i in 0..14u64 {
        let bucket = table.insert_no_grow(i, i);
        assert_eq!(table.bucket_index(&bucket), i as usize);
    }
    assert_eq!(table.num_buckets(), 16);
    assert_eq!(table.len(), 14);
}

#[test]
fn replacing_a_bucket() {
    let mut table: RawTable<u64> = RawTable::new();
    for i in 0..10u64 {
        table.insert(i, i, |x: &u64| *x);
    }
    let capacity = table.capacity();
    let bucket = table.find(4, |x: &u64| *x == 4).unwrap();
    assert_eq!(table.replace_bucket_with(bucket, |x| Some(x + 100)), None);
    assert_eq!(table.get(4, |x: &u64| *x == 104), Some(&104));
    assert_eq!((table.len(), table.capacity()), (10, capacity));
    let bucket = table.find(4, |x: &u64| *x == 104).unwrap();
    assert_eq!(table.replace_bucket_with(bucket, |_| None), Some(Tag::full(4)));
    assert!(table.get(4, |x: &u64| *x == 104).is_none());
    assert_eq!(table.len(), 9);
}

#[test]
fn disjoint_references() {
    let mut table: RawTable<(u64, u64)> = RawTable::new();
    for i in 0..30u64 {
        table.insert(i, (i, 0), |e: &(u64, u64)| e.0);
    }
    let keys = [7u64, 3, 99, 20, 7];
    let eq = |q: usize, e: &(u64, u64)| e.0 == keys[q];
    {
        let mut refs = table.get_disjoint_mut(keys, &eq);
        assert_eq!(refs.len(), 5);
        assert!(refs[2].is_none());
        // The second query for seven gets no reference.
        assert!(refs[4].is_none());
        for (q, slot) in refs.iter_mut().enumerate() {
            if let Some(entry) = slot {
                entry.1 = q as u64 + 1;
            }
        }
    }
    assert_eq!(table.get(7, |e: &(u64, u64)| e.0 == 7), Some(&(7, 1)));
    assert_eq!(table.get(3, |e: &(u64, u64)| e.0 == 3), Some(&(3, 2)));
    assert_eq!(table.get(20, |e: &(u64, u64)| e.0 == 20), Some(&(20, 4)));
    let pair = [1u64, 2];
    let eq = |q: usize, e: &(u64, u64)| e.0 == pair[q];
    {
        let mut refs = table.get_disjoint_unchecked_mut(pair, &eq);
        let second = refs.pop().unwrap().unwrap();
        let first = refs.pop().unwrap().unwrap();
        std::mem::swap(&mut first.1, &mut second.1);
        second.1 = 22;
    }
    assert_eq!(table.get(2, |e: &(u64, u64)| e.0 == 2), Some(&(2, 22)));
}

#[test]
fn clones_are_independent() {
    let mut table: RawTable<(u64, String)> = RawTable::new();
    for i in 0..100u64 {
        table.insert(i, (i, i.to_string()), |e: &(u64, String)| e.0);
    }
    for i in 0..30u64 {
        table.remove_entry(i, |e: &(u64, String)| e.0 == i);
    }
    let mut copy = table.clone();
    assert_eq!(copy.len(), 70);
    assert_eq!(copy.capacity(), table.capacity());
    assert_eq!(copy.table.ctrl, table.table.ctrl);
    table.clear();
    for i in 30..100u64 {
        assert_eq!(copy.get(i, |e: &(u64, String)| e.0 == i).unwrap().1, i.to_string());
    }
    copy.insert(1000, (1000, String::new()), |e: &(u64, String)| e.0);
    assert_eq!(table.len(), 0);
    assert!(RawTable::<u64>::new().clone().is_empty());
}

#[test]
fn clone_from_reuses_the_memory() {
    let mut source: RawTable<u64> = RawTable::new();
    for i in 0..20u64 {
        source.insert(i, i, |x: &u64| *x);
    }
    let mut table: RawTable<u64> = RawTable::with_capacity(28);
    for i in 100..110u64 {
        table.insert(i, i, |x: &u64| *x);
    }
    table.clone_from(&source);
    assert_eq!(table.num_buckets(), 32);
    assert_eq!(table.len(), 20);
    assert!(table.get(105, |x: &u64| *x == 105).is_none());
    for i in 0..20u64 {
        assert!(table.get(i, |x: &u64| *x == i).is_some());
    }
    let mut small: RawTable<u64> = RawTable::new();
    small.clone_from(&source);
    assert_eq!((small.num_buckets(), small.len()), (32, 20));
    small.clone_from(&RawTable::new());
    assert_eq!((small.num_buckets(), small.len()), (1, 0));
}

#[test]
fn the_default_table_is_empty() {
    let table: RawTable<u64> = RawTable::default();
    assert!(table.is_empty());
    assert_eq!(table.num_buckets(), 1);
}

#[test]
fn addresses_of_a_table() {
    let mut table: RawTable<u64> = RawTable::with_capacity(7);
    assert_eq!(table.num_buckets(), 8);
    assert_eq!(table.data_end(), 64);
    assert_eq!(table.data_start(), 0);
    assert_eq!(table.allocation_size(), 88);
    let bucket = table.insert(5, 5, |x: &u64| *x);
    assert_eq!(bucket.as_ptr(), 16);
    assert_eq!(table.table.bucket_ptr(5, 8), 16);
    assert_eq!(table.bucket_index(&bucket), 5);
    assert_eq!(table.bucket(5).ptr, bucket.ptr);
}

#[test]
fn elements_without_a_size() {
    let mut table: RawTable<()> = RawTable::new();
    for i in 0..100u64 {
        table.insert(i, (), |_: &()| 0);
    }
    assert_eq!(table.len(), 100);
    let bucket = table.find(0, |_: &()| true).unwrap();
    let index = table.bucket_index(&bucket);
    assert!(table.is_bucket_full(index));
    table.erase(bucket);
    assert_eq!(table.len(), 99);
    assert!(!table.is_bucket_full(index));
}

#[test]
fn elements_are_dropped_once() {
    let drops = Rc::new(Cell::new(0));
    struct Counted(Rc<Cell<usize>>);
    impl Drop for Counted {
        fn drop(&mut self) {
            self.0.set(self.0.get() + 1);
        }
    }
    let mut table: RawTable<(u64, Counted)> = RawTable::new();
    for i in 0..200u64 {
        table.insert(i, (i, Counted(drops.clone())), |e: &(u64, Counted)| e.0);
    }
    assert_eq!(drops.get(), 0);
    table.shrink_to(0, |e: &(u64, Counted)| e.0);
    assert_eq!(drops.get(), 0);
    drop(table.remove_entry(7, |e: &(u64, Counted)| e.0 == 7));
    assert_eq!(drops.get(), 1);
    table.drop();
    assert_eq!(drops.get(), 200);
}

#[test]
fn elements_are_dropped_in_bucket_order() {
    #[derive(Clone)]
    struct Noted(u64, Rc<RefCell<Vec<u64>>>);
    impl Drop for Noted {
        fn drop(&mut self) {
            self.1.borrow_mut().push(self.0);
        }
    }
    let notes: Rc<RefCell<Vec<u64>>> = Rc::new(RefCell::new(Vec::new()));
    let filled = || {
        let mut table: RawTable<Noted> = RawTable::with_capacity(7);
        for i in [4u64, 1, 3, 0, 2] {
            table.insert(i, Noted(i, notes.clone()), |e: &Noted| e.0);
        }
        table
    };
    let mut table = filled();
    table.clear();
    assert_eq!(notes.take(), [0, 1, 2, 3, 4]);
    assert!(table.is_empty());

    let mut table = filled();
    table.clone_from(&RawTable::with_capacity(100));
    assert_eq!(notes.take(), [0, 1, 2, 3, 4]);
    assert_eq!(table.num_buckets(), 128);

    filled().drop();
    assert_eq!(notes.take(), [0, 1, 2, 3, 4]);

    let mut iter = filled().into_iter();
    assert_eq!(iter.next().map(|e| e.0), Some(0));
    assert_eq!(notes.take(), [0]);
    iter.drop();
    assert_eq!(notes.take(), [1, 2, 3, 4]);

    let mut table = filled();
    let mut drain = table.drain();
    assert_eq!(drain.next().map(|e| e.0), Some(0));
    assert_eq!(notes.take(), [0]);
    drain.drop();
    assert_eq!(notes.take(), [1, 2, 3, 4]);
    assert!(table.is_empty());
}

#[test]
fn taking_the_elements_out() {
    let mut table: RawTable<u64> = RawTable::new();
    for i in 0..20u64 {
        table.insert(i, i, |x: &u64| *x);
    }
    for i in 0..5u64 {
        table.remove_entry(i, |x: &u64| *x == i);
    }
    assert_eq!(table.table.take_elements(), (5..20).collect::<Vec<u64>>());
    assert_eq!((table.len(), table.capacity(), table.num_buckets()), (0, 28, 32));
    assert!(table.table.ctrl.iter().all(|tag| *tag == Tag::Empty));
    assert!(table.table.take_elements().is_empty());
}
