//! Tests of the iterators.
use raw_table::control::Tag;
use raw_table::raw::drain::RawIntoIter;
use raw_table::raw::extract::RawExtractIf;
use raw_table::raw::iter::{FullBucketsIndices, RawIter, RawIterRange};
use raw_table::raw::iter_hash::{RawIterHash, RawIterHashIndices};
use raw_table::raw::probe::{h1, ProbeCursor};
use raw_table::raw::{Bucket, RawTable};
use std::cell::Cell;
use std::rc::Rc;

fn table_of(n: u64) -> RawTable<u64> {
    let mut table = RawTable::new();
    for i in 0..n {
        table.insert(i, i, |x: &u64| *x);
    }
    table
}

#[test]
fn the_cursor_visits_every_group_once() {
    for buckets in [16usize, 32, 64, 256, 1024] {
        for hash in [0u64, 5, 17, 1000, u64::MAX] {
            let mut cursor = ProbeCursor::new(hash, buckets - 1);
            assert_eq!(cursor.group_pos(), h1(hash) % buckets);
            let mut seen = vec![0; buckets];
            for group in 0..buckets / 16 {
                if group > 0 {
                    cursor.move_next();
                }
                for bit in 0..16 {
                    seen[cursor.bucket_index(bit)] += 1;
                }
            }
            assert!(seen.iter().all(|&count| count == 1));
        }
    }
}

#[test]
fn the_cursor_jumps_by_one_more_group_each_time() {
    let mut cursor = ProbeCursor::new(3, 255);
    let mut positions = vec![cursor.group_pos()];
    for _ in 0..4 {
        cursor.move_next();
        positions.push(cursor.group_pos());
    }
    assert_eq!(positions, vec![3, 19, 51, 99, 163]);
}

#[test]
fn every_element_is_yielded_once_in_order() {
    for n in [0, 1, 3, 7, 8, 14, 100, 500] {
        let table = table_of(n);
        let mut iter = table.iter();
        assert_eq!(iter.size_hint(), (n as usize, Some(n as usize)));
        let mut last = None;
        let mut seen = Vec::new();
        while let Some(bucket) = iter.next(&table.table) {
            let index = table.bucket_index(&bucket);
            assert!(last < Some(index));
            last = Some(index);
            seen.push(*bucket.as_ref(&table.table));
        }
        seen.sort();
        assert_eq!(seen, (0..n).collect::<Vec<u64>>());
        assert!(iter.next(&table.table).is_none());
        assert_eq!(iter.size_hint(), (0, Some(0)));
    }
}

#[test]
fn indices_of_full_buckets() {
    let mut table = table_of(100);
    for i in 20..60u64 {
        table.remove_entry(i, |x: &u64| *x == i);
    }
    let mut indices = table.full_buckets_indices();
    assert_eq!(indices.size_hint(), (60, Some(60)));
    let mut seen = Vec::new();
    while let Some(index) = indices.next(&table.table) {
        seen.push(index);
    }
    let expected: Vec<usize> =
        (0..table.num_buckets()).filter(|&i| table.is_bucket_full(i)).collect();
    assert_eq!(seen, expected);
    assert_eq!(FullBucketsIndices::default().size_hint(), (0, Some(0)));
}

#[test]
fn ranges_split_into_halves() {
    let table = table_of(400);
    assert_eq!(table.num_buckets(), 512);
    let mut ranges = vec![table.iter().iter];
    assert_eq!(ranges[0].size_hint(), (0, Some(512)));
    for _ in 0..4 {
        let mut next = Vec::new();
        for range in ranges {
            let (head, tail) = range.split(&table.table);
            next.push(head);
            if let Some(tail) = tail {
                next.push(tail);
            }
        }
        ranges = next;
    }
    assert_eq!(ranges.len(), 16);
    let mut seen = Vec::new();
    for mut range in ranges {
        let bound = range.size_hint().1.unwrap();
        let before = seen.len();
        while let Some(bucket) = range.next(&table.table) {
            seen.push(table.bucket_index(&bucket));
        }
        assert!(seen.len() - before <= bound);
    }
    let expected: Vec<usize> = (0..512).filter(|&i| table.is_bucket_full(i)).collect();
    assert_eq!(seen, expected);
    // A table of one group does not split.
    let small = table_of(10);
    let (mut head, tail) = RawIterRange::new(&small.table, 0, 16).split(&small.table);
    assert!(tail.is_none());
    assert!(head.next(&small.table).is_some());
}

#[test]
fn folding_visits_every_element() {
    let table = table_of(100);
    let inner = &table.table;
    let sum = table.iter().fold(inner, 0u64, &|acc: u64, bucket: Bucket<u64>| {
        acc + *bucket.as_ref(inner)
    });
    assert_eq!(sum, 4950);
    let mut iter = table.iter();
    let first = *iter.next(inner).unwrap().as_ref(inner);
    let rest = iter.clone().fold(inner, 0u64, &|acc: u64, bucket: Bucket<u64>| {
        acc + *bucket.as_ref(inner)
    });
    assert_eq!(first + rest, 4950);
    assert_eq!(iter.items, 99);
}

#[test]
fn yielded_buckets_may_be_erased() {
    let mut table = table_of(200);
    let mut iter = table.iter();
    let mut count = 0;
    while let Some(bucket) = iter.next(&table.table) {
        let (value, _) = table.remove(bucket);
        assert!(value < 200);
        count += 1;
    }
    assert_eq!(count, 200);
    assert!(table.is_empty());
    let empty: RawIter<u64> = RawIter::default();
    assert_eq!(empty.items, 0);
}

#[test]
fn candidates_of_a_hash() {
    let mut table: RawTable<(u64, u64)> = RawTable::new();
    for i in 0..100u64 {
        table.insert(i % 10, (i % 10, i), |e: &(u64, u64)| e.0);
    }
    for hash in 0..10u64 {
        let mut iter = table.iter_hash(hash);
        let mut seen = Vec::new();
        while let Some(bucket) = iter.next(&table.table) {
            let entry = *bucket.as_ref(&table.table);
            if entry.0 == hash {
                seen.push(entry.1);
            }
        }
        seen.sort();
        assert_eq!(seen, (0..10).map(|k| k * 10 + hash).collect::<Vec<u64>>());
        let mut indices = table.iter_hash_buckets(hash);
        let mut copy = indices.clone();
        let mut count = 0;
        while let Some(index) = indices.next(&table.table) {
            assert_eq!(copy.next(&table.table), Some(index));
            assert!(table.is_bucket_full(index));
            count += 1;
        }
        assert!(count >= 10);
        assert_eq!(copy.next(&table.table), None);
    }
    let none: RawTable<u64> = RawTable::new();
    assert!(RawIterHash::<u64>::default().next(&none.table).is_none());
    assert!(RawIterHashIndices::default().next(&none.table).is_none());
    assert!(none.iter_hash(7).clone().next(&none.table).is_none());
}

#[test]
fn consuming_a_table() {
    let mut iter = table_of(50).into_iter();
    assert_eq!(iter.size_hint(), (50, Some(50)));
    let mut seen = Vec::new();
    while let Some(value) = iter.next() {
        seen.push(value);
    }
    seen.sort();
    assert_eq!(seen, (0..50).collect::<Vec<u64>>());
    assert_eq!(iter.iter().items, 0);
    iter.drop();
    let mut none: RawIntoIter<u64> = RawIntoIter::default();
    assert_eq!(none.next(), None);
    assert_eq!(none.size_hint(), (0, Some(0)));
}

#[test]
fn consuming_drops_what_is_left() {
    let counter = Rc::new(());
    let mut table: RawTable<(u64, Rc<()>)> = RawTable::new();
    for i in 0..20u64 {
        table.insert(i, (i, counter.clone()), |e: &(u64, Rc<()>)| e.0);
    }
    let mut iter = table.into_iter();
    for _ in 0..5 {
        iter.next();
    }
    assert_eq!(Rc::strong_count(&counter), 16);
    iter.drop();
    assert_eq!(Rc::strong_count(&counter), 1);
}

#[test]
fn draining_keeps_the_memory() {
    let counter = Rc::new(());
    let mut table: RawTable<(u64, Rc<()>)> = RawTable::new();
    for i in 0..20u64 {
        table.insert(i, (i, counter.clone()), |e: &(u64, Rc<()>)| e.0);
    }
    let size = table.allocation_size();
    {
        let mut drain = table.drain();
        assert_eq!(drain.size_hint(), (20, Some(20)));
        let mut keys = Vec::new();
        for _ in 0..10 {
            keys.push(drain.next().unwrap().0);
        }
        keys.dedup();
        assert_eq!(keys.len(), 10);
        assert_eq!(drain.iter().items, 10);
        assert_eq!(Rc::strong_count(&counter), 11);
        drain.drop();
    }
    assert_eq!(Rc::strong_count(&counter), 1);
    assert!(table.is_empty());
    assert_eq!(table.num_buckets(), 32);
    assert_eq!(table.capacity(), 28);
    assert_eq!(table.allocation_size(), size);
    table.insert(1, (1, counter.clone()), |e: &(u64, Rc<()>)| e.0);
    assert_eq!(table.len(), 1);
}

#[test]
fn a_leaked_drain_leaves_an_empty_table() {
    let mut table = table_of(20);
    {
        let mut drain = table.drain();
        assert!(drain.next().is_some());
        std::mem::forget(drain);
    }
    assert!(table.is_empty());
    assert_eq!(table.num_buckets(), 1);
    table.insert(3, 3, |x: &u64| *x);
    assert_eq!(table.len(), 1);
}

#[test]
fn extracting_by_predicate() {
    let mut table: RawTable<(u64, u64)> = RawTable::new();
    for i in 0..100u64 {
        table.insert(i, (i, 0), |e: &(u64, u64)| e.0);
    }
    let mut removed = Vec::new();
    {
        let iter = table.iter();
        let mut extract = RawExtractIf { iter, table: &mut table };
        let odd = |e: &mut (u64, u64)| {
            e.1 += 1;
            e.0 % 2 == 1
        };
        while let Some(entry) = extract.next(&odd) {
            assert_eq!(entry.1, 1);
            removed.push(entry.0);
        }
    }
    removed.sort();
    assert_eq!(removed, (0..50).map(|k| 2 * k + 1).collect::<Vec<u64>>());
    assert_eq!(table.len(), 50);
    for i in 0..100u64 {
        let entry = table.get(i, |e: &(u64, u64)| e.0 == i);
        // Each element was asked for once.
        let expected = if i % 2 == 0 { Some((i, 1)) } else { None };
        assert_eq!(entry.copied(), expected);
    }
}

#[test]
fn candidates_may_be_erased_on_the_way() {
    let mut table: RawTable<(u64, u64)> = RawTable::new();
    for i in 0..200u64 {
        table.insert(i % 5, (i % 5, i), |e: &(u64, u64)| e.0);
    }
    for hash in 0..5u64 {
        let mut iter = table.iter_hash(hash);
        let mut removed = Vec::new();
        while let Some(bucket) = iter.next(&table.table) {
            if bucket.as_ref(&table.table).0 == hash {
                removed.push(table.remove(bucket).0 .1);
            }
        }
        removed.sort();
        assert_eq!(removed, (0..40).map(|k| 5 * k + hash).collect::<Vec<u64>>());
    }
    assert!(table.is_empty());
}

#[test]
fn full_buckets_may_be_erased_on_the_way() {
    let mut table = table_of(300);
    let mut indices = table.full_buckets_indices();
    let mut count = 0;
    while let Some(index) = indices.next(&table.table) {
        let bucket = table.checked_bucket(index).unwrap();
        table.erase(bucket);
        count += 1;
    }
    assert_eq!(count, 300);
    assert!(table.is_empty());
}

#[test]
fn searching_a_table_without_empty_buckets() {
    let mut table: RawTable<u64> = RawTable::with_capacity(28);
    assert_eq!(table.num_buckets(), 32);
    for i in 0..32 {
        table.table.set_ctrl(i, Tag::Full(1));
    }
    table.table.set_ctrl(20, Tag::Deleted);
    // The search visits every group once, and finds the one bucket that is not full.
    let asked = Cell::new(0);
    let found = table.table.find_or_find_insert_index_inner(1 << 57, &|_: usize| {
        asked.set(asked.get() + 1);
        false
    });
    assert_eq!(found, Err(20));
    assert_eq!(asked.get(), 31);
    let found = table.table.find_or_find_insert_index_inner(1 << 57, &|i: usize| i == 19);
    assert_eq!(found, Ok(19));
}
