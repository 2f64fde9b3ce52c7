//! Deterministic operation-sequence test checked against a model map.
//!
//! The sequence is fully deterministic: it uses a fixed-seed PRNG and a fixed hash
//! function, so any misbehavior (control-byte handling, mirrored bytes, small tables,
//! tombstones) shows up as a mismatch against the `BTreeMap` model.
use raw_table::raw::extract::RawExtractIf;
use raw_table::raw::RawTable;
use std::collections::BTreeMap;

/// xorshift64* PRNG, deterministic across platforms.
struct Rng(u64);

impl Rng {
    fn next(&mut self) -> u64 {
        let mut x = self.0;
        x ^= x >> 12;
        x ^= x << 25;
        x ^= x >> 27;
        self.0 = x;
        x.wrapping_mul(0x2545_F491_4F6C_DD1D)
    }
}

fn hash(key: u64) -> u64 {
    let x = (key ^ 0x9E37_79B9_7F4A_7C15).wrapping_mul(0xBF58_476D_1CE4_E5B9);
    x ^ (x >> 29)
}

fn hasher(entry: &(u64, u64)) -> u64 {
    hash(entry.0)
}

/// A map on top of the raw table.
struct HashMap {
    table: RawTable<(u64, u64)>,
}

impl HashMap {
    fn with_capacity(capacity: usize) -> Self {
        Self { table: RawTable::with_capacity(capacity) }
    }

    fn len(&self) -> usize {
        self.table.len()
    }

    fn insert(&mut self, key: u64, value: u64) {
        let found =
            self.table.find_or_find_insert_index(hash(key), |e: &(u64, u64)| e.0 == key, hasher);
        match found {
            Ok(bucket) => bucket.as_mut(&mut self.table.table).1 = value,
            Err(index) => {
                self.table.insert_at_index(hash(key), index, (key, value));
            }
        }
    }

    fn remove(&mut self, key: &u64) -> Option<u64> {
        self.table.remove_entry(hash(*key), |e: &(u64, u64)| e.0 == *key).map(|e| e.1)
    }

    fn get(&self, key: &u64) -> Option<&u64> {
        self.table.get(hash(*key), |e: &(u64, u64)| e.0 == *key).map(|e| &e.1)
    }

    fn modify_or_insert(&mut self, key: u64, v: u64) {
        match self.table.get_mut(hash(key), |e: &(u64, u64)| e.0 == key) {
            Some(entry) => entry.1 ^= v,
            None => {
                self.table.insert(hash(key), (key, v), hasher);
            }
        }
    }

    fn retain(&mut self, keep: impl Fn(&u64) -> bool) {
        let iter = self.table.iter();
        let mut extract = RawExtractIf { iter, table: &mut self.table };
        while extract.next(&|e: &mut (u64, u64)| !keep(&e.0)).is_some() {}
    }

    fn entries(&self) -> Vec<(u64, u64)> {
        let mut entries = Vec::new();
        let mut iter = self.table.iter();
        while let Some(bucket) = iter.next(&self.table.table) {
            entries.push(*bucket.as_ref(&self.table.table));
        }
        entries.sort_unstable();
        entries
    }

    fn drain(&mut self) -> Vec<(u64, u64)> {
        let mut drained = Vec::new();
        let mut drain = self.table.drain();
        while let Some(entry) = drain.next() {
            drained.push(entry);
        }
        drain.drop();
        drained
    }
}

fn check_against_model(map: &HashMap, model: &BTreeMap<u64, u64>) {
    assert_eq!(map.len(), model.len());
    let from_map = map.entries();
    let from_model: Vec<(u64, u64)> = model.iter().map(|(&k, &v)| (k, v)).collect();
    assert_eq!(from_map, from_model);
}

#[test]
fn ops_sequence_matches_model() {
    let steps: u64 = 200_000;
    let mut rng = Rng(0x9E37_79B9_7F4A_7C15);
    let mut map = HashMap::with_capacity(3);
    let mut model = BTreeMap::new();

    for step in 0..steps {
        let op = rng.next() % 20;
        // A small key space forces collisions, tombstones, growth and
        // shrinking to happen regularly.
        let key = rng.next() % 600;
        match op {
            0..=8 => {
                map.insert(key, step);
                model.insert(key, step);
            }
            9..=11 => {
                assert_eq!(map.remove(&key), model.remove(&key));
            }
            12..=14 => {
                assert_eq!(map.get(&key), model.get(&key));
            }
            15 => {
                let v = rng.next();
                map.modify_or_insert(key, v);
                model.entry(key).and_modify(|e| *e ^= v).or_insert(v);
            }
            16 => {
                // Multi-key mutable borrow.
                let k2 = rng.next() % 600;
                let keys = [key, k2];
                let mut refs = map.table.get_disjoint_mut(
                    [hash(key), hash(k2)],
                    &|q: usize, e: &(u64, u64)| e.0 == keys[q],
                );
                for slot in refs.iter_mut() {
                    if let Some(entry) = slot {
                        entry.1 += 1;
                    }
                }
                if let Some(v) = model.get_mut(&key) {
                    *v += 1;
                }
                if key != k2 {
                    if let Some(v) = model.get_mut(&k2) {
                        *v += 1;
                    }
                }
            }
            17 => {
                let pivot = rng.next() % 600;
                map.retain(|&k| k != pivot);
                model.retain(|&k, _| k != pivot);
            }
            18 => {
                if rng.next() % 2 == 0 {
                    map.table.reserve((rng.next() % 64) as usize, hasher);
                } else {
                    map.table.shrink_to(0, hasher);
                }
            }
            19 => {
                let cloned = HashMap { table: map.table.clone() };
                assert_eq!(cloned.entries(), map.entries());
                if rng.next() % 4 == 0 {
                    let drained: Vec<(u64, u64)> = map.drain();
                    for (k, v) in drained {
                        assert_eq!(model.remove(&k), Some(v));
                    }
                    assert!(model.is_empty() || map.table.is_empty() || !model.is_empty());
                    for (&k, &v) in model.iter() {
                        map.insert(k, v);
                    }
                }
            }
            _ => unreachable!(),
        }

        if step % 1024 == 0 {
            check_against_model(&map, &model);
        }
    }

    check_against_model(&map, &model);
}
