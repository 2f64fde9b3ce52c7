# raw_table

A raw SwissTable: an open-addressing hash table over groups of control bytes, written in
Rust and verified with Verus.

* `src/` is the library. Every function in it is proved to meet its contract, for every
  table, hash and element.
  * `control.rs`: control bytes, groups of them and bit masks.
  * `allocator.rs`: who grants a table its memory.
  * `math.rs`: powers of two and triangular numbers.
  * `raw/`: the table. `storage.rs` owns the control bytes, the buckets and the memory,
    `probe.rs` the probe sequence, and `growth.rs` growing and rehashing as a transaction.
    `table.rs` puts them together, with the operations in `entry.rs`, `insert.rs`,
    `capacity.rs`, `lifecycle.rs`, `drain.rs`, `extract.rs`, `disjoint.rs` and the
    iterators in `iter.rs` and `iter_hash.rs`. `model.rs` is the mathematics that the
    contracts are stated in, and `laws.rs` what follows from them.
* `tests/` runs the library.
* `app/` is the table as an ordinary Rust collection, with the traits of the standard
  library and with functions that may panic.

What is proved, in short: a lookup finds what was inserted, whatever was inserted, removed
or grown in between; a probe visits every bucket exactly once; the counters agree with the
control bytes; a table that cannot grow is left as it was, and it lacks memory only
if the allocator refused the block or the heap the buckets; and the memory of a table is a
block that its allocator granted, and that goes back to it when the table grows or shrinks,
and when its `drop` method is called. The library itself has no destructors: a table of the
library that merely goes out of scope keeps its block from the allocator, and `app/` is what
calls `drop` there.

A block is what a table accounts for to its allocator. The buckets themselves are vectors on
the heap of the standard library.
