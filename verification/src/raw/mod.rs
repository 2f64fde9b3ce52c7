//! The raw table implementation, split into cooperating pieces:
//!
//! * [`storage`] owns the physical layout: control bytes (with the mirrored group),
//!   buckets and the allocation itself; [`layout`] computes its size, and [`bucket`]
//!   the addresses in it.
//! * [`probe`] owns the probing policy: a [`probe::ProbeCursor`] produces the
//!   group positions of a probe sequence and its termination condition.
//! * [`growth`] owns reserve/rehash/resize as a transaction that allocates
//!   the new table first, migrates the elements, and rolls back (reclaiming
//!   the new allocation) if the hash function fails.
//! * [`iter`] and [`iter_hash`] walk the full buckets of a table, and [`drain`] and
//!   [`extract`] take the elements out on the way.
//! * [`model`] holds the mathematics that the contracts are stated in, and [`laws`]
//!   what follows from the contracts for a table as a whole. [`calls`] says what can be
//!   relied on when the operations are called, one by one or one after another.
//!
//! [`RawTable`] itself is only a thin typed wrapper that combines them: [`table`] creates
//! and inspects tables, [`entry`] finds and removes elements, [`insert`] adds them,
//! [`capacity`] grows and shrinks, [`lifecycle`] clears, clones and takes apart, and
//! [`disjoint`] lends several elements at once.
pub mod bucket;
pub mod calls;
pub mod capacity;
pub mod disjoint;
pub mod drain;
pub mod entry;
pub mod extract;
pub mod growth;
pub mod insert;
pub mod iter;
pub mod iter_hash;
pub mod laws;
pub mod layout;
pub mod lifecycle;
pub mod model;
pub mod probe;
pub mod storage;
pub mod table;

pub use self::bucket::Bucket;
pub use self::table::RawTable;
