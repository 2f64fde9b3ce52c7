//! What can be relied on when the operations of a table are called.
//!
//! Each law here speaks of the results of calls: of one call, or of one call after
//! another. A law takes what the calls were given and what came back, and says what holds
//! of them in terms of the buckets, the counters and the sizes themselves.
//!
//! * [`memory`]: making room, giving room back, and the number of buckets; [`giving_up`]: the same
//!   with a hash function that may give up.
//! * [`accepted`]: which calls may be made.
//! * [`transaction`]: the steps by which a table grows.
//! * [`inner`]: the pieces that a table is made of.
//! * [`sizes`]: computing with sizes, hashes and groups.
//! * [`tables`]: creating, inspecting, emptying and dropping.
//! * [`entries`]: looking up, inserting and removing.
//! * [`placing`]: where elements go when a table grows or shrinks.
//! * [`buckets`]: going by buckets and indices.
//! * [`order`]: the order in which buckets are tried.
//! * [`copies`]: cloning.
//! * [`several`]: references to several elements at once.
//! * [`iteration`]: walking over the elements, and [`hashes`]: over those of a hash.
//! * [`extraction`]: taking out the elements that a predicate selects.
pub mod accepted;
pub mod buckets;
pub mod copies;
pub mod entries;
pub mod extraction;
pub mod giving_up;
pub mod hashes;
pub mod inner;
pub mod iteration;
pub mod memory;
pub mod order;
pub mod placing;
pub mod several;
pub mod sizes;
pub mod tables;
pub mod transaction;
