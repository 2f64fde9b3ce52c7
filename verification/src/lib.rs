//! A raw SwissTable: an open-addressing hash table over groups of control
//! bytes, with the probing, growth and allocation logic proved correct.
pub mod allocator;
pub mod control;
pub mod math;
pub mod raw;
