//! An incremental, compacting garbage collector over a partitioned heap,
//! with an object-table variant that moves objects by indirection.
//!
//! - `value`: tagged words, scalars and skewed pointers.
//! - `heap`: the partitioned heap, its objects and their forwarding.
//! - `mark`, `snapshot`: incremental marking with a mark stack and array
//!   slicing, and why snapshot-at-the-beginning marking misses nothing.
//! - `evacuation`, `update`: copying live objects out of sparse partitions,
//!   and rewriting pointers to the copies.
//! - `gc`: the phase state machine, scheduling and the barriers.
//! - `roots`, `remembered_set`, `time`, `range`: roots, extra roots, the
//!   work budget of an increment, address ranges.
//! - `object_table`, `object_heap`: the object-table variant, where ids
//!   stay fixed and only the table records where an object lives.
pub mod value;
pub mod range;
pub mod object_table;
pub mod remembered_set;
pub mod object_heap;
pub mod heap;
pub mod time;
pub mod roots;
pub mod mark;
pub mod evacuation;
pub mod update;
pub mod gc;
pub mod snapshot;
