//! Interchangeable mergeable min-priority queues.
//!
//! Three implementations of one capability contract — a dense-array binary
//! heap, a pairing heap and a skew heap — each proved to store exactly the
//! multiset of inserted values, to hand out minima in non-decreasing order,
//! and to empty the source operand when merged in place.

pub mod binary;
pub mod heap;
pub mod pairing;
pub mod skew;
