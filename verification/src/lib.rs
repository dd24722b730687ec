//! Verified sequence containers: a doubly linked list backed by an arena of
//! index-addressed nodes, with a distance-minimizing positional indexer,
//! splice-based insertion and removal, bidirectional iteration views and an
//! in-place merge sort, together with an array-backed binary-heap priority
//! queue.

pub mod double_linked;
pub mod order;
pub mod pq_complete_heap;
