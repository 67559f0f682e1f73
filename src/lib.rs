//! Sorting engines over an in-memory buffer of `i32` values: a serial bitonic
//! sorter, a partitioned bitonic sorter driven by a parallelism degree, and a
//! hybrid sorter that sorts chunks locally and merges adjacent runs pairwise.
//!
//! Every engine works in place on index ranges of one `Vec`, pads the buffer to
//! a power-of-two length with its own maximum, and truncates it back.

pub mod order;
pub mod buffer;
pub mod network;
pub mod bitonic_serial;
pub mod bitonic_parallel;
pub mod parallel_sort;
