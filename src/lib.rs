//! Weighted graphs over dense integer node ids, with traversals, shortest
//! paths and an indexed binary min-heap.

pub mod graphs;
pub mod heap;
mod fifo;
pub mod sort;
pub mod binary_trees;
pub mod dynamic_programming;
pub mod robot;
