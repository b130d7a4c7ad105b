//! Graph search over a fixed set of vertices (depth first, breadth first and
//! cheapest path), with the containers, sorts and searches it is built from
//! or kept beside.
pub mod array_list;
pub mod binary_search;
pub mod binary_tree;
pub mod bubble_sort;
pub mod crystal_balls;
pub mod double;
pub mod error;
pub mod list;
pub mod matrix;
pub mod maze;
pub mod priority_queue;
pub mod queue;
pub mod quick_sort;
pub mod ring_buffer;
pub mod search;
pub mod single;
pub mod stack;
