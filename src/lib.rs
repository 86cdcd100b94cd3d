//! Classic data structures with machine-checked contracts: a bounded stack,
//! a bounded queue, a singly linked list node, a binary tree node, an
//! array-backed binary min-heap and an undirected graph over an adjacency
//! matrix with breadth-first search.
pub mod binary_tree;
pub mod error;
pub mod graph;
pub mod linked_list;
pub mod marks;
pub mod min_heap;
pub mod queue;
pub mod stack;
