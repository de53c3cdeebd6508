//! Classic algorithms and data structures with machine-checked contracts:
//! an open-addressing hash table, a primality test, sorting routines,
//! a binary heap, string search and graph traversal.

pub mod graph;
pub mod hashing;
pub mod hashtable;
pub mod heap;
pub mod mergesort;
pub mod order;
pub mod prime;
pub mod qsort;
pub mod search;
pub mod simple;
pub mod sort;
