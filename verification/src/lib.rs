//! Core of a parallel block-execution substrate: a multi-version store that
//! worker threads read and write speculatively during optimistic concurrent
//! execution, and a dependency-aware partitioner that shards a block of
//! analyzed transactions so that accepted transactions never conflict across
//! shards.

pub mod assoc;
pub mod delta;
pub mod dependency_graph;
pub mod mvhashmap;
pub mod partitioner;
pub mod transaction;
pub mod types;
pub mod versioned_code;
pub mod versioned_data;
