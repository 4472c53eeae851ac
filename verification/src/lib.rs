//! The block and table formats of a small LSM storage engine, with their readers and writers.
pub mod block;
pub mod key;
pub mod outside;
pub mod table;
pub mod iterators;
