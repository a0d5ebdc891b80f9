//! Storage-engine building blocks: a persistent AA tree over `u32` values, an
//! extendible hash table from `u32` keys to `u32` values, and the bookkeeping
//! of a buffer pool (frames, free list, page table and recency list), each
//! with its invariants stated and proved.


pub mod aa_tree;
pub mod buffer_pool;
pub mod hash_table;
pub mod lru;
pub mod page;
