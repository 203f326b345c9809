//! Open-addressing hash tables with integer keys and character-sequence
//! values, each with a different collision-resolution policy, plus a few
//! small companion utilities.

pub mod entries;
pub mod probing;
pub mod tombstone;
pub mod lpts_hash_table;
pub mod dhts_hash_table;
pub mod lprh_hash_table;
pub mod cuckoo_hash_table;
pub mod counting_bloom_filter;
pub mod bloom_filter;
pub mod common_chars;
pub mod laws;
