//! An open-addressing hash table mapping `u64` keys to values of any type,
//! with linear probing, tombstone deletion, and doubling growth once the
//! load factor passes 3/5.
//!
//! The table's contents are modelled as a `Map<u64, V>`; every operation's
//! contract states exactly how it transforms that map.

mod hashing;
mod table;
pub mod laws;

pub use table::OAHashMap;
