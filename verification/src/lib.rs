//! A minimal open-hashing (separate-chaining) associative container.
//!
//! The table keeps an array of buckets, each bucket an ordered chain of
//! key-value entries. `insert` replaces the value on a duplicate key and
//! grows the bucket array (doubling it) as the load factor passes 3/4.
//! There is no lookup, removal, or iteration: insertion is the whole API.

pub mod keys;
pub mod laws;
pub mod table;

pub use keys::HashKey;
pub use table::HashMap;
