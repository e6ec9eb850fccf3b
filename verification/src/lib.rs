//! A byte-string-keyed hash table whose keys and values live in a
//! bump-allocated arena.
//!
//! The table maps byte strings to values of a fixed size. Keys and values are
//! written into an [`Arena`], which never moves or frees a byte; the index of
//! buckets holds the hash of each key and the address of its entry, in Robin
//! Hood order, and is the only part that grows.

pub mod arena;
pub mod hashmap;
pub mod lookup;
pub mod murmurhash2;
pub mod table;
pub mod value;
pub mod vint;

pub use arena::{Addr, Arena};
pub use hashmap::{Entry, Handler, HashMap, Insertion};
pub use table::HashKey;
pub use value::Value;
