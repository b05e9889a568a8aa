//! A separate-chaining hash table from text keys to 32-bit integer values.
//!
//! Keys are hashed with 64-bit FNV-1a; the bucket count adapts to the load
//! factor after every mutating operation, never dropping below a fixed floor.

pub mod entries;
pub mod hash;
mod keys;
pub mod table;

pub use hash::fnv1a_hash;
pub use hash::FNV_OFFSET_BASIS;
pub use hash::FNV_PRIME;
pub use table::HashMap;
pub use table::MIN_BUCKET_COUNT;
