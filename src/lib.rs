//! A key/value map built on open hashing with separate chaining.
//!
//! Every entry lives in the bucket selected by its key's hash modulo the
//! current bucket count; the bucket array is allocated lazily on the first
//! insertion and doubles whenever the load passes three quarters.
pub mod flat;
pub mod key;
pub mod laws;
pub mod map;

pub use key::HashKey;
pub use map::{HashMap, Iter};
