//! A separately chained hash table with lookup by equivalent keys.
mod key;
pub mod laws;
mod table;

pub use key::{Equivalent, HashKey};
pub use table::{HashMap, Iter};
