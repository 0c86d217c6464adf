//! Hash tries: a boxed trie over binary-digit keys, two tries packed into one
//! contiguous table, and a cache-conscious hash array mapped trie whose nodes
//! live in an append-only arena.
pub mod cchamt;
pub mod hamt;
pub mod lockfree_cchamt;
pub mod mutex_cchamt;

pub use cchamt::ContiguousTrie;
pub use hamt::{IndexStatus, Trie};
pub use lockfree_cchamt::LockfreeTrie;
pub use mutex_cchamt::MutexContiguousTrie;
