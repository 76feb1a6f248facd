//! A trie that maps sequences of hashable segments to values.
//!
//! The node algorithm (value slot, child map, retirement flag, pruning of
//! emptied subtrees as removals return) is verified against a map model of
//! the keys it holds.
pub mod entry;
pub mod error;
pub mod laws;
pub mod node;
pub mod shard;
pub mod trie;

pub use entry::Entry;
pub use error::Error;
pub use node::Node;
pub use shard::shard_amount;
pub use trie::Trie;
