//! A prefix tree over Unicode scalar values.
//!
//! A [`Trie`] stores a set of words. Its view is that set, a
//! `Set<Seq<char>>`, and every operation is specified over it: `insert` adds
//! one word, `search_full_world` tests membership, and `search_prefix` tests
//! whether some stored word starts with the given symbols.

pub mod laws;
pub mod paths;
pub mod tree;
pub mod words;

pub use crate::tree::{Trie, TrieNode};
