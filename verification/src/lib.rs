//! A fixed-length n-gram counter built on a prefix tree (trie).
//!
//! An [`trie::NGramTrie`] is configured with one sequence length and counts
//! how often each token sequence of that length has been inserted.  Every
//! node on an inserted sequence's path keeps its own pass-through count, so
//! intermediate nodes hold prefix statistics.  A companion module renders
//! the tree as a graph description for inspection.

pub mod trie;
pub mod viz;

pub use trie::NGramTrie;
pub use trie::TrieError;
pub use trie::TrieNode;
