//! A mutable prefix tree (trie) keyed by Unicode code points.
//!
//! Keys are strings, consumed one code point at a time; every inserted key may
//! carry an optional payload.  The crate offers insertion with duplicate-key
//! detection, exact lookup, longest-prefix search, subtree-aware removal with
//! compaction, and a deterministic textual rendering of the tree.

pub mod chars;
pub mod content;
pub mod map_trie;
pub mod trie;
