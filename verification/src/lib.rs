//! A trie (prefix tree) that maps paths of key segments to values.
//!
//! A path is an ordered, finite sequence of key segments; the empty path
//! addresses the root. `Trie::insert` stores a value at a path, creating
//! intermediate nodes on demand, and `Trie::fetch` retrieves the value
//! stored at an exact path.

pub mod keys;
pub mod trie;
