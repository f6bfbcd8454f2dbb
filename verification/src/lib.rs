//! Anagram phrase search over a dictionary trie.
//!
//! The library builds a prefix tree ([`trie::Dictionary`]) from a word list
//! and finds every dictionary phrase — a single word or several words joined
//! by single spaces — whose letters form exactly the multiset of letters of a
//! query string, ignoring case and whitespace.

pub mod search;
pub mod text;
pub mod trie;

pub use search::get_anagrams;
pub use trie::parse;
pub use trie::Dictionary;
pub use text::get_c;
pub use text::remove_c;
pub use text::remove_whitespace;
