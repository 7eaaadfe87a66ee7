//! Syllable separation with Liang/Knuth hyphenation patterns.
//!
//! Patterns from a TeX source are parsed, collected into a trie, suffix
//! compressed and encoded into a compact byte blob. The matcher walks that
//! blob directly to find the break opportunities of a word.
pub mod state;
pub mod text;
pub mod syllables;
pub mod hyphenate;
pub mod trie;
pub mod encode;
pub mod tex;

pub use hyphenate::{hyphenate, hyphenate_bounded, Lang};
pub use syllables::Syllables;
pub use trie::{Node, TrieBuilder};

use vstd::prelude::*;

verus! {

/// The larger of two integers.
pub open spec fn max(a: int, b: int) -> int {
    if a >= b { a } else { b }
}

} // verus!
