//! Byte-pattern rules compiled into a prefix tree and its decision form, the
//! longest-match classification of input buffers against either, and the
//! line filter of the external editor session.

pub mod decision;
pub mod editor;
pub mod rules;
pub mod trie;

pub use decision::{Arm, Decision};
pub use editor::{edited_lines, filter_lines, session_lines};
pub use rules::{Outcome, Rule, TrieError};
pub use trie::{build_decision_tree, Trie};
