//! A radix tree: a compressed prefix tree that maps byte strings to values.
//!
//! `Rax` is the tree with its operations; `tree` holds the tree as a
//! mathematical value and what each operation computes on it; `laws` proves
//! what the operations do to the mapping that the tree stands for; `cut`
//! classifies a node's label against a key; `node` is a prefix tree of bare
//! labels; `replay` runs sequences of operations.

pub mod cut;
pub mod laws;
pub mod node;
pub mod rax;
pub mod replay;
pub mod tree;

pub use node::TrieNode;
pub use rax::Rax;
