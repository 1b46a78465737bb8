use vstd::prelude::*;

verus! {

/// The ways an operation on a tree or a trie can be refused.
#[derive(Clone, Copy, Debug, PartialEq, Eq, Structural)]
pub enum TreeError {
    /// An index argument lies outside the arena.
    OutOfRange,
    /// The node an operation targets does not exist.
    NotFound,
    /// The request is structurally disallowed, such as deleting a node that
    /// has no parent.
    InvalidOperation,
    /// A trie walk met a symbol with no matching outgoing edge.
    KeyNotFound,
}

impl TreeError {
    /// The wording of each error.
    pub open spec fn text(self) -> &'static str {
        match self {
            TreeError::OutOfRange => "index is outside the arena",
            TreeError::NotFound => "specified node does not exist",
            TreeError::InvalidOperation => "operation is not allowed on this node",
            TreeError::KeyNotFound => "key is not present in the trie",
        }
    }

    /// A short human-readable description of the error.
    pub fn message(&self) -> (s: &'static str)
        ensures
            s == self.text(),
    {
        match self {
            TreeError::OutOfRange => "index is outside the arena",
            TreeError::NotFound => "specified node does not exist",
            TreeError::InvalidOperation => "operation is not allowed on this node",
            TreeError::KeyNotFound => "key is not present in the trie",
        }
    }
}

} // verus!
