//! Errors reported by descriptor construction, parsing and planning.
use vstd::prelude::*;

verus! {

/// Where the text of a descriptor breaks its grammar.
#[derive(Debug, Clone, Copy, PartialEq, Eq, Structural)]
pub enum ParseError {
    /// The text is not `tr(` followed by its arguments and `)`.
    NotTr,
    /// The internal key is missing or holds a structural character.
    BadKey,
    /// A brace branch does not hold exactly two subtrees.
    BranchChildren,
    /// A brace branch carries a name in front of it.
    BranchName,
    /// A script leaf is empty or its parentheses do not match.
    BadLeaf,
    /// Text is left over after the descriptor.
    Trailing,
}

/// The errors of this library.
#[derive(Debug, Clone, PartialEq, Eq)]
pub enum Error {
    /// The text does not follow the descriptor grammar.
    Parse(ParseError),
    /// A leaf is not a top-level script expression; holds its text.
    NonTopLevel(String),
    /// The tree is higher than a control block can prove.
    MaxRecursiveDepthExceeded,
    /// No leaf and no key path can be satisfied.
    ImpossibleSatisfaction,
    /// The planner found no witness.
    CouldNotSatisfy,
}

} // verus!
