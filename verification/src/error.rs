//! How recognition fails.

use vstd::prelude::*;

verus! {

/// Why no expression came out.
#[derive(Clone, Copy, Debug, PartialEq, Eq, Structural)]
pub enum ParseError {
    /// The text is not an expression of the grammar.
    Syntax,
    /// A token tree holds what the grammar never produces: a token of a kind
    /// that has no place where it stands, or a number that is no decimal
    /// literal.
    Internal,
}

} // verus!
