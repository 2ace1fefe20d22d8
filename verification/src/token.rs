//! The vocabulary shared by the lexer and the tree builder.

use vstd::prelude::*;

verus! {

/// The closed set of operator kinds. New kinds are added here, and
/// recognised in the lexer's operator classification.
#[derive(Clone, Copy, Debug, PartialEq, Eq, Structural)]
pub enum Operator {
    /// The symbol `+`.
    Add,
}

/// The smallest lexical unit.
#[derive(Clone, Copy, Debug, PartialEq, Eq, Structural)]
pub enum Token {
    /// An opening parenthesis.
    LeftParen,
    /// A closing parenthesis.
    RightParen,
    /// An unsigned decimal literal that fits in 32 signed bits.
    Integer(i32),
    /// An operator symbol.
    Operator(Operator),
    /// A word that is neither a parenthesis, a known operator nor an integer.
    Unrecognized,
}

impl Token {
    /// True of the tokens that become leaves: integers and operators.
    pub open spec fn is_atom(self) -> bool {
        self is Integer || self is Operator
    }
}

} // verus!
