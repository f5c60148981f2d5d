use vstd::prelude::*;
use crate::symbol::Symbol;

verus! {

/// An expression of the language; it holds nothing yet.
pub struct Expr {}

/// The tokens of a statement, in order; it holds nothing yet.
pub struct TokenList {}

/// An identifier.
pub struct Id(pub Symbol);

/// An operator expression; it holds nothing yet.
pub struct OpExpr {}

/// The sum of two expressions.
pub struct OpAdd {
    pub lhs: Expr,
    pub rhs: Expr,
}

/// The sum of two 32-bit integers.
pub struct OpAddI32 {
    pub lhs: Expr,
    pub rhs: Expr,
}

/// An 8-bit integer widened to 32 bits.
pub struct CastI8toI32 {
    pub val: Expr,
}

/// An assignment.
pub struct OpAssign {
    pub lhs: Expr,
    pub rhs: Expr,
}

} // verus!
