use vstd::prelude::*;

verus! {

/// Every way in which evaluating an expression can fail.
#[derive(Debug, Clone, Copy, PartialEq, Eq, Structural)]
pub enum CalcError {
    /// A character that has no place at this point of the text.
    InvalidSyntax(char),
    /// A run of digits whose value does not fit in an `i64`; it holds the
    /// position, counted in characters, at which the run starts.
    UnknownToken(usize),
    /// There is nothing to build a tree from.
    EmptyExpression,
    /// An operator has no operand at all.
    MalformedEquation,
    /// An operator node lacks a child that its arity requires.
    MissingOperand,
    /// A division whose divisor is zero.
    DivisionByZero,
    /// An intermediate or final value lies outside the range of `i64`.
    Overflow,
}

} // verus!
