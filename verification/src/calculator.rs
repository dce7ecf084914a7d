//! The vocabulary of the calculator: operators, functions and kinds of value.

use vstd::prelude::*;

verus! {

/// The operations that a term can hold.
#[non_exhaustive]
#[derive(Debug, Clone, Copy, PartialEq, Eq, Structural)]
pub enum Operator {
    /// Addition.
    Addition,
    /// Subtraction.
    Subtraction,
    /// Multiplication.
    Multiplication,
    /// Division.
    Division,
    /// The remainder of a division.
    Modulo,
    /// The application of a function.
    Function(Function),
}

/// The functions that a term can apply: a name directly followed by its
/// arguments in brackets.
#[non_exhaustive]
#[derive(Debug, Clone, Copy, PartialEq, Eq, Structural)]
pub enum Function {
    /// The root of the given degree.
    Root(u16),
    /// Rounding down.
    Floor,
    /// Rounding up.
    Ceil,
    /// Rounding to the nearest integer.
    Round,
}

/// A variable as a value.
#[derive(Debug, Clone, Copy, PartialEq, Eq, Structural)]
pub struct VarVal {}

/// A complex number as a value.
#[derive(Debug, Clone, Copy, PartialEq, Eq, Structural)]
pub struct ComplVal {}

} // verus!
