use vstd::prelude::*;

verus! {

/// The ways in which an expression can be rejected.
#[derive(Clone, Copy, Debug, PartialEq, Eq, Structural)]
pub enum Error {
    /// The input holds no character other than whitespace.
    EmptyExpression,
    /// A character outside the accepted set, or a malformed numeral.
    InvalidChar,
    /// A bracket without its partner.
    UnmatchedBracket,
    /// Two operators stand next to each other.
    DanglingOperator,
    /// An operator has fewer than two operands to work on.
    MissingOperand,
    /// Two complete sub-expressions with no operator joining them.
    MissingOperator,
    /// The divisor of a division is zero.
    DivideByZero,
    /// A bracket or a chain marker appears in a postfix sequence.
    InvalidPostfix,
}

impl Error {
    /// A sentence that describes the error to a person.
    pub fn message(&self) -> (r: &'static str)
        ensures
            *self == Error::EmptyExpression ==> r@ == "Operation is empty"@,
            *self == Error::InvalidChar ==> r@ == "Operation contains invalid char"@,
            *self == Error::UnmatchedBracket ==> r@ == "One or more brackets are lonely"@,
            *self == Error::DanglingOperator ==> r@ == "Operator must between two numbers"@,
            *self == Error::MissingOperand ==> r@ == "An operator is missing one of its operands"@,
            *self == Error::MissingOperator ==> r@ == "Operator is missing before the parenthesis"@,
            *self == Error::DivideByZero ==> r@ == "Cannot divide number by zero"@,
            *self == Error::InvalidPostfix ==> r@
                == "Only operators and numbers are allowed to be inside the postfix"@,
    {
        match self {
            Error::EmptyExpression => "Operation is empty",
            Error::InvalidChar => "Operation contains invalid char",
            Error::UnmatchedBracket => "One or more brackets are lonely",
            Error::DanglingOperator => "Operator must between two numbers",
            Error::MissingOperand => "An operator is missing one of its operands",
            Error::MissingOperator => "Operator is missing before the parenthesis",
            Error::DivideByZero => "Cannot divide number by zero",
            Error::InvalidPostfix => "Only operators and numbers are allowed to be inside the postfix",
        }
    }
}

} // verus!
