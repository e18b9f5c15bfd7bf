//! Operators of the notation and the errors an expression can be rejected with.

use vstd::prelude::*;

verus! {

/// A binary operator of the notation. Each is written as a single letter:
/// `a` adds, `b` subtracts, `c` multiplies, `d` divides.
#[derive(Clone, Copy, Debug, PartialEq, Eq, Structural)]
pub enum Operator {
    Add,
    Subtract,
    Multiply,
    Divide,
}

/// The ways an expression can be rejected. The set is closed: every failure
/// of the evaluator is one of these five kinds, and none carries a payload.
#[derive(Clone, Copy, Debug, PartialEq, Eq, Structural)]
pub enum ParseError {
    UnmatchedOpeningParenthesis,
    UnmatchedClosingParenthesis,
    DivisionByZero,
    InvalidCharacter,
    EmptyExpression,
}

/// The four characters that stand for operators.
pub open spec fn is_operator_char(c: char) -> bool {
    c == 'a' || c == 'b' || c == 'c' || c == 'd'
}

/// The operator a letter stands for.
pub open spec fn char_operator(c: char) -> Operator
    recommends
        is_operator_char(c),
{
    if c == 'a' {
        Operator::Add
    } else if c == 'b' {
        Operator::Subtract
    } else if c == 'c' {
        Operator::Multiply
    } else {
        Operator::Divide
    }
}

/// What resolving one character to an operator yields: the operator for
/// `a`, `b`, `c`, `d`, and `InvalidCharacter` for every other character.
pub open spec fn operator_of_char(c: char) -> Result<Operator, ParseError> {
    if is_operator_char(c) {
        Ok(char_operator(c))
    } else {
        Err(ParseError::InvalidCharacter)
    }
}

/// Resolves one character to an operator; any character other than
/// `a`, `b`, `c`, `d` is rejected as `InvalidCharacter`.
pub fn parse_operator(c: char) -> (r: Result<Operator, ParseError>)
    ensures
        r == operator_of_char(c),
{
    match c {
        'a' => Ok(Operator::Add),
        'b' => Ok(Operator::Subtract),
        'c' => Ok(Operator::Multiply),
        'd' => Ok(Operator::Divide),
        _ => Err(ParseError::InvalidCharacter),
    }
}

/// The phrase shown to a user for each error kind.
pub open spec fn message_of(e: ParseError) -> Seq<char> {
    match e {
        ParseError::UnmatchedOpeningParenthesis => "Unmatched opening parenthesis"@,
        ParseError::UnmatchedClosingParenthesis => "Unmatched closing parenthesis"@,
        ParseError::DivisionByZero => "Division by zero"@,
        ParseError::InvalidCharacter => "Invalid character"@,
        ParseError::EmptyExpression => "Empty expression"@,
    }
}

impl ParseError {
    /// The short human-readable phrase for this error.
    pub fn message(&self) -> (r: &'static str)
        ensures
            r@ == message_of(*self),
    {
        match self {
            ParseError::UnmatchedOpeningParenthesis => "Unmatched opening parenthesis",
            ParseError::UnmatchedClosingParenthesis => "Unmatched closing parenthesis",
            ParseError::DivisionByZero => "Division by zero",
            ParseError::InvalidCharacter => "Invalid character",
            ParseError::EmptyExpression => "Empty expression",
        }
    }
}

/// One step of the final fold: the operator applied to the running result
/// and the next operand. Arithmetic follows a two's-complement wraparound
/// policy on `i32`: addition, subtraction and multiplication wrap, and
/// division truncates toward zero, with the one overflowing quotient
/// `i32::MIN / -1` wrapping back to `i32::MIN`. Dividing by zero is the
/// error `DivisionByZero`.
pub open spec fn apply_op(op: Operator, a: i32, b: i32) -> Result<i32, ParseError> {
    match op {
        Operator::Add => Ok(vstd::wrapping::i32_specs::wrapping_add(a, b)),
        Operator::Subtract => Ok(vstd::wrapping::i32_specs::wrapping_sub(a, b)),
        Operator::Multiply => Ok(vstd::wrapping::i32_specs::wrapping_mul(a, b)),
        Operator::Divide => {
            if b == 0 {
                Err(ParseError::DivisionByZero)
            } else {
                match a.checked_div(b) {
                    Some(q) => Ok(q),
                    None => Ok(i32::MIN),
                }
            }
        },
    }
}

/// Applies one operator to the running result and the next operand,
/// exactly as `apply_op` states.
pub fn apply_operator(op: Operator, a: i32, b: i32) -> (r: Result<i32, ParseError>)
    ensures
        r == apply_op(op, a, b),
{
    match op {
        Operator::Add => Ok(a.wrapping_add(b)),
        Operator::Subtract => Ok(a.wrapping_sub(b)),
        Operator::Multiply => Ok(a.wrapping_mul(b)),
        Operator::Divide => {
            if b == 0 {
                Err(ParseError::DivisionByZero)
            } else {
                match a.checked_div(b) {
                    Some(q) => Ok(q),
                    None => Ok(i32::MIN),
                }
            }
        },
    }
}

} // verus!
