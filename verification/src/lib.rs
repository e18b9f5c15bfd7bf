//! An evaluator for a compact linear arithmetic notation: decimal digit runs
//! form numbers, the letters `a`, `b`, `c`, `d` stand for the four binary
//! operators, and `e` / `f` open and close nested groups. Evaluation is one
//! left-to-right pass with no operator precedence; a group is evaluated
//! recursively and its value stands in as a single operand.

pub mod eval;
pub mod laws;
pub mod ops;

pub use eval::evaluate_expression;
pub use eval::try_evaluate_expression;
pub use ops::Operator;
pub use ops::ParseError;
pub use ops::parse_operator;
