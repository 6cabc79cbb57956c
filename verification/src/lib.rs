//! An arithmetic expression evaluator: a lexer that turns text into tokens,
//! a shunting-yard parser that reorders an infix token stream into postfix
//! (RPN) form while resolving identifiers against an evaluation context, and
//! an RPN evaluator that executes the postfix stream against a stack,
//! including user-defined and built-in function invocation.
//!
//! Numeric values are fixed-point decimals: a sign and a magnitude scaled by
//! one billion, so every value is an integer count of billionths. Arithmetic
//! is exact except that multiplication, division and the built-in function
//! approximations truncate toward zero at the ninth decimal place.

pub mod errors;
pub mod function;
pub mod interpreter;
pub mod num;
pub mod rpn;
pub mod token;
