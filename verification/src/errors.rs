//! The error taxonomy of the evaluator.
//!
//! Each stage of the pipeline reports its own kind of failure: the lexer a
//! `LexError`, the infix-to-postfix parser a `ParseError`, the postfix
//! evaluator an `EvalError`, and declaration handling a `DeclarationError`.
//! Every failure is reported as a value; the verified library never panics.

use vstd::prelude::*;
use crate::token::{Ident, Operator, Token};

verus! {

/// A failure while turning raw text into tokens.
#[derive(Clone, Copy, PartialEq, Eq, Structural, Debug)]
pub enum LexError {
    /// A second decimal point inside one numeric literal.
    UnexpectedDot,
    /// A numeric buffer holding no digit at all (a bare decimal point).
    MalformedNumber,
    /// A numeric literal beyond the representable fixed-point range.
    NumberTooLarge,
    /// An accumulated word that is not a valid identifier.
    InvalidIdentifier,
}

/// A failure while reordering an infix token stream into postfix form.
#[derive(Clone, PartialEq, Debug)]
pub enum ParseError {
    /// An identifier naming neither a variable nor a function.
    UnknownIdentifier(Ident),
    /// A closing parenthesis with no opening one, or the reverse.
    MismatchedParentheses,
    /// An assignment operator inside an expression; declarations strip it
    /// before parsing, so its presence is a caller defect.
    AssignmentInExpression,
}

/// A failure while executing a postfix token stream.
#[derive(Clone, PartialEq, Debug)]
pub enum EvalError {
    /// An operator found fewer operands on the stack than it consumes.
    StackUnderflow,
    /// An operator that carries no arithmetic operation (assignment or a
    /// parenthesis) reached execution.
    InvalidOperator(Operator),
    /// The power operator was given a fractional exponent.
    NonIntegerExponent,
    DivisionByZero,
    /// An intermediate magnitude left the representable fixed-point range.
    Overflow,
    /// A function was called with the wrong number of arguments.
    WrongArgumentCount { expected: usize, got: usize },
    /// A function argument that is not a plain value token.
    ExpectedValue,
    /// An identifier in a function body naming neither a parameter nor a
    /// variable of the ambient context.
    UnknownIdentifier(Ident),
    /// A call to a name that is neither a defined function nor a builtin.
    UnknownFunction(Ident),
    /// The stack held anything but exactly one value at the end.
    StackNotReduced,
    /// Function calls nested deeper than the evaluation depth budget; the
    /// surfaced form of unbounded recursion.
    RecursionLimit,
    /// A parse failure inside a function body evaluated at call time.
    Parse(ParseError),
}

/// A failure while handling a `function` or `var` declaration.
#[derive(Clone, PartialEq, Debug)]
pub enum DeclarationError {
    /// The declaration keyword is not followed by an identifier.
    MissingIdentifier,
    /// A token in a parameter list that is not an identifier.
    UnexpectedParameter(Token),
    /// No token after the `=` of a function declaration.
    EmptyBody,
    /// The same parameter name declared twice.
    DuplicateParameter,
    /// No `=` where a variable declaration requires one.
    MissingAssignment,
    /// The right-hand side of a variable declaration failed to evaluate.
    Evaluation(EvalError),
}

} // verus!
