//! An arithmetic expression calculator in three stages: a lexer, an
//! infix-to-postfix converter and a postfix evaluator.
//!
//! The stages are [`Calculator::parse`], [`Calculator::post_fix`] and
//! [`Calculator::evaluate`]. The type of the operands is the caller's choice:
//! the lexer hands every numeral to a conversion that the caller supplies, and
//! the evaluator applies every operator with an arithmetic that the caller
//! supplies. What the stages compute is defined by [`lexer::lex`],
//! [`converter::postfix_of`] and [`expr::postfix_expr`]; the modules
//! [`well_formed`], [`grammar`], [`infix`] and [`pipeline`] prove what these
//! definitions mean.

use vstd::prelude::*;

pub mod converter;
pub mod evaluator;
pub mod expr;
pub mod grammar;
pub mod infix;
pub mod lexer;
pub mod pipeline;
pub mod token;
pub mod well_formed;

pub use token::{Bracket, Error, Operator, Token};

verus! {

/// The namespace of the three stages: [`Calculator::parse`],
/// [`Calculator::post_fix`] and [`Calculator::evaluate`].
pub struct Calculator {}

} // verus!
