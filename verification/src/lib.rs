//! A small regular-expression engine: `compile` turns a pattern string into
//! a tree of matcher nodes, and `is_match` tests, greedily and without
//! backtracking across node boundaries, whether a subject line contains a
//! match. Pattern and subject are sequences of characters.

pub mod matcher;

pub mod expression;

pub mod compile;

pub mod laws;

use vstd::prelude::*;

use crate::compile::CompileError;
use crate::compile::spec_compile;
use crate::expression::Expression;
use crate::expression::SpecExpression;
use crate::expression::match_pattern;
use crate::expression::spec_is_match;

verus! {

/// Compiles `pattern` into a reusable expression, or reports why its first
/// offending token was rejected.
pub fn compile(pattern: &Vec<char>) -> (r: Result<Expression, CompileError>)
    ensures
        match r {
            Ok(e) => spec_compile(pattern@) == Ok::<SpecExpression, CompileError>(e@),
            Err(er) => spec_compile(pattern@) == Err::<SpecExpression, CompileError>(er),
        },
{
    Expression::try_from(pattern)
}

/// Whether the compiled `expression` matches somewhere in `subject`.
pub fn is_match(expression: &Expression, subject: &Vec<char>) -> (r: bool)
    ensures
        r == spec_is_match(expression@, subject@),
{
    match_pattern(subject, expression)
}

} // verus!
