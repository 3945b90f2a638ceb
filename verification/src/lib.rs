//! An evaluator for the untyped lambda calculus: the text of an expression is
//! cut into tokens, the tokens are bound to a tree with position-addressed
//! variables, the tree is reduced in normal order, and the result is rendered
//! as text.

pub mod text;
pub mod errors;
pub mod naming;
pub mod term;
pub mod objects;
pub mod printer;
pub mod patterns;
pub mod parser;
pub mod builder;
pub mod scoping;
pub mod binding;
pub mod laws;

pub use crate::parser::Parser;

use vstd::prelude::*;
use crate::builder::{build, build_spec};
use crate::errors::{fault_text, Fault, LambdaError};
use crate::parser::{tokens_of, Lexical};
use crate::printer::{guarded, render, try_format};
use crate::term::reduce_term;

verus! {

/// The largest numeral that an expression may hold.
pub const MAX_NUMBER_INPUT: usize = 255;

/// How deep a reduction may nest, and how deep below its abstraction an
/// argument may be copied.
pub const MAX_OBJECT_DEPTH: usize = 512;

/// The longest text that is printed.
pub const MAX_STRING_LENGTH: usize = 255;

/// The text of the normal form of the expression that `tokens` form.
pub open spec fn evaluate_tokens(tokens: Seq<Lexical>) -> Result<Seq<char>, Fault> {
    match build_spec(tokens) {
        Err(e) => Err(e),
        Ok(expr) => match reduce_term(expr.term, expr.registry.copies, MAX_OBJECT_DEPTH as nat) {
            Err(e) => Err(e),
            Ok(reduced) => {
                let registry = crate::naming::Registry {
                    names: expr.registry.names,
                    copies: reduced.copies,
                    renames: expr.registry.renames,
                };
                match render(reduced.term, registry, Seq::empty(), true) {
                    Err(e) => Err(e),
                    Ok(text) => Ok(guarded(text)),
                }
            },
        },
    }
}

/// The text of the normal form of the expression that `text` writes, read
/// with the keywords `keywords`.
pub open spec fn evaluate(text: Seq<char>, keywords: Map<Seq<char>, Seq<Lexical>>) -> Result<
    Seq<char>,
    Fault,
> {
    match tokens_of(text, keywords, None) {
        Err(e) => Err(e),
        Ok(tokens) => evaluate_tokens(tokens),
    }
}

/// What `simplify` gives: nothing for an empty text; else the text of the
/// normal form, or the line that describes the failure.
pub open spec fn simplified(text: Seq<char>, keywords: Map<Seq<char>, Seq<Lexical>>) -> Seq<char> {
    if text.len() == 0 {
        text
    } else {
        match evaluate(text, keywords) {
            Ok(out) => out,
            Err(e) => fault_text(e),
        }
    }
}

/// Reduces the expression that `tokens` form and renders its normal form.
pub fn solve_tokens(tokens: Vec<crate::parser::Token>) -> (r: Result<String, LambdaError>)
    ensures
        match evaluate_tokens(crate::parser::lexicals(tokens@)) {
            Ok(out) => r is Ok && r->Ok_0@ == out,
            Err(e) => r is Err && r->Err_0@ == e,
        },
{
    let mut expr = build(tokens)?;
    let ghost built = expr@;
    expr.reduce()?;
    proof {
        let reduced = reduce_term(built.term, built.registry.copies, MAX_OBJECT_DEPTH as nat)->Ok_0;
        assert(expr@.registry =~= (crate::naming::Registry {
            names: built.registry.names,
            copies: reduced.copies,
            renames: built.registry.renames,
        }));
    }
    try_format(&expr)
}

/// Reads, reduces and renders the expression that `s` writes.
pub fn solve(s: String, p: &Parser) -> (r: Result<String, LambdaError>)
    ensures
        match evaluate(s@, p@) {
            Ok(out) => r is Ok && r->Ok_0@ == out,
            Err(e) => r is Err && r->Err_0@ == e,
        },
{
    let tokens = p.tokenize(s, None)?;
    solve_tokens(tokens)
}

/// The text of the normal form of `expression`, or the line that describes
/// why there is none. An empty expression gives an empty text.
pub fn simplify(expression: String, parser: &Parser) -> (out: String)
    ensures
        out@ == simplified(expression@, parser@),
{
    if expression.as_str().is_empty() {
        return expression;
    }
    match solve(expression, parser) {
        Ok(text) => text,
        Err(e) => e.message(),
    }
}

} // verus!
