//! The failures that evaluating an expression can end in.

use vstd::prelude::*;
use vstd::string::StringExecFns;
use crate::text::{decimal, decimal_text, push_char};

verus! {

/// What went wrong, with the token, name or value at fault.
#[derive(Clone, Debug, PartialEq, Eq)]
pub enum LambdaError {
    UnexpectedCharacter(char),
    InvalidName(String),
    IncompleteFunction,
    InvalidKeyword(String),
    UnmatchedParenthesis,
    ReservedName(String),
    UnavailableName(String),
    ActiveName(String),
    NumberTooLarge(usize),
    InternalFailure,
    ExpressionSizeLimit,
}

/// A failure as a mathematical value: names are sequences of characters.
pub enum Fault {
    UnexpectedCharacter(char),
    InvalidName(Seq<char>),
    IncompleteFunction,
    InvalidKeyword(Seq<char>),
    UnmatchedParenthesis,
    ReservedName(Seq<char>),
    UnavailableName(Seq<char>),
    ActiveName(Seq<char>),
    NumberTooLarge(nat),
    InternalFailure,
    ExpressionSizeLimit,
}

impl View for LambdaError {
    type V = Fault;

    open spec fn view(&self) -> Fault {
        match self {
            LambdaError::UnexpectedCharacter(c) => Fault::UnexpectedCharacter(*c),
            LambdaError::InvalidName(s) => Fault::InvalidName(s@),
            LambdaError::IncompleteFunction => Fault::IncompleteFunction,
            LambdaError::InvalidKeyword(s) => Fault::InvalidKeyword(s@),
            LambdaError::UnmatchedParenthesis => Fault::UnmatchedParenthesis,
            LambdaError::ReservedName(s) => Fault::ReservedName(s@),
            LambdaError::UnavailableName(s) => Fault::UnavailableName(s@),
            LambdaError::ActiveName(s) => Fault::ActiveName(s@),
            LambdaError::NumberTooLarge(n) => Fault::NumberTooLarge(*n as nat),
            LambdaError::InternalFailure => Fault::InternalFailure,
            LambdaError::ExpressionSizeLimit => Fault::ExpressionSizeLimit,
        }
    }
}

/// The line of text that describes a failure.
pub open spec fn fault_text(f: Fault) -> Seq<char> {
    match f {
        Fault::UnexpectedCharacter(c) => "syntax error: unexpected '"@ + seq![c] + "' character"@,
        Fault::InvalidName(s) => "syntax error: \""@ + s + "\" is not a valid variable name"@,
        Fault::IncompleteFunction =>
            "syntax error: incomplete lambda function declaration at the end of the expression"@,
        Fault::InvalidKeyword(s) => "syntax error: \""@ + s + "\" is not a valid keyword"@,
        Fault::UnmatchedParenthesis =>
            "syntax error: closing parenthesis without matching open parenthesis"@,
        Fault::ReservedName(s) => "naming error: \""@ + s
            + "\" is reserved as a keyword, so it cannot be assigned to a variable"@,
        Fault::UnavailableName(s) => "naming error: \""@ + s
            + "\" has already been used as a function variable, so it cannot be used as a free term"@,
        Fault::ActiveName(s) => "naming error: \""@ + s
            + "\" cannot be assigned multiple times in the same function"@,
        Fault::NumberTooLarge(n) => "input error: "@ + decimal_text(n)
            + " is greater than maximum integer limit (255)"@,
        Fault::InternalFailure => "internal error: an unforeseen error has occurred"@,
        Fault::ExpressionSizeLimit =>
            "internal error: expression reached the maximum size limit"@,
    }
}

/// `head`, then `name`, then `tail`.
fn framed(head: &str, name: &str, tail: &str) -> (out: String)
    ensures
        out@ == head@ + name@ + tail@,
{
    let mut out = String::from_str(head);
    out.append(name);
    out.append(tail);
    out
}

impl LambdaError {
    /// The line of text that describes this failure.
    pub fn message(&self) -> (out: String)
        ensures
            out@ == fault_text(self@),
    {
        match self {
            LambdaError::UnexpectedCharacter(c) => {
                let mut out = String::from_str("syntax error: unexpected '");
                push_char(&mut out, *c);
                out.append("' character");
                out
            },
            LambdaError::InvalidName(s) => framed(
                "syntax error: \"",
                s.as_str(),
                "\" is not a valid variable name",
            ),
            LambdaError::IncompleteFunction => String::from_str(
                "syntax error: incomplete lambda function declaration at the end of the expression",
            ),
            LambdaError::InvalidKeyword(s) => framed(
                "syntax error: \"",
                s.as_str(),
                "\" is not a valid keyword",
            ),
            LambdaError::UnmatchedParenthesis => String::from_str(
                "syntax error: closing parenthesis without matching open parenthesis",
            ),
            LambdaError::ReservedName(s) => framed(
                "naming error: \"",
                s.as_str(),
                "\" is reserved as a keyword, so it cannot be assigned to a variable",
            ),
            LambdaError::UnavailableName(s) => framed(
                "naming error: \"",
                s.as_str(),
                "\" has already been used as a function variable, so it cannot be used as a free term",
            ),
            LambdaError::ActiveName(s) => framed(
                "naming error: \"",
                s.as_str(),
                "\" cannot be assigned multiple times in the same function",
            ),
            LambdaError::NumberTooLarge(n) => {
                let digits = decimal(*n);
                framed(
                    "input error: ",
                    digits.as_str(),
                    " is greater than maximum integer limit (255)",
                )
            },
            LambdaError::InternalFailure => String::from_str(
                "internal error: an unforeseen error has occurred",
            ),
            LambdaError::ExpressionSizeLimit => String::from_str(
                "internal error: expression reached the maximum size limit",
            ),
        }
    }
}

} // verus!
