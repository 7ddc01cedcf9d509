//! The two errors a parse can end in, and their human-readable messages.

use vstd::prelude::*;
use vstd::string::StringExecFns;
use crate::grammar::Expected;
use crate::numbers::{dec_digits, render_u64, ConversionReason};

verus! {

/// Why a parse failed.  Either error aborts the whole parse; no partial
/// mapping is ever returned.
#[derive(Debug, PartialEq, Eq)]
pub enum ParseError {
    /// The document does not conform to the grammar.  `line` is 1-based;
    /// `expected` is the construct missing at the point of failure.
    Syntax { line: usize, expected: Expected },
    /// Every line is well-formed, but an element of `key`'s list does not
    /// denote a 32-bit integer.
    Conversion { key: String, reason: ConversionReason },
}

/// The token text a syntax error reports as expected.
pub open spec fn expected_text(e: Expected) -> Seq<char> {
    match e {
        Expected::IdentifierOrComment => "identifier or comment"@,
        Expected::Colon => "':'"@,
        Expected::OpenBracket => "'['"@,
        Expected::Value => "number"@,
        Expected::CommaOrClose => "',' or ']'"@,
        Expected::EndOfLine => "end of line"@,
    }
}

/// The detail text a conversion error reports.
pub open spec fn reason_text(r: ConversionReason) -> Seq<char> {
    match r {
        ConversionReason::NotANumber => "invalid digit found in string"@,
        ConversionReason::OutOfRange => "number out of range for a 32-bit integer"@,
    }
}

/// The full message of an error.
pub open spec fn message_text(e: ParseError) -> Seq<char> {
    match e {
        ParseError::Syntax { line, expected } => "expected "@ + expected_text(expected)
            + " on line "@ + dec_digits(line as int),
        ParseError::Conversion { key, reason } => "failed to parse number for key '"@ + key@
            + "': "@ + reason_text(reason),
    }
}

/// Every syntax error message begins with the word "expected".
pub proof fn lemma_syntax_message_names_expectation(e: ParseError)
    requires
        e is Syntax,
    ensures
        message_text(e).len() >= 8,
        message_text(e).subrange(0, 8) == "expected"@,
{
    reveal_strlit("expected ");
    reveal_strlit("expected");
    assert(message_text(e).subrange(0, 8) =~= "expected"@);
}

fn expected_str(e: Expected) -> (r: &'static str)
    ensures
        r@ == expected_text(e),
{
    match e {
        Expected::IdentifierOrComment => "identifier or comment",
        Expected::Colon => "':'",
        Expected::OpenBracket => "'['",
        Expected::Value => "number",
        Expected::CommaOrClose => "',' or ']'",
        Expected::EndOfLine => "end of line",
    }
}

fn reason_str(r: ConversionReason) -> (s: &'static str)
    ensures
        s@ == reason_text(r),
{
    match r {
        ConversionReason::NotANumber => "invalid digit found in string",
        ConversionReason::OutOfRange => "number out of range for a 32-bit integer",
    }
}

impl ParseError {
    /// The error rendered for display.
    pub fn message(&self) -> (s: String)
        ensures
            s@ == message_text(*self),
    {
        match self {
            ParseError::Syntax { line, expected } => {
                let mut s = String::new();
                s.append("expected ");
                s.append(expected_str(*expected));
                s.append(" on line ");
                let num = render_u64(*line as u64);
                s.append(num.as_str());
                s
            },
            ParseError::Conversion { key, reason } => {
                let mut s = String::new();
                s.append("failed to parse number for key '");
                s.append(key.as_str());
                s.append("': ");
                s.append(reason_str(*reason));
                s
            },
        }
    }
}

} // verus!
