//! The single error kind a parse can report: where it stopped, what stood
//! there, and what would have been accepted.

use vstd::prelude::*;
use vstd::string::StringExecFns;

verus! {

/// What the parser was looking for at the point where it stopped.
#[derive(Clone, Copy, PartialEq, Eq, Debug)]
pub enum Expected {
    /// The start of a JSON value.
    Value,
    /// One specific punctuation character, such as `:` or `"`.
    Punct(char),
    /// `,` to continue an object, or `}` to end it.
    CommaOrBrace,
    /// `,` to continue an array, or `]` to end it.
    CommaOrBracket,
    /// The closing `"` of a string.
    ClosingQuote,
    /// A well-formed numeric lexeme.
    NumberLexeme,
    /// The remaining letters of `true`, `false` or `null`.
    Literal,
}

/// A syntax error: the character offset at which the parse failed, the
/// character found there (`None` when the input ended), and what the
/// grammar would have accepted instead.
#[derive(PartialEq, Eq, Debug)]
pub struct SyntaxError {
    pub offset: usize,
    pub found: Option<char>,
    pub expected: Expected,
}

/// The message text belonging to each [`Expected`] case.
pub open spec fn expected_text(e: Expected) -> Seq<char> {
    match e {
        Expected::Value => "expected a JSON value"@,
        Expected::Punct(c) => "expected '"@ + seq![c] + "'"@,
        Expected::CommaOrBrace => "expected ',' or '}' after an object entry"@,
        Expected::CommaOrBracket => "expected ',' or ']' after an array element"@,
        Expected::ClosingQuote => "expected a closing '\"'"@,
        Expected::NumberLexeme => "expected a well-formed number"@,
        Expected::Literal => "expected 'true', 'false' or 'null'"@,
    }
}

impl SyntaxError {
    /// A short description of what the parser expected, for reporting.
    pub fn describe(&self) -> (r: String)
        ensures
            r@ == expected_text(self.expected),
    {
        match self.expected {
            Expected::Value => String::from_str("expected a JSON value"),
            Expected::Punct(c) => {
                let mut one: Vec<char> = Vec::new();
                one.push(c);
                let mut r = String::from_str("expected '");
                r.append(crate::text::chars_to_string(one.as_slice()).as_str());
                r.append("'");
                proof {
                    assert(r@ =~= expected_text(self.expected));
                }
                r
            },
            Expected::CommaOrBrace => String::from_str("expected ',' or '}' after an object entry"),
            Expected::CommaOrBracket => String::from_str("expected ',' or ']' after an array element"),
            Expected::ClosingQuote => String::from_str("expected a closing '\"'"),
            Expected::NumberLexeme => String::from_str("expected a well-formed number"),
            Expected::Literal => String::from_str("expected 'true', 'false' or 'null'"),
        }
    }
}

} // verus!
