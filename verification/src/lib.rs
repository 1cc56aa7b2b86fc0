//! A small JSON library: a recursive-descent parser from text to a value
//! tree, and an indentation-aware serializer from the tree back to text.
//!
//! Numbers are kept as their validated numeric lexeme rather than as a
//! machine float, so a parsed document serializes back to the digits it was
//! written with.

use vstd::prelude::*;

pub mod error;
pub mod laws;
pub mod model;
pub mod parser;
pub mod text;
pub mod value;

verus! {

/// Parse a JSON document: one value standing after optional leading
/// whitespace. Text after the value is left unread, as the cursor
/// interface allows. A value that comes back is well formed, so rendering
/// it yields a document that parses back to it.
pub fn parse(input: &str) -> (r: Result<value::JSONValue, error::SyntaxError>)
    ensures
        match model::spec_value(input@, model::next_sig(input@, 0)) {
            model::Parsed::Accept(m, j) => r matches Ok(v) && v@ == m && model::wf_model(m),
            model::Parsed::Reject(o, ex) => r matches Err(e) && e.offset == o && e.found
                == model::found_at(input@, o) && e.expected == ex,
        },
{
    let mut p = parser::JSON::new(input);
    p.parse()
}

/// Render a value as indented text: exactly the text of the reference
/// serializer at depth zero.
pub fn render(v: &value::JSONValue) -> (r: String)
    requires
        model::mheight(v@) <= usize::MAX,
    ensures
        r@ == model::spec_render(v@, 0),
{
    v.repr(0)
}

} // verus!
