//! The recursive-descent parser: a whitespace-skipping cursor with one
//! character of lookahead, and one procedure per grammar production, each
//! proved to behave exactly like the reference parser of [`crate::model`].

use vstd::prelude::*;
use vstd::string::next_postcondition;
use vstd::std_specs::iter::IteratorSpec;
use crate::error::{Expected, SyntaxError};
use crate::model::{
    adv, cur_char, digits, distinct_keys, entries_of, false_tok, found_at, has_key, insert_entry,
    is_digit, is_digit_char, is_num_char, is_num_char_exec, is_number_lexeme, is_ws, is_ws_char,
    lemma_insert_entry_distinct, lemma_next_sig, lemma_run_len, lemma_run_len_is, lit_at,
    next_sig, null_tok, num_end, quote_end, spec_elems, spec_number, spec_pairs, spec_string,
    spec_value, true_tok, JsonModel, Parsed,
};
use crate::value::{
    elems_view, lemma_elems_view_push, lemma_pairs_view_push, pairs_view, JSONValue,
};

verus! {

/// Collect the characters of `input`, in order.
fn str_to_chars(input: &str) -> (r: Vec<char>)
    ensures
        r@ == input@,
{
    broadcast use next_postcondition;

    let mut it = input.chars();
    let mut r: Vec<char> = Vec::new();
    proof {
        assert(it.remaining() =~= input@);
    }
    loop
        invariant
            r@ + it.remaining() == input@,
            it.decrease() is Some,
        ensures
            r@ == input@,
        decreases it.decrease()->0,
    {
        match it.next() {
            Some(c) => {
                r.push(c);
                proof {
                    assert(r@ + it.remaining() =~= input@);
                }
            },
            None => {
                proof {
                    assert(r@ =~= input@);
                }
                break ;
            },
        }
    }
    r
}

/// The parser state: the whole input as characters, and the cursor, which
/// always stands on a significant character (or at the end of the input).
pub struct JSON {
    pub text: Vec<char>,
    pub pos: usize,
}

impl JSON {
    /// The cursor never stands past the end of the input.
    pub open spec fn wf(&self) -> bool {
        self.pos <= self.text@.len()
    }

    /// Start a parse: take the input text and stand the cursor on its first
    /// significant character.
    pub fn new(input: &str) -> (r: JSON)
        ensures
            r.text@ == input@,
            r.pos == next_sig(input@, 0),
            r.wf(),
    {
        let text = str_to_chars(input);
        let mut j = JSON { text, pos: 0 };
        j.skip_ws();
        j
    }

    /// Move the cursor forward over whitespace to the next significant
    /// character, or to the end of the input.
    fn skip_ws(&mut self)
        requires
            old(self).wf(),
        ensures
            final(self).text == old(self).text,
            final(self).pos == next_sig(old(self).text@, old(self).pos as int),
            final(self).wf(),
    {
        let n = self.text.len();
        while self.pos < n && is_ws_char(self.text[self.pos])
            invariant
                self.text == old(self).text,
                self.pos <= n,
                n == self.text@.len(),
                next_sig(old(self).text@, old(self).pos as int) == next_sig(
                    self.text@,
                    self.pos as int,
                ),
            decreases n - self.pos,
        {
            self.pos = self.pos + 1;
        }
    }

    /// The character under the cursor, or `'\0'` once the input is
    /// exhausted.
    pub fn current(&self) -> (c: char)
        requires
            self.wf(),
        ensures
            c == cur_char(self.text@, self.pos as int),
    {
        if self.pos < self.text.len() {
            self.text[self.pos]
        } else {
            '\0'
        }
    }

    /// Consume the character under the cursor, skip the whitespace that
    /// follows, and return the new current character (`'\0'` at end of
    /// input, and the end state is sticky).
    pub fn next_tok(&mut self) -> (c: char)
        requires
            old(self).wf(),
        ensures
            final(self).text == old(self).text,
            final(self).pos == adv(old(self).text@, old(self).pos as int),
            final(self).wf(),
            c == cur_char(final(self).text@, final(self).pos as int),
    {
        if self.pos < self.text.len() {
            self.pos = self.pos + 1;
            self.skip_ws();
        }
        self.current()
    }

    /// The error that reports the character under the cursor as found where
    /// `exp` was expected.
    fn fail_here(&self, exp: Expected) -> (e: SyntaxError)
        requires
            self.wf(),
        ensures
            e.offset == self.pos,
            e.found == found_at(self.text@, self.pos as int),
            e.expected == exp,
    {
        let found = if self.pos < self.text.len() {
            Some(self.text[self.pos])
        } else {
            None
        };
        SyntaxError { offset: self.pos, found, expected: exp }
    }

    /// Demand one structural character: consume it like [`Self::next_tok`]
    /// when it stands under the cursor, otherwise fail without moving.
    pub fn expect(&mut self, ch: char) -> (r: Result<(), SyntaxError>)
        requires
            old(self).wf(),
        ensures
            final(self).text == old(self).text,
            final(self).wf(),
            if old(self).pos < old(self).text@.len() && old(self).text@[old(self).pos as int]
                == ch {
                r is Ok && final(self).pos == adv(old(self).text@, old(self).pos as int)
            } else {
                r matches Err(e) && *final(self) == *old(self) && e.offset == old(self).pos
                    && e.found == found_at(old(self).text@, old(self).pos as int) && e.expected
                    == Expected::Punct(ch)
            },
    {
        if self.pos < self.text.len() && self.text[self.pos] == ch {
            self.next_tok();
            Ok(())
        } else {
            Err(self.fail_here(Expected::Punct(ch)))
        }
    }

    /// The string production: an opening `"`, the characters up to the next
    /// `"` taken verbatim, the closing `"` consumed.
    fn parse_string(&mut self) -> (r: Result<String, SyntaxError>)
        requires
            old(self).wf(),
        ensures
            final(self).text == old(self).text,
            final(self).wf(),
            match spec_string(old(self).text@, old(self).pos as int) {
                Parsed::Accept(t, j) => r matches Ok(st) && st@ == t && final(self).pos == j
                    && old(self).pos + 2 <= j,
                Parsed::Reject(o, ex) => r matches Err(e) && e.offset == o && e.found == found_at(
                    old(self).text@,
                    o,
                ) && e.expected == ex,
            },
    {
        let ghost s = self.text@;
        let ghost i0 = self.pos as int;
        let n = self.text.len();
        if !(self.pos < n) {
            return Err(self.fail_here(Expected::Punct('"')));
        }
        if !(self.text[self.pos] == '"') {
            return Err(self.fail_here(Expected::Punct('"')));
        }
        let mut k = self.pos + 1;
        while k < n && !(self.text[k] == '"')
            invariant
                self.text@ == s,
                self.pos as int == i0,
                i0 + 1 <= k <= n,
                n == s.len(),
                forall|m: int| i0 + 1 <= m < k ==> s[m] != '"',
            decreases n - k,
        {
            k = k + 1;
        }
        proof {
            lemma_run_len_is(s, i0 + 1, k as int, |c: char| c != '"');
            assert(quote_end(s, i0 + 1) == k);
        }
        if k < n {
            let content = crate::text::chars_to_string(
                vstd::slice::slice_subrange(self.text.as_slice(), self.pos + 1, k),
            );
            self.pos = k + 1;
            self.skip_ws();
            proof {
                lemma_next_sig(s, k + 1);
            }
            Ok(content)
        } else {
            Err(SyntaxError { offset: n, found: None, expected: Expected::ClosingQuote })
        }
    }

    /// The number production: the maximal run of number characters, checked
    /// against the numeric grammar and kept as the lexeme.
    fn parse_number(&mut self) -> (r: Result<String, SyntaxError>)
        requires
            old(self).wf(),
        ensures
            final(self).text == old(self).text,
            final(self).wf(),
            match spec_number(old(self).text@, old(self).pos as int) {
                Parsed::Accept(q, j) => r matches Ok(st) && st@ == q && final(self).pos == j
                    && old(self).pos < j,
                Parsed::Reject(o, ex) => r matches Err(e) && e.offset == o && e.found == found_at(
                    old(self).text@,
                    o,
                ) && e.expected == ex,
            },
    {
        let ghost s = self.text@;
        let ghost i0 = self.pos as int;
        let n = self.text.len();
        let mut k = self.pos;
        while k < n && is_num_char_exec(self.text[k])
            invariant
                self.text@ == s,
                self.pos as int == i0,
                i0 <= k <= n,
                n == s.len(),
                forall|m: int| i0 <= m < k ==> is_num_char(s[m]),
            decreases n - k,
        {
            k = k + 1;
        }
        proof {
            lemma_run_len_is(s, i0, k as int, |c: char| is_num_char(c));
            assert(num_end(s, i0) == k);
        }
        let lex_slice = vstd::slice::slice_subrange(self.text.as_slice(), self.pos, k);
        if check_number(lex_slice) {
            let lex = crate::text::chars_to_string(lex_slice);
            proof {
                assert(k > i0) by {
                    if k == i0 {
                        assert(s.subrange(i0, k as int).len() == 0);
                    }
                }
            }
            self.pos = k;
            self.skip_ws();
            proof {
                lemma_next_sig(s, k as int);
            }
            Ok(lex)
        } else {
            Err(self.fail_here(Expected::NumberLexeme))
        }
    }

    /// The literal production: the whole keyword `true`, `false` or `null`,
    /// matched letter for letter.
    fn parse_literal(&mut self) -> (r: Result<JSONValue, SyntaxError>)
        requires
            old(self).wf(),
            old(self).pos < old(self).text@.len(),
            old(self).text@[old(self).pos as int] == 't' || old(self).text@[old(self).pos as int]
                == 'f' || old(self).text@[old(self).pos as int] == 'n',
        ensures
            final(self).text == old(self).text,
            final(self).wf(),
            value_matches(
                old(self).text@,
                spec_value(old(self).text@, old(self).pos as int),
                r,
                final(self).pos as int,
            ),
            r is Ok ==> old(self).pos < final(self).pos,
    {
        let ghost s = self.text@;
        let ghost i0 = self.pos as int;
        let n = self.text.len();
        let c = self.text[self.pos];
        if c == 't' {
            if n - self.pos >= 4 && self.text[self.pos + 1] == 'r' && self.text[self.pos + 2]
                == 'u' && self.text[self.pos + 3] == 'e' {
                proof {
                    assert(lit_at(s, i0, true_tok()));
                }
                self.pos = self.pos + 4;
                self.skip_ws();
                proof {
                    lemma_next_sig(s, i0 + 4);
                }
                Ok(JSONValue::Bool(true))
            } else {
                proof {
                    assert(!lit_at(s, i0, true_tok())) by {
                        if lit_at(s, i0, true_tok()) {
                            assert(s[i0 + 1] == true_tok()[1]);
                            assert(s[i0 + 2] == true_tok()[2]);
                            assert(s[i0 + 3] == true_tok()[3]);
                        }
                    }
                }
                Err(self.fail_here(Expected::Literal))
            }
        } else if c == 'f' {
            if n - self.pos >= 5 && self.text[self.pos + 1] == 'a' && self.text[self.pos + 2]
                == 'l' && self.text[self.pos + 3] == 's' && self.text[self.pos + 4] == 'e' {
                proof {
                    assert(lit_at(s, i0, false_tok()));
                }
                self.pos = self.pos + 5;
                self.skip_ws();
                proof {
                    lemma_next_sig(s, i0 + 5);
                }
                Ok(JSONValue::Bool(false))
            } else {
                proof {
                    assert(!lit_at(s, i0, false_tok())) by {
                        if lit_at(s, i0, false_tok()) {
                            assert(s[i0 + 1] == false_tok()[1]);
                            assert(s[i0 + 2] == false_tok()[2]);
                            assert(s[i0 + 3] == false_tok()[3]);
                            assert(s[i0 + 4] == false_tok()[4]);
                        }
                    }
                }
                Err(self.fail_here(Expected::Literal))
            }
        } else {
            if n - self.pos >= 4 && self.text[self.pos + 1] == 'u' && self.text[self.pos + 2]
                == 'l' && self.text[self.pos + 3] == 'l' {
                proof {
                    assert(lit_at(s, i0, null_tok()));
                }
                self.pos = self.pos + 4;
                self.skip_ws();
                proof {
                    lemma_next_sig(s, i0 + 4);
                }
                Ok(JSONValue::Null)
            } else {
                proof {
                    assert(!lit_at(s, i0, null_tok())) by {
                        if lit_at(s, i0, null_tok()) {
                            assert(s[i0 + 1] == null_tok()[1]);
                            assert(s[i0 + 2] == null_tok()[2]);
                            assert(s[i0 + 3] == null_tok()[3]);
                        }
                    }
                }
                Err(self.fail_here(Expected::Literal))
            }
        }
    }

    /// The value production: dispatch on the character under the cursor.
    fn parse_any(&mut self) -> (r: Result<JSONValue, SyntaxError>)
        requires
            old(self).wf(),
        ensures
            final(self).text == old(self).text,
            final(self).wf(),
            value_matches(
                old(self).text@,
                spec_value(old(self).text@, old(self).pos as int),
                r,
                final(self).pos as int,
            ),
            r is Ok ==> old(self).pos < final(self).pos,
        decreases old(self).text@.len() - old(self).pos, 2int,
    {
        if !(self.pos < self.text.len()) {
            return Err(self.fail_here(Expected::Value));
        }
        let c = self.text[self.pos];
        if c == '{' {
            self.parse_object()
        } else if c == '[' {
            self.parse_array()
        } else if c == '"' {
            match self.parse_string() {
                Ok(t) => Ok(JSONValue::String(t)),
                Err(e) => Err(e),
            }
        } else if c == 't' || c == 'f' || c == 'n' {
            self.parse_literal()
        } else if is_digit_char(c) || c == '-' {
            match self.parse_number() {
                Ok(q) => Ok(JSONValue::Number(q)),
                Err(e) => Err(e),
            }
        } else {
            Err(self.fail_here(Expected::Value))
        }
    }

    /// The object production at a `{`: empty for an immediate `}`, else the
    /// member list, with later duplicate keys overwriting the value while
    /// keeping the first occurrence's position.
    fn parse_object(&mut self) -> (r: Result<JSONValue, SyntaxError>)
        requires
            old(self).wf(),
            old(self).pos < old(self).text@.len(),
            old(self).text@[old(self).pos as int] == '{',
        ensures
            final(self).text == old(self).text,
            final(self).wf(),
            value_matches(
                old(self).text@,
                spec_value(old(self).text@, old(self).pos as int),
                r,
                final(self).pos as int,
            ),
            r is Ok ==> old(self).pos < final(self).pos,
        decreases old(self).text@.len() - old(self).pos, 1int,
    {
        let ghost s = self.text@;
        let ghost i0 = self.pos as int;
        self.next_tok();
        proof {
            lemma_next_sig(s, i0 + 1);
        }
        if self.pos < self.text.len() && self.text[self.pos] == '}' {
            let ghost j = self.pos as int;
            self.next_tok();
            proof {
                lemma_next_sig(s, j + 1);
                assert(pairs_view(Seq::<(String, JSONValue)>::empty()) =~= Seq::<(
                    Seq<char>,
                    JsonModel,
                )>::empty());
            }
            Ok(JSONValue::Object(Vec::new()))
        } else {
            let mut entries: Vec<(String, JSONValue)> = Vec::new();
            proof {
                assert(pairs_view(Seq::<(String, JSONValue)>::empty()) =~= Seq::<(
                    Seq<char>,
                    JsonModel,
                )>::empty());
            }
            match self.parse_pairs(&mut entries) {
                Ok(u) => Ok(JSONValue::Object(entries)),
                Err(e) => Err(e),
            }
        }
    }

    /// The array production at a `[`: empty for an immediate `]`, else the
    /// element list in order.
    fn parse_array(&mut self) -> (r: Result<JSONValue, SyntaxError>)
        requires
            old(self).wf(),
            old(self).pos < old(self).text@.len(),
            old(self).text@[old(self).pos as int] == '[',
        ensures
            final(self).text == old(self).text,
            final(self).wf(),
            value_matches(
                old(self).text@,
                spec_value(old(self).text@, old(self).pos as int),
                r,
                final(self).pos as int,
            ),
            r is Ok ==> old(self).pos < final(self).pos,
        decreases old(self).text@.len() - old(self).pos, 1int,
    {
        let ghost s = self.text@;
        let ghost i0 = self.pos as int;
        self.next_tok();
        proof {
            lemma_next_sig(s, i0 + 1);
        }
        if self.pos < self.text.len() && self.text[self.pos] == ']' {
            let ghost j = self.pos as int;
            self.next_tok();
            proof {
                lemma_next_sig(s, j + 1);
                assert(elems_view(Seq::<JSONValue>::empty()) =~= Seq::<JsonModel>::empty());
            }
            Ok(JSONValue::Array(Vec::new()))
        } else {
            let mut elems: Vec<JSONValue> = Vec::new();
            proof {
                assert(elems_view(Seq::<JSONValue>::empty()) =~= Seq::<JsonModel>::empty());
            }
            match self.parse_elems(&mut elems) {
                Ok(u) => Ok(JSONValue::Array(elems)),
                Err(e) => Err(e),
            }
        }
    }

    /// The member list of a non-empty object: `"key": value` entries
    /// separated by `,`, ended by `}` (which is consumed), inserted into
    /// `entries` as they are read.
    fn parse_pairs(&mut self, entries: &mut Vec<(String, JSONValue)>) -> (r: Result<
        (),
        SyntaxError,
    >)
        requires
            old(self).wf(),
            distinct_keys(pairs_view(old(entries)@)),
        ensures
            final(self).text == old(self).text,
            final(self).wf(),
            match spec_pairs(old(self).text@, old(self).pos as int) {
                Parsed::Accept(pairs, j) => r is Ok && final(self).pos == j && old(self).pos < j
                    && pairs_view(final(entries)@) == entries_of(
                    pairs_view(old(entries)@),
                    pairs,
                ) && distinct_keys(pairs_view(final(entries)@)),
                Parsed::Reject(o, ex) => r matches Err(e) && e.offset == o && e.found == found_at(
                    old(self).text@,
                    o,
                ) && e.expected == ex,
            },
        decreases old(self).text@.len() - old(self).pos, 3int,
    {
        let ghost s = self.text@;
        let ghost i0 = self.pos as int;
        let key = match self.parse_string() {
            Ok(key) => key,
            Err(e) => {
                return Err(e);
            },
        };
        match self.expect(':') {
            Ok(u) => (),
            Err(e) => {
                return Err(e);
            },
        }
        proof {
            lemma_next_sig(s, self.pos as int);
        }
        let v = match self.parse_any() {
            Ok(v) => v,
            Err(e) => {
                return Err(e);
            },
        };
        let ghost j3 = self.pos as int;
        let ghost acc0 = pairs_view(old(entries)@);
        insert_pair(entries, key, v);
        let ghost acc1 = pairs_view(entries@);
        if self.pos < self.text.len() {
            let c = self.text[self.pos];
            if c == ',' {
                self.next_tok();
                proof {
                    lemma_next_sig(s, j3 + 1);
                }
                let ghost j4 = self.pos as int;
                match self.parse_pairs(entries) {
                    Ok(u) => {
                        proof {
                            if let Parsed::Accept(rest_spec, j5) = spec_pairs(s, j4) {
                                if let Parsed::Accept(pairs, j5b) = spec_pairs(s, i0) {
                                    assert(pairs == seq![(key@, v@)] + rest_spec);
                                    assert(pairs[0] == (key@, v@));
                                    assert(pairs.drop_first() =~= rest_spec);
                                    assert(entries_of(acc0, pairs) == entries_of(acc1, rest_spec));
                                }
                            }
                        }
                        Ok(())
                    },
                    Err(e) => Err(e),
                }
            } else if c == '}' {
                self.next_tok();
                proof {
                    lemma_next_sig(s, j3 + 1);
                    if let Parsed::Accept(pairs, j5) = spec_pairs(s, i0) {
                        assert(pairs[0] == (key@, v@));
                        assert(pairs.drop_first() =~= Seq::<(Seq<char>, JsonModel)>::empty());
                        assert(entries_of(acc1, pairs.drop_first()) == acc1);
                        assert(entries_of(acc0, pairs) == entries_of(acc1, pairs.drop_first()));
                    }
                }
                Ok(())
            } else {
                Err(self.fail_here(Expected::CommaOrBrace))
            }
        } else {
            Err(self.fail_here(Expected::CommaOrBrace))
        }
    }

    /// The element list of a non-empty array: values separated by `,`,
    /// ended by `]` (which is consumed), appended to `elems` in order.
    fn parse_elems(&mut self, elems: &mut Vec<JSONValue>) -> (r: Result<(), SyntaxError>)
        requires
            old(self).wf(),
        ensures
            final(self).text == old(self).text,
            final(self).wf(),
            match spec_elems(old(self).text@, old(self).pos as int) {
                Parsed::Accept(es, j) => r is Ok && final(self).pos == j && old(self).pos < j
                    && elems_view(final(elems)@) == elems_view(old(elems)@) + es,
                Parsed::Reject(o, ex) => r matches Err(e) && e.offset == o && e.found == found_at(
                    old(self).text@,
                    o,
                ) && e.expected == ex,
            },
        decreases old(self).text@.len() - old(self).pos, 3int,
    {
        let ghost s = self.text@;
        let ghost i0 = self.pos as int;
        let v = match self.parse_any() {
            Ok(v) => v,
            Err(e) => {
                return Err(e);
            },
        };
        let ghost j = self.pos as int;
        let ghost before = elems@;
        elems.push(v);
        proof {
            lemma_elems_view_push(before, v);
        }
        if self.pos < self.text.len() {
            let c = self.text[self.pos];
            if c == ',' {
                self.next_tok();
                proof {
                    lemma_next_sig(s, j + 1);
                }
                match self.parse_elems(elems) {
                    Ok(u) => {
                        proof {
                            if let Parsed::Accept(es, jf) = spec_elems(s, i0) {
                                assert(elems_view(elems@) =~= elems_view(before) + es);
                            }
                        }
                        Ok(())
                    },
                    Err(e) => Err(e),
                }
            } else if c == ']' {
                self.next_tok();
                proof {
                    lemma_next_sig(s, j + 1);
                    if let Parsed::Accept(es, jf) = spec_elems(s, i0) {
                        assert(elems_view(elems@) =~= elems_view(before) + es);
                    }
                }
                Ok(())
            } else {
                Err(self.fail_here(Expected::CommaOrBracket))
            }
        } else {
            Err(self.fail_here(Expected::CommaOrBracket))
        }
    }

    /// Parse one JSON value starting at the cursor. Text standing after the
    /// value is left unconsumed, as the cursor interface allows. A value
    /// that comes back is well formed: rendering it yields a document that
    /// parses back to it.
    pub fn parse(&mut self) -> (r: Result<JSONValue, SyntaxError>)
        requires
            old(self).wf(),
        ensures
            final(self).text == old(self).text,
            final(self).wf(),
            value_matches(
                old(self).text@,
                spec_value(old(self).text@, old(self).pos as int),
                r,
                final(self).pos as int,
            ),
            r matches Ok(v) ==> crate::model::wf_model(v@),
    {
        proof {
            crate::laws::lemma_value_wf(self.text@, self.pos as int);
        }
        self.parse_any()
    }
}

/// The executable outcome `r` (with the cursor left at `endpos`) is the one
/// the reference parser prescribes.
pub open spec fn value_matches(
    s: Seq<char>,
    out: Parsed<JsonModel>,
    r: Result<JSONValue, SyntaxError>,
    endpos: int,
) -> bool {
    match out {
        Parsed::Accept(m, j) => r matches Ok(v) && v@ == m && endpos == j,
        Parsed::Reject(o, ex) => r matches Err(e) && e.offset == o && e.found == found_at(s, o)
            && e.expected == ex,
    }
}

/// Count the digits standing at position `from` of `q`.
fn digit_run(q: &[char], from: usize) -> (r: usize)
    requires
        from <= q@.len(),
    ensures
        r == digits(q@, from as int),
        from + r <= q@.len(),
{
    let n = q.len();
    let mut k = from;
    while k < n && is_digit_char(q[k])
        invariant
            from <= k <= n,
            n == q@.len(),
            forall|m: int| from <= m < k ==> is_digit(q@[m]),
        decreases n - k,
    {
        k = k + 1;
    }
    proof {
        lemma_run_len_is(q@, from as int, k as int, |c: char| is_digit(c));
    }
    k - from
}

/// Decide whether `q` is a well-formed numeric lexeme.
fn check_number(q: &[char]) -> (b: bool)
    ensures
        b == is_number_lexeme(q@),
{
    let n = q.len();
    let start: usize = if n > 0 && q[0] == '-' {
        1
    } else {
        0
    };
    let d1 = digit_run(q, start);
    if d1 == 0 {
        return false;
    }
    let mut p = start + d1;
    if p < n && q[p] == '.' {
        let d2 = digit_run(q, p + 1);
        if d2 == 0 {
            return false;
        }
        p = p + 1 + d2;
    }
    if p < n && (q[p] == 'e' || q[p] == 'E') {
        let ps: usize = if p + 1 < n && (q[p + 1] == '+' || q[p + 1] == '-') {
            p + 2
        } else {
            p + 1
        };
        let d3 = digit_run(q, ps);
        if d3 == 0 {
            return false;
        }
        p = ps + d3;
    }
    p == n
}

/// Replace the value at `key` if some entry already carries it (the entry
/// keeps its position), else append a new entry.
fn insert_pair(entries: &mut Vec<(String, JSONValue)>, key: String, v: JSONValue)
    requires
        distinct_keys(pairs_view(old(entries)@)),
    ensures
        pairs_view(final(entries)@) == insert_entry(pairs_view(old(entries)@), key@, v@),
        distinct_keys(pairs_view(final(entries)@)),
{
    proof {
        lemma_insert_entry_distinct(pairs_view(entries@), key@, v@);
    }
    let ghost before = pairs_view(entries@);
    let n = entries.len();
    let mut idx: usize = 0;
    while idx < n && !(entries[idx].0 == key)
        invariant
            idx <= n,
            n == entries@.len(),
            entries@ == old(entries)@,
            forall|m: int| 0 <= m < idx ==> pairs_view(entries@)[m].0 != key@,
        decreases n - idx,
    {
        idx = idx + 1;
    }
    if idx < n {
        proof {
            assert(before[idx as int].0 == key@);
            assert(has_key(before, key@));
        }
        let old_pair = entries.remove(idx);
        entries.insert(idx, (key, v));
        proof {
            let after = pairs_view(entries@);
            let mapped = insert_entry(before, key@, v@);
            assert forall|t: int| 0 <= t < after.len() implies after[t] == mapped[t] by {
                assert(mapped[t] == if before[t].0 == key@ {
                    (key@, v@)
                } else {
                    before[t]
                });
                if t != idx {
                    assert(before[t].0 != key@);
                }
            }
            assert(after =~= mapped);
        }
    } else {
        proof {
            assert(forall|t: int|
                0 <= t < before.len() ==> #[trigger] before[t].0 != key@);
            assert(!has_key(before, key@));
        }
        entries.push((key, v));
        proof {
            lemma_pairs_view_push(old(entries)@, (key, v));
            assert(pairs_view(entries@) =~= insert_entry(before, key@, v@));
        }
    }
}

} // verus!
