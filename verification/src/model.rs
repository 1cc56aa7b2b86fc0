//! The mathematical model of the library: the abstract value tree, the
//! character-level grammar, the reference parser and the reference
//! serializer that the executable code is proved against.

use vstd::prelude::*;
use crate::error::Expected;

verus! {

/// The abstract form of a JSON value.
///
/// A number is carried as its numeric lexeme (the run of characters that
/// spelled it), a string as its characters with no escape interpretation,
/// an object as its entries in insertion order.
pub enum JsonModel {
    Null,
    Bool(bool),
    Number(Seq<char>),
    Str(Seq<char>),
    Arr(Seq<JsonModel>),
    Obj(Seq<(Seq<char>, JsonModel)>),
}

// ---------------------------------------------------------------------------
// Character classes
// ---------------------------------------------------------------------------

/// ASCII whitespace, the characters the cursor skips between tokens.
pub open spec fn is_ws(c: char) -> bool {
    c == ' ' || c == '\t' || c == '\n' || c == '\r' || c == '\u{c}'
}

/// An ASCII decimal digit.
pub open spec fn is_digit(c: char) -> bool {
    48 <= c as u32 <= 57
}

/// A character that may appear in a numeric lexeme.
pub open spec fn is_num_char(c: char) -> bool {
    is_digit(c) || c == '.' || c == '-' || c == '+' || c == 'e' || c == 'E'
}

/// Decide [`is_ws`].
pub fn is_ws_char(c: char) -> (r: bool)
    ensures
        r == is_ws(c),
{
    c == ' ' || c == '\t' || c == '\n' || c == '\r' || c == '\u{c}'
}

/// Decide [`is_digit`].
pub fn is_digit_char(c: char) -> (r: bool)
    ensures
        r == is_digit(c),
{
    let u = c as u32;
    48 <= u && u <= 57
}

/// Decide [`is_num_char`].
pub fn is_num_char_exec(c: char) -> (r: bool)
    ensures
        r == is_num_char(c),
{
    is_digit_char(c) || c == '.' || c == '-' || c == '+' || c == 'e' || c == 'E'
}

// ---------------------------------------------------------------------------
// Character runs
// ---------------------------------------------------------------------------

/// The length of the longest run of characters satisfying `p` that starts
/// at position `i` of `s`.
pub open spec fn run_len(s: Seq<char>, i: int, p: spec_fn(char) -> bool) -> nat
    decreases s.len() - i,
{
    if 0 <= i < s.len() && p(s[i]) {
        (1 + run_len(s, i + 1, p)) as nat
    } else {
        0
    }
}

/// What a run is: its characters satisfy `p`, and it is maximal.
pub proof fn lemma_run_len(s: Seq<char>, i: int, p: spec_fn(char) -> bool)
    requires
        0 <= i <= s.len(),
    ensures
        i + run_len(s, i, p) <= s.len(),
        forall|k: int| i <= k < i + run_len(s, i, p) ==> p(s[k]),
        i + run_len(s, i, p) < s.len() ==> !p(s[i + run_len(s, i, p)]),
    decreases s.len() - i,
{
    if i < s.len() && p(s[i]) {
        lemma_run_len(s, i + 1, p);
    }
}

/// A stretch of `p`-characters ending at the first failure has exactly the
/// run length.
pub proof fn lemma_run_len_is(s: Seq<char>, i: int, e: int, p: spec_fn(char) -> bool)
    requires
        0 <= i <= e <= s.len(),
        forall|k: int| i <= k < e ==> p(s[k]),
        e < s.len() ==> !p(s[e]),
    ensures
        i + run_len(s, i, p) == e,
    decreases e - i,
{
    if i < e {
        lemma_run_len_is(s, i + 1, e, p);
    }
}

/// The first position at or after `i` holding a significant
/// (non-whitespace) character, or the length of `s` if none remains.
pub open spec fn next_sig(s: Seq<char>, i: int) -> int {
    i + run_len(s, i, |c: char| is_ws(c))
}

/// The position just past the longest run of number characters from `i`.
pub open spec fn num_end(s: Seq<char>, i: int) -> int {
    i + run_len(s, i, |c: char| is_num_char(c))
}

/// The position of the first `"` at or after `i`, or the length of `s`.
pub open spec fn quote_end(s: Seq<char>, i: int) -> int {
    i + run_len(s, i, |c: char| c != '"')
}

/// The character under the cursor, with `'\0'` standing for end of input.
pub open spec fn cur_char(s: Seq<char>, i: int) -> char {
    if 0 <= i < s.len() {
        s[i]
    } else {
        '\0'
    }
}

/// The character standing at offset `o`, or `None` past the end: what a
/// syntax error reports as found.
pub open spec fn found_at(s: Seq<char>, o: int) -> Option<char> {
    if 0 <= o < s.len() {
        Some(s[o])
    } else {
        None
    }
}

/// The cursor position after consuming the character at `i`: the next
/// significant position, or `i` itself once the input is exhausted (the
/// end-of-input state is sticky).
pub open spec fn adv(s: Seq<char>, i: int) -> int {
    if 0 <= i < s.len() {
        next_sig(s, i + 1)
    } else {
        i
    }
}

/// What `next_sig` finds: only whitespace before it, and a significant
/// character (or the end) at it.
pub proof fn lemma_next_sig(s: Seq<char>, i: int)
    requires
        0 <= i <= s.len(),
    ensures
        i <= next_sig(s, i) <= s.len(),
        forall|k: int| i <= k < next_sig(s, i) ==> is_ws(s[k]),
        next_sig(s, i) < s.len() ==> !is_ws(s[next_sig(s, i)]),
{
    lemma_run_len(s, i, |c: char| is_ws(c));
}

// ---------------------------------------------------------------------------
// The numeric lexeme grammar
// ---------------------------------------------------------------------------

/// The count of consecutive digits starting at position `i` of `q`.
pub open spec fn digits(q: Seq<char>, i: int) -> nat {
    run_len(q, i, |c: char| is_digit(c))
}

/// From position `i` to the end, `q` reads `e`/`E`, an optional sign, and
/// one or more digits.
pub open spec fn exp_ok(q: Seq<char>, i: int) -> bool {
    0 <= i < q.len() && (q[i] == 'e' || q[i] == 'E') && {
        let j: int = if i + 1 < q.len() && (q[i + 1] == '+' || q[i + 1] == '-') {
            i + 2
        } else {
            i + 1
        };
        digits(q, j) > 0 && j + digits(q, j) == q.len()
    }
}

/// From position `i` to the end, `q` reads an optional fraction (`.` and
/// one or more digits) and an optional exponent part.
pub open spec fn tail_ok(q: Seq<char>, i: int) -> bool {
    if i == q.len() {
        true
    } else if 0 <= i < q.len() && q[i] == '.' {
        digits(q, i + 1) > 0 && {
            let j = i + 1 + digits(q, i + 1);
            j == q.len() || exp_ok(q, j)
        }
    } else {
        exp_ok(q, i)
    }
}

/// A well-formed numeric lexeme: an optional leading `-`, one or more
/// digits, an optional fraction, an optional exponent.
pub open spec fn is_number_lexeme(q: Seq<char>) -> bool {
    let start: int = if q.len() > 0 && q[0] == '-' {
        1
    } else {
        0
    };
    digits(q, start) > 0 && tail_ok(q, start + digits(q, start))
}

// ---------------------------------------------------------------------------
// The reference parser
// ---------------------------------------------------------------------------

/// The outcome of one grammar production: the parsed item and the position
/// of the next significant character after it, or the offset at which the
/// production failed and what it expected there.
pub enum Parsed<T> {
    Accept(T, int),
    Reject(int, Expected),
}

/// `j` if it lies in `(lo, hi]`, else `lo + 1`; positions handed to a
/// recursive production run through this so that every recursive call
/// stands on a strictly later position. Whenever a production accepts, its
/// reported position provably lies in the window and the clamp is the
/// identity.
pub open spec fn within(lo: int, hi: int, j: int) -> int {
    if lo < j <= hi {
        j
    } else {
        lo + 1
    }
}

/// The characters of the keyword `null`.
pub open spec fn null_tok() -> Seq<char> {
    seq!['n', 'u', 'l', 'l']
}

/// The characters of the keyword `true`.
pub open spec fn true_tok() -> Seq<char> {
    seq!['t', 'r', 'u', 'e']
}

/// The characters of the keyword `false`.
pub open spec fn false_tok() -> Seq<char> {
    seq!['f', 'a', 'l', 's', 'e']
}

/// The word `w` occurs letter for letter at position `i` of `s`.
pub open spec fn lit_at(s: Seq<char>, i: int, w: Seq<char>) -> bool {
    0 <= i && i + w.len() <= s.len() && (forall|k: int| 0 <= k < w.len() ==> s[i + k] == w[k])
}

/// The string production at position `i`: an opening `"`, the characters up
/// to the next `"` (which is consumed), no escape interpretation.
pub open spec fn spec_string(s: Seq<char>, i: int) -> Parsed<Seq<char>> {
    if !(0 <= i < s.len() && s[i] == '"') {
        Parsed::Reject(if i <= s.len() { i } else { s.len() as int }, Expected::Punct('"'))
    } else {
        let e = quote_end(s, i + 1);
        if e < s.len() {
            Parsed::Accept(s.subrange(i + 1, e), next_sig(s, e + 1))
        } else {
            Parsed::Reject(s.len() as int, Expected::ClosingQuote)
        }
    }
}

/// The number production at position `i`: the maximal run of number
/// characters, accepted when it forms a well-formed lexeme.
pub open spec fn spec_number(s: Seq<char>, i: int) -> Parsed<Seq<char>> {
    let e = num_end(s, i);
    if 0 <= i <= s.len() && e <= s.len() && is_number_lexeme(s.subrange(i, e)) {
        Parsed::Accept(s.subrange(i, e), next_sig(s, e))
    } else {
        Parsed::Reject(i, Expected::NumberLexeme)
    }
}

/// The value production at position `i` of `s`: dispatch on the character
/// under the cursor, one case per grammar production.
pub open spec fn spec_value(s: Seq<char>, i: int) -> Parsed<JsonModel>
    decreases s.len() - i, 2int,
{
    if i < 0 || i >= s.len() {
        Parsed::Reject(if i <= s.len() { i } else { s.len() as int }, Expected::Value)
    } else {
        let c = s[i];
        if c == '{' {
            let j = within(i, s.len() as int, next_sig(s, i + 1));
            if j < s.len() && s[j] == '}' {
                Parsed::Accept(
                    JsonModel::Obj(Seq::empty()),
                    within(j, s.len() as int, next_sig(s, j + 1)),
                )
            } else {
                match spec_pairs(s, j) {
                    Parsed::Accept(pairs, k) => Parsed::Accept(
                        JsonModel::Obj(entries_of(Seq::empty(), pairs)),
                        k,
                    ),
                    Parsed::Reject(o, e) => Parsed::Reject(o, e),
                }
            }
        } else if c == '[' {
            let j = within(i, s.len() as int, next_sig(s, i + 1));
            if j < s.len() && s[j] == ']' {
                Parsed::Accept(
                    JsonModel::Arr(Seq::empty()),
                    within(j, s.len() as int, next_sig(s, j + 1)),
                )
            } else {
                match spec_elems(s, j) {
                    Parsed::Accept(es, k) => Parsed::Accept(JsonModel::Arr(es), k),
                    Parsed::Reject(o, e) => Parsed::Reject(o, e),
                }
            }
        } else if c == '"' {
            match spec_string(s, i) {
                Parsed::Accept(t, j) => Parsed::Accept(JsonModel::Str(t), j),
                Parsed::Reject(o, e) => Parsed::Reject(o, e),
            }
        } else if c == 't' {
            if lit_at(s, i, true_tok()) {
                Parsed::Accept(
                    JsonModel::Bool(true),
                    within(i, s.len() as int, next_sig(s, i + 4)),
                )
            } else {
                Parsed::Reject(i, Expected::Literal)
            }
        } else if c == 'f' {
            if lit_at(s, i, false_tok()) {
                Parsed::Accept(
                    JsonModel::Bool(false),
                    within(i, s.len() as int, next_sig(s, i + 5)),
                )
            } else {
                Parsed::Reject(i, Expected::Literal)
            }
        } else if c == 'n' {
            if lit_at(s, i, null_tok()) {
                Parsed::Accept(JsonModel::Null, within(i, s.len() as int, next_sig(s, i + 4)))
            } else {
                Parsed::Reject(i, Expected::Literal)
            }
        } else if is_digit(c) || c == '-' {
            match spec_number(s, i) {
                Parsed::Accept(q, j) => Parsed::Accept(
                    JsonModel::Number(q),
                    within(i, s.len() as int, j),
                ),
                Parsed::Reject(o, e) => Parsed::Reject(o, e),
            }
        } else {
            Parsed::Reject(i, Expected::Value)
        }
    }
}

/// The members of a non-empty object, starting at the first key and ending
/// just past the closing `}`: the raw `(key, value)` pairs in textual
/// order, duplicates included.
pub open spec fn spec_pairs(s: Seq<char>, i: int) -> Parsed<Seq<(Seq<char>, JsonModel)>>
    decreases s.len() - i, 3int,
{
    if i < 0 || i >= s.len() {
        Parsed::Reject(if i <= s.len() { i } else { s.len() as int }, Expected::Punct('"'))
    } else {
        match spec_string(s, i) {
            Parsed::Reject(o, e) => Parsed::Reject(o, e),
            Parsed::Accept(key, j1) => if j1 < s.len() && s[j1] == ':' {
                let j2 = within(i, s.len() as int, next_sig(s, j1 + 1));
                match spec_value(s, j2) {
                    Parsed::Reject(o, e) => Parsed::Reject(o, e),
                    Parsed::Accept(v, j3) => if j3 < s.len() && s[j3] == ',' {
                        let j4 = within(i, s.len() as int, next_sig(s, j3 + 1));
                        match spec_pairs(s, j4) {
                            Parsed::Accept(rest, j5) => Parsed::Accept(
                                seq![(key, v)] + rest,
                                j5,
                            ),
                            Parsed::Reject(o, e) => Parsed::Reject(o, e),
                        }
                    } else if j3 < s.len() && s[j3] == '}' {
                        Parsed::Accept(
                            seq![(key, v)],
                            within(j3, s.len() as int, next_sig(s, j3 + 1)),
                        )
                    } else {
                        Parsed::Reject(
                            if 0 <= j3 <= s.len() { j3 } else { s.len() as int },
                            Expected::CommaOrBrace,
                        )
                    },
                }
            } else {
                Parsed::Reject(
                    if 0 <= j1 <= s.len() { j1 } else { s.len() as int },
                    Expected::Punct(':'),
                )
            },
        }
    }
}

/// The elements of a non-empty array, starting at the first element and
/// ending just past the closing `]`.
pub open spec fn spec_elems(s: Seq<char>, i: int) -> Parsed<Seq<JsonModel>>
    decreases s.len() - i, 3int,
{
    if i < 0 || i >= s.len() {
        Parsed::Reject(if i <= s.len() { i } else { s.len() as int }, Expected::Value)
    } else {
        match spec_value(s, i) {
            Parsed::Reject(o, e) => Parsed::Reject(o, e),
            Parsed::Accept(v, j) => if j < s.len() && s[j] == ',' {
                let j2 = within(i, s.len() as int, next_sig(s, j + 1));
                match spec_elems(s, j2) {
                    Parsed::Accept(rest, j3) => Parsed::Accept(seq![v] + rest, j3),
                    Parsed::Reject(o, e) => Parsed::Reject(o, e),
                }
            } else if j < s.len() && s[j] == ']' {
                Parsed::Accept(seq![v], within(j, s.len() as int, next_sig(s, j + 1)))
            } else {
                Parsed::Reject(
                    if 0 <= j <= s.len() { j } else { s.len() as int },
                    Expected::CommaOrBracket,
                )
            },
        }
    }
}

// ---------------------------------------------------------------------------
// Object entries: insertion order kept, last value wins
// ---------------------------------------------------------------------------

/// Some entry of `es` carries the key `k`.
pub open spec fn has_key(es: Seq<(Seq<char>, JsonModel)>, k: Seq<char>) -> bool {
    exists|t: int| 0 <= t < es.len() && es[t].0 == k
}

/// Insert `(k, v)`: a fresh key goes to the end; an existing key keeps its
/// position and takes the new value.
pub open spec fn insert_entry(
    es: Seq<(Seq<char>, JsonModel)>,
    k: Seq<char>,
    v: JsonModel,
) -> Seq<(Seq<char>, JsonModel)> {
    if has_key(es, k) {
        es.map(|t: int, p: (Seq<char>, JsonModel)| if p.0 == k { (k, v) } else { p })
    } else {
        es.push((k, v))
    }
}

/// Fold the raw pairs of an object body into entries, left to right.
pub open spec fn entries_of(
    acc: Seq<(Seq<char>, JsonModel)>,
    pairs: Seq<(Seq<char>, JsonModel)>,
) -> Seq<(Seq<char>, JsonModel)>
    decreases pairs.len(),
{
    if pairs.len() == 0 {
        acc
    } else {
        entries_of(insert_entry(acc, pairs[0].0, pairs[0].1), pairs.drop_first())
    }
}

/// Inserting never breaks key distinctness: replacing keeps the keys as
/// they were, and a pushed key is fresh.
pub proof fn lemma_insert_entry_distinct(
    es: Seq<(Seq<char>, JsonModel)>,
    k: Seq<char>,
    v: JsonModel,
)
    requires
        distinct_keys(es),
    ensures
        distinct_keys(insert_entry(es, k, v)),
{
    if has_key(es, k) {
        let r = insert_entry(es, k, v);
        assert forall|t: int| 0 <= t < r.len() implies r[t].0 == es[t].0 by {
            if es[t].0 == k {
            }
        }
    }
}

/// No two entries share a key.
pub open spec fn distinct_keys(es: Seq<(Seq<char>, JsonModel)>) -> bool {
    forall|a: int, b: int| 0 <= a < b < es.len() ==> es[a].0 != es[b].0
}

// ---------------------------------------------------------------------------
// Well-formedness and height
// ---------------------------------------------------------------------------

/// A string that serializes to valid JSON under this library's no-escaping
/// rule: it contains no `"`.
pub open spec fn quote_free(t: Seq<char>) -> bool {
    forall|k: int| 0 <= k < t.len() ==> t[k] != '"'
}

/// A value tree that the serializer maps to a re-parsable document:
/// numbers hold well-formed lexemes, strings and keys hold no `"`, and
/// object keys are distinct.
pub open spec fn wf_model(m: JsonModel) -> bool
    decreases m, 1int,
{
    match m {
        JsonModel::Null => true,
        JsonModel::Bool(_) => true,
        JsonModel::Number(q) => is_number_lexeme(q),
        JsonModel::Str(t) => quote_free(t),
        JsonModel::Arr(es) => wf_elems(es),
        JsonModel::Obj(ps) => distinct_keys(ps) && wf_entries(ps),
    }
}

/// Every element of `es` is well formed.
pub open spec fn wf_elems(es: Seq<JsonModel>) -> bool
    decreases es, 0int,
{
    es.len() == 0 || (wf_model(es[0]) && wf_elems(es.drop_first()))
}

/// Every entry of `ps` has a quote-free key and a well-formed value.
pub open spec fn wf_entries(ps: Seq<(Seq<char>, JsonModel)>) -> bool
    decreases ps, 0int,
{
    ps.len() == 0 || (quote_free(ps[0].0) && wf_model(ps[0].1) && wf_entries(ps.drop_first()))
}

/// Each element of a well-formed element list is well formed.
pub proof fn lemma_wf_elems_index(es: Seq<JsonModel>, k: int)
    requires
        wf_elems(es),
        0 <= k < es.len(),
    ensures
        wf_model(es[k]),
    decreases k,
{
    if k > 0 {
        lemma_wf_elems_index(es.drop_first(), k - 1);
    }
}

/// Each entry of a well-formed entry list has a quote-free key and a
/// well-formed value.
pub proof fn lemma_wf_entries_index(ps: Seq<(Seq<char>, JsonModel)>, k: int)
    requires
        wf_entries(ps),
        0 <= k < ps.len(),
    ensures
        quote_free(ps[k].0),
        wf_model(ps[k].1),
    decreases k,
{
    if k > 0 {
        lemma_wf_entries_index(ps.drop_first(), k - 1);
    }
}

/// An entry list is well formed exactly when each of its entries is.
pub proof fn lemma_wf_entries_iff(ps: Seq<(Seq<char>, JsonModel)>)
    ensures
        wf_entries(ps) <==> (forall|k: int|
            0 <= k < ps.len() ==> quote_free(#[trigger] ps[k].0) && wf_model(ps[k].1)),
    decreases ps.len(),
{
    if wf_entries(ps) {
        assert forall|k: int|
            0 <= k < ps.len() implies quote_free(#[trigger] ps[k].0) && wf_model(ps[k].1) by {
            lemma_wf_entries_index(ps, k);
        }
    }
    if ps.len() > 0 && (forall|k: int|
        0 <= k < ps.len() ==> quote_free(#[trigger] ps[k].0) && wf_model(ps[k].1)) {
        assert(quote_free(ps[0].0) && wf_model(ps[0].1));
        assert forall|k: int|
            0 <= k < ps.drop_first().len() implies quote_free(#[trigger] ps.drop_first()[k].0)
            && wf_model(ps.drop_first()[k].1) by {
            assert(ps.drop_first()[k] == ps[k + 1]);
        }
        lemma_wf_entries_iff(ps.drop_first());
    }
}

/// Inserting a quote-free key and a well-formed value keeps the entry list
/// well formed and its keys distinct.
pub proof fn lemma_insert_entry_wf(es: Seq<(Seq<char>, JsonModel)>, k: Seq<char>, v: JsonModel)
    requires
        distinct_keys(es),
        wf_entries(es),
        quote_free(k),
        wf_model(v),
    ensures
        distinct_keys(insert_entry(es, k, v)),
        wf_entries(insert_entry(es, k, v)),
{
    lemma_insert_entry_distinct(es, k, v);
    lemma_wf_entries_iff(es);
    lemma_wf_entries_iff(insert_entry(es, k, v));
}

/// Folding well-formed pairs onto distinct well-formed entries yields
/// distinct well-formed entries.
pub proof fn lemma_entries_of_wf(
    acc: Seq<(Seq<char>, JsonModel)>,
    pairs: Seq<(Seq<char>, JsonModel)>,
)
    requires
        distinct_keys(acc),
        wf_entries(acc),
        wf_entries(pairs),
    ensures
        distinct_keys(entries_of(acc, pairs)),
        wf_entries(entries_of(acc, pairs)),
    decreases pairs.len(),
{
    if pairs.len() > 0 {
        lemma_insert_entry_wf(acc, pairs[0].0, pairs[0].1);
        lemma_entries_of_wf(insert_entry(acc, pairs[0].0, pairs[0].1), pairs.drop_first());
    }
}

// ---------------------------------------------------------------------------
// The reference serializer
// ---------------------------------------------------------------------------

/// `2 * n` spaces: the indentation of nesting depth `n`.
pub open spec fn ind(n: nat) -> Seq<char>
    decreases n,
{
    if n == 0 {
        Seq::empty()
    } else {
        ind((n - 1) as nat) + seq![' ', ' ']
    }
}

/// The rendered text of `m` at nesting depth `d`: leaves on one line,
/// non-empty containers with one child per line, indented two spaces per
/// level.
pub open spec fn spec_render(m: JsonModel, d: nat) -> Seq<char>
    decreases m, 1int,
{
    match m {
        JsonModel::Null => null_tok(),
        JsonModel::Bool(b) => if b {
            true_tok()
        } else {
            false_tok()
        },
        JsonModel::Number(q) => q,
        JsonModel::Str(t) => seq!['"'] + t + seq!['"'],
        JsonModel::Arr(es) => if es.len() == 0 {
            seq!['[', ']']
        } else {
            seq!['[', '\n'] + render_elems(es, d, 0) + seq!['\n'] + ind(d) + seq![']']
        },
        JsonModel::Obj(ps) => if ps.len() == 0 {
            seq!['{', '}']
        } else {
            seq!['{', '\n'] + render_pairs(ps, d, 0) + seq!['\n'] + ind(d) + seq!['}']
        },
    }
}

/// The rendered lines of elements `k ..` of `es`, each indented at depth
/// `d + 1` and the lines joined by `,\n`.
pub open spec fn render_elems(es: Seq<JsonModel>, d: nat, k: int) -> Seq<char>
    decreases es, es.len() - k,
{
    if !(0 <= k < es.len()) {
        Seq::empty()
    } else {
        ind(d + 1) + spec_render(es[k], d + 1) + (if k + 1 < es.len() {
            seq![',', '\n'] + render_elems(es, d, k + 1)
        } else {
            Seq::empty()
        })
    }
}

/// The rendered lines of entries `k ..` of `ps`: `"key": value`, indented
/// at depth `d + 1`, joined by `,\n`.
pub open spec fn render_pairs(ps: Seq<(Seq<char>, JsonModel)>, d: nat, k: int) -> Seq<char>
    decreases ps, ps.len() - k,
{
    if !(0 <= k < ps.len()) {
        Seq::empty()
    } else {
        ind(d + 1) + seq!['"'] + ps[k].0 + seq!['"', ':', ' '] + spec_render(ps[k].1, d + 1) + (
        if k + 1 < ps.len() {
            seq![',', '\n'] + render_pairs(ps, d, k + 1)
        } else {
            Seq::empty()
        })
    }
}

/// The nesting height of a value: leaves are flat, a container stands one
/// level above its tallest child.
pub open spec fn mheight(m: JsonModel) -> nat
    decreases m, 1int,
{
    match m {
        JsonModel::Null => 0,
        JsonModel::Bool(_) => 0,
        JsonModel::Number(_) => 0,
        JsonModel::Str(_) => 0,
        JsonModel::Arr(es) => 1 + mheight_elems(es, 0),
        JsonModel::Obj(ps) => 1 + mheight_pairs(ps, 0),
    }
}

/// The tallest height among elements `k ..` of `es`.
pub open spec fn mheight_elems(es: Seq<JsonModel>, k: int) -> nat
    decreases es, es.len() - k,
{
    if !(0 <= k < es.len()) {
        0
    } else {
        let h = mheight(es[k]);
        let r = mheight_elems(es, k + 1);
        if h > r {
            h
        } else {
            r
        }
    }
}

/// The tallest height among the values of entries `k ..` of `ps`.
pub open spec fn mheight_pairs(ps: Seq<(Seq<char>, JsonModel)>, k: int) -> nat
    decreases ps, ps.len() - k,
{
    if !(0 <= k < ps.len()) {
        0
    } else {
        let h = mheight(ps[k].1);
        let r = mheight_pairs(ps, k + 1);
        if h > r {
            h
        } else {
            r
        }
    }
}

/// A later element never stands taller than the running maximum.
pub proof fn lemma_mheight_elems(es: Seq<JsonModel>, j: int, k: int)
    requires
        0 <= j <= k < es.len(),
    ensures
        mheight(es[k]) <= mheight_elems(es, j),
    decreases k - j,
{
    if j < k {
        lemma_mheight_elems(es, j + 1, k);
    }
}

/// A later entry's value never stands taller than the running maximum.
pub proof fn lemma_mheight_pairs(ps: Seq<(Seq<char>, JsonModel)>, j: int, k: int)
    requires
        0 <= j <= k < ps.len(),
    ensures
        mheight(ps[k].1) <= mheight_pairs(ps, j),
    decreases k - j,
{
    if j < k {
        lemma_mheight_pairs(ps, j + 1, k);
    }
}

} // verus!

