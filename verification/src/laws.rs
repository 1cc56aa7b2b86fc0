//! The laws the library keeps: rendering a well-formed value yields a
//! document that the parser maps back to that very value.

use vstd::prelude::*;
use crate::model::{
    digits, distinct_keys, entries_of, false_tok, has_key, ind, insert_entry, is_digit,
    is_num_char, is_number_lexeme, is_ws, lemma_next_sig, lemma_run_len, lemma_run_len_is,
    lit_at, next_sig, null_tok, num_end, quote_end, quote_free, render_elems, render_pairs, within,
    spec_elems, spec_number, spec_pairs, spec_render, spec_string, spec_value, true_tok,
    wf_elems, wf_entries, wf_model, JsonModel, Parsed,
};

verus! {

/// The text `r` stands letter for letter at position `i` of `s`.
pub open spec fn occurs_at(s: Seq<char>, i: int, r: Seq<char>) -> bool {
    0 <= i && i + r.len() <= s.len() && (forall|k: int| 0 <= k < r.len() ==> s[i + k] == r[k])
}

/// A character on which the value production can start.
pub open spec fn is_value_start(c: char) -> bool {
    c == '{' || c == '[' || c == '"' || c == 't' || c == 'f' || c == 'n' || is_digit(c) || c
        == '-'
}

/// The shape of an indentation: `2 * n` spaces.
pub proof fn lemma_ind(n: nat)
    ensures
        ind(n).len() == 2 * n,
        forall|k: int| 0 <= k < 2 * n ==> ind(n)[k] == ' ',
    decreases n,
{
    if n > 0 {
        lemma_ind((n - 1) as nat);
    }
}

/// A value can start on none of the characters that close or separate.
pub proof fn lemma_value_start_props(c: char)
    requires
        is_value_start(c),
    ensures
        !is_ws(c),
        c != ']' && c != '}' && c != ',' && c != ':',
{
}

/// A well-formed numeric lexeme is non-empty, made of number characters,
/// and starts with a sign or a digit.
pub proof fn lemma_lexeme_chars(q: Seq<char>)
    requires
        is_number_lexeme(q),
    ensures
        q.len() > 0,
        forall|k: int| 0 <= k < q.len() ==> is_num_char(q[k]),
        q[0] == '-' || is_digit(q[0]),
{
    assert(q.len() > 0) by {
        if q.len() == 0 {
            assert(digits(q, 0) == 0);
        }
    }
    let start: int = if q[0] == '-' {
        1
    } else {
        0
    };
    let d1 = digits(q, start);
    assert(0 <= start < q.len()) by {
        if start >= q.len() {
            assert(d1 == 0);
        }
    }
    lemma_run_len(q, start, |c: char| is_digit(c));
    let i1 = start + d1;
    assert(q[0] == '-' || is_digit(q[0]));
    if i1 == q.len() {
        assert forall|k: int| 0 <= k < q.len() implies is_num_char(q[k]) by {
            if start <= k {
                assert(is_digit(q[k]));
            }
        }
    } else if q[i1] == '.' {
        let d2 = digits(q, i1 + 1);
        lemma_run_len(q, i1 + 1, |c: char| is_digit(c));
        let j = i1 + 1 + d2;
        if j == q.len() {
            assert forall|k: int| 0 <= k < q.len() implies is_num_char(q[k]) by {
                if start <= k < i1 || i1 + 1 <= k {
                    assert(is_digit(q[k]));
                }
            }
        } else {
            lemma_exp_chars(q, j);
            assert forall|k: int| 0 <= k < q.len() implies is_num_char(q[k]) by {
                if start <= k < i1 || i1 + 1 <= k < j {
                    assert(is_digit(q[k]));
                }
            }
        }
    } else {
        lemma_exp_chars(q, i1);
        assert forall|k: int| 0 <= k < q.len() implies is_num_char(q[k]) by {
            if start <= k < i1 {
                assert(is_digit(q[k]));
            }
        }
    }
}

/// From `i` to the end, a well-formed exponent part is made of number
/// characters.
proof fn lemma_exp_chars(q: Seq<char>, i: int)
    requires
        crate::model::exp_ok(q, i),
    ensures
        forall|k: int| i <= k < q.len() ==> is_num_char(q[k]),
{
    let j: int = if i + 1 < q.len() && (q[i + 1] == '+' || q[i + 1] == '-') {
        i + 2
    } else {
        i + 1
    };
    lemma_run_len(q, j, |c: char| is_digit(c));
    assert forall|k: int| i <= k < q.len() implies is_num_char(q[k]) by {
        if j <= k {
            assert(is_digit(q[k]));
        }
    }
}

/// A well-formed value renders to text that starts on a value-start
/// character.
pub proof fn lemma_render_head(m: JsonModel, d: nat)
    requires
        wf_model(m),
    ensures
        spec_render(m, d).len() > 0,
        is_value_start(spec_render(m, d)[0]),
{
    match m {
        JsonModel::Number(q) => {
            lemma_lexeme_chars(q);
        },
        _ => {},
    }
}

/// Folding distinct-keyed pairs into entries appends them unchanged.
pub proof fn lemma_entries_of_distinct(
    acc: Seq<(Seq<char>, JsonModel)>,
    pairs: Seq<(Seq<char>, JsonModel)>,
)
    requires
        distinct_keys(acc + pairs),
    ensures
        entries_of(acc, pairs) == acc + pairs,
    decreases pairs.len(),
{
    if pairs.len() == 0 {
        assert(acc + pairs =~= acc);
    } else {
        let p0 = pairs[0];
        let whole = acc + pairs;
        assert(!has_key(acc, p0.0)) by {
            if has_key(acc, p0.0) {
                let t = choose|t: int| 0 <= t < acc.len() && acc[t].0 == p0.0;
                assert(whole[t] == acc[t]);
                assert(whole[acc.len() as int] == p0);
            }
        }
        let acc2 = acc.push(p0);
        assert(acc2 + pairs.drop_first() =~= whole);
        lemma_entries_of_distinct(acc2, pairs.drop_first());
        assert(entries_of(acc, pairs) == entries_of(acc2, pairs.drop_first()));
        assert(acc2 + pairs.drop_first() =~= acc + pairs);
    }
}

/// What follows the last line of a non-empty container body: a line break,
/// the closing indentation, and the closing bracket.
pub open spec fn closer(d: nat, c: char) -> Seq<char> {
    seq!['\n'] + ind(d) + seq![c]
}

/// Rendered text parses back: wherever the rendering of a well-formed value
/// `m` stands in a text `s`, and no number character directly follows it,
/// the value production at its first character accepts exactly `m` and
/// stops at the next significant character after it.
#[verifier::rlimit(100)]
pub proof fn lemma_render_parses(s: Seq<char>, i: int, m: JsonModel, d: nat)
    requires
        wf_model(m),
        occurs_at(s, i, spec_render(m, d)),
        i + spec_render(m, d).len() == s.len() || !is_num_char(
            s[i + spec_render(m, d).len()],
        ),
    ensures
        spec_value(s, i) == Parsed::<JsonModel>::Accept(
            m,
            next_sig(s, i + spec_render(m, d).len()),
        ),
    decreases m, 0int, 0int,
{
    let r = spec_render(m, d);
    let e = i + r.len();
    lemma_render_head(m, d);
    lemma_next_sig(s, e);
    assert(s[i] == r[0]);
    match m {
        JsonModel::Null => {
            assert(lit_at(s, i, null_tok())) by {
                assert forall|k: int| 0 <= k < 4 implies s[i + k] == null_tok()[k] by {
                    assert(s[i + k] == r[k]);
                }
            }
        },
        JsonModel::Bool(b) => {
            if b {
                assert(lit_at(s, i, true_tok())) by {
                    assert forall|k: int| 0 <= k < 4 implies s[i + k] == true_tok()[k] by {
                        assert(s[i + k] == r[k]);
                    }
                }
            } else {
                assert(lit_at(s, i, false_tok())) by {
                    assert forall|k: int| 0 <= k < 5 implies s[i + k] == false_tok()[k] by {
                        assert(s[i + k] == r[k]);
                    }
                }
            }
        },
        JsonModel::Number(q) => {
            lemma_lexeme_chars(q);
            assert forall|x: int| i <= x < e implies is_num_char(s[x]) by {
                assert(s[x] == r[x - i]);
            }
            lemma_run_len_is(s, i, e, |c: char| is_num_char(c));
            assert(num_end(s, i) == e);
            assert(s.subrange(i, e) =~= q);
        },
        JsonModel::Str(t) => {
            assert(s[i] == '"');
            assert forall|x: int| i + 1 <= x < i + 1 + t.len() implies s[x] != '"' by {
                assert(s[x] == r[x - i]);
                assert(r[x - i] == t[x - i - 1]);
            }
            assert(s[i + 1 + t.len()] == '"') by {
                assert(s[i + 1 + t.len()] == r[1 + t.len() as int]);
            }
            lemma_run_len_is(s, i + 1, i + 1 + t.len(), |c: char| c != '"');
            assert(quote_end(s, i + 1) == i + 1 + t.len());
            assert forall|x: int| 0 <= x < t.len() implies s.subrange(i + 1, i + 1 + t.len())[x]
                == t[x] by {
                assert(s[i + 1 + x] == r[1 + x]);
            }
            assert(s.subrange(i + 1, i + 1 + t.len()) =~= t);
        },
        JsonModel::Arr(es) => {
            if es.len() == 0 {
                assert(s[i] == '[' && s[i + 1] == ']') by {
                    assert(s[i + 1] == r[1]);
                }
                assert(next_sig(s, i + 1) == i + 1) by {
                    lemma_run_len_is(s, i + 1, i + 1, |c: char| is_ws(c));
                }
                assert(es =~= Seq::<JsonModel>::empty());
            } else {
                let body = render_elems(es, d, 0) + closer(d, ']');
                assert(r =~= seq!['[', '\n'] + body);
                assert(s[i + 1] == '\n') by {
                    assert(s[i + 1] == r[1]);
                }
                assert(occurs_at(s, i + 2, body)) by {
                    assert forall|k: int| 0 <= k < body.len() implies s[i + 2 + k] == body[k] by {
                        assert(s[i + 2 + k] == r[2 + k]);
                    }
                }
                lemma_render_elems_parses(s, i + 2, es, d, 0);
                lemma_next_sig(s, i + 2);
                let p2 = i + 2 + 2 * (d + 1);
                lemma_value_start_props(s[p2]);
                assert(next_sig(s, i + 1) == next_sig(s, i + 2));
                assert(es.skip(0) =~= es);
                assert(i + 2 + body.len() == e);
                let j = within(i, s.len() as int, next_sig(s, i + 1));
                assert(j == p2);
                assert(p2 < s.len() && s[p2] != ']');
                assert(spec_elems(s, p2) == Parsed::<Seq<JsonModel>>::Accept(
                    es,
                    next_sig(s, e),
                ));
                assert(spec_value(s, i) == Parsed::<JsonModel>::Accept(
                    JsonModel::Arr(es),
                    next_sig(s, e),
                ));
            }
        },
        JsonModel::Obj(ps) => {
            if ps.len() == 0 {
                assert(s[i] == '{' && s[i + 1] == '}') by {
                    assert(s[i + 1] == r[1]);
                }
                assert(next_sig(s, i + 1) == i + 1) by {
                    lemma_run_len_is(s, i + 1, i + 1, |c: char| is_ws(c));
                }
                assert(entries_of(
                    Seq::<(Seq<char>, JsonModel)>::empty(),
                    Seq::<(Seq<char>, JsonModel)>::empty(),
                ) =~= Seq::<(Seq<char>, JsonModel)>::empty());
                assert(ps =~= Seq::<(Seq<char>, JsonModel)>::empty());
            } else {
                let body = render_pairs(ps, d, 0) + closer(d, '}');
                assert(r =~= seq!['{', '\n'] + body);
                assert(s[i + 1] == '\n') by {
                    assert(s[i + 1] == r[1]);
                }
                assert(occurs_at(s, i + 2, body)) by {
                    assert forall|k: int| 0 <= k < body.len() implies s[i + 2 + k] == body[k] by {
                        assert(s[i + 2 + k] == r[2 + k]);
                    }
                }
                lemma_render_pairs_parses(s, i + 2, ps, d, 0);
                lemma_next_sig(s, i + 2);
                let p2 = i + 2 + 2 * (d + 1);
                assert(next_sig(s, i + 1) == next_sig(s, i + 2));
                assert(ps.skip(0) =~= ps);
                assert(Seq::<(Seq<char>, JsonModel)>::empty() + ps =~= ps);
                lemma_entries_of_distinct(Seq::<(Seq<char>, JsonModel)>::empty(), ps);
                assert(i + 2 + body.len() == e);
                let j = within(i, s.len() as int, next_sig(s, i + 1));
                assert(j == p2);
                assert(p2 < s.len() && s[p2] != '}');
                assert(spec_pairs(s, p2) == Parsed::<Seq<(Seq<char>, JsonModel)>>::Accept(
                    ps,
                    next_sig(s, e),
                ));
                assert(entries_of(Seq::<(Seq<char>, JsonModel)>::empty(), ps) == ps);
                assert(spec_value(s, i) == Parsed::<JsonModel>::Accept(
                    JsonModel::Obj(ps),
                    next_sig(s, e),
                ));
            }
        },
    }
}

/// Rendered element lines parse back: where the lines of elements `k ..`
/// followed by the array closer stand at `i`, the element-list production
/// at the first significant character accepts exactly those elements and
/// stops just past the closing bracket.
#[verifier::rlimit(100)]
pub proof fn lemma_render_elems_parses(s: Seq<char>, i: int, es: Seq<JsonModel>, d: nat, k: int)
    requires
        wf_elems(es),
        0 <= k < es.len(),
        occurs_at(s, i, render_elems(es, d, k) + closer(d, ']')),
    ensures
        ({
            let body = render_elems(es, d, k) + closer(d, ']');
            i + 2 * (d + 1) < s.len() && next_sig(s, i) == i + 2 * (d + 1) && is_value_start(
                s[i + 2 * (d + 1)],
            )
                && spec_elems(s, next_sig(s, i)) == Parsed::<Seq<JsonModel>>::Accept(
                es.skip(k),
                next_sig(s, i + body.len()),
            )
        }),
    decreases es, 0int, es.len() - k,
{
    let rk = spec_render(es[k], (d + 1) as nat);
    let le = render_elems(es, d, k);
    let tail = closer(d, ']');
    let body = le + tail;
    lemma_ind((d + 1) as nat);
    lemma_ind(d);
    crate::model::lemma_wf_elems_index(es, k);
    lemma_render_head(es[k], (d + 1) as nat);
    lemma_value_start_props(rk[0]);
    let p = i + 2 * (d + 1);
    let sep: Seq<char> = if k + 1 < es.len() {
        seq![',', '\n'] + render_elems(es, d, k + 1)
    } else {
        Seq::empty()
    };
    assert(le == ind((d + 1) as nat) + rk + sep);
    assert(body =~= ind((d + 1) as nat) + rk + sep + tail);
    assert forall|x: int| i <= x < p implies is_ws(s[x]) by {
        assert(s[x] == body[x - i]);
        assert(body[x - i] == ind((d + 1) as nat)[x - i]);
    }
    assert(s[p] == rk[0]) by {
        assert(s[p] == body[p - i]);
    }
    lemma_run_len_is(s, i, p, |c: char| is_ws(c));
    assert(next_sig(s, i) == p);
    let q = p + rk.len();
    assert(occurs_at(s, p, rk)) by {
        assert forall|x: int| 0 <= x < rk.len() implies s[p + x] == rk[x] by {
            assert(s[p + x] == body[p + x - i]);
        }
    }
    if k + 1 < es.len() {
        assert(s[q] == ',' && s[q + 1] == '\n') by {
            assert(s[q] == body[q - i] && s[q + 1] == body[q + 1 - i]);
        }
        assert(!is_num_char(s[q]));
        lemma_render_parses(s, p, es[k], (d + 1) as nat);
        lemma_run_len_is(s, q, q, |c: char| is_ws(c));
        assert(next_sig(s, q) == q);
        let le2 = render_elems(es, d, k + 1);
        assert(occurs_at(s, q + 2, le2 + tail)) by {
            assert forall|x: int| 0 <= x < (le2 + tail).len() implies s[q + 2 + x] == (le2
                + tail)[x] by {
                assert(s[q + 2 + x] == body[q + 2 + x - i]);
                assert(body[q + 2 + x - i] == (sep + tail)[2 + x]);
            }
        }
        lemma_render_elems_parses(s, q + 2, es, d, k + 1);
        assert(next_sig(s, q + 1) == next_sig(s, q + 2));
        lemma_next_sig(s, q + 2);
        assert(seq![es[k]] + es.skip(k + 1) =~= es.skip(k));
        assert(i + body.len() == q + 2 + (le2 + tail).len());
    } else {
        let z = q + 1 + 2 * d;
        assert(s[q] == '\n') by {
            assert(s[q] == body[q - i]);
        }
        assert forall|x: int| q <= x < z implies is_ws(s[x]) by {
            assert(s[x] == body[x - i]);
            if x > q {
                assert(body[x - i] == tail[x - q]);
                assert(tail[x - q] == ind(d)[x - q - 1]);
            }
        }
        assert(s[z] == ']') by {
            assert(s[z] == body[z - i]);
            assert(body[z - i] == tail[z - q]);
        }
        assert(!is_num_char(s[q]));
        lemma_render_parses(s, p, es[k], (d + 1) as nat);
        lemma_run_len_is(s, q, z, |c: char| is_ws(c));
        assert(next_sig(s, q) == z);
        lemma_next_sig(s, z + 1);
        assert(seq![es[k]] =~= es.skip(k));
        assert(z + 1 == i + body.len());
    }
}

/// Rendered entry lines parse back: where the lines of entries `k ..`
/// followed by the object closer stand at `i`, the member-list production
/// at the first significant character accepts exactly those raw pairs and
/// stops just past the closing brace.
#[verifier::rlimit(100)]
pub proof fn lemma_render_pairs_parses(
    s: Seq<char>,
    i: int,
    ps: Seq<(Seq<char>, JsonModel)>,
    d: nat,
    k: int,
)
    requires
        wf_entries(ps),
        0 <= k < ps.len(),
        occurs_at(s, i, render_pairs(ps, d, k) + closer(d, '}')),
    ensures
        ({
            let body = render_pairs(ps, d, k) + closer(d, '}');
            i + 2 * (d + 1) < s.len() && next_sig(s, i) == i + 2 * (d + 1) && s[i + 2 * (d + 1)]
                == '"' && spec_pairs(
                s,
                next_sig(s, i),
            ) == Parsed::<Seq<(Seq<char>, JsonModel)>>::Accept(
                ps.skip(k),
                next_sig(s, i + body.len()),
            )
        }),
    decreases ps, 0int, ps.len() - k,
{
    let key = ps[k].0;
    let rv = spec_render(ps[k].1, (d + 1) as nat);
    let lp = render_pairs(ps, d, k);
    let tail = closer(d, '}');
    let body = lp + tail;
    lemma_ind((d + 1) as nat);
    lemma_ind(d);
    crate::model::lemma_wf_entries_index(ps, k);
    lemma_render_head(ps[k].1, (d + 1) as nat);
    lemma_value_start_props(rv[0]);
    let p = i + 2 * (d + 1);
    let sep: Seq<char> = if k + 1 < ps.len() {
        seq![',', '\n'] + render_pairs(ps, d, k + 1)
    } else {
        Seq::empty()
    };
    assert(lp == ind((d + 1) as nat) + seq!['"'] + key + seq!['"', ':', ' '] + rv + sep);
    assert(body =~= ind((d + 1) as nat) + seq!['"'] + key + seq!['"', ':', ' '] + rv + sep
        + tail);
    assert forall|x: int| i <= x < p implies is_ws(s[x]) by {
        assert(s[x] == body[x - i]);
        assert(body[x - i] == ind((d + 1) as nat)[x - i]);
    }
    assert(s[p] == '"') by {
        assert(s[p] == body[p - i]);
    }
    lemma_run_len_is(s, i, p, |c: char| is_ws(c));
    assert(next_sig(s, i) == p);
    // the key string: p is the opening quote, the closing quote stands at qe
    let qe = p + 1 + key.len();
    assert forall|x: int| p + 1 <= x < qe implies s[x] != '"' by {
        assert(s[x] == body[x - i]);
        assert(body[x - i] == key[x - p - 1]);
    }
    assert(s[qe] == '"' && s[qe + 1] == ':' && s[qe + 2] == ' ') by {
        assert(s[qe] == body[qe - i] && s[qe + 1] == body[qe + 1 - i] && s[qe + 2] == body[qe + 2
            - i]);
    }
    lemma_run_len_is(s, p + 1, qe, |c: char| c != '"');
    assert(quote_end(s, p + 1) == qe);
    assert forall|x: int| 0 <= x < key.len() implies s.subrange(p + 1, qe)[x] == key[x] by {
        assert(s[p + 1 + x] == body[p + 1 + x - i]);
    }
    assert(s.subrange(p + 1, qe) =~= key);
    lemma_run_len_is(s, qe + 1, qe + 1, |c: char| is_ws(c));
    assert(next_sig(s, qe + 1) == qe + 1);
    // the value: one space after the colon, then the rendered value
    let pv = qe + 3;
    assert(s[pv] == rv[0]) by {
        assert(s[pv] == body[pv - i]);
    }
    lemma_run_len_is(s, qe + 2, pv, |c: char| is_ws(c));
    assert(next_sig(s, qe + 2) == pv);
    let q = pv + rv.len();
    assert(occurs_at(s, pv, rv)) by {
        assert forall|x: int| 0 <= x < rv.len() implies s[pv + x] == rv[x] by {
            assert(s[pv + x] == body[pv + x - i]);
        }
    }
    if k + 1 < ps.len() {
        assert(s[q] == ',' && s[q + 1] == '\n') by {
            assert(s[q] == body[q - i] && s[q + 1] == body[q + 1 - i]);
        }
        assert(!is_num_char(s[q]));
        lemma_render_parses(s, pv, ps[k].1, (d + 1) as nat);
        lemma_run_len_is(s, q, q, |c: char| is_ws(c));
        assert(next_sig(s, q) == q);
        let lp2 = render_pairs(ps, d, k + 1);
        assert(occurs_at(s, q + 2, lp2 + tail)) by {
            assert forall|x: int| 0 <= x < (lp2 + tail).len() implies s[q + 2 + x] == (lp2
                + tail)[x] by {
                assert(s[q + 2 + x] == body[q + 2 + x - i]);
                assert(body[q + 2 + x - i] == (sep + tail)[2 + x]);
            }
        }
        lemma_render_pairs_parses(s, q + 2, ps, d, k + 1);
        assert(next_sig(s, q + 1) == next_sig(s, q + 2));
        lemma_next_sig(s, q + 2);
        assert((key, ps[k].1) == ps[k]);
        assert(seq![ps[k]] + ps.skip(k + 1) =~= ps.skip(k));
        assert(i + body.len() == q + 2 + (lp2 + tail).len());
    } else {
        let z = q + 1 + 2 * d;
        assert(s[q] == '\n') by {
            assert(s[q] == body[q - i]);
        }
        assert forall|x: int| q <= x < z implies is_ws(s[x]) by {
            assert(s[x] == body[x - i]);
            if x > q {
                assert(body[x - i] == tail[x - q]);
                assert(tail[x - q] == ind(d)[x - q - 1]);
            }
        }
        assert(s[z] == '}') by {
            assert(s[z] == body[z - i]);
            assert(body[z - i] == tail[z - q]);
        }
        assert(!is_num_char(s[q]));
        lemma_render_parses(s, pv, ps[k].1, (d + 1) as nat);
        lemma_run_len_is(s, q, z, |c: char| is_ws(c));
        assert(next_sig(s, q) == z);
        lemma_next_sig(s, z + 1);
        assert((key, ps[k].1) == ps[k]);
        assert(seq![ps[k]] =~= ps.skip(k));
        assert(z + 1 == i + body.len());
    }
}

/// What the value production accepts is well formed: its numbers hold
/// well-formed lexemes, its strings and keys hold no `"`, and its object
/// keys are distinct — so every parsed tree satisfies the round-trip law's
/// hypothesis.
pub proof fn lemma_value_wf(s: Seq<char>, i: int)
    ensures
        spec_value(s, i) matches Parsed::Accept(m, j) ==> wf_model(m),
    decreases s.len() - i, 2int,
{
    if 0 <= i < s.len() {
        let c = s[i];
        if c == '{' {
            let j = within(i, s.len() as int, next_sig(s, i + 1));
            if !(j < s.len() && s[j] == '}') {
                lemma_pairs_wf(s, j);
                if let Parsed::Accept(pairs, k) = spec_pairs(s, j) {
                    crate::model::lemma_entries_of_wf(
                        Seq::<(Seq<char>, JsonModel)>::empty(),
                        pairs,
                    );
                }
            }
        } else if c == '[' {
            let j = within(i, s.len() as int, next_sig(s, i + 1));
            if !(j < s.len() && s[j] == ']') {
                lemma_elems_wf(s, j);
            }
        } else if c == '"' {
            if let Parsed::Accept(t, j) = spec_string(s, i) {
                lemma_string_quote_free(s, i);
            }
        }
    }
}

/// What the string production accepts holds no `"`.
proof fn lemma_string_quote_free(s: Seq<char>, i: int)
    ensures
        spec_string(s, i) matches Parsed::Accept(t, j) ==> quote_free(t),
{
    if 0 <= i < s.len() && s[i] == '"' {
        lemma_run_len(s, i + 1, |c: char| c != '"');
        let e = quote_end(s, i + 1);
        if e < s.len() {
            let t = s.subrange(i + 1, e);
            assert forall|x: int| 0 <= x < t.len() implies #[trigger] t[x] != '"' by {
                assert(s[i + 1 + x] != '"');
            }
        }
    }
}

/// What the element-list production accepts is a list of well-formed
/// values.
proof fn lemma_elems_wf(s: Seq<char>, i: int)
    ensures
        spec_elems(s, i) matches Parsed::Accept(es, j) ==> wf_elems(es),
    decreases s.len() - i, 3int,
{
    if 0 <= i < s.len() {
        lemma_value_wf(s, i);
        if let Parsed::Accept(v, j) = spec_value(s, i) {
            if j < s.len() && s[j] == ',' {
                let j2 = within(i, s.len() as int, next_sig(s, j + 1));
                lemma_elems_wf(s, j2);
                if let Parsed::Accept(rest, j3) = spec_elems(s, j2) {
                    assert((seq![v] + rest)[0] == v);
                    assert((seq![v] + rest).drop_first() =~= rest);
                    assert(wf_elems(seq![v] + rest));
                    assert(spec_elems(s, i) == Parsed::<Seq<JsonModel>>::Accept(
                        seq![v] + rest,
                        j3,
                    ));
                }
            } else if j < s.len() && s[j] == ']' {
                assert(seq![v][0] == v);
                assert(seq![v].drop_first() =~= Seq::<JsonModel>::empty());
                assert(wf_elems(Seq::<JsonModel>::empty()));
                assert(wf_elems(seq![v]));
            }
        }
    }
}

/// What the member-list production accepts is a list of quote-free keys
/// and well-formed values.
proof fn lemma_pairs_wf(s: Seq<char>, i: int)
    ensures
        spec_pairs(s, i) matches Parsed::Accept(ps, j) ==> wf_entries(ps),
    decreases s.len() - i, 3int,
{
    if 0 <= i < s.len() {
        lemma_string_quote_free(s, i);
        if let Parsed::Accept(key, j1) = spec_string(s, i) {
            if j1 < s.len() && s[j1] == ':' {
                let j2 = within(i, s.len() as int, next_sig(s, j1 + 1));
                lemma_value_wf(s, j2);
                if let Parsed::Accept(v, j3) = spec_value(s, j2) {
                    if j3 < s.len() && s[j3] == ',' {
                        let j4 = within(i, s.len() as int, next_sig(s, j3 + 1));
                        lemma_pairs_wf(s, j4);
                        if let Parsed::Accept(rest, j5) = spec_pairs(s, j4) {
                            assert((seq![(key, v)] + rest)[0] == (key, v));
                            assert((seq![(key, v)] + rest).drop_first() =~= rest);
                        }
                    } else if j3 < s.len() && s[j3] == '}' {
                        assert(seq![(key, v)][0] == (key, v));
                        assert(seq![(key, v)].drop_first() =~= Seq::<(
                            Seq<char>,
                            JsonModel,
                        )>::empty());
                        assert(wf_entries(Seq::<(Seq<char>, JsonModel)>::empty()));
                    }
                }
            }
        }
    }
}

/// The round trip: the rendering of a well-formed value is a document that
/// parses, with nothing left over, back to that very value.
pub proof fn lemma_round_trip(m: JsonModel)
    requires
        wf_model(m),
    ensures
        ({
            let s = spec_render(m, 0);
            spec_value(s, next_sig(s, 0)) == Parsed::<JsonModel>::Accept(m, s.len() as int)
        }),
{
    let s = spec_render(m, 0);
    lemma_render_head(m, 0);
    lemma_value_start_props(s[0]);
    assert(occurs_at(s, 0, s));
    lemma_run_len_is(s, 0, 0, |c: char| is_ws(c));
    assert(next_sig(s, 0) == 0);
    lemma_render_parses(s, 0, m, 0);
    lemma_run_len_is(s, s.len() as int, s.len() as int, |c: char| is_ws(c));
    assert(next_sig(s, s.len() as int) == s.len());
}

} // verus!
