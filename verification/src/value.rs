//! The value tree a parse builds, and the serializer that renders it back
//! to indented text.

use vstd::prelude::*;
use vstd::string::StringExecFns;
use crate::model::{
    JsonModel, spec_render, render_elems, render_pairs, ind, mheight, mheight_elems,
    mheight_pairs, lemma_mheight_elems, lemma_mheight_pairs, null_tok, true_tok, false_tok,
};

verus! {

/// The abstract elements of a sequence of values.
pub open spec fn elems_view(vs: Seq<JSONValue>) -> Seq<JsonModel>
    decreases vs,
{
    Seq::new(
        vs.len(),
        |k: int|
            if 0 <= k < vs.len() {
                vs[k]@
            } else {
                JsonModel::Null
            },
    )
}

/// The abstract entries of a sequence of keyed values.
pub open spec fn pairs_view(vs: Seq<(String, JSONValue)>) -> Seq<(Seq<char>, JsonModel)>
    decreases vs,
{
    Seq::new(
        vs.len(),
        |k: int|
            if 0 <= k < vs.len() {
                (vs[k].0@, vs[k].1@)
            } else {
                (Seq::empty(), JsonModel::Null)
            },
    )
}

/// Viewing distributes over appending a value.
pub proof fn lemma_elems_view_push(vs: Seq<JSONValue>, v: JSONValue)
    ensures
        elems_view(vs.push(v)) == elems_view(vs).push(v@),
{
    assert(elems_view(vs.push(v)) =~= elems_view(vs).push(v@));
}

/// Viewing distributes over appending an entry.
pub proof fn lemma_pairs_view_push(vs: Seq<(String, JSONValue)>, p: (String, JSONValue))
    ensures
        pairs_view(vs.push(p)) == pairs_view(vs).push((p.0@, p.1@)),
{
    assert(pairs_view(vs.push(p)) =~= pairs_view(vs).push((p.0@, p.1@)));
}

/// A JSON value: one case per grammar production.
///
/// A number holds the numeric lexeme it was written with (already checked
/// against the numeric grammar); a string holds its characters with no
/// escape interpretation; an object holds its entries in insertion order.
#[derive(Debug, PartialEq)]
pub enum JSONValue {
    Null,
    Bool(bool),
    Number(String),
    String(String),
    Array(Vec<JSONValue>),
    Object(Vec<(String, JSONValue)>),
}

impl View for JSONValue {
    type V = JsonModel;

    open spec fn view(&self) -> JsonModel
        decreases self,
    {
        match self {
            JSONValue::Null => JsonModel::Null,
            JSONValue::Bool(b) => JsonModel::Bool(*b),
            JSONValue::Number(q) => JsonModel::Number(q@),
            JSONValue::String(t) => JsonModel::Str(t@),
            JSONValue::Array(es) => JsonModel::Arr(elems_view(es@)),
            JSONValue::Object(ps) => JsonModel::Obj(pairs_view(ps@)),
        }
    }
}

/// Append `2 * n` spaces: the indentation of nesting depth `n`.
fn append_indent(out: &mut String, n: usize)
    ensures
        final(out)@ == old(out)@ + ind(n as nat),
{
    proof {
        reveal_strlit("  ");
        assert(ind(0) =~= Seq::<char>::empty());
    }
    let mut k: usize = 0;
    while k < n
        invariant
            k <= n,
            out@ =~= old(out)@ + ind(k as nat),
        decreases n - k,
    {
        out.append("  ");
        k = k + 1;
        proof {
            reveal_strlit("  ");
            assert(ind(k as nat) =~= ind((k - 1) as nat) + "  "@);
            assert(out@ =~= old(out)@ + ind(k as nat));
        }
    }
}

impl JSONValue {
    /// Render this value as indented text at nesting depth `indent`:
    /// exactly the text of the reference serializer.
    pub fn repr(&self, indent: usize) -> (r: String)
        requires
            indent + mheight(self@) <= usize::MAX,
        ensures
            r@ == spec_render(self@, indent as nat),
        decreases self, 1int,
    {
        match self {
            JSONValue::Null => {
                let r = String::from_str("null");
                proof {
                    reveal_strlit("null");
                    assert(r@ =~= null_tok());
                }
                r
            },
            JSONValue::Bool(b) => {
                if *b {
                    let r = String::from_str("true");
                    proof {
                        reveal_strlit("true");
                        assert(r@ =~= true_tok());
                    }
                    r
                } else {
                    let r = String::from_str("false");
                    proof {
                        reveal_strlit("false");
                        assert(r@ =~= false_tok());
                    }
                    r
                }
            },
            JSONValue::Number(q) => q.clone(),
            JSONValue::String(t) => {
                let mut r = String::from_str("\"");
                r.append(t.as_str());
                r.append("\"");
                proof {
                    reveal_strlit("\"");
                    assert(r@ =~= seq!['"'] + t@ + seq!['"']);
                }
                r
            },
            JSONValue::Array(es) => {
                if es.len() == 0 {
                    let r = String::from_str("[]");
                    proof {
                        reveal_strlit("[]");
                        assert(r@ =~= seq!['[', ']']);
                    }
                    r
                } else {
                    let mut r = String::from_str("[\n");
                    repr_elems(es, 0, indent, &mut r);
                    r.append("\n");
                    append_indent(&mut r, indent);
                    r.append("]");
                    proof {
                        reveal_strlit("[\n");
                        reveal_strlit("\n");
                        reveal_strlit("]");
                        assert(r@ =~= seq!['[', '\n'] + render_elems(elems_view(es@), indent as nat, 0)
                            + seq!['\n'] + ind(indent as nat) + seq![']']);
                    }
                    r
                }
            },
            JSONValue::Object(ps) => {
                if ps.len() == 0 {
                    let r = String::from_str("{}");
                    proof {
                        reveal_strlit("{}");
                        assert(r@ =~= seq!['{', '}']);
                    }
                    r
                } else {
                    let mut r = String::from_str("{\n");
                    repr_pairs(ps, 0, indent, &mut r);
                    r.append("\n");
                    append_indent(&mut r, indent);
                    r.append("}");
                    proof {
                        reveal_strlit("{\n");
                        reveal_strlit("\n");
                        reveal_strlit("}");
                        assert(r@ =~= seq!['{', '\n'] + render_pairs(pairs_view(ps@), indent as nat, 0)
                            + seq!['\n'] + ind(indent as nat) + seq!['}']);
                    }
                    r
                }
            },
        }
    }
}

/// Append the rendered lines of elements `k ..` of `es`, one per line at
/// depth `indent + 1`, joined by `,\n`.
fn repr_elems(es: &Vec<JSONValue>, k: usize, indent: usize, out: &mut String)
    requires
        k < es@.len(),
        indent + 1 + mheight_elems(elems_view(es@), k as int) <= usize::MAX,
    ensures
        final(out)@ == old(out)@ + render_elems(elems_view(es@), indent as nat, k as int),
    decreases es, es@.len() - k,
{
    let n = es.len();
    proof {
        lemma_mheight_elems(elems_view(es@), k as int, k as int);
    }
    append_indent(out, indent + 1);
    let piece = es[k].repr(indent + 1);
    out.append(piece.as_str());
    if k + 1 < n {
        out.append(",\n");
        repr_elems(es, k + 1, indent, out);
        proof {
            reveal_strlit(",\n");
            assert(mheight_elems(elems_view(es@), k as int) >= mheight_elems(
                elems_view(es@),
                k + 1,
            ));
            assert(out@ =~= old(out)@ + render_elems(elems_view(es@), indent as nat, k as int));
        }
    } else {
        proof {
            assert(out@ =~= old(out)@ + render_elems(elems_view(es@), indent as nat, k as int));
        }
    }
}

/// Append the rendered lines of entries `k ..` of `ps`: `"key": value`,
/// one per line at depth `indent + 1`, joined by `,\n`.
fn repr_pairs(ps: &Vec<(String, JSONValue)>, k: usize, indent: usize, out: &mut String)
    requires
        k < ps@.len(),
        indent + 1 + mheight_pairs(pairs_view(ps@), k as int) <= usize::MAX,
    ensures
        final(out)@ == old(out)@ + render_pairs(pairs_view(ps@), indent as nat, k as int),
    decreases ps, ps@.len() - k,
{
    let n = ps.len();
    proof {
        lemma_mheight_pairs(pairs_view(ps@), k as int, k as int);
    }
    append_indent(out, indent + 1);
    out.append("\"");
    out.append(ps[k].0.as_str());
    out.append("\": ");
    let piece = ps[k].1.repr(indent + 1);
    out.append(piece.as_str());
    if k + 1 < n {
        out.append(",\n");
        repr_pairs(ps, k + 1, indent, out);
        proof {
            reveal_strlit("\"");
            reveal_strlit("\": ");
            reveal_strlit(",\n");
            assert(mheight_pairs(pairs_view(ps@), k as int) >= mheight_pairs(
                pairs_view(ps@),
                k + 1,
            ));
            assert(out@ =~= old(out)@ + render_pairs(pairs_view(ps@), indent as nat, k as int));
        }
    } else {
        proof {
            reveal_strlit("\"");
            reveal_strlit("\": ");
            assert(out@ =~= old(out)@ + render_pairs(pairs_view(ps@), indent as nat, k as int));
        }
    }
}

} // verus!
