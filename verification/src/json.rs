//! Rendering of a SYON value as indented JSON text.
use vstd::prelude::*;

use crate::ast::{
    entries_model, entry_model, items_model, lemma_entries_model, lemma_items_model, value_model,
    EntryModel, Value, ValueModel,
};

verus! {

broadcast use vstd::std_specs::vec::group_vec_axioms, vstd::seq::group_seq_axioms;

#[verifier::external_type_specification]
#[verifier::external_body]
pub struct ExJsonError(serde_json::Error);

// ---------------------------------------------------------------------------
// Specification
// ---------------------------------------------------------------------------

/// The hexadecimal digit of `d < 16`, in lower case.
pub open spec fn hex_digit(d: nat) -> char {
    if d < 10 {
        crate::text::digit_char(d)
    } else if d == 10 {
        'a'
    } else if d == 11 {
        'b'
    } else if d == 12 {
        'c'
    } else if d == 13 {
        'd'
    } else if d == 14 {
        'e'
    } else {
        'f'
    }
}

/// How a JSON string writes the character `c`.
pub open spec fn json_escape(c: char) -> Seq<char> {
    let u = c as u32;
    if c == '"' {
        seq!['\\', '"']
    } else if c == '\\' {
        seq!['\\', '\\']
    } else if u == 0x08 {
        seq!['\\', 'b']
    } else if u == 0x09 {
        seq!['\\', 't']
    } else if u == 0x0A {
        seq!['\\', 'n']
    } else if u == 0x0C {
        seq!['\\', 'f']
    } else if u == 0x0D {
        seq!['\\', 'r']
    } else if u < 0x20 {
        seq!['\\', 'u', '0', '0', hex_digit((u / 16) as nat), hex_digit((u % 16) as nat)]
    } else {
        seq![c]
    }
}

/// The escaped characters of `s`.
pub open spec fn json_escaped(s: Seq<char>) -> Seq<char>
    decreases s.len(),
{
    if s.len() == 0 {
        Seq::empty()
    } else {
        json_escaped(s.drop_last()) + json_escape(s.last())
    }
}

/// `s` as a JSON string literal.
pub open spec fn json_quote(s: Seq<char>) -> Seq<char> {
    seq!['"'] + json_escaped(s) + seq!['"']
}

/// Two spaces per level of indentation.
pub open spec fn pad(depth: nat) -> Seq<char> {
    Seq::new(2 * depth, |i: int| ' ')
}

/// How deeply collections nest in `v`.
pub open spec fn height(v: ValueModel) -> nat
    decreases v,
{
    match v {
        ValueModel::Scalar(_) => 0,
        ValueModel::LiteralBlock(_) => 0,
        ValueModel::Mapping(es) => 1 + entries_height(es),
        ValueModel::Sequence(items) => 1 + items_height(items),
    }
}

pub open spec fn entries_height(es: Seq<EntryModel>) -> nat
    decreases es,
{
    if es.len() == 0 {
        0
    } else {
        let a = entries_height(es.drop_last());
        let b = height(es.last().value);
        if a >= b {
            a
        } else {
            b
        }
    }
}

pub open spec fn items_height(vs: Seq<ValueModel>) -> nat
    decreases vs,
{
    if vs.len() == 0 {
        0
    } else {
        let a = items_height(vs.drop_last());
        let b = height(vs.last());
        if a >= b {
            a
        } else {
            b
        }
    }
}

/// The JSON text of `v` at indentation level `depth`: scalars and literal
/// blocks as JSON strings; a non-empty mapping as `{`, one line per entry
/// (`"key": value`, indented one level deeper, separated by `,`), then `}` at
/// the current level; a non-empty sequence likewise with `[` and `]`; empty
/// collections as `{}` and `[]`.
pub open spec fn value_json(v: ValueModel, depth: nat) -> Seq<char>
    decreases v,
{
    match v {
        ValueModel::Scalar(s) => json_quote(s),
        ValueModel::LiteralBlock(s) => json_quote(s),
        ValueModel::Mapping(es) => if es.len() == 0 {
            seq!['{', '}']
        } else {
            seq!['{', '\n'] + entries_json(es, depth + 1) + seq!['\n'] + pad(depth) + seq!['}']
        },
        ValueModel::Sequence(items) => if items.len() == 0 {
            seq!['[', ']']
        } else {
            seq!['[', '\n'] + items_json(items, depth + 1) + seq!['\n'] + pad(depth) + seq![']']
        },
    }
}

pub open spec fn entry_json(e: EntryModel, depth: nat) -> Seq<char>
    decreases e,
{
    pad(depth) + json_quote(e.key) + seq![':', ' '] + value_json(e.value, depth)
}

pub open spec fn entries_json(es: Seq<EntryModel>, depth: nat) -> Seq<char>
    decreases es,
{
    if es.len() == 0 {
        Seq::empty()
    } else if es.len() == 1 {
        entry_json(es[0], depth)
    } else {
        entries_json(es.drop_last(), depth) + seq![',', '\n'] + entry_json(es.last(), depth)
    }
}

pub open spec fn items_json(vs: Seq<ValueModel>, depth: nat) -> Seq<char>
    decreases vs,
{
    if vs.len() == 0 {
        Seq::empty()
    } else if vs.len() == 1 {
        pad(depth) + value_json(vs[0], depth)
    } else {
        items_json(vs.drop_last(), depth) + seq![',', '\n'] + pad(depth) + value_json(
            vs.last(),
            depth,
        )
    }
}

// ---------------------------------------------------------------------------
// Lemmas
// ---------------------------------------------------------------------------

proof fn lemma_entries_height(es: Seq<EntryModel>, i: int)
    requires
        0 <= i < es.len(),
    ensures
        height(es[i].value) <= entries_height(es),
    decreases es.len(),
{
    if i < es.len() - 1 {
        lemma_entries_height(es.drop_last(), i);
        assert(es.drop_last()[i] == es[i]);
    }
}

proof fn lemma_items_height(vs: Seq<ValueModel>, i: int)
    requires
        0 <= i < vs.len(),
    ensures
        height(vs[i]) <= items_height(vs),
    decreases vs.len(),
{
    if i < vs.len() - 1 {
        lemma_items_height(vs.drop_last(), i);
        assert(vs.drop_last()[i] == vs[i]);
    }
}

// ---------------------------------------------------------------------------
// Implementation
// ---------------------------------------------------------------------------

/// `serde_json::to_string` of a string.  For a `str` it serializes with
/// `serialize_str`, which writes a quote, the text escaped by serde_json's
/// `ESCAPE` table (`\"`, `\\`, `\b`, `\t`, `\n`, `\f`, `\r`, `\u00XX` for the
/// other control characters below 0x20, everything else as is) and a quote
/// into a `Vec<u8>`, a writer that never fails; so the call returns `Ok`.
#[verifier::external_body]
fn json_string(s: &str) -> (r: Result<String, serde_json::Error>)
    ensures
        r is Ok,
        r matches Ok(j) ==> j@ == json_quote(s@),
{
    serde_json::to_string(s)
}

/// Appends two spaces per level.
fn push_pad(out: &mut String, depth: usize)
    ensures
        final(out)@ == old(out)@ + pad(depth as nat),
{
    let mut i: usize = 0;
    while i < depth
        invariant
            i <= depth,
            out@ == old(out)@ + pad(i as nat),
        decreases depth - i,
    {
        out.push(' ');
        out.push(' ');
        assert(old(out)@ + pad((i + 1) as nat) =~= (old(out)@ + pad(i as nat)).push(' ').push(
            ' ',
        ));
        i += 1;
    }
}

/// Appends `s` as a JSON string literal.
fn push_quoted(out: &mut String, s: &String)
    ensures
        final(out)@ == old(out)@ + json_quote(s@),
{
    match json_string(s.as_str()) {
        Ok(j) => out.append(j.as_str()),
        Err(_) => {},
    }
}

/// Renders `value` as JSON text, indented for nesting level `depth`.
pub fn to_json(value: &Value, depth: usize) -> (r: String)
    requires
        depth + height(value_model(*value)) < usize::MAX,
    ensures
        r@ == value_json(value_model(*value), depth as nat),
    decreases value,
{
    let mut out = String::new();
    match value {
        Value::Scalar(s) => {
            push_quoted(&mut out, s);
        },
        Value::LiteralBlock(s) => {
            push_quoted(&mut out, s);
        },
        Value::Mapping(m) => {
            let n = m.entries.len();
            let ghost es = entries_model(m.entries@);
            proof {
                lemma_entries_model(m.entries@);
            }
            if n == 0 {
                out.append("{}");
                proof {
                    reveal_strlit("{}");
                    assert(out@ =~= seq!['{', '}']);
                }
                return out;
            }
            out.append("{\n");
            proof {
                reveal_strlit("{\n");
                assert(out@ =~= seq!['{', '\n'] + entries_json(es.take(0), (depth + 1) as nat));
            }
            let mut i: usize = 0;
            while i < n
                invariant
                    n == m.entries@.len(),
                    es == entries_model(m.entries@),
                    es.len() == n,
                    forall|k: int| 0 <= k < n ==> #[trigger] es[k] == entry_model(m.entries@[k]),
                    depth + height(value_model(*value)) < usize::MAX,
                    value_model(*value) == ValueModel::Mapping(es),
                    *value is Mapping && (*value)->Mapping_0 == *m,
                    i <= n,
                    out@ == seq!['{', '\n'] + entries_json(es.take(i as int), (depth + 1) as nat),
                decreases n - i,
            {
                let ghost before = out@;
                let e = &m.entries[i];
                proof {
                    lemma_entries_height(es, i as int);
                    assert(es[i as int].value == value_model(e.value));
                    assert(*value is Mapping && (*value)->Mapping_0 == *m);
                    assert(decreases_to!(*value => (*value)->Mapping_0));
                    assert(decreases_to!(*m => m.entries));
                    assert(decreases_to!(m.entries => m.entries[i as int]));
                    assert(decreases_to!(m.entries[i as int] => m.entries[i as int].value));
                    assert(decreases_to!(*value => e.value));
                }
                if i > 0 {
                    out.append(",\n");
                    proof {
                        reveal_strlit(",\n");
                    }
                }
                let ghost mid = out@;
                push_pad(&mut out, depth + 1);
                push_quoted(&mut out, &e.key);
                out.append(": ");
                proof {
                    reveal_strlit(": ");
                }
                let v = to_json(&e.value, depth + 1);
                out.append(v.as_str());
                proof {
                    let d = (depth + 1) as nat;
                    let t = es.take(i + 1);
                    assert(t.last() == es[i as int]);
                    assert(t.drop_last() =~= es.take(i as int));
                    assert(out@ =~= mid + entry_json(es[i as int], d));
                    if i == 0 {
                        assert(t.len() == 1);
                        assert(out@ =~= seq!['{', '\n'] + entries_json(t, d));
                    } else {
                        assert(out@ =~= seq!['{', '\n'] + entries_json(t, d));
                    }
                }
                i += 1;
            }
            proof {
                assert(es.take(n as int) =~= es);
            }
            out.push('\n');
            push_pad(&mut out, depth);
            out.push('}');
        },
        Value::Sequence(sq) => {
            let n = sq.items.len();
            let ghost vs = items_model(sq.items@);
            proof {
                lemma_items_model(sq.items@);
            }
            if n == 0 {
                out.append("[]");
                proof {
                    reveal_strlit("[]");
                    assert(out@ =~= seq!['[', ']']);
                }
                return out;
            }
            out.append("[\n");
            proof {
                reveal_strlit("[\n");
                assert(out@ =~= seq!['[', '\n'] + items_json(vs.take(0), (depth + 1) as nat));
            }
            let mut i: usize = 0;
            while i < n
                invariant
                    n == sq.items@.len(),
                    vs == items_model(sq.items@),
                    vs.len() == n,
                    forall|k: int| 0 <= k < n ==> #[trigger] vs[k] == value_model(sq.items@[k]),
                    depth + height(value_model(*value)) < usize::MAX,
                    value_model(*value) == ValueModel::Sequence(vs),
                    *value is Sequence && (*value)->Sequence_0 == *sq,
                    i <= n,
                    out@ == seq!['[', '\n'] + items_json(vs.take(i as int), (depth + 1) as nat),
                decreases n - i,
            {
                let item = &sq.items[i];
                proof {
                    lemma_items_height(vs, i as int);
                    assert(*value is Sequence && (*value)->Sequence_0 == *sq);
                    assert(decreases_to!(*value => (*value)->Sequence_0));
                    assert(decreases_to!(*sq => sq.items));
                    assert(decreases_to!(sq.items => sq.items[i as int]));
                    assert(decreases_to!(*value => *item));
                }
                if i > 0 {
                    out.append(",\n");
                    proof {
                        reveal_strlit(",\n");
                    }
                }
                let ghost mid = out@;
                push_pad(&mut out, depth + 1);
                let v = to_json(item, depth + 1);
                out.append(v.as_str());
                proof {
                    let d = (depth + 1) as nat;
                    let t = vs.take(i + 1);
                    assert(t.last() == vs[i as int]);
                    assert(t.drop_last() =~= vs.take(i as int));
                    assert(out@ =~= mid + pad(d) + value_json(vs[i as int], d));
                    assert(out@ =~= seq!['[', '\n'] + items_json(t, d));
                }
                i += 1;
            }
            proof {
                assert(vs.take(n as int) =~= vs);
            }
            out.push('\n');
            push_pad(&mut out, depth);
            out.push(']');
        },
    }
    out
}

/// The JSON object `{"error":<msg>}` that reports a failure, with the message
/// as a JSON string.
pub open spec fn error_json_spec(msg: Seq<char>) -> Seq<char> {
    "{\"error\":"@ + json_quote(msg) + seq!['}']
}

/// Renders a failure message as the JSON object `{"error":"<msg>"}`.
pub fn error_json(msg: &str) -> (r: String)
    ensures
        r@ == error_json_spec(msg@),
{
    let mut out = String::from_str("{\"error\":");
    match json_string(msg) {
        Ok(j) => out.append(j.as_str()),
        Err(_) => {},
    }
    out.push('}');
    out
}

} // verus!
