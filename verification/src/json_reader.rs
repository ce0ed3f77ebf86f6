//! Reading JSON text back: a reader for the strings, arrays and objects of
//! JSON (RFC 8259), the JSON value that a SYON value stands for, and the
//! proof that the text of `value_json` reads back as that value.
use vstd::prelude::*;

use crate::ast::{EntryModel, ValueModel};
use crate::json::{
    entries_json, entry_json, hex_digit, items_json, json_escape, json_escaped, json_quote, pad,
    value_json,
};
use crate::lexer::{hex_value, unicode_escape};

verus! {

broadcast use vstd::seq::group_seq_axioms;

// ---------------------------------------------------------------------------
// JSON values
// ---------------------------------------------------------------------------

/// A JSON value made of strings, arrays and objects; an object lists its
/// members in the order of the text.
pub enum JsonValue {
    Str(Seq<char>),
    Arr(Seq<JsonValue>),
    Obj(Seq<(Seq<char>, JsonValue)>),
}

/// The JSON value of a SYON value: a scalar or a literal block is a string,
/// a sequence an array of its items' values, a mapping an object with one
/// member per entry, in order.
pub open spec fn json_of(v: ValueModel) -> JsonValue
    decreases v,
{
    match v {
        ValueModel::Scalar(s) => JsonValue::Str(s),
        ValueModel::LiteralBlock(s) => JsonValue::Str(s),
        ValueModel::Mapping(es) => JsonValue::Obj(json_members(es)),
        ValueModel::Sequence(vs) => JsonValue::Arr(json_items(vs)),
    }
}

pub open spec fn json_items(vs: Seq<ValueModel>) -> Seq<JsonValue>
    decreases vs,
{
    if vs.len() == 0 {
        Seq::empty()
    } else {
        json_items(vs.drop_last()).push(json_of(vs.last()))
    }
}

pub open spec fn json_members(es: Seq<EntryModel>) -> Seq<(Seq<char>, JsonValue)>
    decreases es,
{
    if es.len() == 0 {
        Seq::empty()
    } else {
        json_members(es.drop_last()).push((es.last().key, json_of(es.last().value)))
    }
}

// ---------------------------------------------------------------------------
// The reader
// ---------------------------------------------------------------------------

/// JSON white space: space, tab, line feed, carriage return.
pub open spec fn is_json_ws(c: char) -> bool {
    c == ' ' || c == '\t' || c == '\n' || c == '\r'
}

/// `t` without its leading JSON white space.
pub open spec fn skip_ws(t: Seq<char>) -> Seq<char>
    decreases t.len(),
{
    if t.len() > 0 && is_json_ws(t[0]) {
        skip_ws(t.skip(1))
    } else {
        t
    }
}

/// The character of the two-character escape `\c`.
pub open spec fn short_escape(c: char) -> Option<char> {
    if c == '"' {
        Some('"')
    } else if c == '\\' {
        Some('\\')
    } else if c == '/' {
        Some('/')
    } else if c == 'b' {
        Some('\u{8}')
    } else if c == 'f' {
        Some('\u{c}')
    } else if c == 'n' {
        Some('\n')
    } else if c == 'r' {
        Some('\r')
    } else if c == 't' {
        Some('\t')
    } else {
        None
    }
}

/// The characters of a string up to its closing quote, and the text after
/// the quote: escapes stand for their characters, and a control character
/// (below U+0020) may only be written as an escape.  A `\uXXXX` escape must
/// name a `char`: the surrogate pairs of JSON are not read.
pub open spec fn read_chars(t: Seq<char>) -> Option<(Seq<char>, Seq<char>)>
    decreases t.len(),
{
    if t.len() == 0 {
        None
    } else if t[0] == '"' {
        Some((Seq::empty(), t.skip(1)))
    } else if t[0] == '\\' {
        if t.len() >= 2 && short_escape(t[1]) is Some {
            match read_chars(t.skip(2)) {
                Some((s, r)) => Some((seq![short_escape(t[1])->0] + s, r)),
                None => None,
            }
        } else if t.len() >= 6 && t[1] == 'u' && unicode_escape(t.subrange(2, 6)) is Some {
            match read_chars(t.skip(6)) {
                Some((s, r)) => Some((seq![unicode_escape(t.subrange(2, 6))->0] + s, r)),
                None => None,
            }
        } else {
            None
        }
    } else if (t[0] as u32) < 0x20 {
        None
    } else {
        match read_chars(t.skip(1)) {
            Some((s, r)) => Some((seq![t[0]] + s, r)),
            None => None,
        }
    }
}

/// A string literal at the start of `t`: its characters and the text after it.
pub open spec fn read_string(t: Seq<char>) -> Option<(Seq<char>, Seq<char>)> {
    if t.len() > 0 && t[0] == '"' {
        read_chars(t.skip(1))
    } else {
        None
    }
}

/// A string, an array or an object at the start of `t`, and the text after it.
pub open spec fn read_value(t: Seq<char>) -> Option<(JsonValue, Seq<char>)>
    decreases t.len(), 0nat,
{
    if t.len() == 0 {
        None
    } else if t[0] == '"' {
        match read_string(t) {
            Some((s, r)) => Some((JsonValue::Str(s), r)),
            None => None,
        }
    } else if t[0] == '[' {
        let u = skip_ws(t.skip(1));
        if u.len() > 0 && u[0] == ']' {
            Some((JsonValue::Arr(Seq::empty()), u.skip(1)))
        } else if u.len() < t.len() {
            match read_items(u) {
                Some((xs, r)) => Some((JsonValue::Arr(xs), r)),
                None => None,
            }
        } else {
            None
        }
    } else if t[0] == '{' {
        let u = skip_ws(t.skip(1));
        if u.len() > 0 && u[0] == '}' {
            Some((JsonValue::Obj(Seq::empty()), u.skip(1)))
        } else if u.len() < t.len() {
            match read_members(u) {
                Some((ms, r)) => Some((JsonValue::Obj(ms), r)),
                None => None,
            }
        } else {
            None
        }
    } else {
        None
    }
}

/// The elements of an array from its first element on, and the text after
/// its closing `]`.
pub open spec fn read_items(t: Seq<char>) -> Option<(Seq<JsonValue>, Seq<char>)>
    decreases t.len(), 1nat,
{
    match read_value(t) {
        None => None,
        Some((x, r)) => {
            let u = skip_ws(r);
            if u.len() > 0 && u[0] == ']' {
                Some((seq![x], u.skip(1)))
            } else if u.len() > 0 && u[0] == ',' && skip_ws(u.skip(1)).len() < t.len() {
                match read_items(skip_ws(u.skip(1))) {
                    Some((xs, r2)) => Some((seq![x] + xs, r2)),
                    None => None,
                }
            } else {
                None
            }
        },
    }
}

/// The members of an object from its first member on, and the text after
/// its closing `}`.
pub open spec fn read_members(t: Seq<char>) -> Option<(Seq<(Seq<char>, JsonValue)>, Seq<char>)>
    decreases t.len(), 1nat,
{
    match read_string(t) {
        None => None,
        Some((k, r)) => {
            let u = skip_ws(r);
            if u.len() > 0 && u[0] == ':' && skip_ws(u.skip(1)).len() < t.len() {
                match read_value(skip_ws(u.skip(1))) {
                    None => None,
                    Some((x, r2)) => {
                        let w = skip_ws(r2);
                        if w.len() > 0 && w[0] == '}' {
                            Some((seq![(k, x)], w.skip(1)))
                        } else if w.len() > 0 && w[0] == ',' && skip_ws(w.skip(1)).len()
                            < t.len() {
                            match read_members(skip_ws(w.skip(1))) {
                                Some((ms, r3)) => Some((seq![(k, x)] + ms, r3)),
                                None => None,
                            }
                        } else {
                            None
                        }
                    },
                }
            } else {
                None
            }
        },
    }
}

/// The JSON value that the whole text `t` is, white space around it allowed.
pub open spec fn json_read(t: Seq<char>) -> Option<JsonValue> {
    match read_value(skip_ws(t)) {
        Some((x, r)) => if skip_ws(r).len() == 0 {
            Some(x)
        } else {
            None
        },
        None => None,
    }
}

// ---------------------------------------------------------------------------
// White space
// ---------------------------------------------------------------------------

proof fn lemma_skip_ws_len(t: Seq<char>)
    ensures
        skip_ws(t).len() <= t.len(),
    decreases t.len(),
{
    if t.len() > 0 && is_json_ws(t[0]) {
        lemma_skip_ws_len(t.skip(1));
    }
}

proof fn lemma_skip_spaces(k: nat, b: Seq<char>)
    ensures
        skip_ws(Seq::new(k, |i: int| ' ') + b) == skip_ws(b),
    decreases k,
{
    let t = Seq::new(k, |i: int| ' ') + b;
    if k > 0 {
        assert(t[0] == ' ');
        assert(t.skip(1) =~= Seq::new((k - 1) as nat, |i: int| ' ') + b);
        lemma_skip_spaces((k - 1) as nat, b);
    } else {
        assert(t =~= b);
    }
}

proof fn lemma_skip_ws_pad(n: nat, b: Seq<char>)
    ensures
        skip_ws(pad(n) + b) == skip_ws(b),
{
    lemma_skip_spaces(2 * n, b);
}

proof fn lemma_skip_ws_one(c: char, b: Seq<char>)
    requires
        is_json_ws(c),
    ensures
        skip_ws(seq![c] + b) == skip_ws(b),
{
    assert((seq![c] + b).skip(1) =~= b);
}

/// The text of a value starts with `"`, `[` or `{`.
pub proof fn lemma_value_json_start(v: ValueModel, d: nat)
    ensures
        value_json(v, d).len() > 0,
        value_json(v, d)[0] == '"' || value_json(v, d)[0] == '[' || value_json(v, d)[0] == '{',
{
}

// ---------------------------------------------------------------------------
// Strings
// ---------------------------------------------------------------------------

proof fn lemma_escaped_front(c: char, s: Seq<char>)
    ensures
        json_escaped(seq![c] + s) == json_escape(c) + json_escaped(s),
    decreases s.len(),
{
    let t = seq![c] + s;
    assert(json_escaped(t) == json_escaped(t.drop_last()) + json_escape(t.last()));
    if s.len() == 0 {
        assert(t.drop_last() =~= Seq::<char>::empty());
        assert(json_escaped(Seq::<char>::empty()) == Seq::<char>::empty());
        assert(json_escaped(t) =~= json_escape(c));
        assert(json_escape(c) + json_escaped(s) =~= json_escape(c));
    } else {
        assert(t.drop_last() =~= seq![c] + s.drop_last());
        lemma_escaped_front(c, s.drop_last());
        assert(t.last() == s.last());
        assert(json_escaped(s) == json_escaped(s.drop_last()) + json_escape(s.last()));
        assert(json_escaped(t) =~= json_escape(c) + json_escaped(s));
    }
}

proof fn lemma_hex_digit(n: nat)
    requires
        n < 16,
    ensures
        hex_value(hex_digit(n)) == Some(n as u32),
{
}

/// Reading the escape of `c` gives `c`, then what the rest gives.
proof fn lemma_read_escape(c: char, x: Seq<char>)
    ensures
        read_chars(json_escape(c) + x) == match read_chars(x) {
            Some((s, r)) => Some((seq![c] + s, r)),
            None => None,
        },
{
    let t = json_escape(c) + x;
    let u = c as u32;
    if c == '"' || c == '\\' || u == 0x08 || u == 0x09 || u == 0x0A || u == 0x0C || u == 0x0D {
        assert(t.skip(2) =~= x);
        assert(short_escape(t[1]) == Some(c));
    } else if u < 0x20 {
        let h = t.subrange(2, 6);
        assert(h =~= seq!['0', '0', hex_digit((u / 16) as nat), hex_digit((u % 16) as nat)]);
        lemma_hex_digit(0);
        lemma_hex_digit((u / 16) as nat);
        lemma_hex_digit((u % 16) as nat);
        assert(short_escape(t[1]) is None);
        assert(unicode_escape(h) == Some(c));
        assert(t.skip(6) =~= x);
    } else {
        assert(t.skip(1) =~= x);
    }
}

proof fn lemma_read_chars(s: Seq<char>, b: Seq<char>)
    ensures
        read_chars(json_escaped(s) + seq!['"'] + b) == Some((s, b)),
    decreases s.len(),
{
    if s.len() == 0 {
        let t = json_escaped(s) + seq!['"'] + b;
        assert(t =~= seq!['"'] + b);
        assert(t.skip(1) =~= b);
    } else {
        let rest = s.drop_first();
        assert(s =~= seq![s[0]] + rest);
        lemma_escaped_front(s[0], rest);
        lemma_read_chars(rest, b);
        let x = json_escaped(rest) + seq!['"'] + b;
        lemma_read_escape(s[0], x);
        assert(json_escaped(s) + seq!['"'] + b =~= json_escape(s[0]) + x);
    }
}

proof fn lemma_read_string(s: Seq<char>, b: Seq<char>)
    ensures
        read_string(json_quote(s) + b) == Some((s, b)),
{
    let t = json_quote(s) + b;
    assert(t.skip(1) =~= json_escaped(s) + seq!['"'] + b);
    lemma_read_chars(s, b);
}

// ---------------------------------------------------------------------------
// Lists, front first
// ---------------------------------------------------------------------------

proof fn lemma_items_json_front(vs: Seq<ValueModel>, d: nat)
    requires
        vs.len() >= 1,
    ensures
        vs.len() == 1 ==> items_json(vs, d) == pad(d) + value_json(vs[0], d),
        vs.len() >= 2 ==> items_json(vs, d) == pad(d) + value_json(vs[0], d) + seq![',', '\n']
            + items_json(vs.drop_first(), d),
    decreases vs.len(),
{
    let sep = seq![',', '\n'];
    if vs.len() >= 2 {
        let a = vs.drop_last();
        let f = vs.drop_first();
        assert(items_json(vs, d) == items_json(a, d) + sep + pad(d) + value_json(vs.last(), d));
        assert(a[0] == vs[0]);
        assert(f.last() == vs.last());
        if vs.len() == 2 {
            assert(items_json(a, d) == pad(d) + value_json(a[0], d));
            assert(f[0] == vs.last());
            assert(items_json(f, d) == pad(d) + value_json(f[0], d));
        } else {
            lemma_items_json_front(a, d);
            assert(a.drop_first() =~= f.drop_last());
            assert(items_json(f, d) == items_json(f.drop_last(), d) + sep + pad(d) + value_json(
                f.last(),
                d,
            ));
        }
        assert(items_json(vs, d) =~= pad(d) + value_json(vs[0], d) + sep + items_json(f, d));
    }
}

proof fn lemma_entries_json_front(es: Seq<EntryModel>, d: nat)
    requires
        es.len() >= 1,
    ensures
        es.len() == 1 ==> entries_json(es, d) == entry_json(es[0], d),
        es.len() >= 2 ==> entries_json(es, d) == entry_json(es[0], d) + seq![',', '\n']
            + entries_json(es.drop_first(), d),
    decreases es.len(),
{
    let sep = seq![',', '\n'];
    if es.len() >= 2 {
        let a = es.drop_last();
        let f = es.drop_first();
        assert(entries_json(es, d) == entries_json(a, d) + sep + entry_json(es.last(), d));
        assert(a[0] == es[0]);
        assert(f.last() == es.last());
        if es.len() == 2 {
            assert(entries_json(a, d) == entry_json(a[0], d));
            assert(f[0] == es.last());
            assert(entries_json(f, d) == entry_json(f[0], d));
        } else {
            lemma_entries_json_front(a, d);
            assert(a.drop_first() =~= f.drop_last());
            assert(entries_json(f, d) == entries_json(f.drop_last(), d) + sep + entry_json(
                f.last(),
                d,
            ));
        }
        assert(entries_json(es, d) =~= entry_json(es[0], d) + sep + entries_json(f, d));
    }
}

proof fn lemma_json_items_front(vs: Seq<ValueModel>)
    requires
        vs.len() >= 1,
    ensures
        json_items(vs) == seq![json_of(vs[0])] + json_items(vs.drop_first()),
    decreases vs.len(),
{
    if vs.len() >= 2 {
        lemma_json_items_front(vs.drop_last());
        assert(vs.drop_last().drop_first() =~= vs.drop_first().drop_last());
        assert(vs.drop_last()[0] == vs[0]);
        assert(vs.drop_first().last() == vs.last());
    } else {
        assert(vs.drop_last() =~= Seq::<ValueModel>::empty());
        assert(vs.drop_first() =~= Seq::<ValueModel>::empty());
    }
}

proof fn lemma_json_members_front(es: Seq<EntryModel>)
    requires
        es.len() >= 1,
    ensures
        json_members(es) == seq![(es[0].key, json_of(es[0].value))] + json_members(
            es.drop_first(),
        ),
    decreases es.len(),
{
    if es.len() >= 2 {
        lemma_json_members_front(es.drop_last());
        assert(es.drop_last().drop_first() =~= es.drop_first().drop_last());
        assert(es.drop_last()[0] == es[0]);
        assert(es.drop_first().last() == es.last());
    } else {
        assert(es.drop_last() =~= Seq::<EntryModel>::empty());
        assert(es.drop_first() =~= Seq::<EntryModel>::empty());
    }
}

// ---------------------------------------------------------------------------
// Values
// ---------------------------------------------------------------------------

/// The text of `v` reads back as the JSON value of `v`, whatever follows it.
pub proof fn lemma_read_value(v: ValueModel, d: nat, b: Seq<char>)
    ensures
        read_value(value_json(v, d) + b) == Some((json_of(v), b)),
    decreases v, 0nat,
{
    let t = value_json(v, d) + b;
    match v {
        ValueModel::Scalar(s) => {
            lemma_read_string(s, b);
        },
        ValueModel::LiteralBlock(s) => {
            lemma_read_string(s, b);
        },
        ValueModel::Sequence(vs) => {
            if vs.len() == 0 {
                assert(t.skip(1) =~= seq![']'] + b);
                assert(json_items(vs) =~= Seq::<JsonValue>::empty());
                assert((seq![']'] + b).skip(1) =~= b);
            } else {
                let c = seq!['\n'] + pad(d) + seq![']'] + b;
                assert(t.skip(1) =~= seq!['\n'] + (items_json(vs, d + 1) + c));
                lemma_skip_ws_one('\n', items_json(vs, d + 1) + c);
                lemma_skip_ws_len(t.skip(1));
                assert(decreases_to!(v => vs));
                lemma_read_items(vs, d + 1, d, b);
            }
        },
        ValueModel::Mapping(es) => {
            if es.len() == 0 {
                assert(t.skip(1) =~= seq!['}'] + b);
                assert(json_members(es) =~= Seq::<(Seq<char>, JsonValue)>::empty());
                assert((seq!['}'] + b).skip(1) =~= b);
            } else {
                let c = seq!['\n'] + pad(d) + seq!['}'] + b;
                assert(t.skip(1) =~= seq!['\n'] + (entries_json(es, d + 1) + c));
                lemma_skip_ws_one('\n', entries_json(es, d + 1) + c);
                lemma_skip_ws_len(t.skip(1));
                assert(decreases_to!(v => es));
                lemma_read_members(es, d + 1, d, b);
            }
        },
    }
}

/// The elements of a non-empty array, written one per line at level `d`
/// and closed at level `e`, read back as the JSON values of the items.
proof fn lemma_read_items(vs: Seq<ValueModel>, d: nat, e: nat, b: Seq<char>)
    requires
        vs.len() >= 1,
    ensures
        ({
            let u = skip_ws(items_json(vs, d) + (seq!['\n'] + pad(e) + seq![']'] + b));
            &&& u.len() > 0
            &&& u[0] != ']'
            &&& read_items(u) == Some((json_items(vs), b))
        }),
    decreases vs, 1nat,
{
    let c = seq!['\n'] + pad(e) + seq![']'] + b;
    lemma_items_json_front(vs, d);
    lemma_json_items_front(vs);
    lemma_value_json_start(vs[0], d);
    let z = if vs.len() == 1 {
        Seq::<char>::empty()
    } else {
        seq![',', '\n'] + items_json(vs.drop_first(), d)
    };
    let t = value_json(vs[0], d) + (z + c);
    assert(items_json(vs, d) + c =~= pad(d) + t);
    lemma_skip_ws_pad(d, t);
    assert(skip_ws(t) == t);
    assert(decreases_to!(vs => vs[0]));
    lemma_read_value(vs[0], d, z + c);
    if vs.len() == 1 {
        assert(z + c =~= seq!['\n'] + (pad(e) + (seq![']'] + b)));
        lemma_skip_ws_one('\n', pad(e) + (seq![']'] + b));
        lemma_skip_ws_pad(e, seq![']'] + b);
        assert((seq![']'] + b).skip(1) =~= b);
        assert(vs.drop_first() =~= Seq::<ValueModel>::empty());
        assert(seq![json_of(vs[0])] + json_items(vs.drop_first()) =~= seq![json_of(vs[0])]);
    } else {
        let rest = vs.drop_first();
        let w = items_json(rest, d) + c;
        assert((z + c).skip(1) =~= seq!['\n'] + w);
        lemma_skip_ws_one('\n', w);
        lemma_skip_ws_len(w);
        assert(rest =~= vs.subrange(1, vs.len() as int));
        assert(decreases_to!(vs => rest));
        lemma_read_items(rest, d, e, b);
    }
}

/// The members of a non-empty object, written one per line at level `d`
/// and closed at level `e`, read back as the entries' keys and values.
#[verifier::rlimit(40)]
proof fn lemma_read_members(es: Seq<EntryModel>, d: nat, e: nat, b: Seq<char>)
    requires
        es.len() >= 1,
    ensures
        ({
            let u = skip_ws(entries_json(es, d) + (seq!['\n'] + pad(e) + seq!['}'] + b));
            &&& u.len() > 0
            &&& u[0] != '}'
            &&& read_members(u) == Some((json_members(es), b))
        }),
    decreases es, 1nat,
{
    let c = seq!['\n'] + pad(e) + seq!['}'] + b;
    let e0 = es[0];
    lemma_entries_json_front(es, d);
    lemma_json_members_front(es);
    lemma_value_json_start(e0.value, d);
    let z = if es.len() == 1 {
        Seq::<char>::empty()
    } else {
        seq![',', '\n'] + entries_json(es.drop_first(), d)
    };
    let after_key = seq![':', ' '] + value_json(e0.value, d) + (z + c);
    let t = json_quote(e0.key) + after_key;
    assert(entries_json(es, d) + c =~= pad(d) + t);
    lemma_skip_ws_pad(d, t);
    assert(skip_ws(t) == t);
    lemma_read_string(e0.key, after_key);
    assert(skip_ws(after_key) == after_key);
    let v = value_json(e0.value, d) + (z + c);
    assert(after_key.skip(1) =~= seq![' '] + v);
    lemma_skip_ws_one(' ', v);
    assert(skip_ws(v) == v);
    assert(decreases_to!(es => e0));
    assert(decreases_to!(e0 => e0.value));
    lemma_read_value(e0.value, d, z + c);
    assert(read_string(t) == Some((e0.key, after_key)));
    assert(after_key[0] == ':');
    assert(read_value(skip_ws(after_key.skip(1))) == Some((json_of(e0.value), z + c)));
    lemma_skip_ws_len(v);
    if es.len() == 1 {
        assert(z + c =~= seq!['\n'] + (pad(e) + (seq!['}'] + b)));
        lemma_skip_ws_one('\n', pad(e) + (seq!['}'] + b));
        lemma_skip_ws_pad(e, seq!['}'] + b);
        assert((seq!['}'] + b).skip(1) =~= b);
        assert(es.drop_first() =~= Seq::<EntryModel>::empty());
        assert(seq![(e0.key, json_of(e0.value))] + json_members(es.drop_first()) =~= seq![
            (e0.key, json_of(e0.value)),
        ]);
    } else {
        let rest = es.drop_first();
        let w = entries_json(rest, d) + c;
        assert((z + c).skip(1) =~= seq!['\n'] + w);
        lemma_skip_ws_one('\n', w);
        lemma_skip_ws_len(w);
        assert(rest =~= es.subrange(1, es.len() as int));
        assert(decreases_to!(es => rest));
        lemma_read_members(rest, d, e, b);
    }
}

} // verus!
