//! Properties of the parser as a whole.
use vstd::prelude::*;

use crate::ast::{DocumentModel, EntryModel, ValueModel};
use crate::comments::comment_scan;
use crate::json::value_json;
use crate::json_reader::{json_of, json_read, lemma_read_value, lemma_value_json_start, skip_ws};
use crate::lexer::{
    all_digits, colon_scan, digits_value, fault_from, is_float_literal, is_reserved_word,
    key_colon, line_fault, line_key, tab_in_indent, tokenize_spec, unescape_spec, value_token,
    TokenModel,
};
use crate::comments::{comments_from, comments_spec, line_comment};
use crate::error::ErrorModel;
use crate::events::{EventModel, ScalarStyle};
use crate::parser::{document_spec, join_lines, literal_block_spec};
use crate::preflight::{
    flow_scan, flow_start, forbidden_text, preflight_from, preflight_line, preflight_spec,
    FlowState,
};
use crate::receiver::{
    duplicate_from, is_bare_reserved_key, keys_of, on_event_spec, push_value_spec, receive_from, receive_spec,
    receiver_start, FrameModel, ReceiverModel,
};
use crate::text::{
    decimal, find_from, lemma_find_from, lines_from, strip_cr, lemma_leading_ws, lemma_leading_ws_unique, lemma_trailing_ws,
    lemma_trailing_ws_unique, lines, trailing_ws, trim, trim_end, trim_start,
};

verus! {

/// An event that carries a construct SYON forbids: an alias, an anchor, a
/// tag, a block scalar, or an explicit document start.
pub open spec fn forbidden_event(e: EventModel) -> bool {
    match e {
        EventModel::Alias(_) => true,
        EventModel::DocumentStart(explicit) => explicit,
        EventModel::Scalar(_, style, anchor, tagged) => anchor != 0 || tagged
            || crate::receiver::is_block_style(style),
        EventModel::MappingStart(anchor, tagged) => anchor != 0 || tagged,
        EventModel::SequenceStart(anchor, tagged) => anchor != 0 || tagged,
        _ => false,
    }
}

/// Every mapping in `v`, at any depth, has pairwise distinct keys.
pub open spec fn keys_distinct(v: ValueModel) -> bool
    decreases v,
{
    match v {
        ValueModel::Scalar(_) => true,
        ValueModel::LiteralBlock(_) => true,
        ValueModel::Mapping(es) => {
            &&& forall|i: int, j: int| 0 <= i < j < es.len() ==> es[i].key != es[j].key
            &&& entries_distinct(es)
        },
        ValueModel::Sequence(items) => items_distinct(items),
    }
}

pub open spec fn entries_distinct(es: Seq<EntryModel>) -> bool
    decreases es,
{
    if es.len() == 0 {
        true
    } else {
        entries_distinct(es.drop_last()) && keys_distinct(es.last().value)
    }
}

pub open spec fn items_distinct(vs: Seq<ValueModel>) -> bool
    decreases vs,
{
    if vs.len() == 0 {
        true
    } else {
        items_distinct(vs.drop_last()) && keys_distinct(vs.last())
    }
}

/// Every finished value that the receiver holds has distinct keys.
pub open spec fn receiver_distinct(st: ReceiverModel) -> bool {
    &&& (st.result matches Some(v) ==> keys_distinct(v))
    &&& forall|k: int|
        0 <= k < st.stack.len() ==> match #[trigger] st.stack[k] {
            FrameModel::Mapping { entries, .. } => entries_distinct(entries),
            FrameModel::Sequence { items } => items_distinct(items),
        }
}

proof fn lemma_entries_push(es: Seq<EntryModel>, e: EntryModel)
    ensures
        entries_distinct(es.push(e)) == (entries_distinct(es) && keys_distinct(e.value)),
{
    assert(es.push(e).drop_last() =~= es);
}

proof fn lemma_items_push(vs: Seq<ValueModel>, v: ValueModel)
    ensures
        items_distinct(vs.push(v)) == (items_distinct(vs) && keys_distinct(v)),
{
    assert(vs.push(v).drop_last() =~= vs);
}

proof fn lemma_push_value_distinct(st: ReceiverModel, v: ValueModel)
    requires
        receiver_distinct(st),
        keys_distinct(v),
    ensures
        receiver_distinct(push_value_spec(st, v)),
{
    let r = push_value_spec(st, v);
    if st.stack.len() > 0 {
        let n = st.stack.len() - 1;
        assert(match st.stack[n] {
            FrameModel::Mapping { entries, .. } => entries_distinct(entries),
            FrameModel::Sequence { items } => items_distinct(items),
        });
        match st.stack.last() {
            FrameModel::Mapping { entries, pending_key, pending_leading } => {
                if let Some(k) = pending_key {
                    lemma_entries_push(
                        entries,
                        EntryModel {
                            key: k,
                            value: v,
                            leading_comments: pending_leading,
                            trailing_comment: None,
                        },
                    );
                }
            },
            FrameModel::Sequence { items } => {
                lemma_items_push(items, v);
            },
        }
        assert forall|k: int| 0 <= k < r.stack.len() implies match #[trigger] r.stack[k] {
            FrameModel::Mapping { entries, .. } => entries_distinct(entries),
            FrameModel::Sequence { items } => items_distinct(items),
        } by {
            if k < n {
                assert(r.stack[k] == st.stack[k]);
            }
        }
    }
}

proof fn lemma_duplicate_from_none(keys: Seq<Seq<char>>, from: int)
    requires
        0 <= from,
        duplicate_from(keys, from) is None,
    ensures
        forall|i: int, j: int| 0 <= i < j < keys.len() && from <= j ==> keys[i] != keys[j],
    decreases keys.len() - from,
{
    if from < keys.len() {
        lemma_duplicate_from_none(keys, from + 1);
        assert forall|i: int, j: int| 0 <= i < j < keys.len() && from <= j implies keys[i]
            != keys[j] by {
            if j == from {
                if keys[i] == keys[j] {
                    assert(exists|i2: int| 0 <= i2 < from && keys[i2] == keys[from]);
                }
            }
        }
    }
}

proof fn lemma_on_event_distinct(st: ReceiverModel, ev: EventModel)
    requires
        receiver_distinct(st),
    ensures
        receiver_distinct(on_event_spec(st, ev)),
{
    if st.error is None {
        match ev {
            EventModel::Scalar(value, style, anchor, tagged) => {
                lemma_push_value_distinct(st, ValueModel::Scalar(value));
            },
            EventModel::MappingStart(..) | EventModel::SequenceStart(..) => {
                let r = on_event_spec(st, ev);
                assert(entries_distinct(Seq::<EntryModel>::empty()));
                assert(items_distinct(Seq::<ValueModel>::empty()));
                assert forall|k: int| 0 <= k < r.stack.len() implies match #[trigger] r.stack[k] {
                    FrameModel::Mapping { entries, .. } => entries_distinct(entries),
                    FrameModel::Sequence { items } => items_distinct(items),
                } by {
                    if k < st.stack.len() {
                        assert(r.stack[k] == st.stack[k]);
                    }
                }
            },
            EventModel::MappingEnd | EventModel::SequenceEnd => {
                if st.stack.len() > 0 {
                    let n = st.stack.len() - 1;
                    let popped = ReceiverModel { stack: st.stack.drop_last(), ..st };
                    assert(match st.stack[n] {
                        FrameModel::Mapping { entries, .. } => entries_distinct(entries),
                        FrameModel::Sequence { items } => items_distinct(items),
                    });
                    assert forall|k: int|
                        0 <= k < popped.stack.len() implies match #[trigger] popped.stack[k] {
                        FrameModel::Mapping { entries, .. } => entries_distinct(entries),
                        FrameModel::Sequence { items } => items_distinct(items),
                    } by {
                        assert(popped.stack[k] == st.stack[k]);
                    }
                    match st.stack.last() {
                        FrameModel::Mapping { entries, .. } => {
                            if ev is MappingEnd && duplicate_from(keys_of(entries), 0) is None {
                                lemma_duplicate_from_none(keys_of(entries), 0);
                                assert forall|i: int, j: int|
                                    0 <= i < j < entries.len() implies entries[i].key
                                    != entries[j].key by {
                                    assert(keys_of(entries)[i] == entries[i].key);
                                    assert(keys_of(entries)[j] == entries[j].key);
                                }
                                lemma_push_value_distinct(popped, ValueModel::Mapping(entries));
                            }
                        },
                        FrameModel::Sequence { items } => {
                            if ev is SequenceEnd {
                                lemma_push_value_distinct(popped, ValueModel::Sequence(items));
                            }
                        },
                    }
                }
            },
            _ => {},
        }
    }
}

proof fn lemma_receive_distinct(st: ReceiverModel, evs: Seq<EventModel>, i: int)
    requires
        receiver_distinct(st),
    ensures
        receiver_distinct(receive_from(st, evs, i)),
    decreases evs.len() - i,
{
    if 0 <= i < evs.len() {
        lemma_on_event_distinct(st, evs[i]);
        lemma_receive_distinct(on_event_spec(st, evs[i]), evs, i + 1);
    }
}

/// Duplicate keys are a parse error: whatever event stream the receiver is
/// given, the value it accepts has pairwise distinct keys in every mapping.
pub proof fn law_accepted_value_has_distinct_keys(evs: Seq<EventModel>)
    ensures
        receive_spec(evs) matches Ok(Some(v)) ==> keys_distinct(v),
{
    let st0 = receiver_start();
    assert(receiver_distinct(st0));
    lemma_receive_distinct(st0, evs, 0);
}

/// Once the receiver has recorded an error, no later event changes its state:
/// all errors are fatal and the first one is reported.
pub proof fn law_first_error_is_final(st: ReceiverModel, evs: Seq<EventModel>, i: int)
    requires
        st.error is Some,
    ensures
        receive_from(st, evs, i) == st,
    decreases evs.len() - i,
{
    if 0 <= i < evs.len() {
        law_first_error_is_final(st, evs, i + 1);
    }
}

proof fn lemma_error_reaches(st: ReceiverModel, evs: Seq<EventModel>, j: int, i: int)
    requires
        0 <= j <= i < evs.len(),
        forbidden_event(evs[i]),
    ensures
        receive_from(st, evs, j).error is Some,
    decreases i - j,
{
    if st.error is Some {
        law_first_error_is_final(st, evs, j);
    } else if j < i {
        lemma_error_reaches(on_event_spec(st, evs[j]), evs, j + 1, i);
    } else {
        let st1 = on_event_spec(st, evs[j]);
        assert(st1.error is Some);
        law_first_error_is_final(st1, evs, j + 1);
    }
}

/// Anchors, aliases, tags, block scalars and `---` are forbidden: an event
/// stream with any of them is rejected.
pub proof fn law_forbidden_event_rejected(evs: Seq<EventModel>, i: int)
    requires
        0 <= i < evs.len(),
        forbidden_event(evs[i]),
    ensures
        receive_spec(evs) is Err,
{
    lemma_error_reaches(receiver_start(), evs, 0, i);
}

proof fn lemma_receive_split(st: ReceiverModel, evs: Seq<EventModel>, j: int, i: int)
    requires
        0 <= j <= i <= evs.len(),
    ensures
        receive_from(st, evs, j) == receive_from(receive_from(st, evs.take(i), j), evs, i),
    decreases i - j,
{
    if j < i {
        assert(evs.take(i)[j] == evs[j]);
        lemma_receive_split(on_event_spec(st, evs[j]), evs, j + 1, i);
    }
}

/// `true`, `false` and `null` are reserved: when the events before `evs[i]`
/// leave a mapping waiting for its key and `evs[i]` is that reserved word as
/// a plain (unquoted) scalar, the stream is rejected.
pub proof fn law_bare_reserved_key_rejected(evs: Seq<EventModel>, i: int)
    requires
        0 <= i < evs.len(),
        evs[i] matches EventModel::Scalar(w, style, _, _) && is_bare_reserved_key(
            receive_from(receiver_start(), evs.take(i), 0),
            w,
            style,
        ),
    ensures
        receive_spec(evs) is Err,
{
    let s = receive_from(receiver_start(), evs.take(i), 0);
    lemma_receive_split(receiver_start(), evs, 0, i);
    if s.error is Some {
        law_first_error_is_final(s, evs, i);
    } else {
        let s1 = on_event_spec(s, evs[i]);
        assert(s1.error is Some);
        law_first_error_is_final(s1, evs, i + 1);
    }
}

/// There is no implicit typing: a document that is one plain, untagged,
/// unanchored scalar is that scalar's text, whatever the text says (`42`, `true`,
/// `null`, …).
pub proof fn law_scalar_stays_text(text: Seq<char>)
    ensures
        receive_spec(
            seq![
                EventModel::StreamStart,
                EventModel::DocumentStart(false),
                EventModel::Scalar(text, ScalarStyle::Plain, 0, false),
                EventModel::DocumentEnd,
                EventModel::StreamEnd,
            ],
        ) == Ok::<Option<ValueModel>, ErrorModel>(Some(ValueModel::Scalar(text))),
{
    let evs = seq![
        EventModel::StreamStart,
        EventModel::DocumentStart(false),
        EventModel::Scalar(text, ScalarStyle::Plain, 0, false),
        EventModel::DocumentEnd,
        EventModel::StreamEnd,
    ];
    let s0 = receiver_start();
    let s1 = on_event_spec(s0, evs[0]);
    let s2 = on_event_spec(s1, evs[1]);
    let s3 = on_event_spec(s2, evs[2]);
    let s4 = on_event_spec(s3, evs[3]);
    let s5 = on_event_spec(s4, evs[4]);
    assert(receive_from(s5, evs, 5) == s5);
    assert(receive_from(s4, evs, 4) == s5);
    assert(receive_from(s3, evs, 3) == s5);
    assert(receive_from(s2, evs, 2) == s5);
    assert(receive_from(s1, evs, 1) == s5);
    assert(receive_from(s0, evs, 0) == s5);
}

// ---------------------------------------------------------------------------
// Whole documents
// ---------------------------------------------------------------------------

/// A literal block is verbatim and uninterpreted: when the trimmed source is
/// a `[[[ … ]]]` block, the document is that block with no comments, whatever
/// the YAML parser would make of the source.
pub proof fn law_literal_block_ignores_yaml(
    input: Seq<char>,
    events: Result<Seq<EventModel>, Seq<char>>,
    body: Seq<char>,
)
    requires
        literal_block_spec(trim(input)) == Some(body),
    ensures
        document_spec(input, events) == Ok::<DocumentModel, ErrorModel>(
            DocumentModel { body: ValueModel::LiteralBlock(body), trailing_comments: Seq::empty() },
        ),
{
}

/// Whether `m` starts with `p`.
pub open spec fn starts_with(m: Seq<char>, p: Seq<char>) -> bool {
    p.len() <= m.len() && m.take(p.len() as int) == p
}

proof fn lemma_line_error(l: Seq<char>, n: nat)
    ensures
        preflight_line(l, n) matches Some(e) ==> {
            &&& forbidden_text(trim_start(l))
            &&& e matches ErrorModel::Forbidden(m) && starts_with(m, "line "@ + decimal(n))
        },
{
    let p = "line "@ + decimal(n);
    if let Some(e) = preflight_line(l, n) {
        if let ErrorModel::Forbidden(m) = e {
            assert(m.take(p.len() as int) =~= p);
        }
    }
}

proof fn lemma_preflight_from_err(ls: Seq<Seq<char>>, i: int)
    requires
        0 <= i,
    ensures
        preflight_from(ls, i) matches Err(e) ==> exists|k: int|
            i <= k < ls.len() && #[trigger] preflight_line(ls[k], (k + 1) as nat) == Some(e),
    decreases ls.len() - i,
{
    if i < ls.len() && preflight_line(ls[i], (i + 1) as nat) is None {
        lemma_preflight_from_err(ls, i + 1);
    }
}

/// A preflight error is always `Forbidden`, its message starts with
/// `line <n>`, and line `n` (counted from 1), left-trimmed, is `---` or `...`,
/// a `?` key, or holds a flow collection first in a value.
pub proof fn law_preflight_error_names_line(input: Seq<char>)
    ensures
        preflight_spec(input) matches Err(e) ==> exists|n: int|
            1 <= n <= lines(input).len() && #[trigger] forbidden_text(
                trim_start(lines(input)[n - 1]),
            ) && (e matches ErrorModel::Forbidden(m) && starts_with(
                m,
                "line "@ + decimal(n as nat),
            )),
{
    let ls = lines(input);
    lemma_preflight_from_err(ls, 0);
    if let Err(e) = preflight_spec(input) {
        let k = choose|k: int|
            0 <= k < ls.len() && #[trigger] preflight_line(ls[k], (k + 1) as nat) == Some(e);
        lemma_line_error(ls[k], (k + 1) as nat);
        assert(forbidden_text(trim_start(lines(input)[(k + 1) - 1])));
    }
}

/// Every line that, left-trimmed, is `---` or `...`, a `?` key, or holds a
/// flow collection first in a value makes the preflight scan fail.
pub proof fn law_preflight_rejects_forbidden_line(input: Seq<char>, i: int)
    requires
        0 <= i < lines(input).len(),
        forbidden_text(trim_start(lines(input)[i])),
    ensures
        preflight_spec(input) is Err,
{
    lemma_preflight_reaches(lines(input), 0, i);
}

proof fn lemma_preflight_reaches(ls: Seq<Seq<char>>, j: int, i: int)
    requires
        0 <= j <= i < ls.len(),
        preflight_line(ls[i], (i + 1) as nat) is Some || forbidden_text(trim_start(ls[i])),
    ensures
        preflight_from(ls, j) is Err,
    decreases i - j,
{
    if j < i && preflight_line(ls[j], (j + 1) as nat) is None {
        lemma_preflight_reaches(ls, j + 1, i);
    }
}

/// `---`, `...`, `?` keys and flow collections are forbidden: unless the
/// source is a literal block, a line that holds any of them makes the
/// document an error.
pub proof fn law_forbidden_line_rejected(
    input: Seq<char>,
    events: Result<Seq<EventModel>, Seq<char>>,
    i: int,
)
    requires
        0 <= i < lines(input).len(),
        forbidden_text(trim_start(lines(input)[i])),
        literal_block_spec(trim(input)) is None,
    ensures
        document_spec(input, events) is Err,
{
    law_preflight_rejects_forbidden_line(input, i);
}

/// Unless the source is a literal block, an event stream with an anchor, an
/// alias, a tag or `---` makes the document an error.
pub proof fn law_forbidden_event_rejects_document(
    input: Seq<char>,
    evs: Seq<EventModel>,
    i: int,
)
    requires
        0 <= i < evs.len(),
        forbidden_event(evs[i]),
        literal_block_spec(trim(input)) is None,
    ensures
        document_spec(input, Ok(evs)) is Err,
{
    law_forbidden_event_rejected(evs, i);
}

/// Unless the source is a literal block, a plain reserved word arriving where
/// a mapping waits for its key makes the document an error.
pub proof fn law_bare_reserved_key_rejects_document(
    input: Seq<char>,
    evs: Seq<EventModel>,
    i: int,
)
    requires
        0 <= i < evs.len(),
        evs[i] matches EventModel::Scalar(w, style, _, _) && is_bare_reserved_key(
            receive_from(receiver_start(), evs.take(i), 0),
            w,
            style,
        ),
        literal_block_spec(trim(input)) is None,
    ensures
        document_spec(input, Ok(evs)) is Err,
{
    law_bare_reserved_key_rejected(evs, i);
}

/// Every mapping of a parsed document has pairwise distinct keys.
pub proof fn law_document_keys_distinct(
    input: Seq<char>,
    events: Result<Seq<EventModel>, Seq<char>>,
)
    ensures
        document_spec(input, events) matches Ok(d) ==> keys_distinct(d.body),
{
    if let Ok(evs) = events {
        law_accepted_value_has_distinct_keys(evs);
    }
    assert(keys_distinct(ValueModel::Mapping(Seq::empty())));
}

// ---------------------------------------------------------------------------
// Comments
// ---------------------------------------------------------------------------

/// The spacing rule: a comment starts only at a `#` that is preceded by white
/// space or the line start and followed by white space or the line end.
pub proof fn law_comment_spacing(l: Seq<char>, i: int, in_dq: bool, escape_next: bool)
    requires
        0 <= i,
    ensures
        comment_scan(l, i, in_dq, escape_next) matches Some(j) ==> {
            &&& i <= j < l.len()
            &&& l[j] == '#'
            &&& j == 0 || l[j - 1] == ' ' || l[j - 1] == '\t'
            &&& j + 1 == l.len() || l[j + 1] == ' ' || l[j + 1] == '\t'
        },
    decreases l.len() - i,
{
    if i < l.len() {
        law_comment_spacing(l, i + 1, true, false);
        law_comment_spacing(l, i + 1, false, false);
        law_comment_spacing(l, i + 1, true, true);
        law_comment_spacing(l, i + 1, false, true);
    }
}

/// A mapping key ends at a `:` that is outside double quotes and followed by
/// a space or the end of the line.
pub proof fn law_key_colon_spacing(s: Seq<char>, i: int, in_quotes: bool)
    requires
        0 <= i,
    ensures
        colon_scan(s, i, in_quotes) matches Some(j) ==> {
            &&& i <= j < s.len()
            &&& s[j] == ':'
            &&& j + 1 == s.len() || s[j + 1] == ' '
        },
    decreases s.len() - i,
{
    if i < s.len() {
        law_key_colon_spacing(s, i + 1, true);
        law_key_colon_spacing(s, i + 1, false);
    }
}

// ---------------------------------------------------------------------------
// Keys and scalars of the lexer
// ---------------------------------------------------------------------------

/// Number of double quotes in `s`.
pub open spec fn quotes_in(s: Seq<char>) -> nat
    decreases s.len(),
{
    if s.len() == 0 {
        0
    } else {
        quotes_in(s.drop_last()) + if s.last() == '"' {
            1nat
        } else {
            0nat
        }
    }
}

/// Whether `s[i]` is a `:` preceded by an even number of double quotes and
/// followed by a space or the end of `s`.
pub open spec fn is_key_colon_at(s: Seq<char>, i: int) -> bool {
    &&& 0 <= i < s.len()
    &&& s[i] == ':'
    &&& quotes_in(s.take(i)) % 2 == 0
    &&& i + 1 == s.len() || s[i + 1] == ' '
}

proof fn lemma_colon_scan_parity(s: Seq<char>, i: int, in_quotes: bool)
    requires
        0 <= i <= s.len(),
        in_quotes == (quotes_in(s.take(i)) % 2 == 1),
    ensures
        colon_scan(s, i, in_quotes) matches Some(j) ==> i <= j && is_key_colon_at(s, j) && forall|
            k: int,
        | i <= k < j ==> !is_key_colon_at(s, k),
        colon_scan(s, i, in_quotes) is None ==> forall|k: int| i <= k < s.len() ==> !is_key_colon_at(
            s,
            k,
        ),
    decreases s.len() - i,
{
    if i < s.len() {
        assert(s.take(i + 1).drop_last() =~= s.take(i));
        let q = quotes_in(s.take(i + 1)) % 2 == 1;
        lemma_colon_scan_parity(s, i + 1, q);
    }
}

/// The key colon is the first `:` outside double quotes, that is, preceded
/// by an even number of `"`, and followed by a space or the end of the text.
pub proof fn law_key_colon_is_first_unquoted_colon(s: Seq<char>)
    ensures
        key_colon(s) matches Some(i) ==> is_key_colon_at(s, i) && forall|k: int|
            0 <= k < i ==> !is_key_colon_at(s, k),
        key_colon(s) is None ==> forall|k: int| 0 <= k < s.len() ==> !is_key_colon_at(s, k),
{
    assert(s.take(0) =~= Seq::<char>::empty());
    lemma_colon_scan_parity(s, 0, false);
}

/// The lexer's INTEGER syntax: `-?[0-9]+`.
pub open spec fn is_integer_text(s: Seq<char>) -> bool {
    let d = if s.len() > 0 && s[0] == '-' {
        s.drop_first()
    } else {
        s
    };
    d.len() > 0 && all_digits(d)
}

/// The cases of a scalar token: `null` and `~` are `Null`; `true` and `false`
/// are `Bool`; a double-quoted scalar is its decoded content; an `Integer`
/// spells `-?[0-9]+` and has that value; a `Float` keeps its text, which
/// spells `-?[0-9]+.[0-9]+`; everything else is an `Ident` of the text.
pub proof fn law_value_token_cases(s: Seq<char>)
    ensures
        s == seq!['n', 'u', 'l', 'l'] || s == seq!['~'] ==> value_token(s) == TokenModel::Null,
        s == seq!['t', 'r', 'u', 'e'] ==> value_token(s) == TokenModel::Bool(true),
        s == seq!['f', 'a', 'l', 's', 'e'] ==> value_token(s) == TokenModel::Bool(false),
        value_token(s) matches TokenModel::QuotedStr(q) ==> s.len() >= 2 && s[0] == '"'
            && s.last() == '"' && q == unescape_spec(s.subrange(1, s.len() - 1)),
        value_token(s) matches TokenModel::Integer(i) ==> is_integer_text(s) && i == (if s[0]
            == '-' {
            -digits_value(s.drop_first())
        } else {
            digits_value(s)
        }),
        value_token(s) matches TokenModel::Float(f) ==> f == s && is_float_literal(s),
        value_token(s) matches TokenModel::Ident(t) ==> t == s && !is_float_literal(s),
{
    if s == seq!['~'] {
        assert(s != seq!['n', 'u', 'l', 'l']);
    }
    if s == seq!['t', 'r', 'u', 'e'] {
        assert(s[0] != 'n' && s[0] != '~');
        assert(s != seq!['n', 'u', 'l', 'l'] && s != seq!['~']);
    }
    if s == seq!['f', 'a', 'l', 's', 'e'] {
        assert(s[0] != 'n' && s[0] != '~' && s[0] != 't');
        assert(s != seq!['n', 'u', 'l', 'l'] && s != seq!['~'] && s != seq!['t', 'r', 'u', 'e']);
    }
}

// ---------------------------------------------------------------------------
// Comments, declaratively
// ---------------------------------------------------------------------------

/// Whether position `k` of line `l` lies inside double quotes, and whether
/// the character at `k` is escaped by a `\` inside quotes, after reading
/// `l[..k]`.
pub open spec fn quote_state(l: Seq<char>, k: int) -> (bool, bool)
    decreases k,
{
    if k <= 0 {
        (false, false)
    } else {
        let (q, e) = quote_state(l, k - 1);
        let c = l[k - 1];
        if e {
            (q, false)
        } else if c == '\\' && q {
            (q, true)
        } else if c == '"' {
            (!q, false)
        } else {
            (q, false)
        }
    }
}

/// Whether `l[k]` is a `#` that starts a comment: outside quotes, not
/// escaped, preceded by a space, a tab or the line start, and followed by a
/// space, a tab or the line end.
pub open spec fn is_comment_hash(l: Seq<char>, k: int) -> bool {
    &&& 0 <= k < l.len()
    &&& l[k] == '#'
    &&& !quote_state(l, k).0 && !quote_state(l, k).1
    &&& k == 0 || l[k - 1] == ' ' || l[k - 1] == '\t'
    &&& k + 1 == l.len() || l[k + 1] == ' ' || l[k + 1] == '\t'
}

proof fn lemma_comment_scan_state(l: Seq<char>, i: int)
    requires
        0 <= i <= l.len(),
    ensures
        comment_scan(l, i, quote_state(l, i).0, quote_state(l, i).1) matches Some(j) ==> i <= j
            && is_comment_hash(l, j) && forall|k: int| i <= k < j ==> !is_comment_hash(l, k),
        comment_scan(l, i, quote_state(l, i).0, quote_state(l, i).1) is None ==> forall|k: int|
            i <= k < l.len() ==> !is_comment_hash(l, k),
    decreases l.len() - i,
{
    if i < l.len() {
        lemma_comment_scan_state(l, i + 1);
    }
}

/// A line's comment is the text after its first comment `#`, trimmed; a line
/// without such a `#` has none.
pub proof fn law_line_comment_characterised(l: Seq<char>)
    ensures
        line_comment(l) matches Some(t) ==> exists|j: int|
            #[trigger] is_comment_hash(l, j) && (forall|k: int| 0 <= k < j ==> !is_comment_hash(l, k))
                && t == trim(l.skip(j + 1)),
        line_comment(l) is None ==> forall|k: int| 0 <= k < l.len() ==> !is_comment_hash(l, k),
{
    lemma_comment_scan_state(l, 0);
}

/// Trimming twice trims nothing more.
pub proof fn lemma_trim_idempotent(x: Seq<char>)
    ensures
        trim(trim(x)) == trim(x),
{
    let y = trim_start(x);
    lemma_leading_ws(x);
    lemma_trailing_ws(y);
    let t = trim_end(y);
    if t.len() > 0 {
        assert(t[0] == y[0]);
        assert(t[t.len() - 1] == y[y.len() - trailing_ws(y) - 1]);
        lemma_leading_ws_unique(t, 0);
        assert(trim_start(t) =~= t);
        lemma_trailing_ws_unique(t, 0);
        assert(trim_end(t) =~= t);
    } else {
        assert(trim_start(t) =~= t);
        assert(trim_end(t) =~= t);
    }
}

proof fn lemma_comments_from(ls: Seq<Seq<char>>, i: int)
    requires
        0 <= i,
    ensures
        forall|k: int|
            0 <= k < comments_from(ls, i).len() ==> i < (#[trigger] comments_from(ls, i)[k]).0
                <= ls.len() && trim(comments_from(ls, i)[k].1) == comments_from(ls, i)[k].1,
        forall|a: int, b: int|
            0 <= a < b < comments_from(ls, i).len() ==> comments_from(ls, i)[a].0 < comments_from(
                ls,
                i,
            )[b].0,
    decreases ls.len() - i,
{
    if i < ls.len() {
        lemma_comments_from(ls, i + 1);
        if let Some(t) = line_comment(ls[i]) {
            if let Some(j) = comment_scan(ls[i], 0, false, false) {
                lemma_trim_idempotent(ls[i].skip(j + 1));
            }
            let c = comments_from(ls, i);
            let rest = comments_from(ls, i + 1);
            assert(c == seq![((i + 1) as nat, t)] + rest);
            assert(c[0] == ((i + 1) as nat, t));
            assert forall|k: int| 0 <= k < c.len() implies i < (#[trigger] c[k]).0 <= ls.len()
                && trim(c[k].1) == c[k].1 by {
                if k > 0 {
                    assert(c[k] == rest[k - 1]);
                }
            }
            assert forall|a: int, b: int| 0 <= a < b < c.len() implies c[a].0 < c[b].0 by {
                assert(c[b] == rest[b - 1]);
                if a > 0 {
                    assert(c[a] == rest[a - 1]);
                }
            }
        } else {
            assert(comments_from(ls, i) == comments_from(ls, i + 1));
        }
    }
}

/// The comments of a source come in the order of their lines, each with its
/// line number (from 1 to the number of lines) and its text trimmed.
pub proof fn law_comments_ordered_and_trimmed(input: Seq<char>)
    ensures
        forall|k: int|
            0 <= k < comments_spec(input).len() ==> 1 <= (#[trigger] comments_spec(input)[k]).0
                <= lines(input).len() && trim(comments_spec(input)[k].1) == comments_spec(
                input,
            )[k].1,
        forall|a: int, b: int|
            0 <= a < b < comments_spec(input).len() ==> comments_spec(input)[a].0 < comments_spec(
                input,
            )[b].0,
{
    lemma_comments_from(lines(input), 0);
}

/// A parsed document that is not a literal block carries every comment of
/// its source, in order.
pub proof fn law_document_carries_every_comment(
    input: Seq<char>,
    events: Result<Seq<EventModel>, Seq<char>>,
)
    requires
        literal_block_spec(trim(input)) is None,
    ensures
        document_spec(input, events) matches Ok(d) ==> d.trailing_comments == comments_spec(
            input,
        ).map_values(|c: (nat, Seq<char>)| c.1),
{
}

// ---------------------------------------------------------------------------
// JSON
// ---------------------------------------------------------------------------

/// The text that `to_json` writes is JSON that reads back as the value, at
/// every indentation level: a scalar or a literal block as a string, a
/// sequence as an array of its items' values, a mapping as an object whose
/// members are the entries' keys and values, in order.
pub proof fn law_json_reads_back(v: ValueModel, d: nat)
    ensures
        json_read(value_json(v, d)) == Some(json_of(v)),
{
    let t = value_json(v, d);
    lemma_value_json_start(v, d);
    assert(skip_ws(t) == t);
    lemma_read_value(v, d, Seq::empty());
    assert(t + Seq::<char>::empty() =~= t);
    assert(skip_ws(Seq::<char>::empty()) == Seq::<char>::empty());
}

// ---------------------------------------------------------------------------
// Literal blocks, verbatim
// ---------------------------------------------------------------------------

/// The pieces of `s` between its `\n` characters, in order: one more piece
/// than `s` has `\n`, empty pieces included.
pub open spec fn split_nl(s: Seq<char>) -> Seq<Seq<char>>
    decreases s.len(),
{
    let k = find_from(s, 0, '\n');
    if k >= s.len() {
        seq![s]
    } else {
        proof {
            lemma_find_from(s, 0, '\n');
        }
        seq![s.take(k)] + split_nl(s.skip(k + 1))
    }
}

pub open spec fn has_no_newline(l: Seq<char>) -> bool {
    forall|j: int| 0 <= j < l.len() ==> l[j] != '\n'
}

proof fn lemma_lines_from_no_newline(s: Seq<char>, from: int)
    ensures
        forall|i: int|
            0 <= i < lines_from(s, from).len() ==> has_no_newline(#[trigger] lines_from(s, from)[i]),
    decreases s.len() - from,
{
    if from >= s.len() || from < 0 {
    } else {
        lemma_find_from(s, from, '\n');
        let k = find_from(s, from, '\n');
        if k >= s.len() {
            let l = s.subrange(from, s.len() as int);
            assert(has_no_newline(l)) by {
                assert forall|j: int| 0 <= j < l.len() implies l[j] != '\n' by {
                    assert(l[j] == s[from + j]);
                }
            }
            assert(lines_from(s, from) == seq![l]);
        } else {
            lemma_lines_from_no_newline(s, k + 1);
            let l = s.subrange(from, k);
            assert(has_no_newline(strip_cr(l))) by {
                assert forall|j: int| 0 <= j < strip_cr(l).len() implies strip_cr(l)[j] != '\n' by {
                    assert(strip_cr(l)[j] == l[j]);
                    assert(l[j] == s[from + j]);
                }
            }
            let rest = lines_from(s, k + 1);
            assert(lines_from(s, from) == seq![strip_cr(l)] + rest);
            assert forall|i: int|
                0 <= i < lines_from(s, from).len() implies has_no_newline(
                #[trigger] lines_from(s, from)[i],
            ) by {
                if i > 0 {
                    assert(lines_from(s, from)[i] == rest[i - 1]);
                }
            }
        }
    }
}

proof fn lemma_find_prefix(a: Seq<char>, x: Seq<char>, from: int, c: char)
    requires
        0 <= from <= a.len(),
    ensures
        find_from(a, from, c) < a.len() ==> find_from(a + x, from, c) == find_from(a, from, c),
        find_from(a, from, c) >= a.len() ==> find_from(a + x, from, c) == find_from(
            a + x,
            a.len() as int,
            c,
        ),
    decreases a.len() - from,
{
    if from < a.len() {
        assert((a + x)[from] == a[from]);
        if a[from] != c {
            lemma_find_prefix(a, x, from + 1, c);
        }
    }
}

proof fn lemma_split_single(l: Seq<char>)
    requires
        has_no_newline(l),
    ensures
        split_nl(l) == seq![l],
{
    lemma_find_from(l, 0, '\n');
}

proof fn lemma_split_append(a: Seq<char>, l: Seq<char>)
    requires
        has_no_newline(l),
    ensures
        split_nl(a + seq!['\n'] + l) == split_nl(a).push(l),
    decreases a.len(),
{
    let t = a + seq!['\n'] + l;
    let x = seq!['\n'] + l;
    assert(t =~= a + x);
    lemma_find_from(a, 0, '\n');
    lemma_find_prefix(a, x, 0, '\n');
    lemma_find_from(t, 0, '\n');
    let k = find_from(a, 0, '\n');
    if k >= a.len() {
        assert(t[a.len() as int] == '\n');
        assert(find_from(t, a.len() as int, '\n') == a.len());
        assert(t.take(a.len() as int) =~= a);
        assert(t.skip(a.len() as int + 1) =~= l);
        lemma_split_single(l);
        assert(has_no_newline(a));
        lemma_split_single(a);
        assert(split_nl(t) =~= split_nl(a).push(l));
    } else {
        let r = a.skip(k + 1);
        assert(t.take(k) =~= a.take(k));
        assert(t.skip(k + 1) =~= r + seq!['\n'] + l);
        lemma_split_append(r, l);
        assert(split_nl(t) =~= split_nl(a).push(l));
    }
}

proof fn lemma_split_join(ls: Seq<Seq<char>>)
    requires
        ls.len() >= 1,
        forall|i: int| 0 <= i < ls.len() ==> has_no_newline(#[trigger] ls[i]),
    ensures
        split_nl(join_lines(ls)) == ls,
    decreases ls.len(),
{
    if ls.len() == 1 {
        lemma_split_single(ls[0]);
        assert(seq![ls[0]] =~= ls);
    } else {
        let a = ls.drop_last();
        assert forall|i: int| 0 <= i < a.len() implies has_no_newline(#[trigger] a[i]) by {
            assert(a[i] == ls[i]);
        }
        lemma_split_join(a);
        assert(has_no_newline(ls[ls.len() - 1]));
        lemma_split_append(join_lines(a), ls.last());
        assert(a.push(ls.last()) =~= ls);
    }
}

/// A literal block is verbatim: its body is exactly the text between the
/// fence lines.  Split at `\n`, the body gives back every inner line in
/// order, empty ones included; with no inner line the body is empty.
pub proof fn law_literal_block_verbatim(input: Seq<char>)
    ensures
        literal_block_spec(input) matches Some(b) ==> {
            let ls = lines(input);
            let inner = ls.subrange(1, ls.len() - 1);
            &&& inner.len() >= 1 ==> split_nl(b) == inner
            &&& inner.len() == 0 ==> b.len() == 0
        },
{
    let ls = lines(input);
    if let Some(b) = literal_block_spec(input) {
        let inner = ls.subrange(1, ls.len() - 1);
        lemma_lines_from_no_newline(input, 0);
        if inner.len() >= 1 {
            assert forall|i: int| 0 <= i < inner.len() implies has_no_newline(#[trigger] inner[i]) by {
                assert(inner[i] == ls[i + 1]);
            }
            lemma_split_join(inner);
        }
    }
}

// ---------------------------------------------------------------------------
// Scalars: only `true` and `false` are booleans
// ---------------------------------------------------------------------------

pub open spec fn is_ascii_letter(c: char) -> bool {
    ('a' <= c <= 'z') || ('A' <= c <= 'Z')
}

/// Booleans are spelled `true` and `false` only, and null `null` or `~`:
/// any other word of letters (`yes`, `no`, `on`, `off`, …) stays an `Ident`
/// of its text.
pub proof fn law_only_true_false_are_bool(s: Seq<char>)
    ensures
        value_token(s) matches TokenModel::Bool(b) ==> (b && s == seq!['t', 'r', 'u', 'e']) || (!b
            && s == seq!['f', 'a', 'l', 's', 'e']),
        value_token(s) is Null ==> s == seq!['n', 'u', 'l', 'l'] || s == seq!['~'],
        s.len() > 0 && (forall|i: int| 0 <= i < s.len() ==> is_ascii_letter(#[trigger] s[i])) && s
            != seq!['t', 'r', 'u', 'e'] && s != seq!['f', 'a', 'l', 's', 'e'] && s != seq![
            'n',
            'u',
            'l',
            'l',
        ] ==> value_token(s) == TokenModel::Ident(s),
{
    if s.len() > 0 && (forall|i: int| 0 <= i < s.len() ==> is_ascii_letter(#[trigger] s[i])) {
        assert(is_ascii_letter(s[0]));
        assert(s[0] != '"' && s[0] != '-' && s[0] != '~');
        assert(!crate::lexer::is_digit(s[0]));
        assert(!all_digits(s));
        assert(crate::lexer::digit_run(s, 0) == 0);
        assert(s != seq!['~']) by {
            if s == seq!['~'] {
                assert(s[0] == '~');
            }
        }
    }
}

// ---------------------------------------------------------------------------
// The receiver errs only for a reason
// ---------------------------------------------------------------------------

pub open spec fn is_literal_reserved(w: Seq<char>) -> bool {
    ||| w == seq!['t', 'r', 'u', 'e']
    ||| w == seq!['f', 'a', 'l', 's', 'e']
    ||| w == seq!['n', 'u', 'l', 'l']
}

/// Whether the innermost open collection is a mapping waiting for a key.
pub open spec fn top_awaits_key(st: ReceiverModel) -> bool {
    st.stack.len() > 0 && match st.stack.last() {
        FrameModel::Mapping { pending_key, .. } => pending_key is None,
        _ => false,
    }
}

/// Whether the innermost open collection is a mapping two of whose keys are equal.
pub open spec fn top_has_equal_keys(st: ReceiverModel) -> bool {
    st.stack.len() > 0 && match st.stack.last() {
        FrameModel::Mapping { entries, .. } => exists|i: int, j: int|
            0 <= i < j < entries.len() && #[trigger] entries[i].key == #[trigger] entries[j].key,
        _ => false,
    }
}

/// Whether the collection around the innermost one is a mapping waiting for a key.
pub open spec fn outer_awaits_key(st: ReceiverModel) -> bool {
    st.stack.len() >= 2 && match st.stack[st.stack.len() - 2] {
        FrameModel::Mapping { pending_key, .. } => pending_key is None,
        _ => false,
    }
}

/// Why event `ev` may be refused in state `st`: it carries a forbidden
/// construct; it is `true`, `false` or `null` written plain where a mapping
/// waits for its key; it closes a mapping two of whose keys are equal; or it
/// closes a collection that would become a mapping's key.
pub open spec fn refusal_reason(st: ReceiverModel, ev: EventModel) -> bool {
    ||| forbidden_event(ev)
    ||| match ev {
        EventModel::Scalar(w, style, _, _) => style == ScalarStyle::Plain && is_literal_reserved(w)
            && top_awaits_key(st),
        EventModel::MappingEnd => top_has_equal_keys(st) || outer_awaits_key(st),
        EventModel::SequenceEnd => outer_awaits_key(st),
        _ => false,
    }
}

proof fn lemma_duplicate_witness(keys: Seq<Seq<char>>, from: int)
    requires
        0 <= from,
    ensures
        duplicate_from(keys, from) matches Some(j) ==> j < keys.len() && exists|i: int|
            0 <= i < j && keys[i] == keys[j],
    decreases keys.len() - from,
{
    if from < keys.len() && !(exists|i: int| 0 <= i < from && keys[i] == keys[from]) {
        lemma_duplicate_witness(keys, from + 1);
    }
}

/// Completeness of the receiver: an event refused in an error-free state
/// always has one of the reasons above.  Nested sequences, mappings in
/// sequences, quoted keys and plain keys other than `true`, `false`, `null`
/// are never refused.
pub proof fn law_refusal_has_reason(st: ReceiverModel, ev: EventModel)
    requires
        st.error is None,
        on_event_spec(st, ev).error is Some,
    ensures
        refusal_reason(st, ev),
{
    let n = st.stack.len();
    match ev {
        EventModel::Scalar(w, style, anchor, tagged) => {
            if anchor == 0 && !tagged && !crate::receiver::is_block_style(style) {
                if !is_bare_reserved_key(st, w, style) {
                    assert(push_value_spec(st, ValueModel::Scalar(w)).error is None);
                }
            }
        },
        EventModel::MappingEnd => {
            if n > 0 {
                let popped = ReceiverModel { stack: st.stack.drop_last(), ..st };
                if let FrameModel::Mapping { entries, .. } = st.stack.last() {
                    lemma_duplicate_witness(keys_of(entries), 0);
                    if let Some(j) = duplicate_from(keys_of(entries), 0) {
                        let i = choose|i: int| 0 <= i < j && keys_of(entries)[i] == keys_of(
                            entries,
                        )[j];
                        assert(keys_of(entries)[i] == entries[i].key);
                        assert(keys_of(entries)[j] == entries[j].key);
                    } else {
                        if popped.stack.len() > 0 {
                            assert(popped.stack.last() == st.stack[n - 2]);
                        }
                    }
                }
            }
        },
        EventModel::SequenceEnd => {
            if n > 0 {
                let popped = ReceiverModel { stack: st.stack.drop_last(), ..st };
                if popped.stack.len() > 0 {
                    assert(popped.stack.last() == st.stack[n - 2]);
                }
            }
        },
        _ => {},
    }
}

proof fn lemma_first_refusal(st: ReceiverModel, evs: Seq<EventModel>, j: int)
    requires
        0 <= j,
        st.error is None,
        receive_from(st, evs, j).error is Some,
    ensures
        exists|k: int|
            j <= k < evs.len() && receive_from(st, evs.take(k), j).error is None && on_event_spec(
                #[trigger] receive_from(st, evs.take(k), j),
                evs[k],
            ).error is Some,
    decreases evs.len() - j,
{
    if j >= evs.len() {
    } else {
        let st1 = on_event_spec(st, evs[j]);
        if st1.error is Some {
            assert(receive_from(st, evs.take(j), j) == st);
            assert(on_event_spec(receive_from(st, evs.take(j), j), evs[j]).error is Some);
        } else {
            lemma_first_refusal(st1, evs, j + 1);
            let k = choose|k: int|
                j + 1 <= k < evs.len() && receive_from(st1, evs.take(k), j + 1).error is None
                    && on_event_spec(#[trigger] receive_from(st1, evs.take(k), j + 1), evs[k]).error is Some;
            assert(evs.take(k)[j] == evs[j]);
            assert(receive_from(st, evs.take(k), j) == receive_from(st1, evs.take(k), j + 1));
        }
    }
}

/// Completeness of the receiver over whole streams: a rejected stream has an
/// event, `evs[k]`, that is refused for one of the reasons of
/// `refusal_reason` in the state the events before it leave.
pub proof fn law_rejected_stream_has_reason(evs: Seq<EventModel>)
    ensures
        receive_spec(evs) is Err ==> exists|k: int|
            0 <= k < evs.len() && refusal_reason(
                #[trigger] receive_from(receiver_start(), evs.take(k), 0),
                evs[k],
            ),
{
    if receive_spec(evs) is Err {
        lemma_first_refusal(receiver_start(), evs, 0);
        let k = choose|k: int|
            0 <= k < evs.len() && receive_from(receiver_start(), evs.take(k), 0).error is None
                && on_event_spec(#[trigger] receive_from(receiver_start(), evs.take(k), 0), evs[k]).error is Some;
        law_refusal_has_reason(receive_from(receiver_start(), evs.take(k), 0), evs[k]);
    }
}

/// Where an accepted scalar goes: with nothing open it is the top-level
/// value; an open sequence gets it as its last item; an open mapping with a
/// pending key gets the entry (key, scalar); an open mapping without one
/// takes the scalar as its pending key.  Nothing else changes.
pub proof fn law_scalar_placement(st: ReceiverModel, w: Seq<char>, style: ScalarStyle)
    requires
        st.error is None,
        !crate::receiver::is_block_style(style),
        !(style == ScalarStyle::Plain && is_literal_reserved(w) && top_awaits_key(st)),
    ensures
        ({
            let r = on_event_spec(st, EventModel::Scalar(w, style, 0, false));
            let rest = st.stack.drop_last();
            &&& st.stack.len() == 0 ==> r == ReceiverModel { result: Some(ValueModel::Scalar(w)), ..st }
            &&& st.stack.len() > 0 ==> (st.stack.last() matches FrameModel::Sequence { items } ==> r
                == ReceiverModel {
                stack: rest.push(FrameModel::Sequence { items: items.push(ValueModel::Scalar(w)) }),
                ..st
            })
            &&& st.stack.len() > 0 ==> (st.stack.last() matches FrameModel::Mapping {
                entries,
                pending_key: Some(k),
                pending_leading,
            } ==> r == ReceiverModel {
                stack: rest.push(
                    FrameModel::Mapping {
                        entries: entries.push(
                            EntryModel {
                                key: k,
                                value: ValueModel::Scalar(w),
                                leading_comments: pending_leading,
                                trailing_comment: None,
                            },
                        ),
                        pending_key: None,
                        pending_leading: Seq::empty(),
                    },
                ),
                ..st
            })
            &&& st.stack.len() > 0 ==> (st.stack.last() matches FrameModel::Mapping {
                entries,
                pending_key: None,
                pending_leading,
            } ==> r == ReceiverModel {
                stack: rest.push(
                    FrameModel::Mapping { entries, pending_key: Some(w), pending_leading },
                ),
                ..st
            })
        }),
{
}

/// A sequence closed inside an open sequence becomes that sequence's next
/// item, with nothing refused.
pub proof fn law_nested_sequence_appends(
    rest: Seq<FrameModel>,
    items: Seq<ValueModel>,
    inner: Seq<ValueModel>,
    st: ReceiverModel,
)
    requires
        st.error is None,
        st.stack == rest.push(FrameModel::Sequence { items }).push(
            FrameModel::Sequence { items: inner },
        ),
    ensures
        on_event_spec(st, EventModel::SequenceEnd) == (ReceiverModel {
            stack: rest.push(FrameModel::Sequence { items: items.push(ValueModel::Sequence(inner)) }),
            ..st
        }),
        on_event_spec(st, EventModel::SequenceStart(0, false)) == (ReceiverModel {
            stack: st.stack.push(FrameModel::Sequence { items: Seq::empty() }),
            ..st
        }),
{
    assert(st.stack.drop_last() =~= rest.push(FrameModel::Sequence { items }));
    assert(st.stack.drop_last().drop_last() =~= rest);
}

// ---------------------------------------------------------------------------
// Flow collections only first in a value
// ---------------------------------------------------------------------------

pub open spec fn is_blank(c: char) -> bool {
    c == ' ' || c == '\t'
}

/// Whether a value may start at position `i` of `t`: only blanks stand
/// before it since the line start, or since a `:` or a `-`.
pub open spec fn value_may_start(t: Seq<char>, i: int) -> bool {
    ||| forall|m: int| 0 <= m < i ==> is_blank(#[trigger] t[m])
    ||| exists|k: int|
        0 <= k < i && (t[k] == ':' || t[k] == '-') && forall|m: int|
            k < m < i ==> is_blank(#[trigger] t[m])
}

pub open spec fn flow_inv(t: Seq<char>, i: int, st: FlowState) -> bool {
    &&& (st.in_dq || st.escape_next) ==> !st.value_position
    &&& st.value_position ==> value_may_start(t, i)
}

proof fn lemma_flow_scan(t: Seq<char>, i: int, st: FlowState)
    requires
        0 <= i,
        flow_inv(t, i, st),
    ensures
        flow_scan(t, i, st) matches Some(j) ==> i <= j < t.len() && (t[j] == '{' || t[j] == '[')
            && value_may_start(t, j),
    decreases t.len() - i,
{
    if i < t.len() {
        let c = t[i];
        if st.escape_next {
            lemma_flow_scan(t, i + 1, FlowState { escape_next: false, value_position: false, ..st });
        } else if c == '\\' && st.in_dq {
            lemma_flow_scan(t, i + 1, FlowState { escape_next: true, ..st });
        } else if c == '"' {
            lemma_flow_scan(t, i + 1, FlowState { in_dq: !st.in_dq, value_position: false, ..st });
        } else if (c == '{' || c == '[') && !st.in_dq && st.value_position {
        } else if st.in_dq {
            lemma_flow_scan(t, i + 1, FlowState { value_position: false, ..st });
        } else if c == ':' {
            let vp = i + 1 >= t.len() || t[i + 1] == ' ' || t[i + 1] == '\t';
            if vp {
                assert(forall|m: int| i < m < i + 1 ==> is_blank(#[trigger] t[m]));
                assert(value_may_start(t, i + 1));
            }
            lemma_flow_scan(t, i + 1, FlowState { value_position: vp, ..st });
        } else if c == ' ' || c == '\t' {
            if st.value_position {
                assert(value_may_start(t, i + 1)) by {
                    if forall|m: int| 0 <= m < i ==> is_blank(#[trigger] t[m]) {
                        assert(forall|m: int| 0 <= m < i + 1 ==> is_blank(#[trigger] t[m]));
                    } else {
                        let k = choose|k: int|
                            0 <= k < i && (t[k] == ':' || t[k] == '-') && forall|m: int|
                                k < m < i ==> is_blank(#[trigger] t[m]);
                        assert(forall|m: int| k < m < i + 1 ==> is_blank(#[trigger] t[m]));
                    }
                }
            }
            lemma_flow_scan(t, i + 1, st);
        } else if c == '-' && st.value_position && (i + 1 >= t.len() || t[i + 1] == ' ' || t[i
            + 1] == '\t') {
            assert(forall|m: int| i < m < i + 1 ==> is_blank(#[trigger] t[m]));
            assert(value_may_start(t, i + 1));
            lemma_flow_scan(t, i + 1, st);
        } else {
            lemma_flow_scan(t, i + 1, FlowState { value_position: false, ..st });
        }
    }
}

/// A flow collection is only refused where a value starts: the `{` or `[`
/// that the scan reports has only blanks before it since the line start or
/// since a `:` or `-`.  A bracket inside a plain value, such as the `[` of
/// `title: Hello [draft]`, is never refused.
pub proof fn law_flow_only_first_in_value(t: Seq<char>)
    ensures
        flow_scan(t, 0, flow_start()) matches Some(j) ==> 0 <= j < t.len() && (t[j] == '{' || t[j]
            == '[') && value_may_start(t, j),
{
    assert(value_may_start(t, 0));
    lemma_flow_scan(t, 0, flow_start());
}

// ---------------------------------------------------------------------------
// Tokens
// ---------------------------------------------------------------------------

proof fn lemma_fault_reaches(ls: Seq<Seq<char>>, j: int, i: int)
    requires
        0 <= j <= i < ls.len(),
        line_fault(ls[i], (i + 1) as nat) is Some,
    ensures
        fault_from(ls, j) is Some,
    decreases i - j,
{
    if j < i && line_fault(ls[j], (j + 1) as nat) is None {
        lemma_fault_reaches(ls, j + 1, i);
    }
}

/// Indentation uses spaces only: a source with a non-blank line whose
/// indentation holds a tab does not tokenise.
pub proof fn law_tab_indent_rejected(input: Seq<char>, i: int)
    requires
        0 <= i < lines(input).len(),
        trim_end(lines(input)[i]).len() > 0,
        tab_in_indent(lines(input)[i]),
    ensures
        tokenize_spec(input) is Err,
{
    lemma_fault_reaches(lines(input), 0, i);
}

/// `true`, `false` and `null` may not be bare keys: a source with a line whose
/// unquoted key is one of them does not tokenise.
pub proof fn law_reserved_bare_key_rejected(input: Seq<char>, i: int)
    requires
        0 <= i < lines(input).len(),
        trim_end(lines(input)[i]).len() > 0,
        line_key(trim_start(trim_end(lines(input)[i]))) matches Some(k) && is_reserved_word(k),
    ensures
        tokenize_spec(input) is Err,
{
    lemma_fault_reaches(lines(input), 0, i);
}

/// A line is refused by the lexer only for a tab in its indentation or for
/// a bare key that is `true`, `false` or `null`; any other key is accepted.
pub proof fn law_line_fault_reason(l: Seq<char>, ln: nat)
    ensures
        line_fault(l, ln) is Some ==> tab_in_indent(l) || (line_key(trim_start(trim_end(l)))
            matches Some(k) && is_literal_reserved(k)),
{
}

} // verus!
