//! The SYON document parser.
use vstd::prelude::*;

use crate::ast::{
    comments_model, document_model, value_model, Comment, Document, DocumentModel,
    Mapping, MappingEntry, Value, ValueModel,
};
use crate::comments::{comments_spec, extract_comments};
use crate::error::{error_text, ErrorModel};
use crate::events::{events_model, load_events, saphyr_events, EventModel, YamlEvent};
use crate::preflight::{preflight, preflight_spec};
use crate::receiver::{receive_events, receive_spec};
use crate::text::{chars_of, lines, split_lines, trim, trim_bounds, utf8_len};

verus! {

/// A parse error returned by [`parse_document`].
#[derive(Debug, Clone, PartialEq)]
pub enum ParseError {
    /// A YAML construct that SYON explicitly forbids.
    Forbidden(String),
    /// A low-level scanner / syntax error.
    Syntax(String),
}

impl View for ParseError {
    type V = ErrorModel;

    open spec fn view(&self) -> ErrorModel {
        match self {
            ParseError::Forbidden(m) => ErrorModel::Forbidden(m@),
            ParseError::Syntax(m) => ErrorModel::Syntax(m@),
        }
    }
}

impl ParseError {
    /// The text of the error: `forbidden: <msg>` or `syntax error: <msg>`.
    pub fn to_string(&self) -> (r: String)
        ensures
            r@ == error_text(self@),
    {
        match self {
            ParseError::Forbidden(m) => {
                let mut s = String::from_str("forbidden: ");
                s.append(m.as_str());
                s
            },
            ParseError::Syntax(m) => {
                let mut s = String::from_str("syntax error: ");
                s.append(m.as_str());
                s
            },
        }
    }
}

// ---------------------------------------------------------------------------
// Literal block
// ---------------------------------------------------------------------------

pub open spec fn is_open_fence(l: Seq<char>) -> bool {
    trim(l) == seq!['[', '[', '[']
}

pub open spec fn is_close_fence(l: Seq<char>) -> bool {
    trim(l) == seq![']', ']', ']']
}

/// The lines `ls` joined with `\n` between them.
pub open spec fn join_lines(ls: Seq<Seq<char>>) -> Seq<char>
    decreases ls.len(),
{
    if ls.len() == 0 {
        Seq::empty()
    } else if ls.len() == 1 {
        ls[0]
    } else {
        join_lines(ls.drop_last()) + seq!['\n'] + ls.last()
    }
}

/// The body of `input` as a standalone literal block: when its first line
/// trims to `[[[` and its last line trims to `]]]`, the lines between them,
/// joined with `\n`.
pub open spec fn literal_block_spec(input: Seq<char>) -> Option<Seq<char>> {
    let ls = lines(input);
    if ls.len() >= 2 && is_open_fence(ls[0]) && is_close_fence(ls.last()) {
        Some(join_lines(ls.subrange(1, ls.len() - 1)))
    } else {
        None
    }
}

/// Whether the characters of `l` trim to three copies of `c`.
fn trims_to_three(l: &Vec<char>, c: char) -> (r: bool)
    ensures
        r == (trim(l@) == seq![c, c, c]),
{
    let (lo, hi) = trim_bounds(l);
    let ghost t = l@.subrange(lo as int, hi as int);
    if hi - lo == 3 && l[lo] == c && l[lo + 1] == c && l[lo + 2] == c {
        assert(t =~= seq![c, c, c]);
        true
    } else {
        proof {
            if t == seq![c, c, c] {
                assert(t.len() == 3);
                assert(t[0] == c && t[1] == c && t[2] == c);
                assert(t[0] == l@[lo as int] && t[1] == l@[lo + 1] && t[2] == l@[lo + 2]);
            }
        }
        false
    }
}

/// Checks whether `input` is a standalone literal block (`[[[ … ]]]`).
pub fn try_parse_literal_block(input: &str) -> (r: Option<Value>)
    ensures
        match r {
            Some(v) => literal_block_spec(input@) matches Some(b) && value_model(v)
                == ValueModel::LiteralBlock(b),
            None => literal_block_spec(input@) is None,
        },
{
    let chars = chars_of(input);
    let ls = split_lines(&chars);
    let ghost lsv = lines(input@);
    if ls.len() < 2 || !trims_to_three(&ls[0], '[') || !trims_to_three(&ls[ls.len() - 1], ']') {
        proof {
            if ls@.len() >= 2 {
                assert(ls@[0]@ == lsv[0]);
                assert(ls@[ls@.len() - 1]@ == lsv.last());
            }
        }
        return None;
    }
    assert(ls@[0]@ == lsv[0]);
    assert(ls@[ls@.len() - 1]@ == lsv.last());
    let close = ls.len() - 1;
    let mut body = String::new();
    assert(lsv.subrange(1, 1) =~= Seq::<Seq<char>>::empty());
    let mut i: usize = 1;
    while i < close
        invariant
            1 <= i <= close,
            close < ls@.len(),
            ls@.len() == lsv.len(),
            forall|j: int| 0 <= j < ls@.len() ==> #[trigger] ls@[j]@ == lsv[j],
            body@ == join_lines(lsv.subrange(1, i as int)),
        decreases close - i,
    {
        let ghost before = body@;
        if i > 1 {
            body.push('\n');
        }
        let line = &ls[i];
        let mut j: usize = 0;
        let ghost mid = body@;
        while j < line.len()
            invariant
                j <= line@.len(),
                body@ == mid + line@.take(j as int),
            decreases line@.len() - j,
        {
            body.push(line[j]);
            assert(line@.take(j + 1) =~= line@.take(j as int).push(line@[j as int]));
            j += 1;
        }
        proof {
            assert(line@.take(line@.len() as int) =~= line@);
            let s = lsv.subrange(1, i + 1);
            assert(s.drop_last() =~= lsv.subrange(1, i as int));
            assert(s.last() == lsv[i as int]);
            if i == 1 {
                assert(join_lines(s) == s[0]);
                assert(body@ =~= s[0]);
            } else {
                assert(body@ =~= join_lines(s.drop_last()) + seq!['\n'] + s.last());
            }
        }
        i += 1;
    }
    Some(Value::LiteralBlock(body))
}

// ---------------------------------------------------------------------------
// Public API
// ---------------------------------------------------------------------------

/// What parsing `input` gives, where `events` is what the YAML parser made of
/// `input`: a standalone literal block, else the first forbidden line, else
/// the YAML parser's error, else the first error of the event stream, else
/// the value it builds (an empty mapping for no value) with every comment of
/// the source attached to the document.
pub open spec fn document_spec(
    input: Seq<char>,
    events: Result<Seq<crate::events::EventModel>, Seq<char>>,
) -> Result<DocumentModel, ErrorModel> {
    match literal_block_spec(trim(input)) {
        Some(b) => Ok(
            DocumentModel { body: ValueModel::LiteralBlock(b), trailing_comments: Seq::empty() },
        ),
        None => match preflight_spec(input) {
            Err(e) => Err(e),
            Ok(_) => match events {
                Err(m) => Err(ErrorModel::Syntax(m)),
                Ok(evs) => match receive_spec(evs) {
                    Err(e) => Err(e),
                    Ok(v) => Ok(
                        DocumentModel {
                            body: match v {
                                Some(x) => x,
                                None => ValueModel::Mapping(Seq::empty()),
                            },
                            trailing_comments: comments_spec(input).map_values(
                                |c: (nat, Seq<char>)| c.1,
                            ),
                        },
                    ),
                },
            },
        },
    }
}

/// What a parse result is in the model.
pub open spec fn result_model(r: Result<Document, ParseError>) -> Result<DocumentModel, ErrorModel> {
    match r {
        Ok(d) => Ok(document_model(d)),
        Err(e) => Err(e@),
    }
}

/// The outcome when the source decides it before any YAML event is read: a
/// standalone literal block, or the first forbidden line.
fn before_events(input: &str) -> (r: Option<Result<Document, ParseError>>)
    requires
        utf8_len(input@) < usize::MAX,
    ensures
        match r {
            None => literal_block_spec(trim(input@)) is None && preflight_spec(input@) is Ok,
            Some(res) => forall|events: Result<Seq<EventModel>, Seq<char>>|
                #[trigger] document_spec(input@, events) == result_model(res),
        },
{
    let chars = chars_of(input);
    let (lo, hi) = trim_bounds(&chars);
    let trimmed = input.substring_char(lo, hi);
    if let Some(lit) = try_parse_literal_block(trimmed) {
        let doc = Document { body: lit, trailing_comments: Vec::new() };
        assert(comments_model(doc.trailing_comments@) =~= Seq::<Seq<char>>::empty());
        return Some(Ok(doc));
    }
    match preflight(input) {
        Ok(()) => None,
        Err(e) => Some(Err(e)),
    }
}

/// The document that the events `events` of a source build, once the source
/// is known to be no literal block and to have no forbidden line.
fn assemble(input: &str, events: &Vec<YamlEvent>) -> (r: Result<Document, ParseError>)
    requires
        literal_block_spec(trim(input@)) is None,
        preflight_spec(input@) is Ok,
    ensures
        document_spec(input@, Ok(events_model(events@))) == result_model(r),
{
    // Comments, which the YAML parser drops.
    let comments = extract_comments(input);
    let result = receive_events(events)?;
    // Every comment goes to the document.
    let mut trailing_comments: Vec<Comment> = Vec::new();
    let ghost cs = comments_spec(input@);
    let mut k: usize = 0;
    while k < comments.len()
        invariant
            k <= comments@.len(),
            comments@.len() == cs.len(),
            forall|j: int|
                0 <= j < comments@.len() ==> (#[trigger] comments@[j]).0 == cs[j].0
                    && comments@[j].1@ == cs[j].1,
            comments_model(trailing_comments@) == cs.map_values(|c: (nat, Seq<char>)| c.1).take(
                k as int,
            ),
        decreases comments@.len() - k,
    {
        let text = comments[k].1.clone();
        let ghost before = trailing_comments@;
        trailing_comments.push(Comment { text });
        proof {
            let f = |c: Comment| c.text@;
            assert(trailing_comments@.map_values(f) =~= before.map_values(f).push(text@));
            assert(cs.map_values(|c: (nat, Seq<char>)| c.1).take(k + 1) =~= cs.map_values(
                |c: (nat, Seq<char>)| c.1,
            ).take(k as int).push(cs[k as int].1));
        }
        k += 1;
    }
    assert(cs.map_values(|c: (nat, Seq<char>)| c.1).take(k as int) =~= cs.map_values(
        |c: (nat, Seq<char>)| c.1,
    ));
    let body = match result {
        Some(v) => v,
        None => {
            let v = Value::Mapping(Mapping { entries: Vec::new() });
            proof {
                assert(crate::ast::entries_model(Seq::<MappingEntry>::empty()) =~= Seq::<
                    crate::ast::EntryModel,
                >::empty());
            }
            v
        },
    };
    Ok(Document { body, trailing_comments })
}

/// Builds the document of `input` from `events`, the YAML event stream of
/// `input`: a standalone literal block, else the first forbidden line, else
/// the first error of the events, else the value they build (an empty
/// mapping for none) with every comment of the source.
pub fn document_from_events(input: &str, events: &Vec<YamlEvent>) -> (r: Result<
    Document,
    ParseError,
>)
    requires
        utf8_len(input@) < usize::MAX,
    ensures
        document_spec(input@, Ok(events_model(events@))) == result_model(r),
{
    match before_events(input) {
        Some(res) => res,
        None => assemble(input, events),
    }
}

/// Parses a SYON source string into a [`Document`].
///
/// Returns [`ParseError::Forbidden`] if any YAML construct that SYON forbids
/// is encountered, and [`ParseError::Syntax`] for malformed input.
pub fn parse_document(input: &str) -> (r: Result<Document, ParseError>)
    requires
        utf8_len(input@) < usize::MAX,
    ensures
        document_spec(input@, saphyr_events(input@)) == result_model(r),
{
    // A standalone literal block, or a construct that the events cannot reveal.
    if let Some(res) = before_events(input) {
        return res;
    }
    // The YAML event stream.
    match load_events(input) {
        Ok(events) => assemble(input, &events),
        Err(m) => Err(ParseError::Syntax(m)),
    }
}

} // verus!
