//! The YAML event stream, as the library reads it from `saphyr_parser`.
use vstd::prelude::*;

use saphyr_parser::Event::{
    Alias as EAlias, DocumentEnd as EDocEnd, DocumentStart as EDocStart, MappingEnd as EMapEnd,
    MappingStart as EMapStart, Nothing as ENothing, Scalar as EScalar, SequenceEnd as ESeqEnd,
    SequenceStart as ESeqStart, StreamEnd as EStreamEnd, StreamStart as EStreamStart,
};
use saphyr_parser::Parser as SaphyrParser;
use saphyr_parser::ScalarStyle::{
    DoubleQuoted as SDouble, Folded as SFolded, Literal as SLiteral, Plain as SPlain,
    SingleQuoted as SSingle,
};

use self::ScalarStyle::{DoubleQuoted, Folded, Literal, Plain, SingleQuoted};
use self::YamlEvent::{
    Alias, DocumentEnd, DocumentStart, MappingEnd, MappingStart, Nothing, Scalar, SequenceEnd,
    SequenceStart, StreamEnd, StreamStart,
};

verus! {

/// How a scalar is written.
#[derive(Debug, Clone, Copy, PartialEq, Eq)]
pub enum ScalarStyle {
    Plain,
    SingleQuoted,
    DoubleQuoted,
    /// A literal block scalar (`|`).
    Literal,
    /// A folded block scalar (`>`).
    Folded,
}

/// One event of the YAML event stream, holding what the SYON rules read of
/// it: the scalar's text and style, the anchor id (`0` for none) and whether
/// a tag is present.
#[derive(Debug, Clone, PartialEq)]
pub enum YamlEvent {
    Nothing,
    StreamStart,
    StreamEnd,
    /// `true` for an explicit `---`.
    DocumentStart(bool),
    DocumentEnd,
    /// The anchor id the alias refers to.
    Alias(usize),
    /// Value, style, anchor id, whether a tag is present.
    Scalar(String, ScalarStyle, usize, bool),
    /// Anchor id, whether a tag is present.
    SequenceStart(usize, bool),
    SequenceEnd,
    /// Anchor id, whether a tag is present.
    MappingStart(usize, bool),
    MappingEnd,
}

/// What an event is, with its text as a sequence of characters.
pub enum EventModel {
    Nothing,
    StreamStart,
    StreamEnd,
    DocumentStart(bool),
    DocumentEnd,
    Alias(usize),
    Scalar(Seq<char>, ScalarStyle, usize, bool),
    SequenceStart(usize, bool),
    SequenceEnd,
    MappingStart(usize, bool),
    MappingEnd,
}

impl View for YamlEvent {
    type V = EventModel;

    open spec fn view(&self) -> EventModel {
        match self {
            YamlEvent::Nothing => EventModel::Nothing,
            YamlEvent::StreamStart => EventModel::StreamStart,
            YamlEvent::StreamEnd => EventModel::StreamEnd,
            YamlEvent::DocumentStart(b) => EventModel::DocumentStart(*b),
            YamlEvent::DocumentEnd => EventModel::DocumentEnd,
            YamlEvent::Alias(a) => EventModel::Alias(*a),
            YamlEvent::Scalar(v, st, a, t) => EventModel::Scalar(v@, *st, *a, *t),
            YamlEvent::SequenceStart(a, t) => EventModel::SequenceStart(*a, *t),
            YamlEvent::SequenceEnd => EventModel::SequenceEnd,
            YamlEvent::MappingStart(a, t) => EventModel::MappingStart(*a, *t),
            YamlEvent::MappingEnd => EventModel::MappingEnd,
        }
    }
}

/// The models of a sequence of events.
pub open spec fn events_model(evs: Seq<YamlEvent>) -> Seq<EventModel> {
    evs.map_values(|e: YamlEvent| e@)
}

/// The outcome of running `saphyr_parser`'s parser over `input` to the end of
/// the stream: every event up to and including `StreamEnd`, or the text of
/// the first scanner error.
pub uninterp spec fn saphyr_events(input: Seq<char>) -> Result<Seq<EventModel>, Seq<char>>;

/// Runs `saphyr_parser::Parser::new_from_str(input)` as an iterator of events
/// (`Parser::next_event` until `StreamEnd`) and converts each event; on a
/// `ScanError` it returns the error's `Display` text.  Unlike `Parser::load`,
/// the iteration does not clear the anchors between two documents; a second
/// document needs a `---` or `...` line, which `parse_document` rejects
/// before it calls this.  The contract claims only that the result is
/// `saphyr_events` of the input.
#[verifier::external_body]
pub(crate) fn load_events(input: &str) -> (r: Result<Vec<YamlEvent>, String>)
    ensures
        match r {
            Ok(evs) => saphyr_events(input@) == Ok::<Seq<EventModel>, Seq<char>>(events_model(evs@)),
            Err(m) => saphyr_events(input@) == Err::<Seq<EventModel>, Seq<char>>(m@),
        },
{
    let mut out = Vec::new();
    for item in SaphyrParser::new_from_str(input) {
        let (ev, _) = item.map_err(|e| e.to_string())?;
        out.push(match ev {
            ENothing => Nothing, EStreamStart => StreamStart, EStreamEnd => StreamEnd,
            EDocStart(x) => DocumentStart(x), EDocEnd => DocumentEnd, EAlias(a) => Alias(a),
            EScalar(v, s, a, t) => Scalar(v.into_owned(), match s {
                SPlain => Plain, SSingle => SingleQuoted, SDouble => DoubleQuoted,
                SLiteral => Literal, SFolded => Folded }, a, t.is_some()),
            ESeqStart(a, t) => SequenceStart(a, t.is_some()), ESeqEnd => SequenceEnd,
            EMapStart(a, t) => MappingStart(a, t.is_some()), EMapEnd => MappingEnd,
        });
    }
    Ok(out)
}

} // verus!
