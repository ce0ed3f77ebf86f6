//! Builds a SYON value from the YAML event stream and rejects the forbidden
//! constructs that show in it: anchors, aliases, tags, `---`, block scalars,
//! non-scalar keys, bare reserved-word keys and duplicate keys.
use vstd::prelude::*;

use crate::ast::{
    comments_model, entries_model, items_model, lemma_entries_model,
    lemma_entries_model_push, lemma_items_model_push, value_model, Comment, EntryModel, Mapping,
    MappingEntry, Sequence, Value, ValueModel,
};
use crate::error::ErrorModel;
use crate::events::{EventModel, ScalarStyle, YamlEvent};
use crate::lexer::{is_reserved_word, reserved_word};
use crate::parser::ParseError;
use crate::text::chars_of;

verus! {

// ---------------------------------------------------------------------------
// Specification
// ---------------------------------------------------------------------------

/// `Debug` rendering of a string (`format!("{:?}", s)`): quoted, with escapes.
pub uninterp spec fn debug_string(s: Seq<char>) -> Seq<char>;

/// A collection under construction.
pub enum FrameModel {
    Mapping {
        entries: Seq<EntryModel>,
        pending_key: Option<Seq<char>>,
        pending_leading: Seq<Seq<char>>,
    },
    Sequence { items: Seq<ValueModel> },
}

/// The state of the receiver: open collections, the top-level value seen
/// last, and the first error.
pub struct ReceiverModel {
    pub stack: Seq<FrameModel>,
    pub result: Option<ValueModel>,
    pub error: Option<ErrorModel>,
}

pub open spec fn receiver_start() -> ReceiverModel {
    ReceiverModel { stack: Seq::empty(), result: None, error: None }
}

pub open spec fn with_error(st: ReceiverModel, e: ErrorModel) -> ReceiverModel {
    ReceiverModel { error: Some(e), ..st }
}

pub open spec fn anchor_error() -> ErrorModel {
    ErrorModel::Forbidden("anchor `&name` is not allowed in SYON"@)
}

pub open spec fn tag_error() -> ErrorModel {
    ErrorModel::Forbidden("tag `!tag` / `!!type` is not allowed in SYON"@)
}

pub open spec fn alias_error() -> ErrorModel {
    ErrorModel::Forbidden("alias `*name` is not allowed in SYON"@)
}

pub open spec fn document_start_error() -> ErrorModel {
    ErrorModel::Forbidden("explicit document start `---` is not allowed in SYON"@)
}

pub open spec fn block_scalar_error() -> ErrorModel {
    ErrorModel::Forbidden("block scalar `|` / `>` is not allowed in SYON"@)
}

/// Whether a scalar style is a block scalar (`|` or `>`).
pub open spec fn is_block_style(style: ScalarStyle) -> bool {
    style == ScalarStyle::Literal || style == ScalarStyle::Folded
}

/// Whether the plain scalar `value`, arriving in state `st`, would become the
/// key of the innermost open mapping while being a reserved word (`true`,
/// `false`, `null`); quoted, such a key is ordinary text.
pub open spec fn is_bare_reserved_key(st: ReceiverModel, value: Seq<char>, style: ScalarStyle) -> bool {
    &&& style == ScalarStyle::Plain
    &&& is_reserved_word(value)
    &&& st.stack.len() > 0
    &&& st.stack.last() matches FrameModel::Mapping { pending_key: None, .. }
}

pub open spec fn reserved_key_error(value: Seq<char>) -> ErrorModel {
    ErrorModel::Forbidden("reserved word `"@ + value + "` cannot be a bare key"@)
}

pub open spec fn key_error() -> ErrorModel {
    ErrorModel::Forbidden("mapping keys must be plain scalars"@)
}

pub open spec fn duplicate_error(key: Seq<char>) -> ErrorModel {
    ErrorModel::Syntax("duplicate key "@ + debug_string(key))
}

/// A finished value goes to the innermost open collection: a mapping takes it
/// as the key when it has none pending (only a scalar may be a key), else as
/// the value of the pending key; a sequence appends it; with no collection
/// open it becomes the top-level value.
pub open spec fn push_value_spec(st: ReceiverModel, v: ValueModel) -> ReceiverModel {
    if st.stack.len() == 0 {
        ReceiverModel { result: Some(v), ..st }
    } else {
        let rest = st.stack.drop_last();
        match st.stack.last() {
            FrameModel::Mapping { entries, pending_key, pending_leading } => match pending_key {
                Some(k) => ReceiverModel {
                    stack: rest.push(
                        FrameModel::Mapping {
                            entries: entries.push(
                                EntryModel {
                                    key: k,
                                    value: v,
                                    leading_comments: pending_leading,
                                    trailing_comment: None,
                                },
                            ),
                            pending_key: None,
                            pending_leading: Seq::empty(),
                        },
                    ),
                    ..st
                },
                None => match v {
                    ValueModel::Scalar(k) => ReceiverModel {
                        stack: rest.push(
                            FrameModel::Mapping { entries, pending_key: Some(k), pending_leading },
                        ),
                        ..st
                    },
                    _ => with_error(st, key_error()),
                },
            },
            FrameModel::Sequence { items } => ReceiverModel {
                stack: rest.push(FrameModel::Sequence { items: items.push(v) }),
                ..st
            },
        }
    }
}

/// The keys of a list of entries.
pub open spec fn keys_of(entries: Seq<EntryModel>) -> Seq<Seq<char>> {
    entries.map_values(|e: EntryModel| e.key)
}

/// The first index `j >= from` whose key occurs at a smaller index.
pub open spec fn duplicate_from(keys: Seq<Seq<char>>, from: int) -> Option<int>
    decreases keys.len() - from,
{
    if from < 0 || from >= keys.len() {
        None
    } else if exists|i: int| 0 <= i < from && keys[i] == keys[from] {
        Some(from)
    } else {
        duplicate_from(keys, from + 1)
    }
}

/// The state after one event.  Once an error is recorded, events change
/// nothing.
pub open spec fn on_event_spec(st: ReceiverModel, ev: EventModel) -> ReceiverModel {
    if st.error is Some {
        st
    } else {
        match ev {
            EventModel::Nothing | EventModel::StreamStart | EventModel::StreamEnd
            | EventModel::DocumentEnd => st,
            EventModel::DocumentStart(explicit) => if explicit {
                with_error(st, document_start_error())
            } else {
                st
            },
            EventModel::Alias(_) => with_error(st, alias_error()),
            EventModel::Scalar(value, style, anchor, tagged) => if anchor != 0 {
                with_error(st, anchor_error())
            } else if tagged {
                with_error(st, tag_error())
            } else if is_block_style(style) {
                with_error(st, block_scalar_error())
            } else if is_bare_reserved_key(st, value, style) {
                with_error(st, reserved_key_error(value))
            } else {
                push_value_spec(st, ValueModel::Scalar(value))
            },
            EventModel::MappingStart(anchor, tagged) => if anchor != 0 {
                with_error(st, anchor_error())
            } else if tagged {
                with_error(st, tag_error())
            } else {
                ReceiverModel {
                    stack: st.stack.push(
                        FrameModel::Mapping {
                            entries: Seq::empty(),
                            pending_key: None,
                            pending_leading: Seq::empty(),
                        },
                    ),
                    ..st
                }
            },
            EventModel::MappingEnd => if st.stack.len() == 0 {
                st
            } else {
                let popped = ReceiverModel { stack: st.stack.drop_last(), ..st };
                match st.stack.last() {
                    FrameModel::Mapping { entries, .. } => match duplicate_from(
                        keys_of(entries),
                        0,
                    ) {
                        Some(j) => with_error(popped, duplicate_error(entries[j].key)),
                        None => push_value_spec(popped, ValueModel::Mapping(entries)),
                    },
                    FrameModel::Sequence { .. } => popped,
                }
            },
            EventModel::SequenceStart(anchor, tagged) => if anchor != 0 {
                with_error(st, anchor_error())
            } else if tagged {
                with_error(st, tag_error())
            } else {
                ReceiverModel {
                    stack: st.stack.push(FrameModel::Sequence { items: Seq::empty() }),
                    ..st
                }
            },
            EventModel::SequenceEnd => if st.stack.len() == 0 {
                st
            } else {
                let popped = ReceiverModel { stack: st.stack.drop_last(), ..st };
                match st.stack.last() {
                    FrameModel::Sequence { items } => push_value_spec(
                        popped,
                        ValueModel::Sequence(items),
                    ),
                    FrameModel::Mapping { .. } => popped,
                }
            },
        }
    }
}

/// The state after the events `evs[i..]`.
pub open spec fn receive_from(st: ReceiverModel, evs: Seq<EventModel>, i: int) -> ReceiverModel
    decreases evs.len() - i,
{
    if i < 0 || i >= evs.len() {
        st
    } else {
        receive_from(on_event_spec(st, evs[i]), evs, i + 1)
    }
}

/// What a stream of events builds: the first error, else the last top-level
/// value (if any).
pub open spec fn receive_spec(evs: Seq<EventModel>) -> Result<Option<ValueModel>, ErrorModel> {
    let st = receive_from(receiver_start(), evs, 0);
    match st.error {
        Some(e) => Err(e),
        None => Ok(st.result),
    }
}

// ---------------------------------------------------------------------------
// Implementation
// ---------------------------------------------------------------------------

/// `Debug` formatting of a string: `format!("{:?}", s)`.  The contract claims
/// only that the result is `debug_string` of the argument.
#[verifier::external_body]
fn debug_quote(s: &String) -> (r: String)
    ensures
        r@ == debug_string(s@),
{
    format!("{:?}", s)
}

/// A collection under construction.
pub enum Frame {
    Mapping {
        entries: Vec<MappingEntry>,
        pending_key: Option<String>,
        pending_leading: Vec<Comment>,
    },
    Sequence { items: Vec<Value> },
}

pub open spec fn frame_model(f: Frame) -> FrameModel {
    match f {
        Frame::Mapping { entries, pending_key, pending_leading } => FrameModel::Mapping {
            entries: entries_model(entries@),
            pending_key: match pending_key {
                Some(k) => Some(k@),
                None => None,
            },
            pending_leading: comments_model(pending_leading@),
        },
        Frame::Sequence { items } => FrameModel::Sequence { items: items_model(items@) },
    }
}

/// Receives YAML events and builds the SYON value they describe.
pub struct SyonReceiver {
    stack: Vec<Frame>,
    result: Option<Value>,
    error: Option<ParseError>,
}

impl SyonReceiver {
    pub closed spec fn model(&self) -> ReceiverModel {
        ReceiverModel {
            stack: self.stack@.map_values(|f: Frame| frame_model(f)),
            result: match self.result {
                Some(v) => Some(value_model(v)),
                None => None,
            },
            error: match self.error {
                Some(e) => Some(e@),
                None => None,
            },
        }
    }

    /// A receiver with nothing open, no value and no error.
    pub fn new() -> (r: Self)
        ensures
            r.model() == receiver_start(),
    {
        let r = SyonReceiver { stack: Vec::new(), result: None, error: None };
        assert(r.model().stack =~= Seq::<FrameModel>::empty());
        r
    }

    proof fn lemma_stack_pop(old_stack: Seq<Frame>, new_stack: Seq<Frame>)
        requires
            old_stack.len() > 0,
            new_stack == old_stack.drop_last(),
        ensures
            new_stack.map_values(|f: Frame| frame_model(f)) == old_stack.map_values(
                |f: Frame| frame_model(f),
            ).drop_last(),
            old_stack.map_values(|f: Frame| frame_model(f)).last() == frame_model(
                old_stack.last(),
            ),
    {
        assert(new_stack.map_values(|f: Frame| frame_model(f)) =~= old_stack.map_values(
            |f: Frame| frame_model(f),
        ).drop_last());
    }

    proof fn lemma_stack_push(old_stack: Seq<Frame>, f: Frame)
        ensures
            old_stack.push(f).map_values(|f: Frame| frame_model(f)) == old_stack.map_values(
                |f: Frame| frame_model(f),
            ).push(frame_model(f)),
    {
        assert(old_stack.push(f).map_values(|f: Frame| frame_model(f)) =~= old_stack.map_values(
            |f: Frame| frame_model(f),
        ).push(frame_model(f)));
    }

    /// Hands a finished value to the innermost open collection, or makes it
    /// the top-level value.
    fn push_value(&mut self, v: Value)
        ensures
            final(self).model() == push_value_spec(old(self).model(), value_model(v)),
    {
        let ghost old_stack = self.stack@;
        let ghost vm = value_model(v);
        match self.stack.pop() {
            None => {
                self.result = Some(v);
            },
            Some(frame) => {
                proof {
                    Self::lemma_stack_pop(old_stack, self.stack@);
                }
                let ghost rest = self.stack@;
                match frame {
                    Frame::Mapping { mut entries, pending_key, pending_leading } => {
                        match pending_key {
                            Some(key) => {
                                let ghost old_entries = entries@;
                                let e = MappingEntry {
                                    key,
                                    value: v,
                                    leading_comments: pending_leading,
                                    trailing_comment: None,
                                };
                                entries.push(e);
                                proof {
                                    lemma_entries_model_push(old_entries, e);
                                }
                                let nf = Frame::Mapping {
                                    entries,
                                    pending_key: None,
                                    pending_leading: Vec::new(),
                                };
                                self.stack.push(nf);
                                proof {
                                    Self::lemma_stack_push(rest, nf);
                                    assert(comments_model(Seq::<Comment>::empty())
                                        =~= Seq::<Seq<char>>::empty());
                                }
                            },
                            None => {
                                match v {
                                    Value::Scalar(k) => {
                                        let nf = Frame::Mapping {
                                            entries,
                                            pending_key: Some(k),
                                            pending_leading,
                                        };
                                        self.stack.push(nf);
                                        proof {
                                            Self::lemma_stack_push(rest, nf);
                                        }
                                    },
                                    _ => {
                                        let nf = Frame::Mapping {
                                            entries,
                                            pending_key: None,
                                            pending_leading,
                                        };
                                        self.stack.push(nf);
                                        proof {
                                            Self::lemma_stack_push(rest, nf);
                                            assert(self.stack@ =~= old_stack);
                                        }
                                        self.error = Some(
                                            ParseError::Forbidden(
                                                String::from_str(
                                                    "mapping keys must be plain scalars",
                                                ),
                                            ),
                                        );
                                    },
                                }
                            },
                        }
                    },
                    Frame::Sequence { mut items } => {
                        let ghost old_items = items@;
                        items.push(v);
                        proof {
                            lemma_items_model_push(old_items, v);
                        }
                        let nf = Frame::Sequence { items };
                        self.stack.push(nf);
                        proof {
                            Self::lemma_stack_push(rest, nf);
                        }
                    },
                }
            },
        }
    }

    /// The error for a node with an anchor.
    fn check_anchor(anchor_id: usize) -> (r: Option<ParseError>)
        ensures
            match r {
                Some(e) => anchor_id != 0 && e@ == anchor_error(),
                None => anchor_id == 0,
            },
    {
        if anchor_id != 0 {
            Some(ParseError::Forbidden(String::from_str("anchor `&name` is not allowed in SYON")))
        } else {
            None
        }
    }

    /// The error for a node with a tag.
    fn check_tag(tagged: bool) -> (r: Option<ParseError>)
        ensures
            match r {
                Some(e) => tagged && e@ == tag_error(),
                None => !tagged,
            },
    {
        if tagged {
            Some(
                ParseError::Forbidden(
                    String::from_str("tag `!tag` / `!!type` is not allowed in SYON"),
                ),
            )
        } else {
            None
        }
    }

    /// Whether the innermost open collection is a mapping with no pending key,
    /// where a scalar would become a key.
    fn awaits_key(&self) -> (r: bool)
        ensures
            r == (self.model().stack.len() > 0 && self.model().stack.last() matches FrameModel::Mapping {
                pending_key: None,
                ..
            }),
    {
        let n = self.stack.len();
        if n == 0 {
            return false;
        }
        assert(self.model().stack.last() == frame_model(self.stack@[n - 1]));
        match &self.stack[n - 1] {
            Frame::Mapping { pending_key: None, .. } => true,
            _ => false,
        }
    }

    /// Index of the first entry whose key an earlier entry has.
    fn first_duplicate(entries: &Vec<MappingEntry>) -> (r: Option<usize>)
        ensures
            match r {
                Some(j) => j < entries@.len() && duplicate_from(
                    keys_of(entries_model(entries@)),
                    0,
                ) == Some(j as int),
                None => duplicate_from(keys_of(entries_model(entries@)), 0) is None,
            },
    {
        let ghost keys = keys_of(entries_model(entries@));
        proof {
            lemma_entries_model(entries@);
        }
        assert(keys.len() == entries@.len());
        assert(forall|k: int| 0 <= k < keys.len() ==> #[trigger] keys[k] == entries@[k].key@);
        let n = entries.len();
        let mut j: usize = 0;
        while j < n
            invariant
                n == entries@.len(),
                j <= n,
                keys.len() == n,
                keys == keys_of(entries_model(entries@)),
                forall|k: int| 0 <= k < keys.len() ==> #[trigger] keys[k] == entries@[k].key@,
                duplicate_from(keys, 0) == duplicate_from(keys, j as int),
            decreases n - j,
        {
            let mut i: usize = 0;
            while i < j
                invariant
                    n == entries@.len(),
                    i <= j < n,
                    keys.len() == n,
                    forall|k: int| 0 <= k < keys.len() ==> #[trigger] keys[k] == entries@[k].key@,
                    forall|k: int| 0 <= k < i ==> keys[k] != keys[j as int],
                    duplicate_from(keys, 0) == duplicate_from(keys, j as int),
                    keys == keys_of(entries_model(entries@)),
                decreases j - i,
            {
                if entries[i].key == entries[j].key {
                    assert(keys[i as int] == keys[j as int]);
                    assert(exists|k: int| 0 <= k < j && keys[k] == keys[j as int]);
                    assert(duplicate_from(keys, j as int) == Some(j as int));
                    return Some(j);
                }
                i += 1;
            }
            assert(!exists|k: int| 0 <= k < j && keys[k] == keys[j as int]);
            j += 1;
        }
        None
    }

    /// Handles one event.  Once an error is recorded, events are ignored.
    pub fn on_event(&mut self, ev: &YamlEvent)
        ensures
            final(self).model() == on_event_spec(old(self).model(), ev@),
    {
        if self.error.is_some() {
            return;
        }
        match ev {
            YamlEvent::StreamStart | YamlEvent::StreamEnd | YamlEvent::DocumentEnd
            | YamlEvent::Nothing => {},
            YamlEvent::DocumentStart(explicit) => {
                if *explicit {
                    self.error = Some(
                        ParseError::Forbidden(
                            String::from_str(
                                "explicit document start `---` is not allowed in SYON",
                            ),
                        ),
                    );
                }
            },
            YamlEvent::Alias(_) => {
                self.error = Some(
                    ParseError::Forbidden(String::from_str("alias `*name` is not allowed in SYON")),
                );
            },
            YamlEvent::Scalar(value, style, anchor_id, tagged) => {
                if let Some(e) = Self::check_anchor(*anchor_id) {
                    self.error = Some(e);
                    return;
                }
                if let Some(e) = Self::check_tag(*tagged) {
                    self.error = Some(e);
                    return;
                }
                if let ScalarStyle::Literal | ScalarStyle::Folded = style {
                    self.error = Some(
                        ParseError::Forbidden(
                            String::from_str("block scalar `|` / `>` is not allowed in SYON"),
                        ),
                    );
                    return;
                }
                if let ScalarStyle::Plain = style {
                    if self.awaits_key() && reserved_word(&chars_of(value.as_str())) {
                        let mut m = String::from_str("reserved word `");
                        m.append(value.as_str());
                        m.append("` cannot be a bare key");
                        self.error = Some(ParseError::Forbidden(m));
                        return;
                    }
                }
                self.push_value(Value::Scalar(value.clone()));
            },
            YamlEvent::MappingStart(anchor_id, tagged) => {
                if let Some(e) = Self::check_anchor(*anchor_id) {
                    self.error = Some(e);
                    return;
                }
                if let Some(e) = Self::check_tag(*tagged) {
                    self.error = Some(e);
                    return;
                }
                let ghost old_stack = self.stack@;
                let nf = Frame::Mapping {
                    entries: Vec::new(),
                    pending_key: None,
                    pending_leading: Vec::new(),
                };
                self.stack.push(nf);
                proof {
                    Self::lemma_stack_push(old_stack, nf);
                    assert(entries_model(Seq::<MappingEntry>::empty()) =~= Seq::<EntryModel>::empty());
                    assert(comments_model(Seq::<Comment>::empty()) =~= Seq::<Seq<char>>::empty());
                }
            },
            YamlEvent::MappingEnd => {
                let ghost old_stack = self.stack@;
                match self.stack.pop() {
                    Some(Frame::Mapping { entries, pending_key: _, pending_leading: _ }) => {
                        proof {
                            Self::lemma_stack_pop(old_stack, self.stack@);
                        }
                        match Self::first_duplicate(&entries) {
                            Some(j) => {
                                proof {
                                    lemma_entries_model(entries@);
                                }
                                let mut m = String::from_str("duplicate key ");
                                let q = debug_quote(&entries[j].key);
                                m.append(q.as_str());
                                self.error = Some(ParseError::Syntax(m));
                                return;
                            },
                            None => {},
                        }
                        self.push_value(Value::Mapping(Mapping { entries }));
                    },
                    Some(f) => {
                        proof {
                            Self::lemma_stack_pop(old_stack, self.stack@);
                        }
                    },
                    None => {},
                }
            },
            YamlEvent::SequenceStart(anchor_id, tagged) => {
                if let Some(e) = Self::check_anchor(*anchor_id) {
                    self.error = Some(e);
                    return;
                }
                if let Some(e) = Self::check_tag(*tagged) {
                    self.error = Some(e);
                    return;
                }
                let ghost old_stack = self.stack@;
                let nf = Frame::Sequence { items: Vec::new() };
                self.stack.push(nf);
                proof {
                    Self::lemma_stack_push(old_stack, nf);
                    assert(items_model(Seq::<Value>::empty()) =~= Seq::<ValueModel>::empty());
                }
            },
            YamlEvent::SequenceEnd => {
                let ghost old_stack = self.stack@;
                match self.stack.pop() {
                    Some(Frame::Sequence { items }) => {
                        proof {
                            Self::lemma_stack_pop(old_stack, self.stack@);
                        }
                        self.push_value(Value::Sequence(Sequence { items }));
                    },
                    Some(f) => {
                        proof {
                            Self::lemma_stack_pop(old_stack, self.stack@);
                        }
                    },
                    None => {},
                }
            },
        }
    }
}

/// Runs a receiver over a whole event stream: the first error it records,
/// else the last top-level value it saw (`None` if there was none).
pub fn receive_events(events: &Vec<YamlEvent>) -> (r: Result<Option<Value>, ParseError>)
    ensures
        match r {
            Ok(v) => receive_spec(events@.map_values(|e: YamlEvent| e@)) == Ok::<
                Option<ValueModel>,
                ErrorModel,
            >(
                match v {
                    Some(x) => Some(value_model(x)),
                    None => None,
                },
            ),
            Err(e) => receive_spec(events@.map_values(|e: YamlEvent| e@)) == Err::<
                Option<ValueModel>,
                ErrorModel,
            >(e@),
        },
{
    let ghost evs = events@.map_values(|e: YamlEvent| e@);
    let mut recv = SyonReceiver::new();
    let mut i: usize = 0;
    while i < events.len()
        invariant
            i <= events@.len(),
            evs == events@.map_values(|e: YamlEvent| e@),
            receive_from(receiver_start(), evs, 0) == receive_from(recv.model(), evs, i as int),
        decreases events@.len() - i,
    {
        recv.on_event(&events[i]);
        i += 1;
    }
    match recv.error {
        Some(e) => Err(e),
        None => Ok(recv.result),
    }
}

} // verus!
