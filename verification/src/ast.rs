use vstd::prelude::*;

verus! {

broadcast use vstd::std_specs::vec::group_vec_axioms, vstd::seq::group_seq_axioms;

/// A comment extracted from the source text.
#[derive(Debug, Clone, PartialEq)]
pub struct Comment {
    pub text: String,
}

/// A SYON value.
#[derive(Debug, PartialEq)]
pub enum Value {
    Scalar(String),
    LiteralBlock(String),
    Mapping(Mapping),
    Sequence(Sequence),
}

#[derive(Debug, PartialEq)]
pub struct Mapping {
    pub entries: Vec<MappingEntry>,
}

#[derive(Debug, PartialEq)]
pub struct Sequence {
    pub items: Vec<Value>,
}

#[derive(Debug, PartialEq)]
pub struct MappingEntry {
    pub key: String,
    pub value: Value,
    pub leading_comments: Vec<Comment>,
    pub trailing_comment: Option<Comment>,
}

/// A parsed SYON document: its root value and the comments collected from it.
#[derive(Debug, PartialEq)]
pub struct Document {
    pub body: Value,
    pub trailing_comments: Vec<Comment>,
}

/// What a document is: its root value and the texts of its comments.
pub struct DocumentModel {
    pub body: ValueModel,
    pub trailing_comments: Seq<Seq<char>>,
}

pub open spec fn document_model(d: Document) -> DocumentModel {
    DocumentModel {
        body: value_model(d.body),
        trailing_comments: comments_model(d.trailing_comments@),
    }
}

pub enum ValueModel {
    Scalar(Seq<char>),
    LiteralBlock(Seq<char>),
    Mapping(Seq<EntryModel>),
    Sequence(Seq<ValueModel>),
}

pub struct EntryModel {
    pub key: Seq<char>,
    pub value: ValueModel,
    pub leading_comments: Seq<Seq<char>>,
    pub trailing_comment: Option<Seq<char>>,
}

pub open spec fn comments_model(cs: Seq<Comment>) -> Seq<Seq<char>> {
    cs.map_values(|c: Comment| c.text@)
}

pub open spec fn value_model(v: Value) -> ValueModel
    decreases v,
{
    match v {
        Value::Scalar(s) => ValueModel::Scalar(s@),
        Value::LiteralBlock(s) => ValueModel::LiteralBlock(s@),
        Value::Mapping(m) => ValueModel::Mapping(entries_model(m.entries@)),
        Value::Sequence(s) => ValueModel::Sequence(items_model(s.items@)),
    }
}

pub open spec fn entries_model(es: Seq<MappingEntry>) -> Seq<EntryModel>
    decreases es,
{
    if es.len() == 0 {
        Seq::empty()
    } else {
        entries_model(es.drop_last()).push(entry_model(es.last()))
    }
}

pub open spec fn entry_model(e: MappingEntry) -> EntryModel
    decreases e,
{
    EntryModel {
        key: e.key@,
        value: value_model(e.value),
        leading_comments: comments_model(e.leading_comments@),
        trailing_comment: match e.trailing_comment {
            Some(c) => Some(c.text@),
            None => None,
        },
    }
}

pub open spec fn items_model(vs: Seq<Value>) -> Seq<ValueModel>
    decreases vs,
{
    if vs.len() == 0 {
        Seq::empty()
    } else {
        items_model(vs.drop_last()).push(value_model(vs.last()))
    }
}

pub proof fn lemma_entries_model(es: Seq<MappingEntry>)
    ensures
        entries_model(es).len() == es.len(),
        forall|i: int| 0 <= i < es.len() ==> #[trigger] entries_model(es)[i] == entry_model(es[i]),
    decreases es.len(),
{
    if es.len() > 0 {
        lemma_entries_model(es.drop_last());
    }
}

pub proof fn lemma_items_model(vs: Seq<Value>)
    ensures
        items_model(vs).len() == vs.len(),
        forall|i: int| 0 <= i < vs.len() ==> #[trigger] items_model(vs)[i] == value_model(vs[i]),
    decreases vs.len(),
{
    if vs.len() > 0 {
        lemma_items_model(vs.drop_last());
    }
}

pub proof fn lemma_entries_model_push(es: Seq<MappingEntry>, e: MappingEntry)
    ensures
        entries_model(es.push(e)) == entries_model(es).push(entry_model(e)),
{
    assert(es.push(e).drop_last() =~= es);
}

pub proof fn lemma_items_model_push(vs: Seq<Value>, v: Value)
    ensures
        items_model(vs.push(v)) == items_model(vs).push(value_model(v)),
{
    assert(vs.push(v).drop_last() =~= vs);
}

// ---------------------------------------------------------------------------
// Copies
// ---------------------------------------------------------------------------

/// A copy of a list of comments.
fn clone_comments(cs: &Vec<Comment>) -> (r: Vec<Comment>)
    ensures
        comments_model(r@) == comments_model(cs@),
{
    let mut out: Vec<Comment> = Vec::new();
    let mut i: usize = 0;
    while i < cs.len()
        invariant
            i <= cs@.len(),
            out@.len() == i,
            forall|k: int| 0 <= k < i ==> (#[trigger] out@[k]).text@ == cs@[k].text@,
        decreases cs@.len() - i,
    {
        out.push(Comment { text: cs[i].text.clone() });
        i += 1;
    }
    assert(comments_model(out@) =~= comments_model(cs@));
    out
}

/// A copy of a value, equal to it in the model.
pub fn clone_value(v: &Value) -> (r: Value)
    ensures
        value_model(r) == value_model(*v),
    decreases *v,
{
    match v {
        Value::Scalar(s) => Value::Scalar(s.clone()),
        Value::LiteralBlock(s) => Value::LiteralBlock(s.clone()),
        Value::Mapping(m) => {
            assert(decreases_to!(*v => *m));
            assert(decreases_to!(*m => m.entries));
            Value::Mapping(Mapping { entries: clone_entries(&m.entries) })
        },
        Value::Sequence(q) => {
            assert(decreases_to!(*v => *q));
            assert(decreases_to!(*q => q.items));
            Value::Sequence(Sequence { items: clone_items(&q.items) })
        },
    }
}

/// A copy of a mapping entry, equal to it in the model.
pub fn clone_entry(e: &MappingEntry) -> (r: MappingEntry)
    ensures
        entry_model(r) == entry_model(*e),
    decreases *e,
{
    assert(decreases_to!(*e => e.value));
    let value = clone_value(&e.value);
    let leading_comments = clone_comments(&e.leading_comments);
    let trailing_comment = match &e.trailing_comment {
        Some(c) => Some(Comment { text: c.text.clone() }),
        None => None,
    };
    MappingEntry { key: e.key.clone(), value, leading_comments, trailing_comment }
}

/// A copy of a list of entries, equal to it in the model.
fn clone_entries(es: &Vec<MappingEntry>) -> (r: Vec<MappingEntry>)
    ensures
        entries_model(r@) == entries_model(es@),
    decreases *es,
{
    let mut out: Vec<MappingEntry> = Vec::new();
    let mut i: usize = 0;
    proof {
        lemma_entries_model(es@);
    }
    while i < es.len()
        invariant
            i <= es@.len(),
            entries_model(out@) == entries_model(es@).take(i as int),
            entries_model(es@).len() == es@.len(),
            forall|k: int| 0 <= k < es@.len() ==> #[trigger] entries_model(es@)[k] == entry_model(es@[k]),
        decreases es@.len() - i,
    {
        assert(decreases_to!(*es => es@));
        assert(decreases_to!(es@ => es@[i as int]));
        let e = clone_entry(&es[i]);
        let ghost before = out@;
        out.push(e);
        proof {
            lemma_entries_model_push(before, e);
            assert(entries_model(es@).take(i + 1) =~= entries_model(es@).take(i as int).push(
                entry_model(es@[i as int]),
            ));
        }
        i += 1;
    }
    assert(entries_model(es@).take(i as int) =~= entries_model(es@));
    out
}

/// A copy of a list of values, equal to it in the model.
fn clone_items(vs: &Vec<Value>) -> (r: Vec<Value>)
    ensures
        items_model(r@) == items_model(vs@),
    decreases *vs,
{
    let mut out: Vec<Value> = Vec::new();
    let mut i: usize = 0;
    proof {
        lemma_items_model(vs@);
    }
    while i < vs.len()
        invariant
            i <= vs@.len(),
            items_model(out@) == items_model(vs@).take(i as int),
            items_model(vs@).len() == vs@.len(),
            forall|k: int| 0 <= k < vs@.len() ==> #[trigger] items_model(vs@)[k] == value_model(vs@[k]),
        decreases vs@.len() - i,
    {
        assert(decreases_to!(*vs => vs@));
        assert(decreases_to!(vs@ => vs@[i as int]));
        let v = clone_value(&vs[i]);
        let ghost before = out@;
        out.push(v);
        proof {
            lemma_items_model_push(before, v);
            assert(items_model(vs@).take(i + 1) =~= items_model(vs@).take(i as int).push(
                value_model(vs@[i as int]),
            ));
        }
        i += 1;
    }
    assert(items_model(vs@).take(i as int) =~= items_model(vs@));
    out
}

impl Clone for Value {
    fn clone(&self) -> (r: Self)
        ensures
            value_model(r) == value_model(*self),
    {
        clone_value(self)
    }
}

impl Clone for Mapping {
    fn clone(&self) -> (r: Self)
        ensures
            entries_model(r.entries@) == entries_model(self.entries@),
    {
        Mapping { entries: clone_entries(&self.entries) }
    }
}

impl Clone for Sequence {
    fn clone(&self) -> (r: Self)
        ensures
            items_model(r.items@) == items_model(self.items@),
    {
        Sequence { items: clone_items(&self.items) }
    }
}

impl Clone for MappingEntry {
    fn clone(&self) -> (r: Self)
        ensures
            entry_model(r) == entry_model(*self),
    {
        clone_entry(self)
    }
}

impl Clone for Document {
    fn clone(&self) -> (r: Self)
        ensures
            document_model(r) == document_model(*self),
    {
        Document {
            body: clone_value(&self.body),
            trailing_comments: clone_comments(&self.trailing_comments),
        }
    }
}

} // verus!
