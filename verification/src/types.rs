//! The tree values that are compared, the change tree that a comparison
//! yields, and the mathematical model (`@`) of each.

use vstd::prelude::*;

verus! {

/// A point in time: whole seconds since the Unix epoch, nanoseconds
/// beyond them, and the offset from UTC (in seconds, east positive) that
/// its text carried. Within a leap second the nanoseconds run on from
/// 1,000,000,000 to 1,999,999,999.
#[derive(Debug, Clone, Copy, PartialEq, Eq, Structural)]
pub struct Instant {
    pub seconds: i64,
    pub nanos: u32,
    pub offset: i32,
}

/// A tree value. An object is a list of named fields. It stands for a
/// map only where the names strictly increase, so that no name comes
/// twice: such a tree is well formed (`well_formed`). `Value::object` and
/// `put_field` build well-formed objects, and `is_well_formed` tests a
/// tree. Equality and comparison take the list as it is: of a tree that
/// is not well formed they speak position by position, and say nothing
/// of it as a map. A number that is no integer is held by its decimal text
/// and compared as text.
#[derive(Debug, PartialEq)]
pub enum Value {
    Null,
    Bool(bool),
    Number(i128),
    Decimal(String),
    String(String),
    Array(Vec<Value>),
    Object(Vec<Field>),
}

/// A named field of an object.
#[derive(Debug, PartialEq)]
pub struct Field {
    pub name: String,
    pub value: Value,
}

/// The model of a `Value`.
pub enum Json {
    Null,
    Bool(bool),
    Number(i128),
    Decimal(Seq<char>),
    Text(Seq<char>),
    Array(Seq<Json>),
    Object(Seq<(Seq<char>, Json)>),
}

impl View for Value {
    type V = Json;

    open spec fn view(&self) -> Json {
        value_model(*self)
    }
}

/// The model of a value.
pub open spec fn value_model(v: Value) -> Json
    decreases v,
{
    match v {
        Value::Null => Json::Null,
        Value::Bool(b) => Json::Bool(b),
        Value::Number(n) => Json::Number(n),
        Value::Decimal(s) => Json::Decimal(s@),
        Value::String(s) => Json::Text(s@),
        Value::Array(xs) => Json::Array(values_model(xs@)),
        Value::Object(fs) => Json::Object(fields_model(fs@)),
    }
}

/// The models of a list of values, in order.
pub open spec fn values_model(xs: Seq<Value>) -> Seq<Json>
    decreases xs,
{
    if xs.len() == 0 {
        Seq::empty()
    } else {
        values_model(xs.drop_last()).push(value_model(xs.last()))
    }
}

/// The names and models of a list of fields, in order.
pub open spec fn fields_model(fs: Seq<Field>) -> Seq<(Seq<char>, Json)>
    decreases fs,
{
    if fs.len() == 0 {
        Seq::empty()
    } else {
        fields_model(fs.drop_last()).push((fs.last().name@, value_model(fs.last().value)))
    }
}

/// The models of a list of values are the models of its items.
pub proof fn lemma_values_model(xs: Seq<Value>)
    ensures
        values_model(xs).len() == xs.len(),
        forall|i: int| 0 <= i < xs.len() ==> (#[trigger] values_model(xs)[i]) == xs[i]@,
    decreases xs.len(),
{
    if xs.len() > 0 {
        lemma_values_model(xs.drop_last());
    }
}

/// The models of a list of fields are the models of its items.
pub proof fn lemma_fields_model(fs: Seq<Field>)
    ensures
        fields_model(fs).len() == fs.len(),
        forall|i: int| 0 <= i < fs.len() ==> (#[trigger] fields_model(fs)[i]) == (fs[i].name@, fs[i].value@),
    decreases fs.len(),
{
    if fs.len() > 0 {
        lemma_fields_model(fs.drop_last());
    }
}

/// A value before and after.
#[derive(Debug, Clone, PartialEq)]
pub struct Change<T> {
    pub before: T,
    pub after: T,
}

/// What changed at one place of the tree.
#[derive(Debug, PartialEq)]
pub enum ValueChange {
    Entries(Vec<FieldChange>),
    Value(Change<Value>),
    Number(Change<i128>),
    Date(Change<Instant>),
    String(Change<String>),
    Bool(Change<bool>),
}

/// What happened to one field.
#[derive(Debug, PartialEq)]
pub enum FieldContentChange {
    Deleted(Value),
    New(Value),
    Diff(ValueChange),
}

/// The change of a registered side field, shown beside another change.
#[derive(Debug, PartialEq)]
pub struct Header {
    pub name: String,
    pub content: ValueChange,
}

/// One field's outcome within a composite change.
#[derive(Debug, PartialEq)]
pub struct FieldChange {
    pub name: String,
    pub headers: Vec<Header>,
    pub content: FieldContentChange,
}

/// The model of a `ValueChange`.
pub enum Delta {
    Entries(Seq<Entry>),
    Value(Json, Json),
    Number(i128, i128),
    Date(Instant, Instant),
    Text(Seq<char>, Seq<char>),
    Bool(bool, bool),
}

/// The model of a `FieldContentChange`.
pub enum Content {
    Deleted(Json),
    New(Json),
    Diff(Delta),
}

/// The model of a `Header`.
pub struct Note {
    pub name: Seq<char>,
    pub content: Delta,
}

/// The model of a `FieldChange`.
pub struct Entry {
    pub name: Seq<char>,
    pub headers: Seq<Note>,
    pub content: Content,
}

impl View for ValueChange {
    type V = Delta;

    open spec fn view(&self) -> Delta {
        change_model(*self)
    }
}

impl View for FieldContentChange {
    type V = Content;

    open spec fn view(&self) -> Content {
        content_model(*self)
    }
}

impl View for Header {
    type V = Note;

    open spec fn view(&self) -> Note {
        Note { name: self.name@, content: change_model(self.content) }
    }
}

impl View for FieldChange {
    type V = Entry;

    open spec fn view(&self) -> Entry {
        entry_model(*self)
    }
}

/// The model of a change.
pub open spec fn change_model(c: ValueChange) -> Delta
    decreases c,
{
    match c {
        ValueChange::Entries(es) => Delta::Entries(entries_model(es@)),
        ValueChange::Value(c) => Delta::Value(c.before@, c.after@),
        ValueChange::Number(c) => Delta::Number(c.before, c.after),
        ValueChange::Date(c) => Delta::Date(c.before, c.after),
        ValueChange::String(c) => Delta::Text(c.before@, c.after@),
        ValueChange::Bool(c) => Delta::Bool(c.before, c.after),
    }
}

/// The model of a field's content.
pub open spec fn content_model(c: FieldContentChange) -> Content
    decreases c,
{
    match c {
        FieldContentChange::Deleted(v) => Content::Deleted(v@),
        FieldContentChange::New(v) => Content::New(v@),
        FieldContentChange::Diff(d) => Content::Diff(change_model(d)),
    }
}

/// The model of a field change.
pub open spec fn entry_model(e: FieldChange) -> Entry
    decreases e,
{
    Entry { name: e.name@, headers: notes_model(e.headers@), content: content_model(e.content) }
}

/// The models of a list of field changes, in order.
pub open spec fn entries_model(es: Seq<FieldChange>) -> Seq<Entry>
    decreases es,
{
    if es.len() == 0 {
        Seq::empty()
    } else {
        entries_model(es.drop_last()).push(entry_model(es.last()))
    }
}

/// The models of a list of headers, in order.
pub open spec fn notes_model(hs: Seq<Header>) -> Seq<Note>
    decreases hs,
{
    if hs.len() == 0 {
        Seq::empty()
    } else {
        notes_model(hs.drop_last()).push(
            Note { name: hs.last().name@, content: change_model(hs.last().content) },
        )
    }
}

/// The models of a list of field changes are the models of its items.
pub proof fn lemma_entries_model(es: Seq<FieldChange>)
    ensures
        entries_model(es).len() == es.len(),
        forall|i: int| 0 <= i < es.len() ==> (#[trigger] entries_model(es)[i]) == es[i]@,
    decreases es.len(),
{
    if es.len() > 0 {
        lemma_entries_model(es.drop_last());
    }
}

/// The models of a list of headers are the models of its items.
pub proof fn lemma_notes_model(hs: Seq<Header>)
    ensures
        notes_model(hs).len() == hs.len(),
        forall|i: int| 0 <= i < hs.len() ==> (#[trigger] notes_model(hs)[i]) == hs[i]@,
    decreases hs.len(),
{
    if hs.len() > 0 {
        lemma_notes_model(hs.drop_last());
    }
}

impl ValueChange {
    /// Whether the change has no fields below it: every leaf, and a
    /// composite whose list is empty.
    pub fn is_leaf(&self) -> (r: bool)
        ensures
            r == self@.is_leaf(),
    {
        match self {
            ValueChange::Entries(xs) => {
                assert(self.view() is Entries);
                proof {
                    lemma_entries_model(xs@);
                }
                xs.len() == 0
            },
            _ => true,
        }
    }
}

impl Delta {
    /// Whether the change has no fields below it.
    pub open spec fn is_leaf(self) -> bool {
        match self {
            Delta::Entries(es) => es.len() == 0,
            _ => true,
        }
    }
}

} // verus!
