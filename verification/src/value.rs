//! Structured values: a closed union with one variant for each kind of field,
//! for any message instance of any schema.

use crate::text::{lemma_position_is, position, put};
use vstd::prelude::*;

verus! {

/// The key of one entry of a keyed field.
#[derive(Debug, PartialEq)]
pub enum MapKey {
    Bool(bool),
    Int32(i32),
    Int64(i64),
    UInt32(u32),
    UInt64(u64),
    Text(String),
}

/// One present field of a message: its name and its value.
#[derive(Debug, PartialEq)]
pub struct FieldValue {
    pub name: String,
    pub value: StructuredValue,
}

/// One entry of a keyed field.
#[derive(Debug, PartialEq)]
pub struct Entry {
    pub key: MapKey,
    pub value: StructuredValue,
}

/// A message: the place of its type in the schema, and the fields that are
/// present, in the order in which they were set. An absent field is not held.
#[derive(Debug, PartialEq)]
pub struct Message {
    pub type_id: usize,
    pub fields: Vec<FieldValue>,
}

/// A structured value. Floats are held as IEEE-754 bit patterns.
#[derive(Debug, PartialEq)]
pub enum StructuredValue {
    Bool(bool),
    Int32(i32),
    Int64(i64),
    UInt32(u32),
    UInt64(u64),
    Float32(u32),
    Float64(u64),
    Text(String),
    Bytes(Vec<u8>),
    EnumNumber(i32),
    Message(Message),
    List(Vec<StructuredValue>),
    Keyed(Vec<Entry>),
}

/// The mathematical content of a [`MapKey`].
pub enum KeyView {
    Bool(bool),
    Int32(i32),
    Int64(i64),
    UInt32(u32),
    UInt64(u64),
    Text(Seq<char>),
}

/// The mathematical content of a [`Message`].
pub struct MessageView {
    pub type_id: usize,
    pub fields: Seq<(Seq<char>, ValueView)>,
}

/// The mathematical content of a [`StructuredValue`].
pub enum ValueView {
    Bool(bool),
    Int32(i32),
    Int64(i64),
    UInt32(u32),
    UInt64(u64),
    Float32(u32),
    Float64(u64),
    Text(Seq<char>),
    Bytes(Seq<u8>),
    EnumNumber(i32),
    Message(MessageView),
    List(Seq<ValueView>),
    Keyed(Seq<(KeyView, ValueView)>),
}

impl View for MapKey {
    type V = KeyView;

    open spec fn view(&self) -> KeyView {
        match self {
            MapKey::Bool(b) => KeyView::Bool(*b),
            MapKey::Int32(n) => KeyView::Int32(*n),
            MapKey::Int64(n) => KeyView::Int64(*n),
            MapKey::UInt32(n) => KeyView::UInt32(*n),
            MapKey::UInt64(n) => KeyView::UInt64(*n),
            MapKey::Text(s) => KeyView::Text(s@),
        }
    }
}

impl View for StructuredValue {
    type V = ValueView;

    open spec fn view(&self) -> ValueView {
        value_view(*self)
    }
}

impl View for Message {
    type V = MessageView;

    open spec fn view(&self) -> MessageView {
        MessageView { type_id: self.type_id, fields: fields_view(self.fields@) }
    }
}

/// The content of a structured value.
pub open spec fn value_view(value: StructuredValue) -> ValueView
    decreases value,
{
    match value {
        StructuredValue::Bool(b) => ValueView::Bool(b),
        StructuredValue::Int32(n) => ValueView::Int32(n),
        StructuredValue::Int64(n) => ValueView::Int64(n),
        StructuredValue::UInt32(n) => ValueView::UInt32(n),
        StructuredValue::UInt64(n) => ValueView::UInt64(n),
        StructuredValue::Float32(bits) => ValueView::Float32(bits),
        StructuredValue::Float64(bits) => ValueView::Float64(bits),
        StructuredValue::Text(s) => ValueView::Text(s@),
        StructuredValue::Bytes(bytes) => ValueView::Bytes(bytes@),
        StructuredValue::EnumNumber(n) => ValueView::EnumNumber(n),
        StructuredValue::Message(message) => ValueView::Message(
            MessageView { type_id: message.type_id, fields: fields_view(message.fields@) },
        ),
        StructuredValue::List(items) => ValueView::List(list_view(items@)),
        StructuredValue::Keyed(entries) => ValueView::Keyed(entries_view(entries@)),
    }
}

/// The present fields of a message, each as its name and its content.
pub open spec fn fields_view(fields: Seq<FieldValue>) -> Seq<(Seq<char>, ValueView)>
    decreases fields,
{
    if fields.len() == 0 {
        Seq::empty()
    } else {
        fields_view(fields.drop_last()).push((fields.last().name@, value_view(fields.last().value)))
    }
}

/// The contents of the items of a list, in their order.
pub open spec fn list_view(items: Seq<StructuredValue>) -> Seq<ValueView>
    decreases items,
{
    if items.len() == 0 {
        Seq::empty()
    } else {
        list_view(items.drop_last()).push(value_view(items.last()))
    }
}

/// The entries of a keyed field, each as the contents of its key and value.
pub open spec fn entries_view(entries: Seq<Entry>) -> Seq<(KeyView, ValueView)>
    decreases entries,
{
    if entries.len() == 0 {
        Seq::empty()
    } else {
        entries_view(entries.drop_last()).push((entries.last().key@, value_view(entries.last().value)))
    }
}

/// The fields of a message stand field by field.
pub proof fn lemma_fields_view(fields: Seq<FieldValue>)
    ensures
        fields_view(fields).len() == fields.len(),
        forall|i: int|
            0 <= i < fields.len() ==> fields_view(fields)[i] == (fields[i].name@, fields[i].value@),
    decreases fields.len(),
{
    if fields.len() > 0 {
        lemma_fields_view(fields.drop_last());
    }
}

/// The items of a list stand item by item.
pub proof fn lemma_list_view(items: Seq<StructuredValue>)
    ensures
        list_view(items).len() == items.len(),
        forall|i: int| 0 <= i < items.len() ==> list_view(items)[i] == items[i]@,
    decreases items.len(),
{
    if items.len() > 0 {
        lemma_list_view(items.drop_last());
    }
}

/// The entries of a keyed field stand entry by entry.
pub proof fn lemma_entries_view(entries: Seq<Entry>)
    ensures
        entries_view(entries).len() == entries.len(),
        forall|i: int|
            0 <= i < entries.len() ==> entries_view(entries)[i] == (
                entries[i].key@,
                entries[i].value@,
            ),
    decreases entries.len(),
{
    if entries.len() > 0 {
        lemma_entries_view(entries.drop_last());
    }
}

/// A list with one more item holds the contents of the list and of the item.
pub proof fn lemma_list_view_push(items: Seq<StructuredValue>, item: StructuredValue)
    ensures
        list_view(items.push(item)) == list_view(items).push(item@),
{
    assert(items.push(item).drop_last() == items);
}

/// Entries with one more entry hold the contents of the entries and of the
/// entry.
pub proof fn lemma_entries_view_push(entries: Seq<Entry>, entry: Entry)
    ensures
        entries_view(entries.push(entry)) == entries_view(entries).push((entry.key@, entry.value@)),
{
    assert(entries.push(entry).drop_last() == entries);
}

impl Message {
    /// The place of the first present field called `name`.
    #[verifier::loop_isolation(false)]
    pub fn find(fields: &Vec<FieldValue>, name: &String) -> (at: Option<usize>)
        ensures
            match at {
                Some(i) => i < fields.len() && i == position(fields_view(fields@), name@),
                None => position(fields_view(fields@), name@) == fields.len(),
            },
    {
        proof {
            lemma_fields_view(fields@);
        }
        let ghost view = fields_view(fields@);
        let mut i: usize = 0;
        while i < fields.len()
            invariant
                i <= fields.len(),
                forall|j: int| 0 <= j < i ==> (#[trigger] view[j]).0 != name@,
            decreases fields.len() - i,
        {
            if fields[i].name == *name {
                proof {
                    lemma_position_is(view, name@, i as int);
                }
                return Some(i);
            }
            i += 1;
        }
        proof {
            lemma_position_is(view, name@, i as int);
        }
        None
    }

    /// Sets the field `name` to `value`: in the place of the field where it
    /// is present, or after the present fields where it is not.
    pub fn set_field(fields: &mut Vec<FieldValue>, name: String, value: StructuredValue)
        ensures
            fields_view(final(fields)@) == put(fields_view(old(fields)@), name@, value@),
    {
        let ghost before = fields_view(fields@);
        proof {
            lemma_fields_view(fields@);
        }
        match Message::find(fields, &name) {
            Some(at) => {
                fields.set(at, FieldValue { name, value });
                proof {
                    lemma_fields_view(fields@);
                }
                assert(fields_view(fields@) =~= before.update(at as int, (name@, value@)));
            },
            None => {
                fields.push(FieldValue { name, value });
                proof {
                    lemma_fields_view(fields@);
                }
                assert(fields_view(fields@) =~= before.push((name@, value@)));
            },
        }
    }
}

} // verus!
