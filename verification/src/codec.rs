//! The value codec: from a textual document to a structured value of a
//! message type, and from a structured value back to a textual document.

use crate::decimal::{
    decimal_of_i64, decimal_of_u64, decimal_text, whole_from_text, whole_of_text,
};
use crate::encoding::{decode_standard, encode_standard, standard_decoding, standard_encoding};
use crate::float::{
    double_from_single, double_is_finite, double_of_single, is_finite_double, is_finite_single,
    single_from_double, single_is_finite, single_of_double,
};
use crate::schema::{
    element_in_catalog, element_of, field_names, name_position, value_names, ElementKind,
    EnumType, Field, FieldKind, KeyKind, Schema,
};
use crate::text::{
    items_view, lemma_items_view, lemma_items_view_push, lemma_members_view, members_view, put,
    Json, JsonView, Member, Number,
};
use crate::value::{
    entries_view, fields_view, lemma_entries_view, lemma_entries_view_push, lemma_fields_view,
    lemma_list_view, lemma_list_view_push, list_view, Entry, FieldValue, KeyView, MapKey, Message,
    MessageView, StructuredValue, ValueView,
};
use vstd::prelude::*;

verus! {

/// Why a document could not be converted, or a message not be read.
#[derive(Clone, Copy, Debug, PartialEq, Eq, Structural)]
pub enum CodecError {
    /// No message type of the schema has the name.
    SchemaNotFound,
    /// The document names a field that the message type does not have.
    UnknownField,
    /// A value of the document is not of the kind of its field.
    TypeMismatch,
    /// The text given for a byte sequence is not standard base64.
    InvalidBytesEncoding,
    /// The symbolic name given for an enumeration is not one of its values.
    UnknownEnumValue,
    /// The bytes of a message could not be read against its type.
    DecodeError,
}

/// The signed whole number that a document is, where it is one of 64 bits.
pub open spec fn signed_of(doc: JsonView) -> Option<i64> {
    match doc {
        JsonView::Number(n) => n.as_i64(),
        _ => None,
    }
}

/// The unsigned whole number that a document is, where it is one of 64 bits.
pub open spec fn unsigned_of(doc: JsonView) -> Option<u64> {
    match doc {
        JsonView::Number(n) => n.as_u64(),
        _ => None,
    }
}

/// Whether a whole number fits in 32 bits with a sign.
pub open spec fn within_i32(n: int) -> bool {
    -0x8000_0000 <= n <= 0x7fff_ffff
}

/// The value that a document gives to a field that is no nested message.
///
/// A boolean takes a boolean. A whole number takes a number that is whole and
/// within the width of the field. A float takes any number whose nearest
/// double or single is finite. A text takes a text, a byte sequence the text
/// of its standard base64 encoding. An enumeration takes the symbolic name of
/// one of its values, or any whole number of 32 bits with a sign, whether it
/// is the number of a value or not. Everything else is a `TypeMismatch`.
pub open spec fn convert_leaf(enums: Seq<EnumType>, kind: ElementKind, doc: JsonView) -> Result<
    ValueView,
    CodecError,
> {
    match kind {
        ElementKind::Bool => match doc {
            JsonView::Bool(b) => Ok(ValueView::Bool(b)),
            _ => Err(CodecError::TypeMismatch),
        },
        ElementKind::Int32 => match signed_of(doc) {
            Some(n) => if within_i32(n as int) {
                Ok(ValueView::Int32(n as i32))
            } else {
                Err(CodecError::TypeMismatch)
            },
            None => Err(CodecError::TypeMismatch),
        },
        ElementKind::Int64 => match signed_of(doc) {
            Some(n) => Ok(ValueView::Int64(n)),
            None => Err(CodecError::TypeMismatch),
        },
        ElementKind::UInt32 => match unsigned_of(doc) {
            Some(n) => if n <= 0xffff_ffff {
                Ok(ValueView::UInt32(n as u32))
            } else {
                Err(CodecError::TypeMismatch)
            },
            None => Err(CodecError::TypeMismatch),
        },
        ElementKind::UInt64 => match unsigned_of(doc) {
            Some(n) => Ok(ValueView::UInt64(n)),
            None => Err(CodecError::TypeMismatch),
        },
        ElementKind::Float32 => match doc {
            JsonView::Number(n) => if single_is_finite(single_from_double(n.as_double()) as u32) {
                Ok(ValueView::Float32(single_from_double(n.as_double()) as u32))
            } else {
                Err(CodecError::TypeMismatch)
            },
            _ => Err(CodecError::TypeMismatch),
        },
        ElementKind::Float64 => match doc {
            JsonView::Number(n) => if double_is_finite(n.as_double()) {
                Ok(ValueView::Float64(n.as_double()))
            } else {
                Err(CodecError::TypeMismatch)
            },
            _ => Err(CodecError::TypeMismatch),
        },
        ElementKind::Text => match doc {
            JsonView::Text(s) => Ok(ValueView::Text(s)),
            _ => Err(CodecError::TypeMismatch),
        },
        ElementKind::Bytes => match doc {
            JsonView::Text(s) => match standard_decoding(s) {
                Some(bytes) => Ok(ValueView::Bytes(bytes)),
                None => Err(CodecError::InvalidBytesEncoding),
            },
            _ => Err(CodecError::TypeMismatch),
        },
        ElementKind::Enumeration(at) => match doc {
            JsonView::Text(s) => {
                let values = enums[at as int].values@;
                let place = name_position(value_names(values), s);
                if place < values.len() {
                    Ok(ValueView::EnumNumber(values[place].number))
                } else {
                    Err(CodecError::UnknownEnumValue)
                }
            },
            _ => match signed_of(doc) {
                Some(n) => if within_i32(n as int) {
                    Ok(ValueView::EnumNumber(n as i32))
                } else {
                    Err(CodecError::TypeMismatch)
                },
                None => Err(CodecError::TypeMismatch),
            },
        },
        ElementKind::Message(_) => Err(CodecError::TypeMismatch),
    }
}

/// The key that the name of a member gives to a keyed field: the name itself
/// for text keys, the boolean that it spells, or the whole number, within the
/// width of the keys, that it is the decimal text of. A name that is none of
/// these is a `TypeMismatch`.
pub open spec fn convert_key(kind: KeyKind, name: Seq<char>) -> Result<KeyView, CodecError> {
    match kind {
        KeyKind::Text => Ok(KeyView::Text(name)),
        KeyKind::Bool => if name == "true"@ {
            Ok(KeyView::Bool(true))
        } else if name == "false"@ {
            Ok(KeyView::Bool(false))
        } else {
            Err(CodecError::TypeMismatch)
        },
        KeyKind::Int32 => match whole_of_text(name, -0x8000_0000, 0x7fff_ffff) {
            Some(n) => Ok(KeyView::Int32(n as i32)),
            None => Err(CodecError::TypeMismatch),
        },
        KeyKind::Int64 => match whole_of_text(
            name,
            -0x8000_0000_0000_0000,
            0x7fff_ffff_ffff_ffff,
        ) {
            Some(n) => Ok(KeyView::Int64(n as i64)),
            None => Err(CodecError::TypeMismatch),
        },
        KeyKind::UInt32 => match whole_of_text(name, 0, 0xffff_ffff) {
            Some(n) => Ok(KeyView::UInt32(n as u32)),
            None => Err(CodecError::TypeMismatch),
        },
        KeyKind::UInt64 => match whole_of_text(name, 0, 0xffff_ffff_ffff_ffff) {
            Some(n) => Ok(KeyView::UInt64(n as u64)),
            None => Err(CodecError::TypeMismatch),
        },
    }
}

/// The value that a document gives to one value of kind `kind`: for a nested
/// message, the message of the members of an object; for every other kind,
/// what `convert_leaf` says.
pub open spec fn convert(schema: Schema, kind: ElementKind, doc: JsonView) -> Result<
    ValueView,
    CodecError,
>
    decreases doc, 0nat,
{
    match kind {
        ElementKind::Message(at) => match doc {
            JsonView::Object(members) => match convert_members(
                schema,
                schema.messages@[at as int].fields@,
                members,
            ) {
                Ok(fields) => Ok(ValueView::Message(MessageView { type_id: at, fields })),
                Err(e) => Err(e),
            },
            _ => Err(CodecError::TypeMismatch),
        },
        _ => convert_leaf(schema.enums@, kind, doc),
    }
}

/// The value that a document gives to a field: one value, a list of the
/// values of the items of an array, or the entries of the members of an
/// object.
pub open spec fn convert_field(schema: Schema, kind: FieldKind, doc: JsonView) -> Result<
    ValueView,
    CodecError,
>
    decreases doc, 1nat,
{
    match kind {
        FieldKind::Single(element) => convert(schema, element, doc),
        FieldKind::Repeated(element) => match doc {
            JsonView::Array(items) => match convert_items(schema, element, items) {
                Ok(values) => Ok(ValueView::List(values)),
                Err(e) => Err(e),
            },
            _ => Err(CodecError::TypeMismatch),
        },
        FieldKind::Keyed(key, element) => match doc {
            JsonView::Object(members) => match convert_entries(schema, key, element, members) {
                Ok(entries) => Ok(ValueView::Keyed(entries)),
                Err(e) => Err(e),
            },
            _ => Err(CodecError::TypeMismatch),
        },
    }
}

/// The fields that the members of an object give to a message with the
/// fields `fields`, member by member in their order: a member whose name is
/// no field is an `UnknownField`, the first member that fails gives the error,
/// and a field is set by each member that names it.
pub open spec fn convert_members(
    schema: Schema,
    fields: Seq<Field>,
    members: Seq<(Seq<char>, JsonView)>,
) -> Result<Seq<(Seq<char>, ValueView)>, CodecError>
    decreases members, 0nat,
{
    if members.len() == 0 {
        Ok(Seq::empty())
    } else {
        match convert_members(schema, fields, members.drop_last()) {
            Err(e) => Err(e),
            Ok(done) => {
                let place = name_position(field_names(fields), members.last().0);
                if place >= fields.len() {
                    Err(CodecError::UnknownField)
                } else {
                    match convert_field(schema, fields[place].kind, members.last().1) {
                        Err(e) => Err(e),
                        Ok(value) => Ok(put(done, members.last().0, value)),
                    }
                }
            },
        }
    }
}

/// The values that the items of an array give, item by item in their order;
/// the first item that fails gives the error.
pub open spec fn convert_items(schema: Schema, kind: ElementKind, items: Seq<JsonView>) -> Result<
    Seq<ValueView>,
    CodecError,
>
    decreases items, 0nat,
{
    if items.len() == 0 {
        Ok(Seq::empty())
    } else {
        match convert_items(schema, kind, items.drop_last()) {
            Err(e) => Err(e),
            Ok(done) => match convert(schema, kind, items.last()) {
                Err(e) => Err(e),
                Ok(value) => Ok(done.push(value)),
            },
        }
    }
}

/// The entries that the members of an object give to a keyed field, member
/// by member in their order; the first member that fails gives the error, by
/// its name before its value.
pub open spec fn convert_entries(
    schema: Schema,
    key: KeyKind,
    kind: ElementKind,
    members: Seq<(Seq<char>, JsonView)>,
) -> Result<Seq<(KeyView, ValueView)>, CodecError>
    decreases members, 0nat,
{
    if members.len() == 0 {
        Ok(Seq::empty())
    } else {
        match convert_entries(schema, key, kind, members.drop_last()) {
            Err(e) => Err(e),
            Ok(done) => match convert_key(key, members.last().0) {
                Err(e) => Err(e),
                Ok(k) => match convert(schema, kind, members.last().1) {
                    Err(e) => Err(e),
                    Ok(value) => Ok(done.push((k, value))),
                },
            },
        }
    }
}

/// The message that a document gives to the message type at `at`: the fields
/// of its members where it is an object, and no field where it is anything
/// else.
pub open spec fn build(schema: Schema, at: usize, doc: JsonView) -> Result<
    MessageView,
    CodecError,
> {
    match doc {
        JsonView::Object(members) => match convert_members(
            schema,
            schema.messages@[at as int].fields@,
            members,
        ) {
            Ok(fields) => Ok(MessageView { type_id: at, fields }),
            Err(e) => Err(e),
        },
        _ => Ok(MessageView { type_id: at, fields: Seq::empty() }),
    }
}

/// Whether what a function returned is what `expected` holds: the error,
/// or a value of that content.
pub open spec fn agrees(
    got: Result<StructuredValue, CodecError>,
    expected: Result<ValueView, CodecError>,
) -> bool {
    match got {
        Ok(value) => expected == Ok::<ValueView, CodecError>(value@),
        Err(e) => expected == Err::<ValueView, CodecError>(e),
    }
}

/// An error among the first members is the error of all the members.
pub proof fn lemma_members_error(
    schema: Schema,
    fields: Seq<Field>,
    members: Seq<(Seq<char>, JsonView)>,
    n: int,
)
    requires
        0 <= n <= members.len(),
        convert_members(schema, fields, members.take(n)) is Err,
    ensures
        convert_members(schema, fields, members) == convert_members(schema, fields, members.take(n)),
    decreases members.len(),
{
    if n == members.len() {
        assert(members.take(n) == members);
    } else {
        assert(members.drop_last().take(n) == members.take(n));
        lemma_members_error(schema, fields, members.drop_last(), n);
    }
}

/// An error among the first items is the error of all the items.
pub proof fn lemma_items_error(schema: Schema, kind: ElementKind, items: Seq<JsonView>, n: int)
    requires
        0 <= n <= items.len(),
        convert_items(schema, kind, items.take(n)) is Err,
    ensures
        convert_items(schema, kind, items) == convert_items(schema, kind, items.take(n)),
    decreases items.len(),
{
    if n == items.len() {
        assert(items.take(n) == items);
    } else {
        assert(items.drop_last().take(n) == items.take(n));
        lemma_items_error(schema, kind, items.drop_last(), n);
    }
}

/// An error among the first members is the error of all the members.
pub proof fn lemma_entries_error(
    schema: Schema,
    key: KeyKind,
    kind: ElementKind,
    members: Seq<(Seq<char>, JsonView)>,
    n: int,
)
    requires
        0 <= n <= members.len(),
        convert_entries(schema, key, kind, members.take(n)) is Err,
    ensures
        convert_entries(schema, key, kind, members) == convert_entries(
            schema,
            key,
            kind,
            members.take(n),
        ),
    decreases members.len(),
{
    if n == members.len() {
        assert(members.take(n) == members);
    } else {
        assert(members.drop_last().take(n) == members.take(n));
        lemma_entries_error(schema, key, kind, members.drop_last(), n);
    }
}

/// The value of a byte sequence field from what the base64 decoder returned:
/// the bytes, or `InvalidBytesEncoding` where it failed.
pub fn bytes_from_decoding(decoded: Result<Vec<u8>, base64::DecodeError>) -> (r: Result<
    StructuredValue,
    CodecError,
>)
    ensures
        match decoded {
            Ok(bytes) => r matches Ok(value) && value@ == ValueView::Bytes(bytes@),
            Err(_) => r == Err::<StructuredValue, CodecError>(CodecError::InvalidBytesEncoding),
        },
{
    match decoded {
        Ok(bytes) => Ok(StructuredValue::Bytes(bytes)),
        Err(_) => Err(CodecError::InvalidBytesEncoding),
    }
}

impl Schema {
    /// The value that `doc` gives to one value of a kind that is no nested
    /// message.
    pub fn leaf_from_text(&self, kind: ElementKind, doc: &Json) -> (r: Result<
        StructuredValue,
        CodecError,
    >)
        requires
            element_in_catalog(kind, self.messages@.len(), self.enums@.len()),
        ensures
            agrees(r, convert_leaf(self.enums@, kind, doc@)),
    {
        match kind {
            ElementKind::Bool => match doc {
                Json::Bool(b) => Ok(StructuredValue::Bool(*b)),
                _ => Err(CodecError::TypeMismatch),
            },
            ElementKind::Int32 => match signed(doc) {
                Some(n) => if -0x8000_0000 <= n && n <= 0x7fff_ffff {
                    Ok(StructuredValue::Int32(n as i32))
                } else {
                    Err(CodecError::TypeMismatch)
                },
                None => Err(CodecError::TypeMismatch),
            },
            ElementKind::Int64 => match signed(doc) {
                Some(n) => Ok(StructuredValue::Int64(n)),
                None => Err(CodecError::TypeMismatch),
            },
            ElementKind::UInt32 => match unsigned(doc) {
                Some(n) => if n <= 0xffff_ffff {
                    Ok(StructuredValue::UInt32(n as u32))
                } else {
                    Err(CodecError::TypeMismatch)
                },
                None => Err(CodecError::TypeMismatch),
            },
            ElementKind::UInt64 => match unsigned(doc) {
                Some(n) => Ok(StructuredValue::UInt64(n)),
                None => Err(CodecError::TypeMismatch),
            },
            ElementKind::Float32 => match doc {
                Json::Number(n) => {
                    let bits = single_of_double(n.to_double());
                    if is_finite_single(bits) {
                        Ok(StructuredValue::Float32(bits))
                    } else {
                        Err(CodecError::TypeMismatch)
                    }
                },
                _ => Err(CodecError::TypeMismatch),
            },
            ElementKind::Float64 => match doc {
                Json::Number(n) => {
                    let bits = n.to_double();
                    if is_finite_double(bits) {
                        Ok(StructuredValue::Float64(bits))
                    } else {
                        Err(CodecError::TypeMismatch)
                    }
                },
                _ => Err(CodecError::TypeMismatch),
            },
            ElementKind::Text => match doc {
                Json::Text(s) => Ok(StructuredValue::Text(s.clone())),
                _ => Err(CodecError::TypeMismatch),
            },
            ElementKind::Bytes => match doc {
                Json::Text(s) => bytes_from_decoding(decode_standard(s.as_str())),
                _ => Err(CodecError::TypeMismatch),
            },
            ElementKind::Enumeration(at) => match doc {
                Json::Text(s) => {
                    let values = &self.enums[at].values;
                    match Schema::find_value(values, s) {
                        Some(place) => Ok(StructuredValue::EnumNumber(values[place].number)),
                        None => Err(CodecError::UnknownEnumValue),
                    }
                },
                _ => match signed(doc) {
                    Some(n) => if -0x8000_0000 <= n && n <= 0x7fff_ffff {
                        Ok(StructuredValue::EnumNumber(n as i32))
                    } else {
                        Err(CodecError::TypeMismatch)
                    },
                    None => Err(CodecError::TypeMismatch),
                },
            },
            ElementKind::Message(_) => Err(CodecError::TypeMismatch),
        }
    }

    /// The value that `doc` gives to one value of kind `kind`.
    pub fn element_from_text(&self, kind: ElementKind, doc: &Json) -> (r: Result<
        StructuredValue,
        CodecError,
    >)
        requires
            self.wf(),
            element_in_catalog(kind, self.messages@.len(), self.enums@.len()),
        ensures
            agrees(r, convert(*self, kind, doc@)),
        decreases doc, 0nat,
    {
        match kind {
            ElementKind::Message(at) => match doc {
                Json::Object(members) => {
                    match self.fields_from_members(at, members) {
                        Ok(fields) => Ok(StructuredValue::Message(Message { type_id: at, fields })),
                        Err(e) => Err(e),
                    }
                },
                _ => Err(CodecError::TypeMismatch),
            },
            _ => self.leaf_from_text(kind, doc),
        }
    }

    /// The value that `doc` gives to a field of kind `kind`.
    #[verifier::loop_isolation(false)]
    pub fn field_from_text(&self, kind: FieldKind, doc: &Json) -> (r: Result<
        StructuredValue,
        CodecError,
    >)
        requires
            self.wf(),
            element_in_catalog(element_of(kind), self.messages@.len(), self.enums@.len()),
        ensures
            agrees(r, convert_field(*self, kind, doc@)),
        decreases doc, 1nat,
    {
        match kind {
            FieldKind::Single(element) => self.element_from_text(element, doc),
            FieldKind::Repeated(element) => match doc {
                Json::Array(items) => {
                    proof {
                        lemma_items_view(items@);
                    }
                    let ghost docs = items_view(items@);
                    let mut out: Vec<StructuredValue> = Vec::new();
                    let mut i: usize = 0;
                    assert(docs.take(0) == Seq::<JsonView>::empty());
                    while i < items.len()
                        invariant
                            i <= items.len(),
                            convert_items(*self, element, docs.take(i as int)) == Ok::<
                                Seq<ValueView>,
                                CodecError,
                            >(list_view(out@)),
                        decreases items.len() - i,
                    {
                        let ghost next = docs.take(i + 1);
                        assert(next.drop_last() == docs.take(i as int));
                        assert(next.last() == items@[i as int]@);
                        match self.element_from_text(element, &items[i]) {
                            Ok(value) => {
                                proof {
                                    lemma_list_view_push(out@, value);
                                }
                                out.push(value);
                            },
                            Err(e) => {
                                proof {
                                    lemma_items_error(*self, element, docs, i + 1);
                                }
                                return Err(e);
                            },
                        }
                        i += 1;
                    }
                    assert(docs.take(i as int) == docs);
                    Ok(StructuredValue::List(out))
                },
                _ => Err(CodecError::TypeMismatch),
            },
            FieldKind::Keyed(key, element) => match doc {
                Json::Object(members) => {
                    proof {
                        lemma_members_view(members@);
                    }
                    let ghost docs = members_view(members@);
                    let mut out: Vec<Entry> = Vec::new();
                    let mut i: usize = 0;
                    assert(docs.take(0) == Seq::<(Seq<char>, JsonView)>::empty());
                    while i < members.len()
                        invariant
                            i <= members.len(),
                            convert_entries(*self, key, element, docs.take(i as int)) == Ok::<
                                Seq<(KeyView, ValueView)>,
                                CodecError,
                            >(entries_view(out@)),
                        decreases members.len() - i,
                    {
                        let ghost next = docs.take(i + 1);
                        assert(next.drop_last() == docs.take(i as int));
                        assert(next.last() == (members@[i as int].key@, members@[i as int].value@));
                        match key_from_name(key, &members[i].key) {
                            Err(e) => {
                                proof {
                                    lemma_entries_error(*self, key, element, docs, i + 1);
                                }
                                return Err(e);
                            },
                            Ok(k) => match self.element_from_text(element, &members[i].value) {
                                Ok(value) => {
                                    let entry = Entry { key: k, value };
                                    proof {
                                        lemma_entries_view_push(out@, entry);
                                    }
                                    out.push(entry);
                                },
                                Err(e) => {
                                    proof {
                                        lemma_entries_error(*self, key, element, docs, i + 1);
                                    }
                                    return Err(e);
                                },
                            },
                        }
                        i += 1;
                    }
                    assert(docs.take(i as int) == docs);
                    Ok(StructuredValue::Keyed(out))
                },
                _ => Err(CodecError::TypeMismatch),
            },
        }
    }

    /// The fields that `members` give to a message of the type at `at`.
    #[verifier::loop_isolation(false)]
    pub fn fields_from_members(&self, at: usize, members: &Vec<Member>) -> (r: Result<
        Vec<FieldValue>,
        CodecError,
    >)
        requires
            self.wf(),
            at < self.messages@.len(),
        ensures
            match r {
                Ok(out) => convert_members(
                    *self,
                    self.messages@[at as int].fields@,
                    members_view(members@),
                ) == Ok::<Seq<(Seq<char>, ValueView)>, CodecError>(fields_view(out@)),
                Err(e) => convert_members(
                    *self,
                    self.messages@[at as int].fields@,
                    members_view(members@),
                ) == Err::<Seq<(Seq<char>, ValueView)>, CodecError>(e),
            },
        decreases members, 0nat,
    {
        proof {
            lemma_members_view(members@);
        }
        let fields = &self.messages[at].fields;
        let ghost docs = members_view(members@);
        let mut out: Vec<FieldValue> = Vec::new();
        let mut i: usize = 0;
        assert(docs.take(0) == Seq::<(Seq<char>, JsonView)>::empty());
        while i < members.len()
            invariant
                i <= members.len(),
                convert_members(*self, fields@, docs.take(i as int)) == Ok::<
                    Seq<(Seq<char>, ValueView)>,
                    CodecError,
                >(fields_view(out@)),
            decreases members.len() - i,
        {
            let ghost next = docs.take(i + 1);
            assert(next.drop_last() == docs.take(i as int));
            assert(next.last() == (members@[i as int].key@, members@[i as int].value@));
            match Schema::find_field(fields, &members[i].key) {
                None => {
                    proof {
                        lemma_members_error(*self, fields@, docs, i + 1);
                    }
                    return Err(CodecError::UnknownField);
                },
                Some(place) => {
                    assert(element_in_catalog(
                        element_of(self.messages@[at as int].fields@[place as int].kind),
                        self.messages@.len(),
                        self.enums@.len(),
                    ));
                    match self.field_from_text(fields[place].kind, &members[i].value) {
                        Ok(value) => {
                            Message::set_field(&mut out, members[i].key.clone(), value);
                        },
                        Err(e) => {
                            proof {
                                lemma_members_error(*self, fields@, docs, i + 1);
                            }
                            return Err(e);
                        },
                    }
                },
            }
            i += 1;
        }
        assert(docs.take(i as int) == docs);
        Ok(out)
    }
}

/// The name under which a document lists an entry of a keyed field: a text
/// key itself, a boolean key as `true` or `false`, a whole number as its
/// decimal text.
pub open spec fn key_text(key: KeyView) -> Seq<char> {
    match key {
        KeyView::Bool(b) => if b {
            "true"@
        } else {
            "false"@
        },
        KeyView::Int32(n) => decimal_text(n as int),
        KeyView::Int64(n) => decimal_text(n as int),
        KeyView::UInt32(n) => decimal_text(n as int),
        KeyView::UInt64(n) => decimal_text(n as int),
        KeyView::Text(s) => s,
    }
}

/// The document of a structured value.
///
/// A whole number is a number, and so is the number of an enumeration value,
/// never its symbolic name. A finite float is a number, any other float is
/// null. A byte sequence is the text of its standard base64 encoding. A
/// message is an object of its present fields, a list an array, and a keyed
/// field an object with a member for each entry.
pub open spec fn render(value: ValueView) -> JsonView
    decreases value, 0nat,
{
    match value {
        ValueView::Bool(b) => JsonView::Bool(b),
        ValueView::Int32(n) => JsonView::Number(Number::of_int(n as int)),
        ValueView::Int64(n) => JsonView::Number(Number::of_int(n as int)),
        ValueView::UInt32(n) => JsonView::Number(Number::PosInt(n as u64)),
        ValueView::UInt64(n) => JsonView::Number(Number::PosInt(n)),
        ValueView::Float32(bits) => if single_is_finite(bits) {
            JsonView::Number(Number::Float(double_from_single(bits) as u64))
        } else {
            JsonView::Null
        },
        ValueView::Float64(bits) => if double_is_finite(bits) {
            JsonView::Number(Number::Float(bits))
        } else {
            JsonView::Null
        },
        ValueView::Text(s) => JsonView::Text(s),
        ValueView::Bytes(bytes) => JsonView::Text(standard_encoding(bytes)),
        ValueView::EnumNumber(n) => JsonView::Number(Number::of_int(n as int)),
        ValueView::Message(message) => JsonView::Object(render_fields(message.fields)),
        ValueView::List(items) => JsonView::Array(render_items(items)),
        ValueView::Keyed(entries) => JsonView::Object(render_entries(entries)),
    }
}

/// The members of the document of a message: each present field, in its
/// order, put under its name.
pub open spec fn render_fields(fields: Seq<(Seq<char>, ValueView)>) -> Seq<(Seq<char>, JsonView)>
    decreases fields, 0nat,
{
    if fields.len() == 0 {
        Seq::empty()
    } else {
        put(render_fields(fields.drop_last()), fields.last().0, render(fields.last().1))
    }
}

/// The documents of the items of a list, in their order.
pub open spec fn render_items(items: Seq<ValueView>) -> Seq<JsonView>
    decreases items, 0nat,
{
    if items.len() == 0 {
        Seq::empty()
    } else {
        render_items(items.drop_last()).push(render(items.last()))
    }
}

/// The members of the document of a keyed field: each entry, in its order,
/// put under the text of its key.
pub open spec fn render_entries(entries: Seq<(KeyView, ValueView)>) -> Seq<(Seq<char>, JsonView)>
    decreases entries, 0nat,
{
    if entries.len() == 0 {
        Seq::empty()
    } else {
        put(
            render_entries(entries.drop_last()),
            key_text(entries.last().0),
            render(entries.last().1),
        )
    }
}

/// The document of a message: an object of its present fields.
pub open spec fn render_message(message: MessageView) -> JsonView {
    JsonView::Object(render_fields(message.fields))
}

/// The name under which a document lists the entry of `key`.
pub fn key_to_text(key: &MapKey) -> (text: String)
    ensures
        text@ == key_text(key@),
{
    match key {
        MapKey::Bool(b) => if *b {
            "true".to_owned()
        } else {
            "false".to_owned()
        },
        MapKey::Int32(n) => decimal_of_i64(*n as i64),
        MapKey::Int64(n) => decimal_of_i64(*n),
        MapKey::UInt32(n) => decimal_of_u64(*n as u64),
        MapKey::UInt64(n) => decimal_of_u64(*n),
        MapKey::Text(s) => s.clone(),
    }
}

/// The document of the present fields of a message.
#[verifier::loop_isolation(false)]
pub fn fields_to_json(fields: &Vec<FieldValue>) -> (doc: Json)
    ensures
        doc@ == JsonView::Object(render_fields(fields_view(fields@))),
    decreases fields, 0nat,
{
    proof {
        lemma_fields_view(fields@);
    }
    let ghost values = fields_view(fields@);
    let mut out: Vec<Member> = Vec::new();
    let mut i: usize = 0;
    assert(values.take(0) == Seq::<(Seq<char>, ValueView)>::empty());
    while i < fields.len()
        invariant
            i <= fields.len(),
            members_view(out@) == render_fields(values.take(i as int)),
        decreases fields.len() - i,
    {
        let ghost next = values.take(i + 1);
        assert(next.drop_last() == values.take(i as int));
        assert(next.last() == (fields@[i as int].name@, fields@[i as int].value@));
        let value = value_to_json(&fields[i].value);
        Json::set_member(&mut out, fields[i].name.clone(), value);
        i += 1;
    }
    assert(values.take(i as int) == values);
    Json::Object(out)
}

/// The document of a structured value.
#[verifier::loop_isolation(false)]
pub fn value_to_json(value: &StructuredValue) -> (doc: Json)
    ensures
        doc@ == render(value@),
    decreases value, 1nat,
{
    match value {
        StructuredValue::Bool(b) => Json::Bool(*b),
        StructuredValue::Int32(n) => Json::Number(Number::from_i64(*n as i64)),
        StructuredValue::Int64(n) => Json::Number(Number::from_i64(*n)),
        StructuredValue::UInt32(n) => Json::Number(Number::PosInt(*n as u64)),
        StructuredValue::UInt64(n) => Json::Number(Number::PosInt(*n)),
        StructuredValue::Float32(bits) => if is_finite_single(*bits) {
            Json::Number(Number::Float(double_of_single(*bits)))
        } else {
            Json::Null
        },
        StructuredValue::Float64(bits) => if is_finite_double(*bits) {
            Json::Number(Number::Float(*bits))
        } else {
            Json::Null
        },
        StructuredValue::Text(s) => Json::Text(s.clone()),
        StructuredValue::Bytes(bytes) => Json::Text(encode_standard(bytes.as_slice())),
        StructuredValue::EnumNumber(n) => Json::Number(Number::from_i64(*n as i64)),
        StructuredValue::Message(message) => fields_to_json(&message.fields),
        StructuredValue::List(items) => {
            proof {
                lemma_list_view(items@);
            }
            let ghost values = list_view(items@);
            let mut out: Vec<Json> = Vec::new();
            let mut i: usize = 0;
            assert(values.take(0) == Seq::<ValueView>::empty());
            while i < items.len()
                invariant
                    i <= items.len(),
                    items_view(out@) == render_items(values.take(i as int)),
                decreases items.len() - i,
            {
                let ghost next = values.take(i + 1);
                assert(next.drop_last() == values.take(i as int));
                assert(next.last() == items@[i as int]@);
                let item = value_to_json(&items[i]);
                proof {
                    lemma_items_view_push(out@, item);
                }
                out.push(item);
                i += 1;
            }
            assert(values.take(i as int) == values);
            Json::Array(out)
        },
        StructuredValue::Keyed(entries) => {
            proof {
                lemma_entries_view(entries@);
            }
            let ghost values = entries_view(entries@);
            let mut out: Vec<Member> = Vec::new();
            let mut i: usize = 0;
            assert(values.take(0) == Seq::<(KeyView, ValueView)>::empty());
            while i < entries.len()
                invariant
                    i <= entries.len(),
                    members_view(out@) == render_entries(values.take(i as int)),
                decreases entries.len() - i,
            {
                let ghost next = values.take(i + 1);
                assert(next.drop_last() == values.take(i as int));
                assert(next.last() == (entries@[i as int].key@, entries@[i as int].value@));
                let item = value_to_json(&entries[i].value);
                Json::set_member(&mut out, key_to_text(&entries[i].key), item);
                i += 1;
            }
            assert(values.take(i as int) == values);
            Json::Object(out)
        },
    }
}

/// The signed whole number that a document is, where it is one of 64 bits.
fn signed(doc: &Json) -> (r: Option<i64>)
    ensures
        r == signed_of(doc@),
{
    match doc {
        Json::Number(n) => n.to_i64(),
        _ => None,
    }
}

/// The unsigned whole number that a document is, where it is one of 64 bits.
fn unsigned(doc: &Json) -> (r: Option<u64>)
    ensures
        r == unsigned_of(doc@),
{
    match doc {
        Json::Number(n) => n.to_u64(),
        _ => None,
    }
}

/// The key that the name of a member gives to a keyed field.
pub fn key_from_name(kind: KeyKind, name: &String) -> (r: Result<MapKey, CodecError>)
    ensures
        match r {
            Ok(key) => convert_key(kind, name@) == Ok::<KeyView, CodecError>(key@),
            Err(e) => convert_key(kind, name@) == Err::<KeyView, CodecError>(e),
        },
{
    match kind {
        KeyKind::Text => Ok(MapKey::Text(name.clone())),
        KeyKind::Bool => if *name == "true".to_owned() {
            Ok(MapKey::Bool(true))
        } else if *name == "false".to_owned() {
            Ok(MapKey::Bool(false))
        } else {
            Err(CodecError::TypeMismatch)
        },
        KeyKind::Int32 => match whole_from_text(name, -0x8000_0000, 0x7fff_ffff) {
            Some(n) => Ok(MapKey::Int32(n as i32)),
            None => Err(CodecError::TypeMismatch),
        },
        KeyKind::Int64 => match whole_from_text(
            name,
            -0x8000_0000_0000_0000,
            0x7fff_ffff_ffff_ffff,
        ) {
            Some(n) => Ok(MapKey::Int64(n as i64)),
            None => Err(CodecError::TypeMismatch),
        },
        KeyKind::UInt32 => match whole_from_text(name, 0, 0xffff_ffff) {
            Some(n) => Ok(MapKey::UInt32(n as u32)),
            None => Err(CodecError::TypeMismatch),
        },
        KeyKind::UInt64 => match whole_from_text(name, 0, 0xffff_ffff_ffff_ffff) {
            Some(n) => Ok(MapKey::UInt64(n as u64)),
            None => Err(CodecError::TypeMismatch),
        },
    }
}

} // verus!
