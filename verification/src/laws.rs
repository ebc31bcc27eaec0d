//! Laws of the codec and of the partial match: what holds of every document
//! that a message type takes as it stands, and of every pair of documents.

use crate::codec::{
    build, convert, convert_entries, convert_field, convert_items, convert_key, convert_leaf,
    convert_members, key_text, lemma_members_error, render, render_entries, render_fields,
    render_items, render_message, CodecError,
};
use crate::decimal::law_decimal_text_reads_back;
use crate::encoding::{standard_decoding, standard_encoding};
use crate::float::{double_from_single, double_is_finite, single_from_double};
use crate::matcher::{
    enumeration_of, fields_of, matched_by_some, normalize, normalize_members, normalize_value,
    partial_match,
};
use crate::proto_dyn::build_by_name;
use crate::schema::{
    field_names, name_position, resolve, value_names, ElementKind, EnumType, Field, FieldKind,
    KeyKind, Schema,
};
use crate::text::{
    distinct_keys, float_equal, lemma_position, lemma_position_is, position, JsonView, Number,
};
use crate::value::{KeyView, MessageView, ValueView};
use vstd::prelude::*;
use vstd::utf8::{
    decode_utf8, encode_utf8, encode_utf8_decode_utf8, encode_utf8_valid_utf8, valid_utf8,
};

verus! {

/// Whether a field that is no nested message takes a document as it stands:
/// the field converts it, a number is written in the form of its sign and, for
/// a float, in the form of a float that has the value of a float of the width
/// of the field, a byte sequence is given by the text that the encoder writes
/// for it, and an enumeration value is given by its number.
pub open spec fn fits_leaf(enums: Seq<EnumType>, kind: ElementKind, doc: JsonView) -> bool {
    &&& convert_leaf(enums, kind, doc) is Ok
    &&& match kind {
        ElementKind::Int32 | ElementKind::Int64 | ElementKind::UInt32 | ElementKind::UInt64
        | ElementKind::Enumeration(_) => doc matches JsonView::Number(n) && n.wf(),
        ElementKind::Float32 => doc matches JsonView::Number(Number::Float(bits))
            && double_is_finite(bits) && float_equal(
            double_from_single(single_from_double(bits) as u32) as u64,
            bits,
        ),
        ElementKind::Float64 => doc matches JsonView::Number(Number::Float(_)),
        ElementKind::Bytes => doc matches JsonView::Text(s) && (standard_decoding(s) matches Some(
            bytes,
        ) && standard_encoding(bytes) == s),
        _ => true,
    }
}

/// Whether one value of kind `kind` takes a document as it stands: a leaf as
/// `fits_leaf` says, a nested message an object whose members have distinct
/// names, each the name of a field that takes the value of the member as it
/// stands.
pub open spec fn fits(schema: Schema, kind: ElementKind, doc: JsonView) -> bool
    decreases doc, 0nat,
{
    match kind {
        ElementKind::Message(at) => doc matches JsonView::Object(members) && fits_members(
            schema,
            schema.messages@[at as int].fields@,
            members,
        ),
        _ => fits_leaf(schema.enums@, kind, doc),
    }
}

/// Whether the fields `fields` take the members of an object as they stand.
pub open spec fn fits_members(
    schema: Schema,
    fields: Seq<Field>,
    members: Seq<(Seq<char>, JsonView)>,
) -> bool
    decreases members, 1nat,
{
    distinct_keys(members) && forall|i: int|
        #![trigger members[i]]
        0 <= i < members.len() ==> name_position(field_names(fields), members[i].0) < fields.len()
            && fits_field(
            schema,
            fields[name_position(field_names(fields), members[i].0)].kind,
            members[i].1,
        )
}

/// Whether a field takes a document as it stands: one value, an array of
/// values, or, for a keyed field, an object of entries.
pub open spec fn fits_field(schema: Schema, kind: FieldKind, doc: JsonView) -> bool
    decreases doc, 1nat,
{
    match kind {
        FieldKind::Single(element) => fits(schema, element, doc),
        FieldKind::Repeated(element) => doc matches JsonView::Array(items) && fits_items(
            schema,
            element,
            items,
        ),
        FieldKind::Keyed(key, element) => doc matches JsonView::Object(members) && fits_entries(
            schema,
            key,
            element,
            members,
        ),
    }
}

/// Whether a keyed field takes the members of an object as they stand: their
/// names are distinct, each is the text of a key, and each value fits.
pub open spec fn fits_entries(
    schema: Schema,
    key: KeyKind,
    kind: ElementKind,
    members: Seq<(Seq<char>, JsonView)>,
) -> bool
    decreases members, 1nat,
{
    distinct_keys(members) && forall|i: int|
        #![trigger members[i]]
        0 <= i < members.len() ==> convert_key(key, members[i].0) is Ok && fits(
            schema,
            kind,
            members[i].1,
        )
}

/// Whether each item of an array is taken as it stands.
pub open spec fn fits_items(schema: Schema, kind: ElementKind, items: Seq<JsonView>) -> bool
    decreases items, 1nat,
{
    forall|i: int| #![trigger items[i]] 0 <= i < items.len() ==> fits(schema, kind, items[i])
}

/// Members under the names of `members`, in their order, each with a value
/// equal to that of the member, make an object equal to that of `members`.
pub proof fn lemma_same_members(
    rendered: Seq<(Seq<char>, JsonView)>,
    members: Seq<(Seq<char>, JsonView)>,
)
    requires
        rendered.len() == members.len(),
        distinct_keys(members),
        forall|i: int|
            #![trigger rendered[i]]
            0 <= i < members.len() ==> rendered[i].0 == members[i].0 && rendered[i].1.same(
                members[i].1,
            ),
    ensures
        JsonView::Object(rendered).same(JsonView::Object(members)),
{
    let left = JsonView::Object(rendered);
    let right = JsonView::Object(members);
    assert(left->Object_0 == rendered && right->Object_0 == members);
    assert forall|i: int| #![trigger rendered[i]] 0 <= i < rendered.len() implies position(
        members,
        rendered[i].0,
    ) < members.len() && rendered[i].1.same(members[position(members, rendered[i].0)].1) by {
        assert forall|j: int| 0 <= j < i implies (#[trigger] members[j]).0 != rendered[i].0 by {
            assert(members[j].0 != members[i].0);
        }
        lemma_position_is(members, rendered[i].0, i);
    }
    assert forall|j: int| #![trigger members[j]] 0 <= j < members.len() implies position(
        rendered,
        members[j].0,
    ) < rendered.len() by {
        assert forall|k: int| 0 <= k < j implies (#[trigger] rendered[k]).0 != members[j].0 by {
            assert(members[k].0 != members[j].0);
        }
        assert(rendered[j].0 == members[j].0);
        lemma_position_is(rendered, members[j].0, j);
    }
}

/// The document of fields with distinct names has a member for each field,
/// in their order.
pub proof fn lemma_render_fields(fields: Seq<(Seq<char>, ValueView)>)
    requires
        distinct_keys(fields),
    ensures
        render_fields(fields).len() == fields.len(),
        forall|i: int|
            #![trigger fields[i]]
            0 <= i < fields.len() ==> render_fields(fields)[i] == (fields[i].0, render(fields[i].1)),
    decreases fields.len(),
{
    if fields.len() > 0 {
        let front = fields.drop_last();
        let last = fields.last();
        lemma_render_fields(front);
        let done = render_fields(front);
        assert forall|j: int| 0 <= j < done.len() implies (#[trigger] done[j]).0 != last.0 by {
            assert(front[j] == fields[j]);
            assert(fields[j].0 != fields[fields.len() - 1].0);
        }
        lemma_position_is(done, last.0, done.len() as int);
        assert(render_fields(fields) == done.push((last.0, render(last.1))));
        assert forall|i: int| #![trigger fields[i]] 0 <= i < fields.len() implies render_fields(
            fields,
        )[i] == (fields[i].0, render(fields[i].1)) by {
            if i < front.len() {
                assert(front[i] == fields[i]);
            }
        }
    }
}

/// The documents of the items of a list stand item by item.
pub proof fn lemma_render_items(items: Seq<ValueView>)
    ensures
        render_items(items).len() == items.len(),
        forall|i: int|
            #![trigger items[i]]
            0 <= i < items.len() ==> render_items(items)[i] == render(items[i]),
    decreases items.len(),
{
    if items.len() > 0 {
        let front = items.drop_last();
        lemma_render_items(front);
        assert forall|i: int| #![trigger items[i]] 0 <= i < items.len() implies render_items(
            items,
        )[i] == render(items[i]) by {
            if i < front.len() {
                assert(front[i] == items[i]);
            }
        }
    }
}

/// A leaf that fits is converted, and the document of its value is equal to
/// it.
pub proof fn lemma_leaf_round_trip(schema: Schema, kind: ElementKind, doc: JsonView)
    requires
        !(kind is Message),
        fits_leaf(schema.enums@, kind, doc),
    ensures
        convert(schema, kind, doc) matches Ok(value) && render(value).same(doc),
{
}

/// One value that fits is converted, and the document of its value is equal
/// to it.
pub proof fn lemma_value_round_trip(schema: Schema, kind: ElementKind, doc: JsonView)
    requires
        fits(schema, kind, doc),
    ensures
        convert(schema, kind, doc) matches Ok(value) && render(value).same(doc),
    decreases doc, 0nat,
{
    match kind {
        ElementKind::Message(at) => {
            let members = doc->Object_0;
            let fields = schema.messages@[at as int].fields@;
            lemma_members_round_trip(schema, fields, members);
            let built = convert_members(schema, fields, members)->Ok_0;
            lemma_members_rendered(built, members);
        },
        _ => {
            lemma_leaf_round_trip(schema, kind, doc);
        },
    }
}

/// Fields under the names of `members`, in their order, each with a value
/// whose document is equal to that of the member, have a document equal to
/// the object of `members`.
pub proof fn lemma_members_rendered(
    built: Seq<(Seq<char>, ValueView)>,
    members: Seq<(Seq<char>, JsonView)>,
)
    requires
        built.len() == members.len(),
        distinct_keys(members),
        forall|i: int|
            #![trigger built[i]]
            0 <= i < members.len() ==> built[i].0 == members[i].0 && render(built[i].1).same(
                members[i].1,
            ),
    ensures
        JsonView::Object(render_fields(built)).same(JsonView::Object(members)),
{
    assert forall|i: int, j: int| 0 <= i < j < built.len() implies (#[trigger] built[i]).0 != (
    #[trigger] built[j]).0 by {
        assert(members[i].0 != members[j].0);
    }
    lemma_render_fields(built);
    let rendered = render_fields(built);
    assert forall|i: int| #![trigger rendered[i]] 0 <= i < members.len() implies rendered[i].0
        == members[i].0 && rendered[i].1.same(members[i].1) by {
        assert(rendered[i] == (built[i].0, render(built[i].1)));
    }
    lemma_same_members(rendered, members);
}

/// A field that fits is converted, and the document of its value is equal
/// to the document given.
pub proof fn lemma_field_round_trip(schema: Schema, kind: FieldKind, doc: JsonView)
    requires
        fits_field(schema, kind, doc),
    ensures
        convert_field(schema, kind, doc) matches Ok(value) && render(value).same(doc),
    decreases doc, 1nat,
{
    match kind {
        FieldKind::Single(element) => {
            lemma_value_round_trip(schema, element, doc);
        },
        FieldKind::Repeated(element) => {
            let items = doc->Array_0;
            lemma_items_round_trip(schema, element, items);
            let values = convert_items(schema, element, items)->Ok_0;
            lemma_render_items(values);
            let rendered = JsonView::Array(render_items(values));
            assert(rendered->Array_0 == render_items(values));
            assert forall|i: int|
                #![trigger render_items(values)[i]]
                0 <= i < items.len() implies render_items(values)[i].same(items[i]) by {
                assert(render_items(values)[i] == render(values[i]));
            }
        },
        FieldKind::Keyed(key, element) => {
            let members = doc->Object_0;
            lemma_entries_round_trip(schema, key, element, members);
            let built = convert_entries(schema, key, element, members)->Ok_0;
            assert forall|i: int, j: int| 0 <= i < j < built.len() implies key_text(
                (#[trigger] built[i]).0,
            ) != key_text((#[trigger] built[j]).0) by {
                assert(members[i].0 != members[j].0);
            }
            lemma_render_entries(built);
            let rendered = render_entries(built);
            assert forall|i: int| #![trigger rendered[i]] 0 <= i < members.len() implies rendered[i].0
                == members[i].0 && rendered[i].1.same(members[i].1) by {
                assert(rendered[i] == (key_text(built[i].0), render(built[i].1)));
            }
            lemma_same_members(rendered, members);
        },
    }
}

/// The kind of a key.
pub open spec fn kind_of_key(key: KeyView) -> KeyKind {
    match key {
        KeyView::Bool(_) => KeyKind::Bool,
        KeyView::Int32(_) => KeyKind::Int32,
        KeyView::Int64(_) => KeyKind::Int64,
        KeyView::UInt32(_) => KeyKind::UInt32,
        KeyView::UInt64(_) => KeyKind::UInt64,
        KeyView::Text(_) => KeyKind::Text,
    }
}

/// The text of a key is read back as the key: the name under which a
/// document lists an entry gives the key of the entry.
pub proof fn law_key_text_reads_back(key: KeyView)
    ensures
        convert_key(kind_of_key(key), key_text(key)) == Ok::<KeyView, CodecError>(key),
{
    match key {
        KeyView::Bool(_) => {
            reveal_strlit("true");
            reveal_strlit("false");
            assert("true"@.len() != "false"@.len());
        },
        KeyView::Int32(n) => {
            law_decimal_text_reads_back(n as int, -0x8000_0000, 0x7fff_ffff);
        },
        KeyView::Int64(n) => {
            law_decimal_text_reads_back(n as int, -0x8000_0000_0000_0000, 0x7fff_ffff_ffff_ffff);
        },
        KeyView::UInt32(n) => {
            law_decimal_text_reads_back(n as int, 0, 0xffff_ffff);
        },
        KeyView::UInt64(n) => {
            law_decimal_text_reads_back(n as int, 0, 0xffff_ffff_ffff_ffff);
        },
        KeyView::Text(_) => {},
    }
}

/// The name that gives a key is the text of the key.
pub proof fn lemma_key_text_is_the_name(kind: KeyKind, name: Seq<char>)
    requires
        convert_key(kind, name) is Ok,
    ensures
        key_text(convert_key(kind, name)->Ok_0) == name,
{
}

/// The document of entries whose keys have distinct texts has a member for
/// each entry, in their order.
pub proof fn lemma_render_entries(entries: Seq<(KeyView, ValueView)>)
    requires
        forall|i: int, j: int|
            0 <= i < j < entries.len() ==> key_text((#[trigger] entries[i]).0) != key_text(
                (#[trigger] entries[j]).0,
            ),
    ensures
        render_entries(entries).len() == entries.len(),
        forall|i: int|
            #![trigger entries[i]]
            0 <= i < entries.len() ==> render_entries(entries)[i] == (
                key_text(entries[i].0),
                render(entries[i].1),
            ),
    decreases entries.len(),
{
    if entries.len() > 0 {
        let front = entries.drop_last();
        let last = entries.last();
        assert forall|i: int, j: int| 0 <= i < j < front.len() implies key_text(
            (#[trigger] front[i]).0,
        ) != key_text((#[trigger] front[j]).0) by {
            assert(front[i] == entries[i] && front[j] == entries[j]);
        }
        lemma_render_entries(front);
        let done = render_entries(front);
        assert forall|j: int| 0 <= j < done.len() implies (#[trigger] done[j]).0 != key_text(
            last.0,
        ) by {
            assert(front[j] == entries[j]);
            assert(key_text(entries[j].0) != key_text(entries[entries.len() - 1].0));
        }
        lemma_position_is(done, key_text(last.0), done.len() as int);
        assert(render_entries(entries) == done.push((key_text(last.0), render(last.1))));
        assert forall|i: int| #![trigger entries[i]] 0 <= i < entries.len() implies render_entries(
            entries,
        )[i] == (key_text(entries[i].0), render(entries[i].1)) by {
            if i < front.len() {
                assert(front[i] == entries[i]);
            }
        }
    }
}

/// Entries that fit are converted entry by entry: the text of each key is
/// the name of the member, and the document of each value is equal to that
/// of the member.
pub proof fn lemma_entries_round_trip(
    schema: Schema,
    key: KeyKind,
    kind: ElementKind,
    members: Seq<(Seq<char>, JsonView)>,
)
    requires
        fits_entries(schema, key, kind, members),
    ensures
        convert_entries(schema, key, kind, members) matches Ok(built) && built.len()
            == members.len() && forall|i: int|
            #![trigger built[i]]
            0 <= i < members.len() ==> key_text(built[i].0) == members[i].0 && render(
                built[i].1,
            ).same(members[i].1),
    decreases members, 0nat,
{
    if members.len() > 0 {
        let front = members.drop_last();
        let last = members.last();
        assert(members[members.len() - 1] == last);
        assert forall|i: int| #![trigger front[i]] 0 <= i < front.len() implies convert_key(
            key,
            front[i].0,
        ) is Ok && fits(schema, kind, front[i].1) by {
            assert(front[i] == members[i]);
        }
        assert forall|i: int, j: int| 0 <= i < j < front.len() implies (#[trigger] front[i]).0 != (
        #[trigger] front[j]).0 by {
            assert(members[i].0 != members[j].0);
        }
        lemma_entries_round_trip(schema, key, kind, front);
        lemma_key_text_is_the_name(key, last.0);
        lemma_value_round_trip(schema, kind, last.1);
        let done = convert_entries(schema, key, kind, front)->Ok_0;
        let k = convert_key(key, last.0)->Ok_0;
        let value = convert(schema, kind, last.1)->Ok_0;
        let built = done.push((k, value));
        assert(convert_entries(schema, key, kind, members) == Ok::<
            Seq<(KeyView, ValueView)>,
            CodecError,
        >(built));
        assert forall|i: int| #![trigger built[i]] 0 <= i < members.len() implies key_text(
            built[i].0,
        ) == members[i].0 && render(built[i].1).same(members[i].1) by {
            if i < front.len() {
                assert(front[i] == members[i]);
                assert(built[i] == done[i]);
            }
        }
    }
}

/// Members that fit are converted into fields of their names, in their
/// order, and the document of each value is equal to that of the member.
pub proof fn lemma_members_round_trip(
    schema: Schema,
    fields: Seq<Field>,
    members: Seq<(Seq<char>, JsonView)>,
)
    requires
        fits_members(schema, fields, members),
    ensures
        convert_members(schema, fields, members) matches Ok(built) && built.len() == members.len()
            && forall|i: int|
            #![trigger built[i]]
            0 <= i < members.len() ==> built[i].0 == members[i].0 && render(built[i].1).same(
                members[i].1,
            ),
    decreases members, 0nat,
{
    if members.len() > 0 {
        let front = members.drop_last();
        let last = members.last();
        assert(members[members.len() - 1] == last);
        assert forall|i: int| #![trigger front[i]] 0 <= i < front.len() implies name_position(
            field_names(fields),
            front[i].0,
        ) < fields.len() && fits_field(
            schema,
            fields[name_position(field_names(fields), front[i].0)].kind,
            front[i].1,
        ) by {
            assert(front[i] == members[i]);
        }
        assert forall|i: int, j: int| 0 <= i < j < front.len() implies (#[trigger] front[i]).0 != (
        #[trigger] front[j]).0 by {
            assert(members[i].0 != members[j].0);
        }
        lemma_members_round_trip(schema, fields, front);
        let done = convert_members(schema, fields, front)->Ok_0;
        let place = name_position(field_names(fields), last.0);
        lemma_field_round_trip(schema, fields[place].kind, last.1);
        let value = convert_field(schema, fields[place].kind, last.1)->Ok_0;
        assert forall|j: int| 0 <= j < done.len() implies (#[trigger] done[j]).0 != last.0 by {
            assert(front[j] == members[j]);
            assert(members[j].0 != members[members.len() - 1].0);
        }
        lemma_position_is(done, last.0, done.len() as int);
        let built = done.push((last.0, value));
        assert(convert_members(schema, fields, members) == Ok::<
            Seq<(Seq<char>, ValueView)>,
            CodecError,
        >(built));
        assert forall|i: int| #![trigger built[i]] 0 <= i < members.len() implies built[i].0
            == members[i].0 && render(built[i].1).same(members[i].1) by {
            if i < front.len() {
                assert(front[i] == members[i]);
                assert(built[i] == done[i]);
            }
        }
    }
}

/// Items that fit are converted item by item, and the document of each
/// value is equal to the item.
pub proof fn lemma_items_round_trip(schema: Schema, kind: ElementKind, items: Seq<JsonView>)
    requires
        fits_items(schema, kind, items),
    ensures
        convert_items(schema, kind, items) matches Ok(values) && values.len() == items.len()
            && forall|i: int|
            #![trigger values[i]]
            0 <= i < items.len() ==> render(values[i]).same(items[i]),
    decreases items, 0nat,
{
    if items.len() > 0 {
        let front = items.drop_last();
        let last = items.last();
        assert(items[items.len() - 1] == last);
        assert forall|i: int| #![trigger front[i]] 0 <= i < front.len() implies fits(
            schema,
            kind,
            front[i],
        ) by {
            assert(front[i] == items[i]);
        }
        lemma_items_round_trip(schema, kind, front);
        lemma_value_round_trip(schema, kind, last);
        let done = convert_items(schema, kind, front)->Ok_0;
        let value = convert(schema, kind, last)->Ok_0;
        let values = done.push(value);
        assert(convert_items(schema, kind, items) == Ok::<Seq<ValueView>, CodecError>(values));
        assert forall|i: int| #![trigger values[i]] 0 <= i < items.len() implies render(
            values[i],
        ).same(items[i]) by {
            if i < front.len() {
                assert(front[i] == items[i]);
                assert(values[i] == done[i]);
            }
        }
    }
}

/// Textual round trip: a document that the message type at `at` takes as it
/// stands is converted, and the document of the message is equal to it.
///
/// The document names only fields of the type, gives enumeration values by
/// their numbers, and gives every value in the form in which the codec
/// writes it: see [`fits`]. Keyed fields are among them.
pub proof fn law_text_round_trip(schema: Schema, at: usize, doc: JsonView)
    requires
        fits(schema, ElementKind::Message(at), doc),
    ensures
        build(schema, at, doc) matches Ok(message) && render_message(message).same(doc),
{
    lemma_value_round_trip(schema, ElementKind::Message(at), doc);
}

/// Textual round trip by name: as [`law_text_round_trip`], for the message
/// type that `name` resolves to.
pub proof fn law_text_round_trip_by_name(schema: Schema, name: Seq<char>, doc: JsonView)
    requires
        resolve(schema.messages@, name) matches Some(at) && 0 <= at <= usize::MAX && fits(
            schema,
            ElementKind::Message(at as usize),
            doc,
        ),
    ensures
        build_by_name(schema, name, doc) matches Ok(message) && render_message(message).same(doc),
{
    let at = resolve(schema.messages@, name)->Some_0;
    law_text_round_trip(schema, at as usize, doc);
}

/// A symbolic enumeration name does not come back: the document of the
/// value that it gives holds the number of the value.
pub proof fn law_symbolic_name_returns_its_number(
    schema: Schema,
    at: usize,
    name: Seq<char>,
)
    requires
        name_position(value_names(schema.enums@[at as int].values@), name)
            < schema.enums@[at as int].values@.len(),
    ensures
        convert(schema, ElementKind::Enumeration(at), JsonView::Text(name)) matches Ok(value)
            && render(value) == JsonView::Number(
            Number::of_int(
                schema.enums@[at as int].values@[name_position(
                    value_names(schema.enums@[at as int].values@),
                    name,
                )].number as int,
            ),
        ),
{
}

/// A member whose name is no field of the message type fails the
/// conversion; where the members before it are converted, the failure is
/// `UnknownField`.
pub proof fn law_unknown_field_fails(
    schema: Schema,
    fields: Seq<Field>,
    members: Seq<(Seq<char>, JsonView)>,
    i: int,
)
    requires
        0 <= i < members.len(),
        name_position(field_names(fields), members[i].0) >= fields.len(),
    ensures
        convert_members(schema, fields, members) is Err,
        convert_members(schema, fields, members.take(i)) is Ok ==> convert_members(
            schema,
            fields,
            members,
        ) == Err::<Seq<(Seq<char>, ValueView)>, CodecError>(CodecError::UnknownField),
{
    let upto = members.take(i + 1);
    assert(upto.drop_last() == members.take(i));
    assert(upto.last() == members[i]);
    assert(convert_members(schema, fields, upto) is Err);
    lemma_members_error(schema, fields, members, i + 1);
}

/// A document that is well formed is equal to itself.
pub proof fn lemma_same_reflexive(doc: JsonView)
    requires
        doc.wf(),
    ensures
        doc.same(doc),
    decreases doc,
{
    match doc {
        JsonView::Array(items) => {
            assert(doc->Array_0 == items);
            assert forall|i: int| #![trigger items[i]] 0 <= i < items.len() implies items[i].same(
                items[i],
            ) by {
                lemma_same_reflexive(items[i]);
            }
        },
        JsonView::Object(members) => {
            assert(doc->Object_0 == members);
            assert forall|i: int| #![trigger members[i]] 0 <= i < members.len() implies position(
                members,
                members[i].0,
            ) < members.len() && members[i].1.same(members[position(members, members[i].0)].1) by {
                assert forall|j: int| 0 <= j < i implies (#[trigger] members[j]).0
                    != members[i].0 by {}
                lemma_position_is(members, members[i].0, i);
                lemma_same_reflexive(members[i].1);
            }
        },
        _ => {},
    }
}

/// Equal documents match: a document holds what every document equal to it
/// asks for.
pub proof fn law_equal_documents_match(expected: JsonView, actual: JsonView)
    requires
        expected.same(actual),
    ensures
        partial_match(expected, actual),
    decreases expected,
{
    match (expected, actual) {
        (JsonView::Object(e), JsonView::Object(a)) => {
            assert(expected->Object_0 == e && actual->Object_0 == a);
            assert forall|i: int| #![trigger e[i]] 0 <= i < e.len() implies position(a, e[i].0)
                < a.len() && partial_match(e[i].1, a[position(a, e[i].0)].1) by {
                law_equal_documents_match(e[i].1, a[position(a, e[i].0)].1);
            }
        },
        (JsonView::Array(e), JsonView::Array(a)) => {
            assert(expected->Array_0 == e && actual->Array_0 == a);
            assert forall|i: int| #![trigger e[i]] 0 <= i < e.len() implies matched_by_some(
                e[i],
                a,
            ) by {
                law_equal_documents_match(e[i], a[i]);
                assert(0 <= i < a.len() && partial_match(e[i], a[i]));
            }
        },
        _ => {},
    }
}

/// A well-formed document holds what it asks for itself.
pub proof fn law_match_is_reflexive(doc: JsonView)
    requires
        doc.wf(),
    ensures
        partial_match(doc, doc),
{
    lemma_same_reflexive(doc);
    law_equal_documents_match(doc, doc);
}

/// What else an object holds does not count: a member more at its end
/// leaves every match as it was.
pub proof fn law_extra_members_are_ignored(
    expected: JsonView,
    actual: Seq<(Seq<char>, JsonView)>,
    extra: (Seq<char>, JsonView),
)
    requires
        partial_match(expected, JsonView::Object(actual)),
    ensures
        partial_match(expected, JsonView::Object(actual.push(extra))),
{
    let before = JsonView::Object(actual);
    let after = JsonView::Object(actual.push(extra));
    assert(before->Object_0 == actual && after->Object_0 == actual.push(extra));
    match expected {
        JsonView::Object(e) => {
            assert(expected->Object_0 == e);
            assert forall|i: int| #![trigger e[i]] 0 <= i < e.len() implies position(
                actual.push(extra),
                e[i].0,
            ) < actual.push(extra).len() && partial_match(
                e[i].1,
                actual.push(extra)[position(actual.push(extra), e[i].0)].1,
            ) by {
                let at = position(actual, e[i].0);
                lemma_position(actual, e[i].0);
                assert forall|j: int| 0 <= j < at implies (#[trigger] actual.push(extra)[j]).0
                    != e[i].0 by {
                    assert(actual.push(extra)[j] == actual[j]);
                }
                assert(actual.push(extra)[at] == actual[at]);
                lemma_position_is(actual.push(extra), e[i].0, at);
            }
        },
        _ => {},
    }
}

/// Each expected item counts once: where an array holds what the items of
/// `expected` ask for, it holds what any array of items from among them asks
/// for, however often it repeats them.
pub proof fn law_expected_items_count_once(
    expected: Seq<JsonView>,
    repeated: Seq<JsonView>,
    actual: Seq<JsonView>,
)
    requires
        partial_match(JsonView::Array(expected), JsonView::Array(actual)),
        forall|j: int|
            #![trigger repeated[j]]
            0 <= j < repeated.len() ==> exists|i: int|
                #![trigger expected[i]]
                0 <= i < expected.len() && expected[i] == repeated[j],
    ensures
        partial_match(JsonView::Array(repeated), JsonView::Array(actual)),
{
    let first = JsonView::Array(expected);
    let second = JsonView::Array(repeated);
    let held = JsonView::Array(actual);
    assert(first->Array_0 == expected && second->Array_0 == repeated && held->Array_0 == actual);
    assert forall|j: int| #![trigger repeated[j]] 0 <= j < repeated.len() implies matched_by_some(
        repeated[j],
        actual,
    ) by {
        let i = choose|i: int|
            #![trigger expected[i]]
            0 <= i < expected.len() && expected[i] == repeated[j];
        assert(matched_by_some(expected[i], actual));
    }
}

/// Equality of documents goes both ways, where the second is well formed.
pub proof fn lemma_same_symmetric(x: JsonView, y: JsonView)
    requires
        x.same(y),
        y.wf(),
    ensures
        y.same(x),
    decreases x,
{
    match (x, y) {
        (JsonView::Array(xs), JsonView::Array(ys)) => {
            assert(x->Array_0 == xs && y->Array_0 == ys);
            assert forall|i: int| #![trigger ys[i]] 0 <= i < ys.len() implies ys[i].same(xs[i]) by {
                assert(xs[i].same(ys[i]));
                lemma_same_symmetric(xs[i], ys[i]);
            }
        },
        (JsonView::Object(xs), JsonView::Object(ys)) => {
            assert(x->Object_0 == xs && y->Object_0 == ys);
            assert forall|j: int| #![trigger ys[j]] 0 <= j < ys.len() implies position(xs, ys[j].0)
                < xs.len() && ys[j].1.same(xs[position(xs, ys[j].0)].1) by {
                let i = position(xs, ys[j].0);
                lemma_position(xs, ys[j].0);
                assert(xs[i].0 == ys[j].0);
                assert forall|k: int| 0 <= k < j implies (#[trigger] ys[k]).0 != ys[j].0 by {}
                lemma_position_is(ys, ys[j].0, j);
                assert(xs[i].1.same(ys[position(ys, xs[i].0)].1));
                lemma_same_symmetric(xs[i].1, ys[j].1);
            }
            assert forall|i: int| #![trigger xs[i]] 0 <= i < xs.len() implies position(ys, xs[i].0)
                < ys.len() by {}
        },
        _ => {},
    }
}

/// A document that fits is well formed.
pub proof fn lemma_fits_well_formed(schema: Schema, kind: ElementKind, doc: JsonView)
    requires
        fits(schema, kind, doc),
    ensures
        doc.wf(),
    decreases doc, 0nat,
{
    match kind {
        ElementKind::Message(at) => {
            let members = doc->Object_0;
            let fields = schema.messages@[at as int].fields@;
            assert forall|i: int| 0 <= i < members.len() implies (#[trigger] members[i]).1.wf() by {
                lemma_field_fits_well_formed(
                    schema,
                    fields[name_position(field_names(fields), members[i].0)].kind,
                    members[i].1,
                );
            }
        },
        _ => {},
    }
}

/// A document that fits a field is well formed.
pub proof fn lemma_field_fits_well_formed(schema: Schema, kind: FieldKind, doc: JsonView)
    requires
        fits_field(schema, kind, doc),
    ensures
        doc.wf(),
    decreases doc, 1nat,
{
    match kind {
        FieldKind::Single(element) => {
            lemma_fits_well_formed(schema, element, doc);
        },
        FieldKind::Repeated(element) => {
            let items = doc->Array_0;
            assert forall|i: int| 0 <= i < items.len() implies (#[trigger] items[i]).wf() by {
                lemma_fits_well_formed(schema, element, items[i]);
            }
        },
        FieldKind::Keyed(_, element) => {
            let members = doc->Object_0;
            assert forall|i: int| 0 <= i < members.len() implies (#[trigger] members[i]).1.wf() by {
                lemma_fits_well_formed(schema, element, members[i].1);
            }
        },
    }
}

/// Members that fit are their own normalisation: an expectation that gives
/// every enumeration value by its number is left as it is.
pub proof fn lemma_normalize_keeps_what_fits(
    schema: Schema,
    fields: Seq<Field>,
    members: Seq<(Seq<char>, JsonView)>,
)
    requires
        fits_members(schema, fields, members),
    ensures
        normalize_members(schema, fields, members) == members,
    decreases members.len(),
{
    if members.len() > 0 {
        let front = members.drop_last();
        let last = members.last();
        assert(members[members.len() - 1] == last);
        assert forall|i: int| #![trigger front[i]] 0 <= i < front.len() implies name_position(
            field_names(fields),
            front[i].0,
        ) < fields.len() && fits_field(
            schema,
            fields[name_position(field_names(fields), front[i].0)].kind,
            front[i].1,
        ) by {
            assert(front[i] == members[i]);
        }
        assert forall|i: int, j: int| 0 <= i < j < front.len() implies (#[trigger] front[i]).0 != (
        #[trigger] front[j]).0 by {
            assert(members[i].0 != members[j].0);
        }
        lemma_normalize_keeps_what_fits(schema, fields, front);
        assert(normalize_value(schema, fields, last.0, last.1) == last.1);
        assert forall|j: int| 0 <= j < front.len() implies (#[trigger] front[j]).0 != last.0 by {
            assert(front[j] == members[j]);
            assert(members[j].0 != members[members.len() - 1].0);
        }
        lemma_position_is(front, last.0, front.len() as int);
        assert(front.push(last) == members);
    }
}

/// End to end: a body that the message type at `at` takes as it stands is
/// converted, and the message that it gives is matched by the body as an
/// expectation.
pub proof fn law_sent_body_matches_its_message(schema: Schema, at: usize, body: JsonView)
    requires
        at < schema.messages@.len(),
        fits(schema, ElementKind::Message(at), body),
    ensures
        build(schema, at, body) matches Ok(message) && partial_match(
            normalize(schema, at, body),
            render_message(message),
        ),
{
    law_text_round_trip(schema, at, body);
    let message = build(schema, at, body)->Ok_0;
    lemma_fits_well_formed(schema, ElementKind::Message(at), body);
    lemma_same_symmetric(render_message(message), body);
    let members = body->Object_0;
    lemma_normalize_keeps_what_fits(schema, fields_of(schema, at), members);
    assert(normalize(schema, at, body) == body);
    law_equal_documents_match(body, render_message(message));
}

/// Fields are found in the document of a message where they are in the
/// message, where the message has no field twice.
pub proof fn lemma_rendered_position(fields: Seq<(Seq<char>, ValueView)>, name: Seq<char>)
    requires
        distinct_keys(fields),
    ensures
        position(render_fields(fields), name) == position(fields, name),
{
    lemma_render_fields(fields);
    lemma_position(fields, name);
    let at = position(fields, name);
    let rendered = render_fields(fields);
    assert forall|i: int| 0 <= i < at implies (#[trigger] rendered[i]).0 != name by {
        assert(rendered[i] == (fields[i].0, render(fields[i].1)));
    }
    if at < fields.len() {
        assert(rendered[at] == (fields[at].0, render(fields[at].1)));
    }
    lemma_position_is(rendered, name, at);
}

/// Enumeration normalisation: an expectation that gives the field `name` of
/// an enumeration by the symbolic name `symbol` is normalised to the number
/// of that value, and then matches every message of the type whose field
/// `name` holds that number.
pub proof fn law_symbolic_expectation_matches_its_number(
    schema: Schema,
    at: usize,
    name: Seq<char>,
    symbol: Seq<char>,
    message: MessageView,
)
    requires
        at < schema.messages@.len(),
        message.type_id == at,
        distinct_keys(message.fields),
        name_position(field_names(fields_of(schema, at)), name) < fields_of(schema, at).len(),
        enumeration_of(
            fields_of(schema, at)[name_position(field_names(fields_of(schema, at)), name)].kind,
        ) matches Some(e) && name_position(value_names(schema.enums@[e as int].values@), symbol)
            < schema.enums@[e as int].values@.len() && position(message.fields, name)
            < message.fields.len() && message.fields[position(message.fields, name)].1
            == ValueView::EnumNumber(
            schema.enums@[e as int].values@[name_position(
                value_names(schema.enums@[e as int].values@),
                symbol,
            )].number,
        ),
    ensures
        normalize(schema, at, JsonView::Object(seq![(name, JsonView::Text(symbol))]))
            == JsonView::Object(
            seq![(name, render(message.fields[position(message.fields, name)].1))],
        ),
        partial_match(
            normalize(schema, at, JsonView::Object(seq![(name, JsonView::Text(symbol))])),
            render_message(message),
        ),
{
    let fields = fields_of(schema, at);
    let asked = seq![(name, JsonView::Text(symbol))];
    let value = message.fields[position(message.fields, name)].1;
    let number = render(value);
    assert(asked.drop_last() == Seq::<(Seq<char>, JsonView)>::empty());
    assert(asked.last() == (name, JsonView::Text(symbol)));
    assert(normalize_value(schema, fields, name, JsonView::Text(symbol)) == number);
    let normalized = normalize_members(schema, fields, asked);
    assert(normalize_members(schema, fields, asked.drop_last()) == Seq::<
        (Seq<char>, JsonView),
    >::empty());
    assert(normalized == seq![(name, number)]);
    lemma_position(message.fields, name);
    lemma_rendered_position(message.fields, name);
    lemma_render_fields(message.fields);
    let rendered = render_fields(message.fields);
    let place = position(message.fields, name);
    assert(rendered[place] == (message.fields[place].0, number));
    let expected = JsonView::Object(normalized);
    let actual = render_message(message);
    assert(expected->Object_0 == normalized && actual->Object_0 == rendered);
    assert(number.same(number));
    assert forall|i: int| #![trigger normalized[i]] 0 <= i < normalized.len() implies position(
        rendered,
        normalized[i].0,
    ) < rendered.len() && partial_match(
        normalized[i].1,
        rendered[position(rendered, normalized[i].0)].1,
    ) by {
        assert(normalized[i] == (name, number));
    }
}

/// The topic that a message is sent on reads back as the name of its type:
/// the bytes of a name are valid UTF-8 and are decoded to the name.
pub proof fn law_topic_reads_back(name: Seq<char>)
    ensures
        valid_utf8(encode_utf8(name)),
        decode_utf8(encode_utf8(name)) == name,
{
    encode_utf8_valid_utf8(name);
    encode_utf8_decode_utf8(name);
}

} // verus!
