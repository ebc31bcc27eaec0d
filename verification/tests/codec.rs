use pubsub_expect::codec::{key_from_name, key_to_text, value_to_json, CodecError};
use pubsub_expect::proto_dyn::{ProtoDyn, SchemaError};
use pubsub_expect::schema::{
    has_short_name, ElementKind, EnumType, EnumValue, Field, FieldKind, KeyKind, MessageType,
    Schema,
};
use pubsub_expect::text::{Json, Member, Number};
use pubsub_expect::value::{Entry, FieldValue, MapKey, Message, StructuredValue};

fn text(s: &str) -> Json {
    Json::Text(s.to_string())
}

fn whole(n: i64) -> Json {
    Json::Number(if n >= 0 { Number::PosInt(n as u64) } else { Number::NegInt(n) })
}

fn unsigned(n: u64) -> Json {
    Json::Number(Number::PosInt(n))
}

fn float(x: f64) -> Json {
    Json::Number(Number::Float(x.to_bits()))
}

fn object(members: Vec<(&str, Json)>) -> Json {
    Json::Object(
        members.into_iter().map(|(k, v)| Member { key: k.to_string(), value: v }).collect(),
    )
}

fn field(name: &str, kind: FieldKind) -> Field {
    Field { name: name.to_string(), kind }
}

fn one(kind: ElementKind) -> FieldKind {
    FieldKind::Single(kind)
}

fn schema() -> Schema {
    Schema {
        messages: vec![
            MessageType {
                full_name: "company.project.v1.Ping".to_string(),
                fields: vec![
                    field("seq", one(ElementKind::Int32)),
                    field("status", one(ElementKind::Enumeration(0))),
                    field("payload", one(ElementKind::Bytes)),
                    field("note", one(ElementKind::Text)),
                    field("inner", one(ElementKind::Message(1))),
                    field("tags", FieldKind::Repeated(ElementKind::Text)),
                    field("labels", FieldKind::Keyed(KeyKind::Text, ElementKind::Int64)),
                    field("ratio", one(ElementKind::Float64)),
                    field("gain", one(ElementKind::Float32)),
                    field("big", one(ElementKind::UInt64)),
                    field("count", one(ElementKind::UInt32)),
                    field("wide", one(ElementKind::Int64)),
                    field("flag", one(ElementKind::Bool)),
                    field("ids", FieldKind::Keyed(KeyKind::Int32, ElementKind::Text)),
                ],
            },
            MessageType {
                full_name: "company.project.v1.Inner".to_string(),
                fields: vec![
                    field("level", one(ElementKind::Int32)),
                    field("status", one(ElementKind::Enumeration(0))),
                ],
            },
            MessageType {
                full_name: "other.v2.Ping".to_string(),
                fields: vec![field("seq", one(ElementKind::Text))],
            },
            MessageType { full_name: "Inner".to_string(), fields: vec![] },
        ],
        enums: vec![EnumType {
            full_name: "company.project.v1.Status".to_string(),
            values: vec![
                EnumValue { name: "OK".to_string(), number: 0 },
                EnumValue { name: "FAIL".to_string(), number: 1 },
            ],
        }],
    }
}

fn proto() -> ProtoDyn {
    ProtoDyn::new(schema()).expect("the schema is well formed")
}

fn ping(fields: Vec<(&str, StructuredValue)>) -> Message {
    Message {
        type_id: 0,
        fields: fields
            .into_iter()
            .map(|(name, value)| FieldValue { name: name.to_string(), value })
            .collect(),
    }
}

fn build(body: Json) -> Result<Message, CodecError> {
    proto().build_from_json("Ping", &body)
}

#[test]
fn new_refuses_an_empty_schema() {
    let empty = Schema { messages: vec![], enums: vec![] };
    assert!(matches!(ProtoDyn::new(empty), Err(SchemaError::Empty)));
}

#[test]
fn new_refuses_a_dangling_reference() {
    let dangling = Schema {
        messages: vec![MessageType {
            full_name: "a.B".to_string(),
            fields: vec![field("next", one(ElementKind::Message(9)))],
        }],
        enums: vec![],
    };
    assert!(matches!(ProtoDyn::new(dangling), Err(SchemaError::Malformed)));
    let no_enum = Schema {
        messages: vec![MessageType {
            full_name: "a.B".to_string(),
            fields: vec![field("codes", FieldKind::Repeated(ElementKind::Enumeration(0)))],
        }],
        enums: vec![],
    };
    assert!(matches!(ProtoDyn::new(no_enum), Err(SchemaError::Malformed)));
}

#[test]
fn new_keeps_the_schema() {
    let proto = proto();
    assert_eq!(*proto.schema(), schema());
    assert!(schema().is_well_formed());
}

#[test]
fn message_desc_takes_a_fully_qualified_name() {
    assert_eq!(proto().message_desc("company.project.v1.Ping"), Ok(0));
    assert_eq!(proto().message_desc("company.project.v1.Inner"), Ok(1));
    assert_eq!(proto().message_desc("other.v2.Ping"), Ok(2));
}

#[test]
fn message_desc_takes_the_first_short_name_in_catalog_order() {
    assert_eq!(proto().message_desc("Ping"), Ok(0));
}

#[test]
fn message_desc_puts_a_full_name_before_a_short_one() {
    assert_eq!(proto().message_desc("Inner"), Ok(3));
}

#[test]
fn message_desc_fails_on_an_unknown_name() {
    assert_eq!(proto().message_desc("Pong"), Err(CodecError::SchemaNotFound));
    assert_eq!(proto().message_desc("v1.Ping"), Err(CodecError::SchemaNotFound));
    assert_eq!(proto().message_desc(""), Err(CodecError::SchemaNotFound));
}

#[test]
fn short_name_is_what_follows_the_last_dot() {
    assert!(has_short_name("company.project.v1.Ping", "Ping"));
    assert!(has_short_name("Ping", "Ping"));
    assert!(has_short_name("a.b.", ""));
    assert!(has_short_name("", ""));
    assert!(!has_short_name("company.project.v1.Ping", "v1.Ping"));
    assert!(!has_short_name("company.project.v1.Ping", "ing"));
    assert!(!has_short_name("company.project.v1.Ping", "Pin"));
}

#[test]
fn build_sets_the_named_fields_only() {
    assert_eq!(
        build(object(vec![("seq", whole(5))])),
        Ok(ping(vec![("seq", StructuredValue::Int32(5))]))
    );
    assert_eq!(build(object(vec![])), Ok(ping(vec![])));
}

#[test]
fn build_keeps_the_order_of_the_document() {
    assert_eq!(
        build(object(vec![("note", text("hi")), ("flag", Json::Bool(true)), ("seq", whole(-3))])),
        Ok(ping(vec![
            ("note", StructuredValue::Text("hi".to_string())),
            ("flag", StructuredValue::Bool(true)),
            ("seq", StructuredValue::Int32(-3)),
        ]))
    );
}

#[test]
fn build_of_what_is_no_object_has_no_fields() {
    assert_eq!(build(Json::Null), Ok(ping(vec![])));
    assert_eq!(build(whole(3)), Ok(ping(vec![])));
    assert_eq!(build(Json::Array(vec![whole(1)])), Ok(ping(vec![])));
}

#[test]
fn build_fails_on_an_unknown_type() {
    assert_eq!(
        proto().build_from_json("Pong", &object(vec![("seq", whole(5))])),
        Err(CodecError::SchemaNotFound)
    );
}

#[test]
fn build_fails_on_an_unknown_field() {
    assert_eq!(build(object(vec![("bogus", whole(1))])), Err(CodecError::UnknownField));
    assert_eq!(
        build(object(vec![("inner", object(vec![("bogus", whole(1))]))])),
        Err(CodecError::UnknownField)
    );
}

#[test]
fn build_reports_the_first_member_that_fails() {
    assert_eq!(
        build(object(vec![("bogus", whole(1)), ("seq", text("x"))])),
        Err(CodecError::UnknownField)
    );
    assert_eq!(
        build(object(vec![("seq", text("x")), ("bogus", whole(1))])),
        Err(CodecError::TypeMismatch)
    );
    assert_eq!(
        build(object(vec![("seq", whole(1)), ("payload", text("%%%")), ("bogus", whole(1))])),
        Err(CodecError::InvalidBytesEncoding)
    );
}

#[test]
fn build_checks_booleans() {
    assert_eq!(
        build(object(vec![("flag", Json::Bool(false))])),
        Ok(ping(vec![("flag", StructuredValue::Bool(false))]))
    );
    assert_eq!(build(object(vec![("flag", whole(1))])), Err(CodecError::TypeMismatch));
    assert_eq!(build(object(vec![("flag", text("true"))])), Err(CodecError::TypeMismatch));
}

#[test]
fn build_takes_whole_numbers_within_the_width_of_the_field() {
    assert_eq!(
        build(object(vec![("seq", whole(2147483647))])),
        Ok(ping(vec![("seq", StructuredValue::Int32(i32::MAX))]))
    );
    assert_eq!(
        build(object(vec![("seq", whole(-2147483648))])),
        Ok(ping(vec![("seq", StructuredValue::Int32(i32::MIN))]))
    );
    assert_eq!(
        build(object(vec![("count", whole(4294967295))])),
        Ok(ping(vec![("count", StructuredValue::UInt32(u32::MAX))]))
    );
    assert_eq!(
        build(object(vec![("count", whole(0))])),
        Ok(ping(vec![("count", StructuredValue::UInt32(0))]))
    );
}

#[test]
fn build_refuses_whole_numbers_beyond_the_width_of_the_field() {
    assert_eq!(build(object(vec![("seq", whole(2147483648))])), Err(CodecError::TypeMismatch));
    assert_eq!(build(object(vec![("seq", whole(-2147483649))])), Err(CodecError::TypeMismatch));
    assert_eq!(build(object(vec![("seq", whole(4294967301))])), Err(CodecError::TypeMismatch));
    assert_eq!(build(object(vec![("seq", whole(i64::MIN))])), Err(CodecError::TypeMismatch));
    assert_eq!(build(object(vec![("count", whole(4294967296))])), Err(CodecError::TypeMismatch));
    assert_eq!(
        build(object(vec![("count", unsigned(u64::MAX))])),
        Err(CodecError::TypeMismatch)
    );
}

#[test]
fn build_checks_whole_numbers() {
    assert_eq!(build(object(vec![("seq", float(1.5))])), Err(CodecError::TypeMismatch));
    assert_eq!(build(object(vec![("seq", float(1.0))])), Err(CodecError::TypeMismatch));
    assert_eq!(build(object(vec![("seq", text("5"))])), Err(CodecError::TypeMismatch));
    assert_eq!(build(object(vec![("seq", unsigned(u64::MAX))])), Err(CodecError::TypeMismatch));
    assert_eq!(build(object(vec![("wide", unsigned(u64::MAX))])), Err(CodecError::TypeMismatch));
    assert_eq!(
        build(object(vec![("wide", unsigned(9223372036854775808))])),
        Err(CodecError::TypeMismatch)
    );
    assert_eq!(
        build(object(vec![("wide", whole(i64::MAX))])),
        Ok(ping(vec![("wide", StructuredValue::Int64(i64::MAX))]))
    );
    assert_eq!(
        build(object(vec![("wide", whole(i64::MIN))])),
        Ok(ping(vec![("wide", StructuredValue::Int64(i64::MIN))]))
    );
    assert_eq!(build(object(vec![("big", whole(-1))])), Err(CodecError::TypeMismatch));
    assert_eq!(build(object(vec![("count", whole(-1))])), Err(CodecError::TypeMismatch));
    assert_eq!(
        build(object(vec![("big", unsigned(u64::MAX))])),
        Ok(ping(vec![("big", StructuredValue::UInt64(u64::MAX))]))
    );
}

#[test]
fn build_rounds_numbers_to_floats() {
    assert_eq!(
        build(object(vec![("ratio", float(0.1))])),
        Ok(ping(vec![("ratio", StructuredValue::Float64((0.1f64).to_bits()))]))
    );
    assert_eq!(
        build(object(vec![("ratio", whole(5))])),
        Ok(ping(vec![("ratio", StructuredValue::Float64((5.0f64).to_bits()))]))
    );
    assert_eq!(
        build(object(vec![("ratio", whole(-7))])),
        Ok(ping(vec![("ratio", StructuredValue::Float64((-7.0f64).to_bits()))]))
    );
    assert_eq!(
        build(object(vec![("ratio", unsigned(u64::MAX))])),
        Ok(ping(vec![("ratio", StructuredValue::Float64((u64::MAX as f64).to_bits()))]))
    );
    assert_eq!(
        build(object(vec![("gain", float(0.1))])),
        Ok(ping(vec![("gain", StructuredValue::Float32((0.1f64 as f32).to_bits()))]))
    );
    assert_eq!(
        build(object(vec![("gain", whole(3))])),
        Ok(ping(vec![("gain", StructuredValue::Float32(0x4040_0000))]))
    );
    assert_eq!(
        build(object(vec![("gain", float(f32::MAX as f64))])),
        Ok(ping(vec![("gain", StructuredValue::Float32(f32::MAX.to_bits()))]))
    );
    assert_eq!(build(object(vec![("ratio", text("1.0"))])), Err(CodecError::TypeMismatch));
    assert_eq!(build(object(vec![("gain", Json::Null)])), Err(CodecError::TypeMismatch));
}

#[test]
fn build_refuses_numbers_beyond_the_largest_float() {
    assert_eq!(build(object(vec![("gain", float(1.0e300))])), Err(CodecError::TypeMismatch));
    assert_eq!(build(object(vec![("gain", float(-1.0e39))])), Err(CodecError::TypeMismatch));
    assert_eq!(
        build(object(vec![("gain", float(f32::MAX as f64 * 1.0000001))])),
        Err(CodecError::TypeMismatch)
    );
    assert_eq!(
        build(object(vec![("gain", Json::Number(Number::Float(f64::INFINITY.to_bits())))])),
        Err(CodecError::TypeMismatch)
    );
    assert_eq!(
        build(object(vec![("ratio", Json::Number(Number::Float(f64::NAN.to_bits())))])),
        Err(CodecError::TypeMismatch)
    );
    assert_eq!(
        build(object(vec![("ratio", float(f64::MAX))])),
        Ok(ping(vec![("ratio", StructuredValue::Float64(f64::MAX.to_bits()))]))
    );
}

#[test]
fn build_passes_text_through() {
    assert_eq!(
        build(object(vec![("note", text("a \"b\" \u{e9}"))])),
        Ok(ping(vec![("note", StructuredValue::Text("a \"b\" \u{e9}".to_string()))]))
    );
    assert_eq!(build(object(vec![("note", whole(1))])), Err(CodecError::TypeMismatch));
}

#[test]
fn build_decodes_base64() {
    assert_eq!(
        build(object(vec![("payload", text("aGVsbG8="))])),
        Ok(ping(vec![("payload", StructuredValue::Bytes(b"hello".to_vec()))]))
    );
    assert_eq!(
        build(object(vec![("payload", text(""))])),
        Ok(ping(vec![("payload", StructuredValue::Bytes(vec![]))]))
    );
    assert_eq!(
        build(object(vec![("payload", text("//8="))])),
        Ok(ping(vec![("payload", StructuredValue::Bytes(vec![0xff, 0xff]))]))
    );
}

#[test]
fn build_refuses_what_is_not_base64() {
    assert_eq!(
        build(object(vec![("payload", text("not base64!"))])),
        Err(CodecError::InvalidBytesEncoding)
    );
    assert_eq!(
        build(object(vec![("payload", text("aGVsbG8"))])),
        Err(CodecError::InvalidBytesEncoding)
    );
    assert_eq!(build(object(vec![("payload", whole(1))])), Err(CodecError::TypeMismatch));
}

#[test]
fn build_resolves_symbolic_enum_names() {
    assert_eq!(
        build(object(vec![("status", text("FAIL"))])),
        Ok(ping(vec![("status", StructuredValue::EnumNumber(1))]))
    );
    assert_eq!(
        build(object(vec![("status", text("OK"))])),
        Ok(ping(vec![("status", StructuredValue::EnumNumber(0))]))
    );
    assert_eq!(build(object(vec![("status", text("NOPE"))])), Err(CodecError::UnknownEnumValue));
}

#[test]
fn build_takes_enum_numbers_unchecked() {
    assert_eq!(
        build(object(vec![("status", whole(7))])),
        Ok(ping(vec![("status", StructuredValue::EnumNumber(7))]))
    );
    assert_eq!(
        build(object(vec![("status", whole(-2))])),
        Ok(ping(vec![("status", StructuredValue::EnumNumber(-2))]))
    );
    assert_eq!(
        build(object(vec![("status", whole(2147483647))])),
        Ok(ping(vec![("status", StructuredValue::EnumNumber(i32::MAX))]))
    );
    assert_eq!(build(object(vec![("status", whole(4294967297))])), Err(CodecError::TypeMismatch));
    assert_eq!(build(object(vec![("status", whole(-2147483649))])), Err(CodecError::TypeMismatch));
    assert_eq!(build(object(vec![("status", Json::Bool(true))])), Err(CodecError::TypeMismatch));
    assert_eq!(build(object(vec![("status", float(1.0))])), Err(CodecError::TypeMismatch));
}

#[test]
fn build_recurses_into_nested_messages() {
    assert_eq!(
        build(object(vec![("inner", object(vec![("level", whole(2)), ("status", text("FAIL"))]))])),
        Ok(ping(vec![(
            "inner",
            StructuredValue::Message(Message {
                type_id: 1,
                fields: vec![
                    FieldValue { name: "level".to_string(), value: StructuredValue::Int32(2) },
                    FieldValue {
                        name: "status".to_string(),
                        value: StructuredValue::EnumNumber(1),
                    },
                ],
            }),
        )]))
    );
    assert_eq!(build(object(vec![("inner", whole(5))])), Err(CodecError::TypeMismatch));
    assert_eq!(build(object(vec![("inner", Json::Array(vec![]))])), Err(CodecError::TypeMismatch));
    assert_eq!(
        build(object(vec![("inner", object(vec![("level", text("x"))]))])),
        Err(CodecError::TypeMismatch)
    );
}

#[test]
fn build_recurses_into_repeated_fields() {
    assert_eq!(
        build(object(vec![("tags", Json::Array(vec![text("a"), text("b")]))])),
        Ok(ping(vec![(
            "tags",
            StructuredValue::List(vec![
                StructuredValue::Text("a".to_string()),
                StructuredValue::Text("b".to_string()),
            ]),
        )]))
    );
    assert_eq!(
        build(object(vec![("tags", Json::Array(vec![]))])),
        Ok(ping(vec![("tags", StructuredValue::List(vec![]))]))
    );
    assert_eq!(build(object(vec![("tags", text("a"))])), Err(CodecError::TypeMismatch));
    assert_eq!(
        build(object(vec![("tags", Json::Array(vec![text("a"), whole(1)]))])),
        Err(CodecError::TypeMismatch)
    );
}

#[test]
fn build_recurses_into_keyed_fields() {
    assert_eq!(
        build(object(vec![("labels", object(vec![("x", whole(1)), ("y", whole(-2))]))])),
        Ok(ping(vec![(
            "labels",
            StructuredValue::Keyed(vec![
                Entry { key: MapKey::Text("x".to_string()), value: StructuredValue::Int64(1) },
                Entry { key: MapKey::Text("y".to_string()), value: StructuredValue::Int64(-2) },
            ]),
        )]))
    );
    assert_eq!(
        build(object(vec![("labels", Json::Array(vec![]))])),
        Err(CodecError::TypeMismatch)
    );
    assert_eq!(
        build(object(vec![("labels", object(vec![("x", text("1"))]))])),
        Err(CodecError::TypeMismatch)
    );
}

#[test]
fn build_reads_member_names_as_keys_of_the_kind_of_the_field() {
    assert_eq!(
        build(object(vec![("ids", object(vec![("1", text("a")), ("-20", text("b"))]))])),
        Ok(ping(vec![(
            "ids",
            StructuredValue::Keyed(vec![
                Entry { key: MapKey::Int32(1), value: StructuredValue::Text("a".to_string()) },
                Entry { key: MapKey::Int32(-20), value: StructuredValue::Text("b".to_string()) },
            ]),
        )]))
    );
    assert_eq!(
        build(object(vec![("ids", object(vec![]))])),
        Ok(ping(vec![("ids", StructuredValue::Keyed(vec![]))]))
    );
    for name in ["x", "", "01", "+1", "-0", "1.0", " 1", "2147483648", "-2147483649", "1e3"] {
        assert_eq!(
            build(object(vec![("ids", object(vec![(name, text("a"))]))])),
            Err(CodecError::TypeMismatch),
            "{:?}",
            name
        );
    }
}

#[test]
fn a_name_is_read_as_a_key() {
    let name = |s: &str| s.to_string();
    assert_eq!(key_from_name(KeyKind::Text, &name("any text")), Ok(MapKey::Text(name("any text"))));
    assert_eq!(key_from_name(KeyKind::Text, &name("")), Ok(MapKey::Text(name(""))));
    assert_eq!(key_from_name(KeyKind::Bool, &name("true")), Ok(MapKey::Bool(true)));
    assert_eq!(key_from_name(KeyKind::Bool, &name("false")), Ok(MapKey::Bool(false)));
    assert_eq!(key_from_name(KeyKind::Bool, &name("True")), Err(CodecError::TypeMismatch));
    assert_eq!(key_from_name(KeyKind::Bool, &name("1")), Err(CodecError::TypeMismatch));
    assert_eq!(key_from_name(KeyKind::Int32, &name("2147483647")), Ok(MapKey::Int32(i32::MAX)));
    assert_eq!(key_from_name(KeyKind::Int32, &name("-2147483648")), Ok(MapKey::Int32(i32::MIN)));
    assert_eq!(key_from_name(KeyKind::Int32, &name("2147483648")), Err(CodecError::TypeMismatch));
    assert_eq!(
        key_from_name(KeyKind::Int64, &name("-9223372036854775808")),
        Ok(MapKey::Int64(i64::MIN))
    );
    assert_eq!(
        key_from_name(KeyKind::Int64, &name("9223372036854775808")),
        Err(CodecError::TypeMismatch)
    );
    assert_eq!(key_from_name(KeyKind::UInt32, &name("4294967295")), Ok(MapKey::UInt32(u32::MAX)));
    assert_eq!(key_from_name(KeyKind::UInt32, &name("4294967296")), Err(CodecError::TypeMismatch));
    assert_eq!(key_from_name(KeyKind::UInt32, &name("-1")), Err(CodecError::TypeMismatch));
    assert_eq!(
        key_from_name(KeyKind::UInt64, &name("18446744073709551615")),
        Ok(MapKey::UInt64(u64::MAX))
    );
    assert_eq!(
        key_from_name(KeyKind::UInt64, &name("18446744073709551616")),
        Err(CodecError::TypeMismatch)
    );
    assert_eq!(
        key_from_name(KeyKind::UInt64, &name("99999999999999999999999")),
        Err(CodecError::TypeMismatch)
    );
    assert_eq!(key_from_name(KeyKind::UInt64, &name("0")), Ok(MapKey::UInt64(0)));
    assert_eq!(key_from_name(KeyKind::UInt64, &name("00")), Err(CodecError::TypeMismatch));
}

#[test]
fn the_text_of_a_key_is_read_back_as_the_key() {
    let keys = [
        (KeyKind::Bool, MapKey::Bool(true)),
        (KeyKind::Bool, MapKey::Bool(false)),
        (KeyKind::Int32, MapKey::Int32(i32::MIN)),
        (KeyKind::Int32, MapKey::Int32(0)),
        (KeyKind::Int32, MapKey::Int32(1000)),
        (KeyKind::Int64, MapKey::Int64(i64::MAX)),
        (KeyKind::Int64, MapKey::Int64(-10)),
        (KeyKind::UInt32, MapKey::UInt32(u32::MAX)),
        (KeyKind::UInt64, MapKey::UInt64(u64::MAX)),
        (KeyKind::UInt64, MapKey::UInt64(10000000000000000000)),
        (KeyKind::Text, MapKey::Text("a \"b\"".to_string())),
    ];
    for (kind, key) in keys {
        assert_eq!(key_from_name(kind, &key_to_text(&key)), Ok(key));
    }
}

#[test]
fn to_json_renders_present_fields_only() {
    let doc = proto().to_json_value(&ping(vec![("seq", StructuredValue::Int32(5))]));
    assert!(doc.equals(&object(vec![("seq", whole(5))])));
    assert!(proto().to_json_value(&ping(vec![])).equals(&object(vec![])));
}

#[test]
fn to_json_renders_enums_as_numbers() {
    let doc = proto().to_json_value(&ping(vec![("status", StructuredValue::EnumNumber(1))]));
    assert!(doc.equals(&object(vec![("status", whole(1))])));
    assert!(!doc.equals(&object(vec![("status", text("FAIL"))])));
}

#[test]
fn to_json_renders_bytes_as_base64() {
    let doc =
        proto().to_json_value(&ping(vec![("payload", StructuredValue::Bytes(b"hello".to_vec()))]));
    assert!(doc.equals(&object(vec![("payload", text("aGVsbG8="))])));
    let doc = proto().to_json_value(&ping(vec![("payload", StructuredValue::Bytes(vec![0xff]))]));
    assert!(doc.equals(&object(vec![("payload", text("/w=="))])));
}

#[test]
fn to_json_renders_whole_numbers() {
    assert!(value_to_json(&StructuredValue::Int32(-5)).equals(&whole(-5)));
    assert!(value_to_json(&StructuredValue::Int32(0)).equals(&whole(0)));
    assert!(value_to_json(&StructuredValue::Int64(i64::MIN)).equals(&whole(i64::MIN)));
    assert!(value_to_json(&StructuredValue::UInt32(u32::MAX)).equals(&whole(4294967295)));
    assert!(value_to_json(&StructuredValue::UInt64(u64::MAX)).equals(&unsigned(u64::MAX)));
    assert!(value_to_json(&StructuredValue::EnumNumber(-1)).equals(&whole(-1)));
}

#[test]
fn to_json_renders_floats() {
    assert!(value_to_json(&StructuredValue::Float64((0.1f64).to_bits())).equals(&float(0.1)));
    assert!(value_to_json(&StructuredValue::Float32((0.1f32).to_bits()))
        .equals(&float(0.1f32 as f64)));
    assert!(value_to_json(&StructuredValue::Float32((1.5f32).to_bits())).equals(&float(1.5)));
    assert!(!value_to_json(&StructuredValue::Float64((5.0f64).to_bits())).equals(&whole(5)));
}

#[test]
fn to_json_renders_what_is_not_finite_as_null() {
    assert!(value_to_json(&StructuredValue::Float64(f64::NAN.to_bits())).equals(&Json::Null));
    assert!(value_to_json(&StructuredValue::Float64(f64::INFINITY.to_bits())).equals(&Json::Null));
    assert!(value_to_json(&StructuredValue::Float32(f32::NEG_INFINITY.to_bits()))
        .equals(&Json::Null));
    assert!(value_to_json(&StructuredValue::Float32(f32::NAN.to_bits())).equals(&Json::Null));
}

#[test]
fn to_json_recurses() {
    let message = ping(vec![
        (
            "inner",
            StructuredValue::Message(Message {
                type_id: 1,
                fields: vec![FieldValue {
                    name: "status".to_string(),
                    value: StructuredValue::EnumNumber(1),
                }],
            }),
        ),
        (
            "tags",
            StructuredValue::List(vec![
                StructuredValue::Text("a".to_string()),
                StructuredValue::Text("b".to_string()),
            ]),
        ),
    ]);
    let expected = object(vec![
        ("tags", Json::Array(vec![text("a"), text("b")])),
        ("inner", object(vec![("status", whole(1))])),
    ]);
    assert!(proto().to_json_value(&message).equals(&expected));
}

#[test]
fn to_json_names_entries_by_the_text_of_their_keys() {
    let keyed = StructuredValue::Keyed(vec![
        Entry { key: MapKey::Text("x".to_string()), value: StructuredValue::Int64(1) },
        Entry { key: MapKey::Int32(-5), value: StructuredValue::Int64(2) },
        Entry { key: MapKey::Bool(true), value: StructuredValue::Int64(3) },
    ]);
    let expected = object(vec![("x", whole(1)), ("-5", whole(2)), ("true", whole(3))]);
    assert!(value_to_json(&keyed).equals(&expected));
}

#[test]
fn key_text_is_the_plain_text_of_the_key() {
    assert_eq!(key_to_text(&MapKey::Bool(true)), "true");
    assert_eq!(key_to_text(&MapKey::Bool(false)), "false");
    assert_eq!(key_to_text(&MapKey::Int32(i32::MIN)), "-2147483648");
    assert_eq!(key_to_text(&MapKey::Int64(i64::MIN)), "-9223372036854775808");
    assert_eq!(key_to_text(&MapKey::UInt32(0)), "0");
    assert_eq!(key_to_text(&MapKey::UInt64(u64::MAX)), "18446744073709551615");
    assert_eq!(key_to_text(&MapKey::Text("a\"b\n".to_string())), "a\"b\n");
}

#[test]
fn a_later_field_of_the_same_name_replaces_the_earlier() {
    let message = ping(vec![("seq", StructuredValue::Int32(1)), ("seq", StructuredValue::Int32(2))]);
    assert!(proto().to_json_value(&message).equals(&object(vec![("seq", whole(2))])));
}

#[test]
fn text_round_trip_returns_the_document() {
    let doc = object(vec![
        ("seq", whole(5)),
        ("status", whole(1)),
        ("payload", text("aGVsbG8=")),
        ("note", text("hi")),
        ("inner", object(vec![("level", whole(-2))])),
        ("tags", Json::Array(vec![text("a"), text("b")])),
        ("ratio", float(0.25)),
        ("gain", float(1.5)),
        ("big", unsigned(u64::MAX)),
        ("flag", Json::Bool(true)),
        ("labels", object(vec![("k", whole(1)), ("a \"quoted\" key", whole(2)), ("7", whole(3))])),
        ("ids", object(vec![("-7", text("a")), ("0", text("b"))])),
    ]);
    let message = build(object(vec![
        ("seq", whole(5)),
        ("status", whole(1)),
        ("payload", text("aGVsbG8=")),
        ("note", text("hi")),
        ("inner", object(vec![("level", whole(-2))])),
        ("tags", Json::Array(vec![text("a"), text("b")])),
        ("ratio", float(0.25)),
        ("gain", float(1.5)),
        ("big", unsigned(u64::MAX)),
        ("flag", Json::Bool(true)),
        ("labels", object(vec![("k", whole(1)), ("a \"quoted\" key", whole(2)), ("7", whole(3))])),
        ("ids", object(vec![("-7", text("a")), ("0", text("b"))])),
    ]))
    .expect("the document fits the schema");
    assert!(proto().to_json_value(&message).equals(&doc));
}

#[test]
fn text_round_trip_returns_the_number_of_a_symbolic_name() {
    let message = build(object(vec![("status", text("FAIL"))])).expect("FAIL is a value");
    let back = proto().to_json_value(&message);
    assert!(back.equals(&object(vec![("status", whole(1))])));
    assert!(!back.equals(&object(vec![("status", text("FAIL"))])));
}

#[test]
fn text_round_trip_does_not_fill_absent_fields() {
    let message = build(object(vec![("seq", whole(0))])).expect("seq is a field");
    assert!(proto().to_json_value(&message).equals(&object(vec![("seq", whole(0))])));
}
