//! Matching an expectation against received messages: the partial match of
//! documents, the normalisation of an expectation, and the decisions of the
//! wait for a message.

use crate::codec::{render_message, CodecError};
use crate::encoding::{lossy_text, text_of_bytes};
use crate::proto_dyn::{build_by_name, ProtoDyn};
use crate::schema::{
    field_names, name_position, resolve, value_names, ElementKind, Field, FieldKind, Schema,
};
use crate::text::{
    items_view, lemma_items_view, lemma_members_view, members_view, position, put, Json, JsonView,
    Member, Number,
};
use crate::value::{Message, MessageView};
use vstd::prelude::*;
use vstd::utf8::{decode_utf8, encode_utf8, valid_utf8};

verus! {

/// Whether `actual` holds what `expected` asks for.
///
/// Of two objects: every member of `expected` is in `actual`, under the same
/// name, with a value that matches in turn; what else `actual` holds does
/// not count. Of two arrays: every item of `expected` is matched by some item
/// of `actual`, wherever it stands; one item of `actual` may serve several of
/// `expected`. Of anything else: the two are equal.
pub open spec fn partial_match(expected: JsonView, actual: JsonView) -> bool
    decreases expected, 0nat,
{
    match (expected, actual) {
        (JsonView::Object(e), JsonView::Object(a)) => forall|i: int|
            #![trigger e[i]]
            0 <= i < e.len() ==> position(a, e[i].0) < a.len() && partial_match(
                e[i].1,
                a[position(a, e[i].0)].1,
            ),
        (JsonView::Array(e), JsonView::Array(a)) => forall|i: int|
            #![trigger e[i]]
            0 <= i < e.len() ==> matched_by_some(e[i], a),
        _ => expected.same(actual),
    }
}

/// Whether one of `candidates` holds what `expected` asks for.
pub open spec fn matched_by_some(expected: JsonView, candidates: Seq<JsonView>) -> bool
    decreases expected, 1nat,
{
    exists|j: int|
        #![trigger candidates[j]]
        0 <= j < candidates.len() && partial_match(expected, candidates[j])
}

/// Whether `actual` holds what `expected` asks for: see [`partial_match`].
#[verifier::loop_isolation(false)]
pub fn json_partial_match(expected: &Json, actual: &Json) -> (r: bool)
    ensures
        r == partial_match(expected@, actual@),
    decreases expected,
{
    match (expected, actual) {
        (Json::Object(e), Json::Object(a)) => {
            proof {
                lemma_members_view(e@);
                lemma_members_view(a@);
            }
            let ghost es = members_view(e@);
            let ghost acts = members_view(a@);
            assert(expected@->Object_0 == es && actual@->Object_0 == acts);
            let mut i: usize = 0;
            while i < e.len()
                invariant
                    i <= e.len(),
                    forall|k: int|
                        #![trigger es[k]]
                        0 <= k < i ==> position(acts, es[k].0) < acts.len() && partial_match(
                            es[k].1,
                            acts[position(acts, es[k].0)].1,
                        ),
                decreases e.len() - i,
            {
                match Json::find(a, &e[i].key) {
                    Some(at) => {
                        if !json_partial_match(&e[i].value, &a[at].value) {
                            assert(!(position(acts, es[i as int].0) < acts.len() && partial_match(
                                es[i as int].1,
                                acts[position(acts, es[i as int].0)].1,
                            )));
                            return false;
                        }
                    },
                    None => {
                        assert(!(position(acts, es[i as int].0) < acts.len()));
                        return false;
                    },
                }
                i += 1;
            }
            true
        },
        (Json::Array(e), Json::Array(a)) => {
            proof {
                lemma_items_view(e@);
                lemma_items_view(a@);
            }
            let ghost es = items_view(e@);
            let ghost acts = items_view(a@);
            assert(expected@->Array_0 == es && actual@->Array_0 == acts);
            let mut i: usize = 0;
            while i < e.len()
                invariant
                    i <= e.len(),
                    forall|k: int| #![trigger es[k]] 0 <= k < i ==> matched_by_some(es[k], acts),
                decreases e.len() - i,
            {
                let mut found = false;
                let mut j: usize = 0;
                while j < a.len() && !found
                    invariant
                        j <= a.len(),
                        !found ==> forall|k: int|
                            #![trigger acts[k]]
                            0 <= k < j ==> !partial_match(es[i as int], acts[k]),
                        found ==> matched_by_some(es[i as int], acts),
                    decreases a.len() - j,
                {
                    if json_partial_match(&e[i], &a[j]) {
                        assert(0 <= j < acts.len() && partial_match(es[i as int], acts[j as int]));
                        found = true;
                    }
                    j += 1;
                }
                if !found {
                    assert(!matched_by_some(es[i as int], acts));
                    return false;
                }
                i += 1;
            }
            true
        },
        _ => expected.equals(actual),
    }
}

/// The enumeration whose symbolic names an expectation may give for the
/// field: that of a field that holds values of an enumeration, one or
/// repeated.
pub open spec fn enumeration_of(kind: FieldKind) -> Option<usize> {
    match kind {
        FieldKind::Single(ElementKind::Enumeration(at)) => Some(at),
        FieldKind::Repeated(ElementKind::Enumeration(at)) => Some(at),
        _ => None,
    }
}

/// The fields of the message type at `type_id`, none where the schema has no
/// such type.
pub open spec fn fields_of(schema: Schema, type_id: usize) -> Seq<Field> {
    if type_id < schema.messages@.len() {
        schema.messages@[type_id as int].fields@
    } else {
        Seq::empty()
    }
}

/// The value of one member of a normalised expectation: the number of the
/// enumeration value, where the member names a field of an enumeration and
/// its value is the symbolic name of one of the values; the value as it is
/// in every other case.
pub open spec fn normalize_value(
    schema: Schema,
    fields: Seq<Field>,
    key: Seq<char>,
    value: JsonView,
) -> JsonView {
    let place = name_position(field_names(fields), key);
    if place < fields.len() {
        match (enumeration_of(fields[place].kind), value) {
            (Some(at), JsonView::Text(name)) => {
                let values = schema.enums@[at as int].values@;
                let found = name_position(value_names(values), name);
                if found < values.len() {
                    JsonView::Number(Number::of_int(values[found].number as int))
                } else {
                    value
                }
            },
            _ => value,
        }
    } else {
        value
    }
}

/// The members of a normalised expectation: each member in its order, put
/// under its name with its normalised value.
pub open spec fn normalize_members(
    schema: Schema,
    fields: Seq<Field>,
    members: Seq<(Seq<char>, JsonView)>,
) -> Seq<(Seq<char>, JsonView)>
    decreases members.len(),
{
    if members.len() == 0 {
        Seq::empty()
    } else {
        put(
            normalize_members(schema, fields, members.drop_last()),
            members.last().0,
            normalize_value(schema, fields, members.last().0, members.last().1),
        )
    }
}

/// An expectation made comparable with the document of a message of the type
/// at `type_id`: at the top level of an object, the symbolic name of an
/// enumeration value is replaced by its number. Nothing below the top level
/// is changed, and what is no object is left as it is.
pub open spec fn normalize(schema: Schema, type_id: usize, expected: JsonView) -> JsonView {
    match expected {
        JsonView::Object(members) => JsonView::Object(
            normalize_members(schema, fields_of(schema, type_id), members),
        ),
        _ => expected,
    }
}

/// The expectation `expected` made comparable with the document of
/// `message`: see [`normalize`].
#[verifier::loop_isolation(false)]
pub fn normalize_json_for_comparison(proto: &ProtoDyn, expected: &Json, message: &Message) -> (r:
    Json)
    ensures
        r@ == normalize(proto@, message.type_id, expected@),
{
    let schema = proto.schema();
    match expected {
        Json::Object(members) => {
            proof {
                lemma_members_view(members@);
            }
            let ghost docs = members_view(members@);
            let ghost fields = fields_of(*schema, message.type_id);
            let mut out: Vec<Member> = Vec::new();
            let mut i: usize = 0;
            assert(docs.take(0) == Seq::<(Seq<char>, JsonView)>::empty());
            while i < members.len()
                invariant
                    i <= members.len(),
                    members_view(out@) == normalize_members(*schema, fields, docs.take(i as int)),
                decreases members.len() - i,
            {
                let ghost next = docs.take(i + 1);
                assert(next.drop_last() == docs.take(i as int));
                assert(next.last() == (members@[i as int].key@, members@[i as int].value@));
                let value = normalized_value(schema, message.type_id, &members[i]);
                Json::set_member(&mut out, members[i].key.clone(), value);
                i += 1;
            }
            assert(docs.take(i as int) == docs);
            Json::Object(out)
        },
        _ => expected.deep_copy(),
    }
}

/// The normalised value of one member of an expectation.
fn normalized_value(schema: &Schema, type_id: usize, member: &Member) -> (r: Json)
    requires
        schema.wf(),
    ensures
        r@ == normalize_value(*schema, fields_of(*schema, type_id), member.key@, member.value@),
{
    if type_id >= schema.messages.len() {
        return member.value.deep_copy();
    }
    let fields = &schema.messages[type_id].fields;
    match Schema::find_field(fields, &member.key) {
        None => member.value.deep_copy(),
        Some(place) => {
            let enumeration = match fields[place].kind {
                FieldKind::Single(ElementKind::Enumeration(at)) => Some(at),
                FieldKind::Repeated(ElementKind::Enumeration(at)) => Some(at),
                _ => None,
            };
            match (enumeration, &member.value) {
                (Some(at), Json::Text(name)) => {
                    let values = &schema.enums[at].values;
                    match Schema::find_value(values, name) {
                        Some(found) => Json::Number(Number::from_i64(values[found].number as i64)),
                        None => member.value.deep_copy(),
                    }
                },
                _ => member.value.deep_copy(),
            }
        },
    }
}

/// A message ready to be published: the topic, and the message whose bytes
/// are the payload.
#[derive(Debug, PartialEq)]
pub struct Outgoing {
    pub topic: Vec<u8>,
    pub message: Message,
}

/// What is published to send the body `body` as a message of the type called
/// `message_name`: the message that the body gives to the type, on the topic
/// that is the name as it was given, in UTF-8.
///
/// Where the body does not fit the type there is nothing to publish: the
/// error of the codec comes back as it is.
pub fn send_message(proto: &ProtoDyn, message_name: &str, body: &Json) -> (r: Result<
    Outgoing,
    CodecError,
>)
    ensures
        match r {
            Ok(out) => out.topic@ == encode_utf8(message_name@) && build_by_name(
                proto@,
                message_name@,
                body@,
            ) == Ok::<MessageView, CodecError>(out.message@),
            Err(e) => build_by_name(proto@, message_name@, body@) == Err::<
                MessageView,
                CodecError,
            >(e),
        },
{
    match proto.build_from_json(message_name, body) {
        Ok(message) => Ok(Outgoing { topic: message_name.as_bytes_vec(), message }),
        Err(e) => Err(e),
    }
}

/// What one call to receive from the channel came back with.
#[derive(Debug)]
pub enum Arrival {
    /// A message, as its frames.
    Frames(Vec<Vec<u8>>),
    /// Nothing arrived within the wait.
    TimedOut,
    /// The transport failed.
    Failed,
}

/// What a wait for a message does next.
#[derive(Debug)]
pub enum Step {
    /// What arrived is not the awaited message: receive again.
    Receive,
    /// Read the payload against the message type at `type_id`, then decide
    /// with [`Expectation::on_decoded`].
    Decode { topic: String, type_id: usize },
    /// The wait is over, without a match.
    Fail(ExpectError),
}

/// Why a wait for a message ended without a match. Both name the awaited
/// message type.
#[derive(Debug)]
pub enum ExpectError {
    /// Nothing arrived within the wait. The caller may wait again.
    ExpectationTimeout { message_name: String },
    /// The transport failed.
    TransportError { message_name: String },
}

/// What a wait for a message decides of a message that was read.
#[derive(Debug)]
pub enum Verdict {
    /// The message is the awaited one: here is its document.
    Matched(Json),
    /// It is not: receive again.
    Again,
}

/// An awaited message: the name of its type, which is also its topic, what
/// its document has to hold, and the namespace that the types of incoming
/// topics are resolved in.
#[derive(Debug)]
pub struct Expectation {
    pub message_name: String,
    pub expected: Json,
    pub namespace: String,
}

/// The name that the type of an incoming topic is resolved by: the
/// namespace, a dot, and the topic.
pub open spec fn qualified(namespace: Seq<char>, topic: Seq<char>) -> Seq<char> {
    namespace + "."@ + topic
}

/// Whether `step` is what follows the arrival of a message on `topic`: to
/// read it against the type that the topic resolves to, and to receive again
/// where it resolves to none.
pub open spec fn routed(step: Step, schema: Schema, namespace: Seq<char>, topic: Seq<char>) -> bool {
    match resolve(schema.messages@, qualified(namespace, topic)) {
        Some(at) => step matches Step::Decode { topic: t, type_id } && t@ == topic && type_id
            == at,
        None => step is Receive,
    }
}

/// Whether `verdict` is what follows the reading of a message that arrived
/// on `topic`.
///
/// A message that could not be read is passed over, and so is one on another
/// topic than the awaited one. Else the expectation is normalised for the
/// type of the message; where the document of the message holds what it asks
/// for, that document is the match.
pub open spec fn decided(
    verdict: Verdict,
    schema: Schema,
    awaited: Seq<char>,
    expected: JsonView,
    topic: Seq<char>,
    decoded: Result<Message, CodecError>,
) -> bool {
    match decoded {
        Err(_) => verdict is Again,
        Ok(message) => if topic != awaited {
            verdict is Again
        } else if partial_match(
            normalize(schema, message.type_id, expected),
            render_message(message@),
        ) {
            verdict matches Verdict::Matched(doc) && doc@ == render_message(message@)
        } else {
            verdict is Again
        },
    }
}

impl Expectation {
    /// What follows a call to receive.
    ///
    /// A timeout ends the wait with `ExpectationTimeout`, a failure of the
    /// transport with `TransportError`. A message of other than two frames
    /// is passed over. Of two frames, the first is the topic, read as text,
    /// and the second the payload: see [`Expectation::route`]. A topic that
    /// is valid UTF-8 is read as the text that it encodes.
    pub fn on_arrival(&self, proto: &ProtoDyn, arrival: &Arrival) -> (step: Step)
        ensures
            match *arrival {
                Arrival::TimedOut => step matches Step::Fail(
                    ExpectError::ExpectationTimeout { message_name },
                ) && message_name@ == self.message_name@,
                Arrival::Failed => step matches Step::Fail(ExpectError::TransportError { message_name })
                    && message_name@ == self.message_name@,
                Arrival::Frames(frames) => if frames@.len() != 2 {
                    step is Receive
                } else {
                    &&& routed(step, proto@, self.namespace@, lossy_text(frames@[0]@))
                    &&& valid_utf8(frames@[0]@) ==> routed(
                        step,
                        proto@,
                        self.namespace@,
                        decode_utf8(frames@[0]@),
                    )
                },
            },
    {
        match arrival {
            Arrival::TimedOut => Step::Fail(
                ExpectError::ExpectationTimeout { message_name: self.message_name.clone() },
            ),
            Arrival::Failed => Step::Fail(
                ExpectError::TransportError { message_name: self.message_name.clone() },
            ),
            Arrival::Frames(frames) => {
                if frames.len() != 2 {
                    Step::Receive
                } else {
                    self.route(proto, text_of_bytes(frames[0].as_slice()))
                }
            },
        }
    }

    /// What follows the arrival of a message on `topic`: to read it against
    /// the type that the namespace, a dot and the topic resolve to, and to
    /// receive again where they resolve to none.
    pub fn route(&self, proto: &ProtoDyn, topic: String) -> (step: Step)
        ensures
            routed(step, proto@, self.namespace@, topic@),
    {
        let name = self.namespace.clone().concat(".").concat(topic.as_str());
        assert(name@ == qualified(self.namespace@, topic@));
        match proto.message_desc(name.as_str()) {
            Ok(type_id) => Step::Decode { topic, type_id },
            Err(_) => Step::Receive,
        }
    }

    /// What follows the reading of a message that arrived on `topic`: see
    /// [`decided`].
    pub fn on_decoded(
        &self,
        proto: &ProtoDyn,
        topic: &String,
        decoded: &Result<Message, CodecError>,
    ) -> (verdict: Verdict)
        ensures
            decided(verdict, proto@, self.message_name@, self.expected@, topic@, *decoded),
    {
        match decoded {
            Err(_) => Verdict::Again,
            Ok(message) => {
                let got = proto.to_json_value(message);
                if *topic != self.message_name {
                    Verdict::Again
                } else {
                    let normalized = normalize_json_for_comparison(proto, &self.expected, message);
                    if json_partial_match(&normalized, &got) {
                        Verdict::Matched(got)
                    } else {
                        Verdict::Again
                    }
                }
            },
        }
    }
}

} // verus!
