//! The schema registry and the operations of the codec on whole messages.

use crate::codec::{build, render_message, fields_to_json, CodecError};
use crate::schema::{resolve, Schema};
use crate::text::{Json, JsonView};
use crate::value::{Message, MessageView};
use vstd::prelude::*;

verus! {

/// Why a schema was not taken.
#[derive(Clone, Copy, Debug, PartialEq, Eq, Structural)]
pub enum SchemaError {
    /// The schema has no message type.
    Empty,
    /// A field refers to a message type or an enumeration that the schema
    /// does not have.
    Malformed,
}

/// A schema that was checked once, and the operations that it drives.
///
/// The schema is never changed after `new` took it: any number of readers may
/// share a `ProtoDyn`.
pub struct ProtoDyn {
    schema: Schema,
}

impl View for ProtoDyn {
    type V = Schema;

    closed spec fn view(&self) -> Schema {
        self.schema
    }
}

/// The message that a document gives to the message type that `name` resolves
/// to, or `SchemaNotFound` where it resolves to none.
pub open spec fn build_by_name(schema: Schema, name: Seq<char>, doc: JsonView) -> Result<
    MessageView,
    CodecError,
> {
    match resolve(schema.messages@, name) {
        Some(at) => build(schema, at as usize, doc),
        None => Err(CodecError::SchemaNotFound),
    }
}

impl ProtoDyn {
    #[verifier::type_invariant]
    spec fn checked(self) -> bool {
        self.schema.wf() && self.schema.messages@.len() > 0
    }

    /// Takes a schema: one that has a message type, and in which every
    /// reference of a field is in the catalog.
    pub fn new(schema: Schema) -> (r: Result<ProtoDyn, SchemaError>)
        ensures
            match r {
                Ok(proto) => proto@ == schema && schema.wf() && schema.messages@.len() > 0,
                Err(SchemaError::Empty) => schema.messages@.len() == 0,
                Err(SchemaError::Malformed) => schema.messages@.len() > 0 && !schema.wf(),
            },
    {
        if schema.messages.len() == 0 {
            Err(SchemaError::Empty)
        } else if !schema.is_well_formed() {
            Err(SchemaError::Malformed)
        } else {
            Ok(ProtoDyn { schema })
        }
    }

    /// The schema.
    pub fn schema(&self) -> (schema: &Schema)
        ensures
            *schema == self@,
            schema.wf(),
            schema.messages@.len() > 0,
    {
        proof {
            use_type_invariant(self);
        }
        &self.schema
    }

    /// The place in the schema of the message type that `name` resolves to.
    ///
    /// A fully qualified name goes before a short one: the result is the
    /// first message type whose fully qualified name is `name` and, where
    /// there is none, the first whose short name is `name`, in the order of
    /// the catalog.
    pub fn message_desc(&self, name: &str) -> (r: Result<usize, CodecError>)
        ensures
            match resolve(self@.messages@, name@) {
                Some(at) => r matches Ok(id) && id == at && id < self@.messages@.len(),
                None => r == Err::<usize, CodecError>(CodecError::SchemaNotFound),
            },
    {
        match self.schema.resolve_name(name) {
            Some(at) => Ok(at),
            None => Err(CodecError::SchemaNotFound),
        }
    }

    /// The message that the document `json` gives to the message type called
    /// `name`.
    ///
    /// Each member of the document sets the field that it names, by the kind
    /// of the field; a field that the document does not name stays absent. A
    /// document that is no object gives a message without fields.
    pub fn build_from_json(&self, name: &str, json: &Json) -> (r: Result<Message, CodecError>)
        ensures
            match r {
                Ok(message) => build_by_name(self@, name@, json@) == Ok::<MessageView, CodecError>(
                    message@,
                ),
                Err(e) => build_by_name(self@, name@, json@) == Err::<MessageView, CodecError>(e),
            },
    {
        proof {
            use_type_invariant(self);
        }
        match self.schema.resolve_name(name) {
            None => Err(CodecError::SchemaNotFound),
            Some(at) => match json {
                Json::Object(members) => match self.schema.fields_from_members(at, members) {
                    Ok(fields) => Ok(Message { type_id: at, fields }),
                    Err(e) => Err(e),
                },
                _ => Ok(Message { type_id: at, fields: Vec::new() }),
            },
        }
    }

    /// The document of a message: an object with a member for each present
    /// field, an enumeration value as its number.
    pub fn to_json_value(&self, msg: &Message) -> (doc: Json)
        ensures
            doc@ == render_message(msg@),
    {
        fields_to_json(&msg.fields)
    }
}

} // verus!
