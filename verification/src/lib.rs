//! Messages of a publish/subscribe channel whose types are known only from a
//! schema loaded at run time.
//!
//! A [`schema::Schema`] is a catalog of message types and enumerations, held
//! as plain data. By it, [`proto_dyn::ProtoDyn`] turns a textual document
//! ([`text::Json`]) into a structured value ([`value::StructuredValue`]) and
//! a structured value back into a document. [`matcher`] decides whether a
//! received message is the awaited one: it resolves the type of the message
//! from its topic, makes the expectation comparable with the document of the
//! message, and asks whether the document holds what the expectation asks
//! for. [`laws`] states what holds of all documents.
//!
//! The library performs no input or output. Sockets, files and the wire
//! format of messages belong to the program around it.

pub mod codec;
pub mod decimal;
pub mod encoding;
pub mod float;
pub mod laws;
pub mod matcher;
pub mod proto_dyn;
pub mod schema;
pub mod text;
pub mod value;
