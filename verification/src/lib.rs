//! A binary document-serialization codec for the BSON wire format.
//!
//! The crate encodes and decodes the BSON wire format: a length-prefixed,
//! self-describing binary tree of typed key/value pairs. It offers a typed
//! value model ([`value::Bson`]), an exact byte-level encoder and decoder
//! with proved round-trip laws, a lazily validated borrowing view over raw
//! bytes, an always-well-formed buffer builder, and the conversion helpers
//! that bridge the format to a generic, typed data model.

pub mod builder;
pub mod convert;
pub mod datetime;
pub mod decoding;
pub mod encoding;
pub mod oid;
pub mod raw;
pub mod roundtrip;
pub mod text;
pub mod typed;
pub mod uuid;
pub mod value;
pub mod wrappers;
