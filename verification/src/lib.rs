//! A CBOR (RFC 8949) codec whose encoder and decoder are verified against
//! mathematical models of the wire format.
//!
//! The models:
//! - `wire`: heads, big-endian numbers and their widths;
//! - `floats`: half, single and double precision as bit patterns;
//! - `value`: the values of the codec and the items that stand for them;
//! - `parse`: what a decoder reads from a sequence of bytes;
//! - `emit`, `domain_model`: what an encoder writes for an item;
//! - `tags`: the tags with a meaning of their own;
//! - `collections`: equality, hashability and keyed insertion.
//!
//! The executable code:
//! - `reader`, `writer`: the buffers between the codec and a stream;
//! - `text`: strings from bytes, strictly or leniently;
//! - `decoder`: the decoder, which follows `parse`;
//! - `encoder`, `encoder_items`, `encoder_containers`, `encoder_domain`,
//!   `encoder_api`: the encoder, which follows `emit`;
//! - `ordering`: the order of keys in canonical output;
//! - `dispatch`: the order in which the kinds of value are asked for;
//! - `iso_text`: date and time text for older parsers;
//! - `numbers`: integers by sign and magnitude, decimal numbers by digits;
//! - `types`: tags, simple values, frozen mappings and the two markers;
//! - `api`: decoding and encoding in one call;
//! - `errors`: what can go wrong.
//!
//! What is proved of the two models together:
//! - `laws`: integer boundaries, head widths, chunks, depth and cycles;
//! - `float_laws`: the width of a float in canonical output;
//! - `roundtrip`: what was written is read back as it was;
//! - `canonical_laws`: canonical output does not depend on insertion order;
//! - `sharing_laws`: containers that hold each other come back as they were;
//! - `emit_lemmas`, `parse_lemmas`: the defining equations of the models.

pub mod api;
pub mod canonical_laws;
pub mod collections;
pub mod decoder;
pub mod dispatch;
pub mod domain_model;
pub mod emit;
pub mod emit_lemmas;
pub mod encoder;
pub mod encoder_api;
pub mod encoder_containers;
pub mod encoder_domain;
pub mod encoder_items;
pub mod errors;
pub mod float_laws;
pub mod floats;
pub mod iso_text;
pub mod laws;
pub mod numbers;
pub mod ordering;
pub mod parse;
pub mod parse_lemmas;
pub mod reader;
pub mod roundtrip;
pub mod sharing_laws;
pub mod tags;
pub mod text;
pub mod types;
pub mod value;
pub mod wire;
pub mod writer;
