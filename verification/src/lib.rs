//! A compact binary codec for two small record shapes: `Lens`, which carries
//! an identifier, and `LensState`, which carries an identifier together with
//! an opaque revision token.
//!
//! The wire format is the protocol-buffers layout: each present field is
//! written as a varint tag (field number and wire type packed together)
//! followed by a length-delimited payload, and fields holding their default
//! value are omitted entirely. Fields with numbers the schema does not know
//! are kept verbatim in an unknown-field store and re-emitted on encode, so
//! records survive a round trip through an older or newer schema unchanged.

pub mod lens;
pub mod lens_state;
mod text;
pub mod unknown;
pub mod wire;
