//! Aligned Packed Encoding Rules (APER) for ASN.1 data: a bit buffer with
//! per-primitive encode and decode routines that reproduce the standard's
//! bit-packing, alignment and length-determinant rules, together with a small
//! parser for ASN.1 type notation.
pub mod bits;
pub mod model;
mod internal;
pub mod encode;
pub mod decode;
pub mod laws;
pub mod parser;
pub mod buffer;
pub mod error;

pub use buffer::AperCodecData;
pub use error::{AperCodecError, AperCodecErrorKind};
