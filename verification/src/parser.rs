//! A small parser for ASN.1 type notation: tokens, the type expansion, and
//! the token-expectation helpers it is built from.
pub mod token;
pub mod types;
pub mod utils;
