//! The single error type every fallible codec operation returns.
use vstd::prelude::*;

verus! {

/// What went wrong, carrying the offending value and the violated bound
/// where there is one.
#[derive(Debug, Clone, Copy, PartialEq, Eq, Structural)]
pub enum AperCodecErrorKind {
    /// A value or length lies below the declared lower bound.
    BelowLowerBound { value: i128, bound: i128 },
    /// A value or length lies above the declared upper bound.
    AboveUpperBound { value: i128, bound: i128 },
    /// An extended or fragmented encoding was asked for: deliberately
    /// rejected rather than encoded wrongly.
    NotImplemented,
    /// Fewer bits remain in the buffer than a decode operation needs.
    BufferTooShort,
    /// Decoded data does not denote a value of the requested type.
    InvalidData,
}

/// Diagnostic-carrying error value: the kind of failure and the name of the
/// construct that was being encoded or decoded.
#[derive(Debug, Clone, Copy)]
pub struct AperCodecError {
    pub kind: AperCodecErrorKind,
    pub field: &'static str,
}

impl AperCodecError {
    pub fn new(kind: AperCodecErrorKind, field: &'static str) -> (r: Self)
        ensures
            r.kind == kind,
            r.field == field,
    {
        AperCodecError { kind, field }
    }
}

} // verus!
