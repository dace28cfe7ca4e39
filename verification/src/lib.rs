//! A value-encoding library: a closed catalogue of typed values (primitives,
//! structs, tagged unions, fixed-width binary blobs, wide integers, ordered
//! maps, sequences, optionals and tuples) with a compact, canonical binary
//! wire format. `encode` turns a well-formed value into bytes; `decode` turns
//! bytes back into a value against an expected type descriptor, rejecting
//! malformed or non-canonical input with a typed error.

pub mod ty;
pub mod value;
pub mod numeric;
pub mod wire;
pub mod decspec;
pub mod laws;
pub mod encode;
pub mod decode;
pub mod contract;
pub mod builder;
pub mod canonical;
