//! Educational cipher primitives: a Caesar substitution cipher and an
//! RC4 stream-cipher engine, each with a full functional specification.

pub mod caesar;
pub mod stream;
