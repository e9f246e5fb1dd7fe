//! Authentication of routing messages: signed envelopes with a canonical wire
//! format, node and section source authorities, proof chains of section keys,
//! and the accumulation of elder signature shares into a section signature.
pub mod wire;
pub mod crypto;
pub mod authority;
pub mod codec;
pub mod message;
pub mod accumulator;
