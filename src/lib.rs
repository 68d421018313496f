//! Bit-exact codec for the PSO game-network protocol: primitive values, text and
//! array fields, and the two framing variants with opcode dispatch.

pub mod serial;

pub mod legacy;
pub mod msg;
