//! Encoding and folding primitives of a binary-field Reed-Solomon code.
//!
//! A message of field elements is encoded as `RATE` independent evaluations
//! of the same coefficient vector on disjoint cosets of an additive
//! evaluation domain, and the resulting codeword is folded round by round:
//! each fold halves the codeword while binding in one verifier-supplied
//! challenge, collapsing it toward the message's multilinear extension at
//! the challenge point.

pub mod field;
pub mod ntt;
pub mod code;
