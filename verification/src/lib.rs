//! A monotone term calculus for ledger-based deposit authorization, with its canonical
//! byte encodings.
//!
//! A deposit's authorization condition is a closed term evaluated against an operation, a
//! ledger-state snapshot and a witness. Proof obligations may only occur in positive position,
//! which makes acceptance monotone in the witness.

pub mod limits;
pub mod bytes;

pub mod registry;
pub mod ast;
pub mod value;
pub mod maps;
pub mod tree;
pub mod descriptor;
pub mod capability;
pub mod hashes;
pub mod witness;
pub mod host;
pub mod snapshot;
pub mod equality;
pub mod encode;
pub mod eval;
pub mod admission;
pub mod monotone;
pub mod resolution;
pub mod modify;
pub mod decode;
pub mod snapshot_codec;
pub mod witness_codec;
pub mod fraud;
pub mod mock;
pub mod secp;
pub mod print;
pub mod lex;
pub mod parse;
pub mod codec_laws;
pub mod canonical;
pub mod source_laws;
