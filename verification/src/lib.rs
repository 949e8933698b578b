//! Private information retrieval over a homomorphic arithmetic backend.
//!
//! A client asks for one element of a server-held collection by index; the
//! server answers from an encoded, hypercube-shaped copy of the collection.
//! The protocol engine here — parameter derivation, element encoding, query
//! construction, query expansion, the d-round multiply-and-reduce, and
//! reply decoding — is verified end to end: a well-formed query for index
//! `i` decodes to exactly the bytes stored at `i`.
//!
//! What is verified is retrieval correctness, not confidentiality: the
//! backend models ciphertexts transparently (see `backend`), so this crate
//! as built hides nothing from the server. The engine only assumes the
//! backend's slot-wise algebra, the shape a real homomorphic scheme
//! provides; the index stays hidden exactly when such a scheme stands
//! behind that algebra.
#![verifier::loop_isolation(false)]
use vstd::prelude::*;

pub mod backend;
pub mod client;
pub mod encode;
pub mod laws;
pub mod model;
pub mod params;
pub mod server;
pub mod wire;

verus! {

/// A compressed encrypted query: `num` serialized ciphertexts in `query`.
#[derive(Clone)]
pub struct PirQuery {
    pub query: Vec<u8>,
    pub num: u32,
}

/// A serialized reply: `num` ciphertexts holding the selected element.
#[derive(Clone)]
pub struct PirReply {
    pub reply: Vec<u8>,
    pub num: u32,
}

/// Everything that a protocol operation can report to its caller.
#[derive(Clone, Copy, Debug, PartialEq, Eq, Structural)]
pub enum PirError {
    /// The five primary inputs admit no valid derived parameter set.
    ParameterError,
    /// A collection's length or an element's byte size disagrees with the
    /// configured parameters.
    SizeMismatch,
    /// A requested element index is not below the configured element count.
    IndexOutOfRange,
    /// The server holds no rotation key for the given client id.
    KeyNotRegistered,
    /// A reply cannot be decoded: wrong framing, a foreign key, exhausted
    /// noise budget, or implausible coefficient contents.
    DecodeError,
    /// Query or key bytes do not frame a well-formed ciphertext sequence.
    MalformedBytes,
    /// The server has not been set up with a collection yet.
    NotReady,
}

} // verus!
