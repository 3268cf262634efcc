//! Verified core of a control-flow-attestation prover: a control-flow
//! graph model, an execution-path parser, a deterministic trace builder,
//! and the algebraic constraint system (AIR) that the trace must satisfy.
//! An external STARK backend turns the trace into a proof; everything the
//! backend is asked to check is stated and proved here.

pub mod air;
pub mod cfg;
pub mod path;
pub mod field;
pub mod fmt;
pub mod text;
pub mod trace;

use vstd::prelude::*;

verus! {

/// Every hard failure the pipeline can surface. Parse and build errors are
/// raised by the verified core; the two backend variants are reserved for
/// the unverified driver that wraps the external prover.
#[derive(Clone, Copy, Debug, PartialEq, Eq, Structural)]
pub enum Error {
    /// A graph line could not be read as `<node> <successor>*`.
    MalformedAdjacency,
    /// The same node id heads two adjacency lines.
    DuplicateNode,
    /// The path header lacks `initial_node=` or `final_node=`.
    MissingHeaderField,
    /// A path instruction is not `jump`, `jmp`, `call` or `ret`.
    UnknownOpcode,
    /// A path instruction has too few operands.
    ArityMismatch,
    /// An operand is not a decimal or `0x`-prefixed numeral that fits
    /// in 64 bits.
    InvalidNumber,
    /// The declared start or end node disagrees with the path's steps.
    StartEndMismatch,
    /// The external backend failed to produce a proof.
    ProvingFailure,
    /// The external backend rejected a proof.
    VerificationFailure,
}

} // verus!
