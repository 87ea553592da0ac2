//! The ledger's error taxonomy.

use vstd::prelude::*;

verus! {

/// Typed outcomes for every failure path of the ledger.
///
/// `EmptyBatch` is an expected control outcome for schedulers polling for
/// work, not a fault. A cyclic lineage is never an error: it is surfaced
/// as a warning flag on the query result instead.
#[derive(Clone, Copy, Debug, PartialEq, Eq, Structural)]
pub enum ProvenanceError {
    /// A looked-up artifact id is not registered.
    NotFound,
    /// No signing key is registered for the acting party.
    UnknownSigner,
    /// A signature value is structurally malformed (wrong length).
    MalformedSignature,
    /// A durable write failed; the operation left no partial state.
    PersistenceFailure,
    /// Sealing was requested while no events were pending.
    EmptyBatch,
}

} // verus!
