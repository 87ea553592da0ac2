//! A tamper-evident provenance ledger: an append-only log of attributed,
//! signed events over versioned artifacts, with a derived lineage graph
//! and hash-chained blocks that make retroactive tampering detectable.
//!
//! The ledger itself is an in-memory structure; durable storage and the
//! HTTP surface are left to the surrounding application, which replays
//! the committed events through [`graph::LineageGraph::rebuild`] on
//! startup.

pub mod codec;
pub mod collaborators;
pub mod crypto;
pub mod errors;
pub mod graph;
pub mod ledger;
pub mod signer;
pub mod types;
pub mod value;
