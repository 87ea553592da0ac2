//! Handles for the adjacent layers that consume the ledger's outputs.
//!
//! The harmonization and intrusion-surface layers sit beside the ledger
//! and read its events, lineage and block hashes; none of their own
//! heuristics belong to the ledger's integrity logic, so their handles
//! carry no state here.

use vstd::prelude::*;

verus! {

/// Handle for the cross-domain harmonization layer.
pub struct SimpleIntegrationService;

impl SimpleIntegrationService {
    pub fn new() -> Self {
        SimpleIntegrationService
    }
}

/// Handle for the intrusion-surface boundary layer.
pub struct SimpleIntrusionService;

impl SimpleIntrusionService {
    pub fn new() -> Self {
        SimpleIntrusionService
    }
}

} // verus!
