//! The ledger's data model: events, artifacts, blocks and their
//! mathematical views.

use crate::value::{Value, ValueV};
use vstd::prelude::*;

verus! {

/// Model of a [`Signature`].
pub struct SignatureV {
    pub signer: Seq<char>,
    pub signature: Seq<u8>,
    pub algorithm: Seq<char>,
}

/// A detached cryptographic signature over the canonical encoding of an
/// event, together with the signing party and the scheme that produced it.
pub struct Signature {
    pub signer: String,
    pub signature: Vec<u8>,
    pub algorithm: String,
}

impl View for Signature {
    type V = SignatureV;

    open spec fn view(&self) -> SignatureV {
        SignatureV {
            signer: self.signer@,
            signature: self.signature@,
            algorithm: self.algorithm@,
        }
    }
}

impl DeepView for Signature {
    type V = SignatureV;

    open spec fn deep_view(&self) -> SignatureV {
        self@
    }
}

/// Clones a vector of plain bytes, preserving its view.
pub fn clone_bytes(v: &Vec<u8>) -> (r: Vec<u8>)
    ensures
        r@ == v@,
{
    let r = v.clone();
    proof {
        assert(r@ =~= v@);
    }
    r
}

/// Clones a vector of identifiers, preserving its view.
pub fn clone_ids(v: &Vec<u64>) -> (r: Vec<u64>)
    ensures
        r@ == v@,
{
    let r = v.clone();
    proof {
        assert(r@ =~= v@);
    }
    r
}

impl Clone for Signature {
    /// Cloning preserves the model.
    fn clone(&self) -> (r: Self)
        ensures
            r@ == self@,
    {
        Signature {
            signer: self.signer.clone(),
            signature: clone_bytes(&self.signature),
            algorithm: self.algorithm.clone(),
        }
    }
}

/// Model of an [`Event`].
pub struct EventV {
    pub id: u64,
    pub timestamp: u64,
    pub actor: Seq<char>,
    pub in_artifacts: Seq<u64>,
    pub operation: Seq<char>,
    pub out_artifacts: Seq<u64>,
    pub context: ValueV,
    pub signature: Option<SignatureV>,
}

/// An attributed, signed, immutable record of an operation that consumed
/// `in_artifacts` and produced `out_artifacts`.
///
/// `id`, `timestamp` and `signature` are assigned by the ledger at commit
/// time; committed events are totally ordered by their `id`, a monotonic
/// sequence number.
pub struct Event {
    pub id: u64,
    pub timestamp: u64,
    pub actor: String,
    pub in_artifacts: Vec<u64>,
    pub operation: String,
    pub out_artifacts: Vec<u64>,
    pub context: Value,
    pub signature: Option<Signature>,
}

impl View for Event {
    type V = EventV;

    open spec fn view(&self) -> EventV {
        EventV {
            id: self.id,
            timestamp: self.timestamp,
            actor: self.actor@,
            in_artifacts: self.in_artifacts@,
            operation: self.operation@,
            out_artifacts: self.out_artifacts@,
            context: self.context@,
            signature: match self.signature {
                Option::Some(s) => Option::Some(s@),
                Option::None => Option::None,
            },
        }
    }
}

impl DeepView for Event {
    type V = EventV;

    open spec fn deep_view(&self) -> EventV {
        self@
    }
}

impl Clone for Event {
    /// Cloning preserves the model.
    fn clone(&self) -> (r: Self)
        ensures
            r@ == self@,
    {
        Event {
            id: self.id,
            timestamp: self.timestamp,
            actor: self.actor.clone(),
            in_artifacts: clone_ids(&self.in_artifacts),
            operation: self.operation.clone(),
            out_artifacts: clone_ids(&self.out_artifacts),
            context: self.context.clone(),
            signature: match &self.signature {
                Option::Some(s) => Option::Some(s.clone()),
                Option::None => Option::None,
            },
        }
    }
}

/// A caller-supplied event before commitment: everything the caller
/// chooses, without the store-assigned `id`, `timestamp` and `signature`.
pub struct EventDraft {
    pub actor: String,
    pub in_artifacts: Vec<u64>,
    pub operation: String,
    pub out_artifacts: Vec<u64>,
    pub context: Value,
}

/// Model of an [`Artifact`].
pub struct ArtifactV {
    pub id: u64,
    pub name: Seq<char>,
    pub version: Seq<char>,
    pub content_hash: Seq<char>,
    pub metadata: ValueV,
    pub registered_at: u64,
}

/// A registered, versioned content unit. Immutable once registered: new
/// versions are new records linked through events.
pub struct Artifact {
    pub id: u64,
    pub name: String,
    pub version: String,
    pub content_hash: String,
    pub metadata: Value,
    pub registered_at: u64,
}

impl View for Artifact {
    type V = ArtifactV;

    open spec fn view(&self) -> ArtifactV {
        ArtifactV {
            id: self.id,
            name: self.name@,
            version: self.version@,
            content_hash: self.content_hash@,
            metadata: self.metadata@,
            registered_at: self.registered_at,
        }
    }
}

impl DeepView for Artifact {
    type V = ArtifactV;

    open spec fn deep_view(&self) -> ArtifactV {
        self@
    }
}

impl Clone for Artifact {
    /// Cloning preserves the model.
    fn clone(&self) -> (r: Self)
        ensures
            r@ == self@,
    {
        Artifact {
            id: self.id,
            name: self.name.clone(),
            version: self.version.clone(),
            content_hash: self.content_hash.clone(),
            metadata: self.metadata.clone(),
            registered_at: self.registered_at,
        }
    }
}

/// A caller-supplied artifact before registration, without the assigned
/// `id` and `registered_at`.
pub struct ArtifactDraft {
    pub name: String,
    pub version: String,
    pub content_hash: String,
    pub metadata: Value,
}

/// Model of a [`Block`].
pub struct BlockV {
    pub id: u64,
    pub events: Seq<EventV>,
    pub hash: Seq<char>,
    pub previous_hash: Seq<char>,
    pub created_at: u64,
}

/// A tamper-evidence checkpoint: the exact ordered batch of events sealed,
/// hash-linked to the previous block.
pub struct Block {
    pub id: u64,
    pub events: Vec<Event>,
    pub hash: String,
    pub previous_hash: String,
    pub created_at: u64,
}

impl View for Block {
    type V = BlockV;

    open spec fn view(&self) -> BlockV {
        BlockV {
            id: self.id,
            events: self.events.deep_view(),
            hash: self.hash@,
            previous_hash: self.previous_hash@,
            created_at: self.created_at,
        }
    }
}

impl DeepView for Block {
    type V = BlockV;

    open spec fn deep_view(&self) -> BlockV {
        self@
    }
}

/// Clones a vector of events, preserving the model of every event.
pub fn clone_events(v: &Vec<Event>) -> (r: Vec<Event>)
    ensures
        r.deep_view() == v.deep_view(),
{
    let r = v.clone();
    proof {
        assert forall|i: int| 0 <= i < v@.len() implies r.deep_view()[i] == v.deep_view()[i] by {
            assert(cloned::<Event>(v@[i], r@[i]));
        }
        assert(r.deep_view() =~= v.deep_view());
    }
    r
}

impl Clone for Block {
    /// Cloning preserves the model.
    fn clone(&self) -> (r: Self)
        ensures
            r@ == self@,
    {
        Block {
            id: self.id,
            events: clone_events(&self.events),
            hash: self.hash.clone(),
            previous_hash: self.previous_hash.clone(),
            created_at: self.created_at,
        }
    }
}

/// The direct parents and children of an artifact in the lineage graph,
/// or the full ancestor and descendant sets when queried transitively.
///
/// `cyclic_warning` is set when the traversal detected a cycle among the
/// nodes it reached; a cycle never fails a query.
pub struct Lineage {
    pub artifact_id: u64,
    pub parent_ids: Vec<u64>,
    pub child_ids: Vec<u64>,
    pub cyclic_warning: bool,
}

/// Model of an [`EventFilter`].
pub struct EventFilterV {
    pub event_type: Option<Seq<char>>,
    pub start_time: Option<u64>,
    pub end_time: Option<u64>,
}

/// A conjunctive filter over committed events: an exact `operation` match
/// and an inclusive timestamp range.
pub struct EventFilter {
    pub event_type: Option<String>,
    pub start_time: Option<u64>,
    pub end_time: Option<u64>,
}

impl View for EventFilter {
    type V = EventFilterV;

    open spec fn view(&self) -> EventFilterV {
        EventFilterV {
            event_type: match self.event_type {
                Option::Some(t) => Option::Some(t@),
                Option::None => Option::None,
            },
            start_time: self.start_time,
            end_time: self.end_time,
        }
    }
}

/// Whether an event passes a filter; all present clauses must hold.
pub open spec fn matches_filter(e: EventV, f: EventFilterV) -> bool {
    &&& (f.event_type matches Option::Some(t) ==> e.operation == t)
    &&& (f.start_time matches Option::Some(s) ==> e.timestamp >= s)
    &&& (f.end_time matches Option::Some(t) ==> e.timestamp <= t)
}

/// Decides [`matches_filter`] executably.
pub fn event_matches(e: &Event, f: &EventFilter) -> (r: bool)
    ensures
        r == matches_filter(e@, f@),
{
    let type_ok = match &f.event_type {
        Option::Some(t) => *t == e.operation,
        Option::None => true,
    };
    let start_ok = match f.start_time {
        Option::Some(s) => e.timestamp >= s,
        Option::None => true,
    };
    let end_ok = match f.end_time {
        Option::Some(t) => e.timestamp <= t,
        Option::None => true,
    };
    type_ok && start_ok && end_ok
}

} // verus!
