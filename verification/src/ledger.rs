//! The provenance ledger: the append-only event store, the artifact
//! registry, the derived lineage graph, the pending batch, and the
//! hash-chained blocks, kept consistent by one commit path.
//!
//! The ledger is the in-memory system of record; the surrounding
//! application persists committed events and blocks and replays them on
//! startup. Events are immutable once committed and are totally ordered
//! by their assigned `id`, a monotonic sequence number.

use crate::codec::{canon_event_core, canon_events, canonical_event_bytes, enc_str, encode_events,
    encode_str};
use crate::crypto::{ed25519_sig_of, ed25519_verify_ok, hex_of, sha256, sha256_of, to_hex};
use crate::errors::ProvenanceError;
use crate::graph::{LineageGraph, event_pairs, graph_of, reaches, spec_children, spec_parents};
use crate::signer::{SignatureService, ed25519_name};
use crate::types::{Artifact, ArtifactDraft, ArtifactV, Block, BlockV, Event, EventDraft,
    EventFilter, EventFilterV, EventV, Lineage, Signature, SignatureV, matches_filter,
    event_matches};
use vstd::prelude::*;

verus! {

broadcast use vstd::seq_lib::group_seq_properties;

/// The fixed sentinel standing in for the hash before the first block.
pub open spec fn genesis_sentinel() -> Seq<char> {
    "genesis"@
}

/// The sentinel as a string.
pub fn genesis_string() -> (r: String)
    ensures
        r@ == genesis_sentinel(),
{
    String::from_str("genesis")
}

/// The bytes a block's hash is computed over: the canonical encoding of
/// its events followed by the encoded previous hash.
pub open spec fn block_input(events: Seq<EventV>, prev: Seq<char>) -> Seq<u8> {
    canon_events(events) + enc_str(prev)
}

/// A block's hash: the SHA-256 digest of [`block_input`], rendered as
/// lower-case hexadecimal.
pub open spec fn spec_block_hash(events: Seq<EventV>, prev: Seq<char>) -> Seq<char> {
    hex_of(sha256_of(block_input(events, prev)))
}

/// Computes [`spec_block_hash`] over a batch of events.
pub fn compute_block_hash(events: &Vec<Event>, previous_hash: &str) -> (r: String)
    ensures
        r@ == spec_block_hash(events.deep_view(), previous_hash@),
{
    let mut buf: Vec<u8> = Vec::new();
    encode_events(&mut buf, events);
    encode_str(&mut buf, previous_hash);
    let digest = sha256(&buf);
    to_hex(&digest)
}

/// Whether block `i` of the sequence is correctly linked: its previous
/// hash is the hash of the block before it (or the genesis sentinel), and
/// its own hash is the documented function of its contents.
pub open spec fn link_ok(bs: Seq<BlockV>, i: int) -> bool {
    &&& bs[i].previous_hash == if i == 0 {
        genesis_sentinel()
    } else {
        bs[i - 1].hash
    }
    &&& bs[i].hash == spec_block_hash(bs[i].events, bs[i].previous_hash)
}

/// Whether every block of the sequence is correctly linked.
pub open spec fn chain_ok(bs: Seq<BlockV>) -> bool {
    forall|i: int| 0 <= i < bs.len() ==> #[trigger] link_ok(bs, i)
}

/// The outcome of walking a block chain.
#[derive(Clone, Copy, Debug, PartialEq, Eq, Structural)]
pub enum ChainVerdict {
    /// Every link checks out.
    Valid,
    /// The first index whose block is tampered with, reordered, or
    /// mislinked.
    Tampered(usize),
}

/// Walks a sealed block sequence and checks every link and every hash,
/// reporting the first index that fails.
pub fn verify_chain(blocks: &Vec<Block>) -> (r: ChainVerdict)
    ensures
        r is Valid <==> chain_ok(blocks.deep_view()),
        r matches ChainVerdict::Tampered(i) ==> i < blocks.deep_view().len() && !link_ok(
            blocks.deep_view(),
            i as int,
        ) && forall|j: int| 0 <= j < i ==> #[trigger] link_ok(blocks.deep_view(), j),
{
    let ghost bs = blocks.deep_view();
    let mut i: usize = 0;
    while i < blocks.len()
        invariant
            i <= blocks@.len(),
            bs == blocks.deep_view(),
            bs.len() == blocks@.len(),
            forall|j: int| 0 <= j < bs.len() ==> #[trigger] bs[j] == blocks@[j]@,
            forall|j: int| 0 <= j < i ==> #[trigger] link_ok(bs, j),
        decreases blocks@.len() - i,
    {
        let prev_ok = if i == 0 {
            let g = genesis_string();
            blocks[i].previous_hash == g
        } else {
            blocks[i].previous_hash == blocks[i - 1].hash
        };
        if !prev_ok {
            proof {
                assert(!link_ok(bs, i as int));
                assert(!chain_ok(bs));
            }
            return ChainVerdict::Tampered(i);
        }
        let expected = compute_block_hash(&blocks[i].events, blocks[i].previous_hash.as_str());
        if !(blocks[i].hash == expected) {
            proof {
                assert(blocks@[i as int]@.events =~= blocks[i as int].events.deep_view());
                assert(!link_ok(bs, i as int));
                assert(!chain_ok(bs));
            }
            return ChainVerdict::Tampered(i);
        }
        proof {
            assert(blocks@[i as int]@.events =~= blocks[i as int].events.deep_view());
            assert(link_ok(bs, i as int));
        }
        i += 1;
    }
    ChainVerdict::Valid
}

/// The events of all sealed blocks, in sealing order.
pub open spec fn sealed_events(bs: Seq<BlockV>) -> Seq<EventV>
    decreases bs.len(),
{
    if bs.len() == 0 {
        Seq::empty()
    } else {
        sealed_events(bs.drop_last()) + bs.last().events
    }
}

/// The model of a draft committed with the given `id` and `timestamp`,
/// before signing.
pub open spec fn event_from_draft(d: EventDraft, id: u64, ts: u64) -> EventV {
    EventV {
        id,
        timestamp: ts,
        actor: d.actor@,
        in_artifacts: d.in_artifacts@,
        operation: d.operation@,
        out_artifacts: d.out_artifacts@,
        context: d.context@,
        signature: Option::None,
    }
}

/// An event's store-assigned signature is present, attributed to its
/// actor, produced by the service's key for that actor over the event's
/// canonical bytes, and verifies under the matching public key.
pub open spec fn sig_ok(e: EventV, s: SignatureService) -> bool {
    &&& e.signature matches Option::Some(sig)
    &&& e.signature->0.signer == e.actor
    &&& e.signature->0.algorithm == ed25519_name()
    &&& s.spec_has_signer(e.actor)
    &&& e.signature->0.signature == ed25519_sig_of(s.spec_seed_for(e.actor), canon_event_core(e))
    &&& ed25519_verify_ok(s.spec_public_for(e.actor), canon_event_core(e), e.signature->0.signature)
}

/// Events passing an optional filter, in commit order.
pub open spec fn spec_filter_events(s: Seq<EventV>, f: Option<EventFilterV>) -> Seq<EventV>
    decreases s.len(),
{
    if s.len() == 0 {
        Seq::empty()
    } else {
        spec_filter_events(s.drop_last(), f) + if spec_matches_opt(s.last(), f) {
            seq![s.last()]
        } else {
            Seq::empty()
        }
    }
}

/// Whether an event passes an optional filter (no filter admits all).
pub open spec fn spec_matches_opt(e: EventV, f: Option<EventFilterV>) -> bool {
    f matches Option::Some(f) ==> matches_filter(e, f)
}

/// Unfolds [`spec_filter_events`] one event at a time from the front.
pub proof fn lemma_spec_filter_snoc(s: Seq<EventV>, f: Option<EventFilterV>, k: int)
    requires
        0 <= k < s.len(),
    ensures
        spec_filter_events(s.take(k + 1), f) == spec_filter_events(s.take(k), f) + if
            spec_matches_opt(s[k], f) {
            seq![s[k]]
        } else {
            Seq::<EventV>::empty()
        },
{
    assert(s.take(k + 1).drop_last() =~= s.take(k));
    assert(s.take(k + 1).last() == s[k]);
}

/// Committed events are never lost to a reader: a longer history yields a
/// longer filtered listing, with every earlier result still present, in
/// the same positions.
pub proof fn lemma_list_events_monotonic(s1: Seq<EventV>, s2: Seq<EventV>, f: Option<EventFilterV>)
    requires
        s1.is_prefix_of(s2),
    ensures
        spec_filter_events(s1, f).is_prefix_of(spec_filter_events(s2, f)),
    decreases s2.len(),
{
    if s1.len() == s2.len() {
        assert(s1 =~= s2);
    } else {
        assert(s1.is_prefix_of(s2.drop_last())) by {
            assert(s1 =~= s2.drop_last().take(s1.len() as int));
        }
        lemma_list_events_monotonic(s1, s2.drop_last(), f);
        assert(s2.drop_last() =~= s2.take(s2.len() - 1));
        lemma_spec_filter_snoc(s2, f, s2.len() - 1);
        assert(s2.take(s2.len() as int) =~= s2);
        let a = spec_filter_events(s1, f);
        let b = spec_filter_events(s2.drop_last(), f);
        let c = spec_filter_events(s2, f);
        assert(a.is_prefix_of(b));
        assert(b.is_prefix_of(c)) by {
            assert(c.take(b.len() as int) =~= b);
        }
        assert(a =~= b.take(a.len() as int));
        assert(a =~= c.take(a.len() as int));
    }
}

/// The tamper-evident provenance ledger.
///
/// All mutation funnels through [`Ledger::append_event`],
/// [`Ledger::register_artifact`], [`Ledger::register_signer`] and
/// [`Ledger::seal_block`]; committed events and sealed blocks are never
/// altered or removed.
pub struct Ledger {
    /// The committed events, the system of record; `events[i].id == i`.
    pub events: Vec<Event>,
    /// The registered artifacts; `artifacts[i].id == i`.
    pub artifacts: Vec<Artifact>,
    /// The derived lineage graph, always equal to the graph implied by
    /// the committed events.
    pub graph: LineageGraph,
    /// Committed events not yet sealed into a block.
    pub pending: Vec<Event>,
    /// The sealed blocks, hash-chained in order.
    pub blocks: Vec<Block>,
    /// The hash of the last sealed block, or the genesis sentinel.
    pub last_block_hash: String,
    /// The signing keys of the registered actors.
    pub signatures: SignatureService,
}

impl Ledger {
    /// The ledger's invariant; every public operation preserves it.
    pub open spec fn wf(self) -> bool {
        let evs = self.events.deep_view();
        let bs = self.blocks.deep_view();
        let arts = self.artifacts.deep_view();
        &&& forall|i: int| 0 <= i < evs.len() ==> (#[trigger] evs[i]).id == i
        &&& forall|i: int, j: int|
            0 <= i <= j < evs.len() ==> (#[trigger] evs[i]).timestamp <= (
            #[trigger] evs[j]).timestamp
        &&& forall|i: int| 0 <= i < evs.len() ==> sig_ok(#[trigger] evs[i], self.signatures)
        &&& self.signatures.wf()
        &&& self.graph.wf()
        &&& self.graph.edge_set() == graph_of(evs)
        &&& sealed_events(bs) + self.pending.deep_view() == evs
        &&& chain_ok(bs)
        &&& forall|i: int| 0 <= i < bs.len() ==> (#[trigger] bs[i]).id == i
        &&& self.last_block_hash@ == if bs.len() == 0 {
            genesis_sentinel()
        } else {
            bs.last().hash
        }
        &&& forall|i: int| 0 <= i < arts.len() ==> (#[trigger] arts[i]).id == i
    }

    /// The timestamp assigned to the next committed event: the caller's
    /// clock reading, bumped to keep timestamps monotonic per ledger.
    pub open spec fn next_timestamp(self, now_ms: u64) -> u64 {
        let evs = self.events.deep_view();
        if evs.len() == 0 {
            now_ms
        } else if now_ms >= evs.last().timestamp {
            now_ms
        } else {
            evs.last().timestamp
        }
    }

    /// The model of the event that appending `d` at clock reading
    /// `now_ms` commits.
    pub open spec fn committed_event(self, d: EventDraft, now_ms: u64) -> EventV {
        let unsigned = event_from_draft(
            d,
            self.events.deep_view().len() as u64,
            self.next_timestamp(now_ms),
        );
        EventV {
            signature: Option::Some(
                SignatureV {
                    signer: d.actor@,
                    signature: ed25519_sig_of(
                        self.signatures.spec_seed_for(d.actor@),
                        canon_event_core(unsigned),
                    ),
                    algorithm: ed25519_name(),
                },
            ),
            ..unsigned
        }
    }

    /// An empty ledger: no events, artifacts, blocks, pending events or
    /// signing keys, and the genesis sentinel as the chain cursor.
    pub fn new() -> (r: Ledger)
        ensures
            r.wf(),
            r.events.deep_view() == Seq::<EventV>::empty(),
            r.artifacts.deep_view() == Seq::<ArtifactV>::empty(),
            r.blocks.deep_view() == Seq::<BlockV>::empty(),
            r.pending.deep_view() == Seq::<EventV>::empty(),
            r.graph.edge_set() == Set::<(u64, u64)>::empty(),
            r.signatures.keys@.len() == 0,
    {
        let r = Ledger {
            events: Vec::new(),
            artifacts: Vec::new(),
            graph: LineageGraph::new(),
            pending: Vec::new(),
            blocks: Vec::new(),
            last_block_hash: genesis_string(),
            signatures: SignatureService::new(),
        };
        proof {
            assert(r.events.deep_view() =~= Seq::<EventV>::empty());
            assert(r.artifacts.deep_view() =~= Seq::<ArtifactV>::empty());
            assert(r.blocks.deep_view() =~= Seq::<BlockV>::empty());
            assert(r.pending.deep_view() =~= Seq::<EventV>::empty());
            assert(sealed_events(r.blocks.deep_view()) + r.pending.deep_view() =~= r
                .events
                .deep_view());
        }
        r
    }

    /// Registers an Ed25519 signing key (a 32-byte seed) for a new actor.
    ///
    /// Succeeds exactly when the seed is 32 bytes and the actor has no key
    /// yet; nothing else in the ledger changes.
    pub fn register_signer(&mut self, actor: String, seed: Vec<u8>) -> (r: bool)
        requires
            old(self).wf(),
        ensures
            final(self).wf(),
            r == (seed@.len() == 32 && !old(self).signatures.spec_has_signer(actor@)),
            final(self).signatures.spec_has_signer(actor@) == (old(self).signatures.spec_has_signer(
                actor@,
            ) || seed@.len() == 32),
            final(self).events == old(self).events,
            final(self).artifacts == old(self).artifacts,
            final(self).blocks == old(self).blocks,
            final(self).pending == old(self).pending,
            final(self).graph == old(self).graph,
            final(self).last_block_hash == old(self).last_block_hash,
    {
        let r = self.signatures.register_signer(actor, seed);
        proof {
            assert forall|i: int|
                0 <= i < self.events.deep_view().len() implies sig_ok(
                #[trigger] self.events.deep_view()[i],
                self.signatures,
            ) by {
                let e = self.events.deep_view()[i];
                assert(sig_ok(e, old(self).signatures));
                assert(old(self).signatures.spec_has_signer(e.actor));
            }
        }
        r
    }

    /// Appends a new event: assigns the next `id` and a monotonic
    /// timestamp, signs the canonical bytes for the drafting actor,
    /// persists the event, updates the lineage graph and queues the event
    /// for the next block — all in one commit.
    ///
    /// Fails with `UnknownSigner`, changing nothing, exactly when no key
    /// is registered for the draft's actor. Committed events are never
    /// altered: the old history is a prefix of the new one.
    pub fn append_event(&mut self, draft: EventDraft, now_ms: u64) -> (r: Result<
        Event,
        ProvenanceError,
    >)
        requires
            old(self).wf(),
        ensures
            final(self).wf(),
            old(self).events.deep_view().is_prefix_of(final(self).events.deep_view()),
            r is Ok <==> old(self).signatures.spec_has_signer(draft.actor@),
            r matches Result::Err(e) ==> e == ProvenanceError::UnknownSigner && *final(self)
                == *old(self),
            r matches Result::Ok(ev) ==> {
                let committed = old(self).committed_event(draft, now_ms);
                &&& ev@ == committed
                &&& final(self).events.deep_view() == old(self).events.deep_view().push(committed)
                &&& final(self).pending.deep_view() == old(self).pending.deep_view().push(committed)
                &&& final(self).graph.edge_set() == old(self).graph.edge_set().union(
                    event_pairs(committed),
                )
                &&& final(self).blocks == old(self).blocks
                &&& final(self).artifacts == old(self).artifacts
                &&& final(self).signatures == old(self).signatures
                &&& final(self).last_block_hash == old(self).last_block_hash
            },
    {
        let id = self.events.len() as u64;
        let ts = if self.events.len() == 0 {
            now_ms
        } else {
            let last_ts = self.events[self.events.len() - 1].timestamp;
            if now_ms >= last_ts {
                now_ms
            } else {
                last_ts
            }
        };
        proof {
            assert(self.events.deep_view().len() == self.events@.len());
            if self.events@.len() > 0 {
                assert(self.events.deep_view().last() == self.events@[self.events@.len() - 1]@);
            }
            assert(ts == old(self).next_timestamp(now_ms));
        }
        let mut event = Event {
            id,
            timestamp: ts,
            actor: draft.actor,
            in_artifacts: draft.in_artifacts,
            operation: draft.operation,
            out_artifacts: draft.out_artifacts,
            context: draft.context,
            signature: Option::None,
        };
        let bytes = canonical_event_bytes(&event);
        let sig = match self.signatures.sign(&event.actor, &bytes) {
            Result::Ok(sig) => sig,
            Result::Err(e) => {
                return Result::Err(e);
            },
        };
        event.signature = Option::Some(sig);
        let ghost committed = old(self).committed_event(draft, now_ms);
        proof {
            assert(canon_event_core(event@) == canon_event_core(
                event_from_draft(draft, id, ts),
            ));
            assert(event@ == committed);
        }
        self.graph.record_edges(&event);
        let pending_copy = event.clone();
        self.pending.push(pending_copy);
        let ret = event.clone();
        self.events.push(event);
        proof {
            let evs = old(self).events.deep_view();
            assert(self.events.deep_view() =~= evs.push(committed));
            assert(self.pending.deep_view() =~= old(self).pending.deep_view().push(committed));
            assert(graph_of(evs.push(committed)) == graph_of(evs).union(event_pairs(committed)))
                by {
                assert(evs.push(committed).drop_last() =~= evs);
                assert(evs.push(committed).last() == committed);
            }
            assert(sealed_events(self.blocks.deep_view()) + self.pending.deep_view() =~= self
                .events
                .deep_view());
            assert forall|i: int|
                0 <= i < self.events.deep_view().len() implies sig_ok(
                #[trigger] self.events.deep_view()[i],
                self.signatures,
            ) by {
                if i < evs.len() {
                    assert(self.events.deep_view()[i] == evs[i]);
                    assert(sig_ok(evs[i], old(self).signatures));
                } else {
                    assert(self.events.deep_view()[i] == committed);
                }
            }
            assert(old(self).events.deep_view().is_prefix_of(self.events.deep_view())) by {
                assert(self.events.deep_view().take(evs.len() as int) =~= evs);
            }
        }
        Result::Ok(ret)
    }

    /// Registers a new artifact: assigns the next `id` and the caller's
    /// clock reading, and persists it. Artifacts are immutable; new
    /// versions are new records. Nothing else in the ledger changes.
    pub fn register_artifact(&mut self, draft: ArtifactDraft, now_ms: u64) -> (r: Artifact)
        requires
            old(self).wf(),
        ensures
            final(self).wf(),
            old(self).events.deep_view().is_prefix_of(final(self).events.deep_view()),
            r@ == (ArtifactV {
                id: old(self).artifacts.deep_view().len() as u64,
                name: draft.name@,
                version: draft.version@,
                content_hash: draft.content_hash@,
                metadata: draft.metadata@,
                registered_at: now_ms,
            }),
            final(self).artifacts.deep_view() == old(self).artifacts.deep_view().push(r@),
            final(self).events == old(self).events,
            final(self).blocks == old(self).blocks,
            final(self).pending == old(self).pending,
            final(self).graph == old(self).graph,
            final(self).signatures == old(self).signatures,
            final(self).last_block_hash == old(self).last_block_hash,
    {
        let artifact = Artifact {
            id: self.artifacts.len() as u64,
            name: draft.name,
            version: draft.version,
            content_hash: draft.content_hash,
            metadata: draft.metadata,
            registered_at: now_ms,
        };
        let ret = artifact.clone();
        self.artifacts.push(artifact);
        proof {
            assert(self.artifacts.deep_view() =~= old(self).artifacts.deep_view().push(ret@));
        }
        ret
    }

    /// Looks an artifact up by id; fails with `NotFound` exactly when the
    /// id was never assigned.
    pub fn get_artifact(&self, id: u64) -> (r: Result<Artifact, ProvenanceError>)
        requires
            self.wf(),
        ensures
            r is Ok <==> id < self.artifacts.deep_view().len(),
            r matches Result::Ok(a) ==> a@ == self.artifacts.deep_view()[id as int],
            r matches Result::Err(e) ==> e == ProvenanceError::NotFound,
    {
        if id < self.artifacts.len() as u64 {
            let a = self.artifacts[id as usize].clone();
            Result::Ok(a)
        } else {
            Result::Err(ProvenanceError::NotFound)
        }
    }

    /// Lists the committed events passing the filter, in commit order.
    ///
    /// Filters are conjunctive: an `operation` equality and an inclusive
    /// timestamp range.
    pub fn list_events(&self, filter: Option<&EventFilter>) -> (r: Vec<Event>)
        requires
            self.wf(),
        ensures
            r.deep_view() == spec_filter_events(
                self.events.deep_view(),
                match filter {
                    Option::Some(f) => Option::Some(f@),
                    Option::None => Option::None,
                },
            ),
    {
        let ghost fv: Option<EventFilterV> = match filter {
            Option::Some(f) => Option::Some(f@),
            Option::None => Option::None,
        };
        let mut r: Vec<Event> = Vec::new();
        let mut i: usize = 0;
        while i < self.events.len()
            invariant
                i <= self.events@.len(),
                fv == (match filter {
                    Option::Some(f) => Option::Some(f@),
                    Option::None => Option::<EventFilterV>::None,
                }),
                self.events.deep_view().len() == self.events@.len(),
                forall|j: int|
                    0 <= j < self.events@.len() ==> self.events.deep_view()[j] == self.events@[j]@,
                r.deep_view() == spec_filter_events(self.events.deep_view().take(i as int), fv),
            decreases self.events@.len() - i,
        {
            let keep = match filter {
                Option::Some(f) => event_matches(&self.events[i], f),
                Option::None => true,
            };
            proof {
                lemma_spec_filter_snoc(self.events.deep_view(), fv, i as int);
            }
            if keep {
                let copy = self.events[i].clone();
                r.push(copy);
                proof {
                    assert(r.deep_view() =~= spec_filter_events(
                        self.events.deep_view().take(i + 1),
                        fv,
                    ));
                }
            } else {
                proof {
                    assert(r.deep_view() =~= spec_filter_events(
                        self.events.deep_view().take(i + 1),
                        fv,
                    ));
                }
            }
            i += 1;
        }
        proof {
            assert(self.events.deep_view().take(self.events@.len() as int) =~= self
                .events
                .deep_view());
        }
        r
    }

    /// Answers a lineage query for a registered artifact; fails with
    /// `NotFound` exactly when the id was never assigned.
    ///
    /// Direct mode returns the immediate parents and children, in edge
    /// order. Transitive mode returns the full ancestor and descendant
    /// sets and raises the cyclic warning when any node in scope lies on
    /// a cycle; a cycle never fails the query.
    pub fn get_lineage(&self, artifact_id: u64, transitive: bool) -> (r: Result<
        Lineage,
        ProvenanceError,
    >)
        requires
            self.wf(),
        ensures
            r is Ok <==> artifact_id < self.artifacts.deep_view().len(),
            r matches Result::Err(e) ==> e == ProvenanceError::NotFound,
            r matches Result::Ok(l) ==> {
                &&& l.artifact_id == artifact_id
                &&& l.parent_ids@.no_duplicates()
                &&& l.child_ids@.no_duplicates()
                &&& (!transitive ==> {
                    &&& l.child_ids@ == spec_children(self.graph.edges@, artifact_id)
                    &&& l.parent_ids@ == spec_parents(self.graph.edges@, artifact_id)
                    &&& forall|y: u64| #[trigger]
                        l.child_ids@.contains(y) == self.graph.edge_set().contains(
                            (artifact_id, y),
                        )
                    &&& forall|x: u64| #[trigger]
                        l.parent_ids@.contains(x) == self.graph.edge_set().contains(
                            (x, artifact_id),
                        )
                    &&& l.cyclic_warning == false
                })
                &&& (transitive ==> {
                    &&& forall|b: u64| #[trigger]
                        l.child_ids@.contains(b) == reaches(
                            self.graph.edge_set(),
                            artifact_id,
                            b,
                        )
                    &&& forall|b: u64| #[trigger]
                        l.parent_ids@.contains(b) == reaches(
                            self.graph.edge_set(),
                            b,
                            artifact_id,
                        )
                    &&& l.cyclic_warning == self.graph.spec_cyclic_near(artifact_id)
                })
            },
    {
        if !(artifact_id < self.artifacts.len() as u64) {
            return Result::Err(ProvenanceError::NotFound);
        }
        if transitive {
            let child_ids = self.graph.descendants(artifact_id);
            let parent_ids = self.graph.ancestors(artifact_id);
            let cyclic_warning = self.graph.cyclic_near(artifact_id);
            Result::Ok(Lineage { artifact_id, parent_ids, child_ids, cyclic_warning })
        } else {
            let child_ids = self.graph.children_of(artifact_id);
            let parent_ids = self.graph.parents_of(artifact_id);
            proof {
                crate::graph::lemma_children_no_dup(self.graph.edges@, artifact_id);
                crate::graph::lemma_parents_no_dup(self.graph.edges@, artifact_id);
            }
            Result::Ok(Lineage { artifact_id, parent_ids, child_ids, cyclic_warning: false })
        }
    }

    /// Seals every pending event into a new block: hashes the batch
    /// together with the previous block's hash, appends the block,
    /// advances the chain cursor and clears exactly the sealed events.
    ///
    /// Fails with `EmptyBatch`, changing nothing, exactly when no events
    /// are pending. No event is lost or sealed twice: the sealed blocks
    /// plus the still-pending events always hold exactly the committed
    /// events.
    pub fn seal_block(&mut self, now_ms: u64) -> (r: Result<Block, ProvenanceError>)
        requires
            old(self).wf(),
        ensures
            final(self).wf(),
            old(self).events.deep_view().is_prefix_of(final(self).events.deep_view()),
            r is Ok <==> old(self).pending.deep_view().len() > 0,
            r matches Result::Err(e) ==> e == ProvenanceError::EmptyBatch && *final(self) == *old(
                self,
            ),
            r matches Result::Ok(b) ==> {
                let sealed = BlockV {
                    id: old(self).blocks.deep_view().len() as u64,
                    events: old(self).pending.deep_view(),
                    hash: spec_block_hash(
                        old(self).pending.deep_view(),
                        old(self).last_block_hash@,
                    ),
                    previous_hash: old(self).last_block_hash@,
                    created_at: now_ms,
                };
                &&& b@ == sealed
                &&& final(self).blocks.deep_view() == old(self).blocks.deep_view().push(sealed)
                &&& final(self).pending.deep_view() == Seq::<EventV>::empty()
                &&& final(self).last_block_hash@ == sealed.hash
                &&& final(self).events == old(self).events
                &&& final(self).artifacts == old(self).artifacts
                &&& final(self).graph == old(self).graph
                &&& final(self).signatures == old(self).signatures
            },
    {
        if self.pending.len() == 0 {
            return Result::Err(ProvenanceError::EmptyBatch);
        }
        let mut batch: Vec<Event> = Vec::new();
        std::mem::swap(&mut batch, &mut self.pending);
        let hash = compute_block_hash(&batch, self.last_block_hash.as_str());
        let block = Block {
            id: self.blocks.len() as u64,
            events: batch,
            hash: hash.clone(),
            previous_hash: self.last_block_hash.clone(),
            created_at: now_ms,
        };
        self.last_block_hash = hash;
        let ret = block.clone();
        self.blocks.push(block);
        proof {
            let bs = old(self).blocks.deep_view();
            let sealed = ret@;
            assert(self.blocks.deep_view() =~= bs.push(sealed));
            assert(self.pending.deep_view() =~= Seq::<EventV>::empty());
            assert(sealed_events(bs.push(sealed)) == sealed_events(bs) + sealed.events) by {
                assert(bs.push(sealed).drop_last() =~= bs);
                assert(bs.push(sealed).last() == sealed);
            }
            assert(sealed_events(self.blocks.deep_view()) + self.pending.deep_view() =~= self
                .events
                .deep_view());
            assert(chain_ok(self.blocks.deep_view())) by {
                assert forall|i: int| 0 <= i < bs.push(sealed).len() implies #[trigger] link_ok(
                    bs.push(sealed),
                    i,
                ) by {
                    if i < bs.len() {
                        assert(link_ok(bs, i));
                        assert(bs.push(sealed)[i] == bs[i]);
                        if i > 0 {
                            assert(bs.push(sealed)[i - 1] == bs[i - 1]);
                        }
                    }
                }
            }
        }
        Result::Ok(ret)
    }

    /// The sealed blocks, in order.
    pub fn list_blocks(&self) -> (r: Vec<Block>)
        requires
            self.wf(),
        ensures
            r.deep_view() == self.blocks.deep_view(),
    {
        let r = clone_blocks(&self.blocks);
        r
    }

    /// Walks this ledger's chain; a well-formed ledger always verifies.
    pub fn verify_own_chain(&self) -> (r: ChainVerdict)
        requires
            self.wf(),
        ensures
            r == ChainVerdict::Valid,
    {
        verify_chain(&self.blocks)
    }

    /// Verifies a committed event's signature against the registered keys.
    ///
    /// A structurally malformed signature (wrong length) fails with
    /// `MalformedSignature`; any other mismatch returns `false`.
    pub fn verify_signature(&self, data: &Vec<u8>, signature: &Signature) -> (r: Result<
        bool,
        ProvenanceError,
    >)
        requires
            self.wf(),
        ensures
            r is Err <==> signature.signature@.len() != 64,
            r matches Result::Err(e) ==> e == ProvenanceError::MalformedSignature,
            r matches Result::Ok(b) ==> b == self.signatures.spec_verifies(data@, signature@),
    {
        self.signatures.verify(data, signature)
    }
}

/// The committed events not yet covered by sealed blocks: the suffix of
/// the event log after the first `sealed` events. Recovery rebuilds the
/// pending queue with this after replaying the durable log.
pub fn events_after(events: &Vec<Event>, sealed: usize) -> (r: Vec<Event>)
    requires
        sealed <= events@.len(),
    ensures
        r.deep_view() == events.deep_view().skip(sealed as int),
{
    let mut r: Vec<Event> = Vec::new();
    let mut i: usize = sealed;
    while i < events.len()
        invariant
            sealed <= i <= events@.len(),
            events.deep_view().len() == events@.len(),
            forall|j: int| 0 <= j < events@.len() ==> events.deep_view()[j] == events@[j]@,
            r.deep_view().len() == i - sealed,
            forall|j: int|
                0 <= j < i - sealed ==> r.deep_view()[j] == events.deep_view()[sealed + j],
        decreases events@.len() - i,
    {
        let copy = events[i].clone();
        let ghost pre = r.deep_view();
        r.push(copy);
        proof {
            assert(r.deep_view() =~= pre.push(events.deep_view()[i as int]));
        }
        i += 1;
    }
    proof {
        assert(r.deep_view() =~= events.deep_view().skip(sealed as int));
    }
    r
}

/// Clones a vector of blocks, preserving the model of every block.
pub fn clone_blocks(v: &Vec<Block>) -> (r: Vec<Block>)
    ensures
        r.deep_view() == v.deep_view(),
{
    let r = v.clone();
    proof {
        assert forall|i: int| 0 <= i < v@.len() implies r.deep_view()[i] == v.deep_view()[i] by {
            assert(cloned::<Block>(v@[i], r@[i]));
        }
        assert(r.deep_view() =~= v.deep_view());
    }
    r
}

/// A freshly sealed chain always verifies: every well-formed ledger's
/// block sequence is fully linked, with every hash the documented
/// function of the block's contents.
pub proof fn lemma_sealed_chain_verifies(l: Ledger)
    requires
        l.wf(),
    ensures
        chain_ok(l.blocks.deep_view()),
{
}

/// No event is lost or duplicated across seals: the events of all sealed
/// blocks, followed by the still-pending events, are exactly the committed
/// events, which are pairwise distinct.
pub proof fn lemma_no_lost_or_duplicated_events(l: Ledger)
    requires
        l.wf(),
    ensures
        sealed_events(l.blocks.deep_view()) + l.pending.deep_view() == l.events.deep_view(),
        l.events.deep_view().no_duplicates(),
{
    let evs = l.events.deep_view();
    assert forall|i: int, j: int| 0 <= i < j < evs.len() implies evs[i] != evs[j] by {
        assert(evs[i].id == i && evs[j].id == j);
    }
}

/// Rebuilding the graph from the committed events yields the graph the
/// ledger maintained incrementally, and with it identical ancestor and
/// descendant sets for every artifact.
pub proof fn lemma_rebuild_equivalence(l: Ledger, g: LineageGraph)
    requires
        l.wf(),
        g.edge_set() == graph_of(l.events.deep_view()),
    ensures
        g.edge_set() == l.graph.edge_set(),
        forall|a: u64, b: u64|
            #[trigger] reaches(g.edge_set(), a, b) == reaches(l.graph.edge_set(), a, b),
{
}

} // verus!
