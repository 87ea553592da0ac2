use provenance_ledger::codec::{canonical_event_bytes, encode_events, encode_str, encode_u64};
use provenance_ledger::crypto::to_hex;
use provenance_ledger::errors::ProvenanceError;
use provenance_ledger::graph::LineageGraph;
use provenance_ledger::ledger::{verify_chain, ChainVerdict, Ledger};
use provenance_ledger::types::{ArtifactDraft, EventDraft, EventFilter};
use provenance_ledger::value::Value;

fn seed_bytes(fill: u8) -> Vec<u8> {
    vec![fill; 32]
}

fn ledger_with_signer(actor: &str) -> Ledger {
    let mut l = Ledger::new();
    assert!(l.register_signer(actor.to_string(), seed_bytes(7)));
    l
}

fn draft(actor: &str, op: &str, ins: Vec<u64>, outs: Vec<u64>) -> EventDraft {
    EventDraft {
        actor: actor.to_string(),
        in_artifacts: ins,
        operation: op.to_string(),
        out_artifacts: outs,
        context: Value::Null,
    }
}

fn register_artifact(l: &mut Ledger, name: &str, now: u64) -> u64 {
    let a = l.register_artifact(
        ArtifactDraft {
            name: name.to_string(),
            version: "1".to_string(),
            content_hash: "h".to_string(),
            metadata: Value::Null,
        },
        now,
    );
    a.id
}

#[test]
fn append_assigns_monotonic_ids_and_timestamps() {
    let mut l = ledger_with_signer("alice");
    let e0 = l.append_event(draft("alice", "create", vec![], vec![0]), 100).unwrap();
    let e1 = l.append_event(draft("alice", "transform", vec![0], vec![1]), 50).unwrap();
    assert_eq!(e0.id, 0);
    assert_eq!(e1.id, 1);
    assert_eq!(e0.timestamp, 100);
    // the clock went backwards; the store keeps timestamps monotonic
    assert_eq!(e1.timestamp, 100);
    let e2 = l.append_event(draft("alice", "export", vec![1], vec![]), 300).unwrap();
    assert_eq!(e2.timestamp, 300);
}

#[test]
fn append_unknown_signer_is_rejected() {
    let mut l = Ledger::new();
    let r = l.append_event(draft("mallory", "create", vec![], vec![]), 1);
    assert!(matches!(r, Err(ProvenanceError::UnknownSigner)));
    assert!(l.list_events(None).is_empty());
}

#[test]
fn register_signer_rules() {
    let mut l = Ledger::new();
    assert!(!l.register_signer("alice".to_string(), vec![1; 31]));
    assert!(l.register_signer("alice".to_string(), seed_bytes(1)));
    // a second registration for the same actor is refused
    assert!(!l.register_signer("alice".to_string(), seed_bytes(2)));
}

#[test]
fn list_events_is_monotonic_and_ordered() {
    let mut l = ledger_with_signer("alice");
    l.append_event(draft("alice", "a", vec![], vec![]), 1).unwrap();
    let before = l.list_events(None);
    l.append_event(draft("alice", "b", vec![], vec![]), 2).unwrap();
    let after = l.list_events(None);
    assert!(after.len() >= before.len());
    for (i, e) in before.iter().enumerate() {
        assert_eq!(after[i].id, e.id);
        assert_eq!(after[i].operation, e.operation);
    }
    assert_eq!(after.len(), 2);
    assert_eq!(after[0].operation, "a");
    assert_eq!(after[1].operation, "b");
}

#[test]
fn list_events_filters_conjunctively() {
    let mut l = ledger_with_signer("alice");
    l.append_event(draft("alice", "create", vec![], vec![]), 10).unwrap();
    l.append_event(draft("alice", "create", vec![], vec![]), 20).unwrap();
    l.append_event(draft("alice", "delete-request", vec![], vec![]), 30).unwrap();

    let by_op = l.list_events(Some(&EventFilter {
        event_type: Some("create".to_string()),
        start_time: None,
        end_time: None,
    }));
    assert_eq!(by_op.len(), 2);

    let by_range = l.list_events(Some(&EventFilter {
        event_type: None,
        start_time: Some(15),
        end_time: Some(30),
    }));
    assert_eq!(by_range.len(), 2);
    assert_eq!(by_range[0].timestamp, 20);

    let both = l.list_events(Some(&EventFilter {
        event_type: Some("create".to_string()),
        start_time: Some(15),
        end_time: Some(30),
    }));
    assert_eq!(both.len(), 1);
    assert_eq!(both[0].timestamp, 20);
}

#[test]
fn artifact_registry_assigns_ids_and_finds() {
    let mut l = Ledger::new();
    let a0 = register_artifact(&mut l, "data", 5);
    let a1 = register_artifact(&mut l, "model", 6);
    assert_eq!(a0, 0);
    assert_eq!(a1, 1);
    let got = l.get_artifact(a1).unwrap();
    assert_eq!(got.name, "model");
    assert_eq!(got.registered_at, 6);
    assert!(matches!(l.get_artifact(99), Err(ProvenanceError::NotFound)));
}

#[test]
fn lineage_direct_and_transitive() {
    // A0 produced with no inputs, then an event consuming A0 produces A1
    let mut l = ledger_with_signer("alice");
    let a0 = register_artifact(&mut l, "a0", 1);
    let a1 = register_artifact(&mut l, "a1", 2);
    l.append_event(draft("alice", "create", vec![], vec![a0]), 10).unwrap();
    l.append_event(draft("alice", "derive", vec![a0], vec![a1]), 20).unwrap();

    let direct = l.get_lineage(a1, false).unwrap();
    assert_eq!(direct.parent_ids, vec![a0]);
    assert!(direct.child_ids.is_empty());
    assert!(!direct.cyclic_warning);

    let transitive = l.get_lineage(a0, true).unwrap();
    assert!(transitive.child_ids.contains(&a1));
    assert!(!transitive.cyclic_warning);

    assert!(matches!(l.get_lineage(42, false), Err(ProvenanceError::NotFound)));
}

#[test]
fn lineage_deep_transitive_chain() {
    let mut l = ledger_with_signer("alice");
    let ids: Vec<u64> = (0..4).map(|i| register_artifact(&mut l, &format!("a{i}"), i)).collect();
    l.append_event(draft("alice", "d", vec![ids[0]], vec![ids[1]]), 1).unwrap();
    l.append_event(draft("alice", "d", vec![ids[1]], vec![ids[2]]), 2).unwrap();
    l.append_event(draft("alice", "d", vec![ids[2]], vec![ids[3]]), 3).unwrap();

    let down = l.get_lineage(ids[0], true).unwrap();
    assert_eq!(down.child_ids.len(), 3);
    let up = l.get_lineage(ids[3], true).unwrap();
    assert_eq!(up.parent_ids.len(), 3);

    // the direct query stays narrow
    let direct = l.get_lineage(ids[0], false).unwrap();
    assert_eq!(direct.child_ids, vec![ids[1]]);
}

#[test]
fn lineage_cycle_is_a_warning_not_an_error() {
    let mut l = ledger_with_signer("alice");
    let a0 = register_artifact(&mut l, "a0", 1);
    let a1 = register_artifact(&mut l, "a1", 2);
    l.append_event(draft("alice", "d", vec![a0], vec![a1]), 1).unwrap();
    l.append_event(draft("alice", "d", vec![a1], vec![a0]), 2).unwrap();
    let lin = l.get_lineage(a0, true).unwrap();
    assert!(lin.cyclic_warning);
    assert!(lin.child_ids.contains(&a1));
    assert!(lin.child_ids.contains(&a0));
    // a node outside the cycle sees no warning
    let a2 = register_artifact(&mut l, "a2", 3);
    let lone = l.get_lineage(a2, true).unwrap();
    assert!(!lone.cyclic_warning);
    assert!(lone.child_ids.is_empty());
}

#[test]
fn record_edges_is_idempotent() {
    // replaying the same event leaves the graph identical
    let mut l = ledger_with_signer("alice");
    let a0 = register_artifact(&mut l, "a0", 1);
    let a1 = register_artifact(&mut l, "a1", 2);
    let ev = l.append_event(draft("alice", "d", vec![a0], vec![a1]), 1).unwrap();
    let edges_once = l.graph.edges.clone();
    l.graph.record_edges(&ev);
    l.graph.record_edges(&ev);
    assert_eq!(l.graph.edges, edges_once);
}

#[test]
fn graph_rebuild_matches_incremental() {
    // replaying the committed events reproduces the incremental graph
    let mut l = ledger_with_signer("alice");
    for i in 0..3u64 {
        register_artifact(&mut l, &format!("a{i}"), i);
    }
    l.append_event(draft("alice", "d", vec![], vec![0]), 1).unwrap();
    l.append_event(draft("alice", "d", vec![0], vec![1, 2]), 2).unwrap();
    l.append_event(draft("alice", "d", vec![1], vec![2]), 3).unwrap();

    let rebuilt = LineageGraph::rebuild(&l.events);
    for a in 0..3u64 {
        let mut inc = l.graph.descendants(a);
        let mut rep = rebuilt.descendants(a);
        inc.sort();
        rep.sort();
        assert_eq!(inc, rep);
        let mut inc_up = l.graph.ancestors(a);
        let mut rep_up = rebuilt.ancestors(a);
        inc_up.sort();
        rep_up.sort();
        assert_eq!(inc_up, rep_up);
    }
}

#[test]
fn seal_block_rules() {
    // sealing with nothing pending is EmptyBatch; the block hash
    // matches the documented formula exactly
    let mut l = ledger_with_signer("alice");
    assert!(matches!(l.seal_block(1), Err(ProvenanceError::EmptyBatch)));

    l.append_event(draft("alice", "create", vec![], vec![0]), 10).unwrap();
    let block = l.seal_block(20).unwrap();
    assert_eq!(block.id, 0);
    assert_eq!(block.previous_hash, "genesis");
    assert_eq!(block.events.len(), 1);

    // recompute the hash independently: SHA-256 over the canonical
    // encoding of the events followed by the encoded previous hash
    let mut buf: Vec<u8> = Vec::new();
    encode_events(&mut buf, &block.events);
    encode_str(&mut buf, &block.previous_hash);
    let digest = ring::digest::digest(&ring::digest::SHA256, &buf);
    let expected: String = digest.as_ref().iter().map(|b| format!("{b:02x}")).collect();
    assert_eq!(block.hash, expected);

    // the cursor advanced: the next block links to this one
    l.append_event(draft("alice", "create", vec![], vec![1]), 30).unwrap();
    let second = l.seal_block(40).unwrap();
    assert_eq!(second.previous_hash, block.hash);
    assert_eq!(second.id, 1);
}

#[test]
fn no_events_lost_or_duplicated_across_seals() {
    // sealed blocks plus pending events are exactly the committed events
    let mut l = ledger_with_signer("alice");
    for i in 0..5u64 {
        l.append_event(draft("alice", "op", vec![], vec![i]), i).unwrap();
        if i == 1 || i == 3 {
            l.seal_block(i).unwrap();
        }
    }
    let mut sealed_ids: Vec<u64> = Vec::new();
    for b in l.list_blocks() {
        for e in &b.events {
            sealed_ids.push(e.id);
        }
    }
    let pending_ids: Vec<u64> = l.pending.iter().map(|e| e.id).collect();
    let mut all = sealed_ids.clone();
    all.extend(&pending_ids);
    let committed: Vec<u64> = l.list_events(None).iter().map(|e| e.id).collect();
    assert_eq!(all, committed);
    assert_eq!(sealed_ids, vec![0, 1, 2, 3]);
    assert_eq!(pending_ids, vec![4]);
}

#[test]
fn verify_chain_detects_tampering_at_the_right_index() {
    // a fresh chain verifies; mutating one event is reported at that
    // block's index, not a later one
    let mut l = ledger_with_signer("alice");
    for i in 0..3u64 {
        l.append_event(draft("alice", "op", vec![], vec![i]), i).unwrap();
        l.seal_block(i).unwrap();
    }
    assert_eq!(l.verify_own_chain(), ChainVerdict::Valid);
    let blocks = l.list_blocks();
    assert_eq!(verify_chain(&blocks), ChainVerdict::Valid);

    for tampered_at in 0..3usize {
        let mut copy = l.list_blocks();
        copy[tampered_at].events[0].operation = "forged".to_string();
        assert_eq!(verify_chain(&copy), ChainVerdict::Tampered(tampered_at));
    }

    // reordering blocks is detected at the first misplaced block
    let mut swapped = l.list_blocks();
    swapped.swap(0, 1);
    assert_eq!(verify_chain(&swapped), ChainVerdict::Tampered(0));
}

#[test]
fn event_signatures_verify_and_bind_the_content() {
    let mut l = ledger_with_signer("alice");
    let ev = l.append_event(draft("alice", "create", vec![], vec![0]), 1).unwrap();
    let sig = ev.signature.clone().unwrap();
    assert_eq!(sig.signer, "alice");
    assert_eq!(sig.algorithm, "Ed25519");
    assert_eq!(sig.signature.len(), 64);

    let bytes = canonical_event_bytes(&ev);
    assert_eq!(l.verify_signature(&bytes, &sig), Ok(true));

    // different bytes no longer verify
    let mut other = bytes.clone();
    other[0] ^= 1;
    assert_eq!(l.verify_signature(&other, &sig), Ok(false));

    // a structurally malformed signature is an error, not a mismatch
    let mut short = sig.clone();
    short.signature.truncate(10);
    assert_eq!(
        l.verify_signature(&bytes, &short),
        Err(ProvenanceError::MalformedSignature)
    );

    // an unregistered signer verifies nothing
    let mut foreign = sig.clone();
    foreign.signer = "mallory".to_string();
    assert_eq!(l.verify_signature(&bytes, &foreign), Ok(false));
}

#[test]
fn canonical_encoding_is_exact() {
    let mut buf: Vec<u8> = Vec::new();
    encode_u64(&mut buf, 0x0102030405060708);
    assert_eq!(buf, vec![0x08, 0x07, 0x06, 0x05, 0x04, 0x03, 0x02, 0x01]);

    let digest = vec![0x00u8, 0x0f, 0xa5, 0xff];
    assert_eq!(to_hex(&digest), "000fa5ff");
}

#[test]
fn context_values_round_trip_through_the_store() {
    let mut l = ledger_with_signer("alice");
    let context = Value::Obj(vec![
        ("kind".to_string(), Value::Str("training-run".to_string())),
        ("epochs".to_string(), Value::Int(12)),
        ("tags".to_string(), Value::Arr(vec![Value::Bool(true), Value::Null])),
    ]);
    let d = EventDraft {
        actor: "alice".to_string(),
        in_artifacts: vec![],
        operation: "train".to_string(),
        out_artifacts: vec![0],
        context,
    };
    l.append_event(d, 1).unwrap();
    let events = l.list_events(None);
    match &events[0].context {
        Value::Obj(pairs) => {
            assert_eq!(pairs.len(), 3);
            assert_eq!(pairs[0].0, "kind");
            match &pairs[1].1 {
                Value::Int(n) => assert_eq!(*n, 12),
                _ => panic!("expected an integer entry"),
            }
        },
        _ => panic!("expected a mapping context"),
    }
}

#[test]
fn block_hash_covers_structured_contexts() {
    // the canonical encoding reaches every value variant; the hash still
    // matches the documented formula
    let mut l = ledger_with_signer("alice");
    let context = Value::Obj(vec![
        ("s".to_string(), Value::Str("text".to_string())),
        ("n".to_string(), Value::Int(-3)),
        ("b".to_string(), Value::Bool(false)),
        ("a".to_string(), Value::Arr(vec![Value::Int(1), Value::Null])),
        ("o".to_string(), Value::Obj(vec![("x".to_string(), Value::Int(2))])),
    ]);
    let d = EventDraft {
        actor: "alice".to_string(),
        in_artifacts: vec![3, 4],
        operation: "annotate".to_string(),
        out_artifacts: vec![5],
        context,
    };
    l.append_event(d, 7).unwrap();
    let block = l.seal_block(8).unwrap();

    let mut buf: Vec<u8> = Vec::new();
    encode_events(&mut buf, &block.events);
    encode_str(&mut buf, &block.previous_hash);
    let digest = ring::digest::digest(&ring::digest::SHA256, &buf);
    let expected: String = digest.as_ref().iter().map(|b| format!("{b:02x}")).collect();
    assert_eq!(block.hash, expected);
}
