//! Canonical byte encoding of the ledger's values.
//!
//! Hashing and signing operate over these bytes, so the encoding must be
//! deterministic: integers are fixed-width little-endian, strings are
//! length-prefixed sequences of 32-bit scalar values, containers are
//! length-prefixed concatenations of their entries in order.

use crate::types::{EventV, SignatureV, Event};
use crate::value::{Value, ValueV, value_view, values_view, pairs_view, lemma_values_view,
    lemma_pairs_view};
use vstd::prelude::*;

verus! {

broadcast use vstd::std_specs::vec::group_vec_axioms;

/// A `u64` as eight little-endian bytes.
pub open spec fn enc_u64(x: u64) -> Seq<u8> {
    seq![
        (x & 0xff) as u8,
        ((x >> 8) & 0xff) as u8,
        ((x >> 16) & 0xff) as u8,
        ((x >> 24) & 0xff) as u8,
        ((x >> 32) & 0xff) as u8,
        ((x >> 40) & 0xff) as u8,
        ((x >> 48) & 0xff) as u8,
        ((x >> 56) & 0xff) as u8,
    ]
}

/// A character as its scalar value in four little-endian bytes.
pub open spec fn enc_char(c: char) -> Seq<u8> {
    seq![
        ((c as u32) & 0xff) as u8,
        (((c as u32) >> 8) & 0xff) as u8,
        (((c as u32) >> 16) & 0xff) as u8,
        (((c as u32) >> 24) & 0xff) as u8,
    ]
}

/// The characters of a string, encoded in order.
pub open spec fn enc_chars(s: Seq<char>) -> Seq<u8>
    decreases s.len(),
{
    if s.len() == 0 {
        Seq::empty()
    } else {
        enc_chars(s.drop_last()) + enc_char(s.last())
    }
}

/// A string: its length, then its characters.
pub open spec fn enc_str(s: Seq<char>) -> Seq<u8> {
    enc_u64(s.len() as u64) + enc_chars(s)
}

/// A byte string: its length, then its bytes verbatim.
pub open spec fn enc_bytes(b: Seq<u8>) -> Seq<u8> {
    enc_u64(b.len() as u64) + b
}

/// Identifiers, each as eight little-endian bytes, in order.
pub open spec fn enc_u64s(s: Seq<u64>) -> Seq<u8>
    decreases s.len(),
{
    if s.len() == 0 {
        Seq::empty()
    } else {
        enc_u64s(s.drop_last()) + enc_u64(s.last())
    }
}

/// An identifier list: its length, then the identifiers.
pub open spec fn enc_ids(s: Seq<u64>) -> Seq<u8> {
    enc_u64(s.len() as u64) + enc_u64s(s)
}

/// A structured value, tagged by variant.
pub open spec fn canon_value(v: ValueV) -> Seq<u8>
    decreases v,
{
    match v {
        ValueV::Null => seq![0u8],
        ValueV::Bool(b) => seq![1u8, if b { 1u8 } else { 0u8 }],
        ValueV::Int(i) => seq![2u8] + enc_u64(i as u64),
        ValueV::Str(s) => seq![3u8] + enc_str(s),
        ValueV::Arr(es) => seq![4u8] + enc_u64(es.len() as u64) + canon_values(es),
        ValueV::Obj(ps) => seq![5u8] + enc_u64(ps.len() as u64) + canon_pairs(ps),
    }
}

/// The elements of a sequence value, encoded in order.
pub open spec fn canon_values(s: Seq<ValueV>) -> Seq<u8>
    decreases s,
{
    if s.len() == 0 {
        Seq::empty()
    } else {
        canon_values(s.drop_last()) + canon_value(s.last())
    }
}

/// The entries of a mapping value, encoded in order.
pub open spec fn canon_pairs(s: Seq<(Seq<char>, ValueV)>) -> Seq<u8>
    decreases s,
{
    if s.len() == 0 {
        Seq::empty()
    } else {
        canon_pairs(s.drop_last()) + enc_str(s.last().0) + canon_value(s.last().1)
    }
}

/// The signed portion of an event: every field except the signature.
/// This is the canonical input to signing.
pub open spec fn canon_event_core(e: EventV) -> Seq<u8> {
    enc_u64(e.id) + enc_u64(e.timestamp) + enc_str(e.actor) + enc_ids(e.in_artifacts) + enc_str(
        e.operation,
    ) + enc_ids(e.out_artifacts) + canon_value(e.context)
}

/// A detached signature record.
pub open spec fn enc_sig(s: SignatureV) -> Seq<u8> {
    enc_str(s.signer) + enc_bytes(s.signature) + enc_str(s.algorithm)
}

/// An optional signature, tagged by presence.
pub open spec fn enc_opt_sig(s: Option<SignatureV>) -> Seq<u8> {
    match s {
        Option::None => seq![0u8],
        Option::Some(s) => seq![1u8] + enc_sig(s),
    }
}

/// A whole committed event, signature included. This is what blocks hash.
pub open spec fn canon_event(e: EventV) -> Seq<u8> {
    canon_event_core(e) + enc_opt_sig(e.signature)
}

/// The events of a batch, encoded in order.
pub open spec fn canon_events_rec(s: Seq<EventV>) -> Seq<u8>
    decreases s,
{
    if s.len() == 0 {
        Seq::empty()
    } else {
        canon_events_rec(s.drop_last()) + canon_event(s.last())
    }
}

/// An event batch: its length, then the events.
pub open spec fn canon_events(s: Seq<EventV>) -> Seq<u8> {
    enc_u64(s.len() as u64) + canon_events_rec(s)
}

/// Unfolds [`enc_chars`] one element at a time from the front.
pub proof fn lemma_enc_chars_snoc(s: Seq<char>, k: int)
    requires
        0 <= k < s.len(),
    ensures
        enc_chars(s.take(k + 1)) == enc_chars(s.take(k)) + enc_char(s[k]),
{
    assert(s.take(k + 1).drop_last() =~= s.take(k));
    assert(s.take(k + 1).last() == s[k]);
}

/// Unfolds [`enc_u64s`] one element at a time from the front.
pub proof fn lemma_enc_u64s_snoc(s: Seq<u64>, k: int)
    requires
        0 <= k < s.len(),
    ensures
        enc_u64s(s.take(k + 1)) == enc_u64s(s.take(k)) + enc_u64(s[k]),
{
    assert(s.take(k + 1).drop_last() =~= s.take(k));
    assert(s.take(k + 1).last() == s[k]);
}

/// Unfolds [`canon_values`] one element at a time from the front.
pub proof fn lemma_canon_values_snoc(s: Seq<ValueV>, k: int)
    requires
        0 <= k < s.len(),
    ensures
        canon_values(s.take(k + 1)) == canon_values(s.take(k)) + canon_value(s[k]),
{
    assert(s.take(k + 1).drop_last() =~= s.take(k));
    assert(s.take(k + 1).last() == s[k]);
}

/// Unfolds [`canon_pairs`] one element at a time from the front.
pub proof fn lemma_canon_pairs_snoc(s: Seq<(Seq<char>, ValueV)>, k: int)
    requires
        0 <= k < s.len(),
    ensures
        canon_pairs(s.take(k + 1)) == canon_pairs(s.take(k)) + enc_str(s[k].0) + canon_value(
            s[k].1,
        ),
{
    assert(s.take(k + 1).drop_last() =~= s.take(k));
    assert(s.take(k + 1).last() == s[k]);
}

/// Unfolds [`canon_events_rec`] one element at a time from the front.
pub proof fn lemma_canon_events_snoc(s: Seq<EventV>, k: int)
    requires
        0 <= k < s.len(),
    ensures
        canon_events_rec(s.take(k + 1)) == canon_events_rec(s.take(k)) + canon_event(s[k]),
{
    assert(s.take(k + 1).drop_last() =~= s.take(k));
    assert(s.take(k + 1).last() == s[k]);
}

/// Appends [`enc_u64`] of `x`.
pub fn encode_u64(out: &mut Vec<u8>, x: u64)
    ensures
        final(out)@ == old(out)@ + enc_u64(x),
{
    out.push((x & 0xff) as u8);
    out.push(((x >> 8) & 0xff) as u8);
    out.push(((x >> 16) & 0xff) as u8);
    out.push(((x >> 24) & 0xff) as u8);
    out.push(((x >> 32) & 0xff) as u8);
    out.push(((x >> 40) & 0xff) as u8);
    out.push(((x >> 48) & 0xff) as u8);
    out.push(((x >> 56) & 0xff) as u8);
    proof {
        assert(out@ =~= old(out)@ + enc_u64(x));
    }
}

/// Appends [`enc_char`] of `c`.
pub fn encode_char(out: &mut Vec<u8>, c: char)
    ensures
        final(out)@ == old(out)@ + enc_char(c),
{
    let u = c as u32;
    out.push((u & 0xff) as u8);
    out.push(((u >> 8) & 0xff) as u8);
    out.push(((u >> 16) & 0xff) as u8);
    out.push(((u >> 24) & 0xff) as u8);
    proof {
        assert(out@ =~= old(out)@ + enc_char(c));
    }
}

/// Appends [`enc_str`] of `s`.
pub fn encode_str(out: &mut Vec<u8>, s: &str)
    ensures
        final(out)@ == old(out)@ + enc_str(s@),
{
    let n = s.unicode_len();
    encode_u64(out, n as u64);
    let mut i: usize = 0;
    while i < n
        invariant
            i <= n,
            n == s@.len(),
            out@ == old(out)@ + enc_u64(s@.len() as u64) + enc_chars(s@.take(i as int)),
        decreases n - i,
    {
        let c = s.get_char(i);
        encode_char(out, c);
        proof {
            lemma_enc_chars_snoc(s@, i as int);
        }
        i += 1;
    }
    proof {
        assert(s@.take(n as int) =~= s@);
    }
}

/// Appends [`enc_bytes`] of `b`.
pub fn encode_bytes(out: &mut Vec<u8>, b: &Vec<u8>)
    ensures
        final(out)@ == old(out)@ + enc_bytes(b@),
{
    encode_u64(out, b.len() as u64);
    let mut i: usize = 0;
    while i < b.len()
        invariant
            i <= b@.len(),
            out@ == old(out)@ + enc_u64(b@.len() as u64) + b@.take(i as int),
        decreases b@.len() - i,
    {
        out.push(b[i]);
        proof {
            assert(out@ =~= old(out)@ + enc_u64(b@.len() as u64) + b@.take(i + 1));
        }
        i += 1;
    }
    proof {
        assert(b@.take(b@.len() as int) =~= b@);
    }
}

/// Appends [`enc_ids`] of `v`.
pub fn encode_ids(out: &mut Vec<u8>, v: &Vec<u64>)
    ensures
        final(out)@ == old(out)@ + enc_ids(v@),
{
    encode_u64(out, v.len() as u64);
    let mut i: usize = 0;
    while i < v.len()
        invariant
            i <= v@.len(),
            out@ == old(out)@ + enc_u64(v@.len() as u64) + enc_u64s(v@.take(i as int)),
        decreases v@.len() - i,
    {
        encode_u64(out, v[i]);
        proof {
            lemma_enc_u64s_snoc(v@, i as int);
        }
        i += 1;
    }
    proof {
        assert(v@.take(v@.len() as int) =~= v@);
    }
}

/// Appends [`canon_value`] of the model of `v`.
pub fn encode_value(out: &mut Vec<u8>, v: &Value)
    ensures
        final(out)@ == old(out)@ + canon_value(v@),
    decreases *v,
{
    match v {
        Value::Null => {
            out.push(0u8);
            proof {
                assert(out@ =~= old(out)@ + canon_value(v@));
            }
        },
        Value::Bool(b) => {
            out.push(1u8);
            out.push(if *b { 1u8 } else { 0u8 });
            proof {
                assert(out@ =~= old(out)@ + canon_value(v@));
            }
        },
        Value::Int(i) => {
            out.push(2u8);
            encode_u64(out, *i as u64);
            proof {
                assert(out@ =~= old(out)@ + canon_value(v@));
            }
        },
        Value::Str(s) => {
            out.push(3u8);
            encode_str(out, s.as_str());
            proof {
                assert(out@ =~= old(out)@ + canon_value(v@));
            }
        },
        Value::Arr(es) => {
            out.push(4u8);
            encode_u64(out, es.len() as u64);
            proof {
                lemma_values_view(es@);
            }
            let ghost base = out@;
            let mut k: usize = 0;
            while k < es.len()
                invariant
                    *v == Value::Arr(*es),
                    k <= es@.len(),
                    values_view(es@).len() == es@.len(),
                    forall|j: int| 0 <= j < es@.len() ==> values_view(es@)[j] == value_view(
                        es@[j],
                    ),
                    out@ == base + canon_values(values_view(es@).take(k as int)),
                decreases es@.len() - k,
            {
                proof {
                    assert(decreases_to!(*v => v->Arr_0));
                    assert(decreases_to!(*es => es@));
                    assert(decreases_to!(es@ => es@[k as int]));
                }
                encode_value(out, &es[k]);
                proof {
                    lemma_canon_values_snoc(values_view(es@), k as int);
                }
                k += 1;
            }
            proof {
                assert(values_view(es@).take(es@.len() as int) =~= values_view(es@));
                assert(out@ =~= old(out)@ + canon_value(v@));
            }
        },
        Value::Obj(ps) => {
            out.push(5u8);
            encode_u64(out, ps.len() as u64);
            proof {
                lemma_pairs_view(ps@);
            }
            let ghost base = out@;
            let mut k: usize = 0;
            while k < ps.len()
                invariant
                    *v == Value::Obj(*ps),
                    k <= ps@.len(),
                    pairs_view(ps@).len() == ps@.len(),
                    forall|j: int| 0 <= j < ps@.len() ==> pairs_view(ps@)[j] == (
                        ps@[j].0@,
                        value_view(ps@[j].1),
                    ),
                    out@ == base + canon_pairs(pairs_view(ps@).take(k as int)),
                decreases ps@.len() - k,
            {
                encode_str(out, ps[k].0.as_str());
                proof {
                    assert(decreases_to!(*v => v->Obj_0));
                    assert(decreases_to!(*ps => ps@));
                    assert(decreases_to!(ps@ => ps@[k as int]));
                    assert(decreases_to!(ps@[k as int] => ps@[k as int].1));
                }
                encode_value(out, &ps[k].1);
                proof {
                    lemma_canon_pairs_snoc(pairs_view(ps@), k as int);
                    assert(out@ =~= base + canon_pairs(pairs_view(ps@).take(k + 1)));
                }
                k += 1;
            }
            proof {
                assert(pairs_view(ps@).take(ps@.len() as int) =~= pairs_view(ps@));
                assert(out@ =~= old(out)@ + canon_value(v@));
            }
        },
    }
}

/// Appends [`canon_event_core`] of the model of `e`.
pub fn encode_event_core(out: &mut Vec<u8>, e: &Event)
    ensures
        final(out)@ == old(out)@ + canon_event_core(e@),
{
    encode_u64(out, e.id);
    encode_u64(out, e.timestamp);
    encode_str(out, e.actor.as_str());
    encode_ids(out, &e.in_artifacts);
    encode_str(out, e.operation.as_str());
    encode_ids(out, &e.out_artifacts);
    encode_value(out, &e.context);
    proof {
        assert(out@ =~= old(out)@ + canon_event_core(e@));
    }
}

/// Appends [`canon_event`] of the model of `e`: the event with its
/// signature.
pub fn encode_event(out: &mut Vec<u8>, e: &Event)
    ensures
        final(out)@ == old(out)@ + canon_event(e@),
{
    encode_event_core(out, e);
    match &e.signature {
        Option::None => {
            out.push(0u8);
        },
        Option::Some(s) => {
            out.push(1u8);
            encode_str(out, s.signer.as_str());
            encode_bytes(out, &s.signature);
            encode_str(out, s.algorithm.as_str());
        },
    }
    proof {
        assert(out@ =~= old(out)@ + canon_event(e@));
    }
}

/// Appends [`canon_events`] of the models of `evs`.
pub fn encode_events(out: &mut Vec<u8>, evs: &Vec<Event>)
    ensures
        final(out)@ == old(out)@ + canon_events(evs.deep_view()),
{
    encode_u64(out, evs.len() as u64);
    let ghost base = out@;
    let mut k: usize = 0;
    while k < evs.len()
        invariant
            k <= evs@.len(),
            evs.deep_view().len() == evs@.len(),
            forall|j: int| 0 <= j < evs@.len() ==> evs.deep_view()[j] == evs@[j]@,
            out@ == base + canon_events_rec(evs.deep_view().take(k as int)),
        decreases evs@.len() - k,
    {
        encode_event(out, &evs[k]);
        proof {
            lemma_canon_events_snoc(evs.deep_view(), k as int);
        }
        k += 1;
    }
    proof {
        assert(evs.deep_view().take(evs@.len() as int) =~= evs.deep_view());
        assert(out@ =~= old(out)@ + canon_events(evs.deep_view()));
    }
}

/// The canonical signing input of an event: every field except the
/// signature, as bytes.
pub fn canonical_event_bytes(e: &Event) -> (r: Vec<u8>)
    ensures
        r@ == canon_event_core(e@),
{
    let mut out: Vec<u8> = Vec::new();
    encode_event_core(&mut out, e);
    out
}

} // verus!
