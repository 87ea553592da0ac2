//! The signature service: signs canonical event bytes on behalf of
//! registered actors and verifies detached signatures.
//!
//! The scheme is Ed25519; the `algorithm` field of every signature records
//! it, so verification can select the matching verifier as schemes evolve.

use crate::crypto::{ed25519_derive_public, ed25519_public_of, ed25519_sig_of, ed25519_sign,
    ed25519_verify, ed25519_verify_ok};
use crate::errors::ProvenanceError;
use crate::types::{Signature, SignatureV};
use vstd::prelude::*;

verus! {

/// The name of the signature scheme this service implements.
pub open spec fn ed25519_name() -> Seq<char> {
    "Ed25519"@
}

/// A registered signing key: a 32-byte Ed25519 seed and the public key
/// derived from it.
pub struct SignerKey {
    pub actor: String,
    pub seed: Vec<u8>,
    pub public_key: Vec<u8>,
}

/// Signs and verifies canonical byte representations of events on behalf
/// of registered actors.
pub struct SignatureService {
    pub keys: Vec<SignerKey>,
}

impl SignatureService {
    /// A key record is well formed when its seed has the Ed25519 seed
    /// length and its public key is the one derived from the seed.
    pub open spec fn key_wf(k: SignerKey) -> bool {
        &&& k.seed@.len() == 32
        &&& k.public_key@ == ed25519_public_of(k.seed@)
    }

    /// Every key is well formed and every actor is registered at most
    /// once.
    pub open spec fn wf(self) -> bool {
        &&& forall|i: int| 0 <= i < self.keys@.len() ==> Self::key_wf(#[trigger] self.keys@[i])
        &&& forall|i: int, j: int|
            0 <= i < j < self.keys@.len() ==> self.keys@[i].actor@ != self.keys@[j].actor@
    }

    /// Whether a key is registered for `actor`.
    pub open spec fn spec_has_signer(self, actor: Seq<char>) -> bool {
        exists|i: int| 0 <= i < self.keys@.len() && self.keys@[i].actor@ == actor
    }

    /// The index of `actor`'s key.
    pub open spec fn spec_key_index(self, actor: Seq<char>) -> int {
        choose|i: int| 0 <= i < self.keys@.len() && self.keys@[i].actor@ == actor
    }

    /// The seed registered for `actor`.
    pub open spec fn spec_seed_for(self, actor: Seq<char>) -> Seq<u8> {
        self.keys@[self.spec_key_index(actor)].seed@
    }

    /// The public key registered for `actor`.
    pub open spec fn spec_public_for(self, actor: Seq<char>) -> Seq<u8> {
        ed25519_public_of(self.spec_seed_for(actor))
    }

    /// In a well-formed service the key index is the unique position
    /// holding `actor`'s key.
    pub proof fn lemma_key_index(self, actor: Seq<char>)
        requires
            self.wf(),
            self.spec_has_signer(actor),
        ensures
            0 <= self.spec_key_index(actor) < self.keys@.len(),
            self.keys@[self.spec_key_index(actor)].actor@ == actor,
            forall|i: int|
                0 <= i < self.keys@.len() && self.keys@[i].actor@ == actor ==> i
                    == self.spec_key_index(actor),
    {
    }

    /// A service with no registered keys.
    pub fn new() -> (r: SignatureService)
        ensures
            r.wf(),
            r.keys@.len() == 0,
    {
        SignatureService { keys: Vec::new() }
    }

    /// Finds the position of `actor`'s key, if one is registered.
    fn find_key(&self, actor: &String) -> (r: Option<usize>)
        ensures
            r matches Option::Some(i) ==> i < self.keys@.len() && self.keys@[i as int].actor@
                == actor@,
            r is None ==> !self.spec_has_signer(actor@),
    {
        let mut i: usize = 0;
        while i < self.keys.len()
            invariant
                i <= self.keys@.len(),
                forall|j: int| 0 <= j < i ==> self.keys@[j].actor@ != actor@,
            decreases self.keys@.len() - i,
        {
            if self.keys[i].actor == *actor {
                return Option::Some(i);
            }
            i += 1;
        }
        Option::None
    }

    /// Registers a signing key for a new actor.
    ///
    /// Succeeds exactly when the seed is 32 bytes long and the actor has
    /// no key yet; an existing registration is never replaced, so each
    /// actor's key is stable for the life of the service.
    pub fn register_signer(&mut self, actor: String, seed: Vec<u8>) -> (r: bool)
        requires
            old(self).wf(),
        ensures
            final(self).wf(),
            r == (seed@.len() == 32 && !old(self).spec_has_signer(actor@)),
            !r ==> *final(self) == *old(self),
            r ==> final(self).keys@.len() == old(self).keys@.len() + 1 && final(self).keys@[
                old(self).keys@.len() as int
            ].actor@ == actor@ && final(self).keys@[old(self).keys@.len() as int].seed@ == seed@
                && final(self).keys@.take(old(self).keys@.len() as int) == old(self).keys@,
            final(self).spec_has_signer(actor@) == (old(self).spec_has_signer(actor@) || seed@.len()
                == 32),
            forall|a: Seq<char>|
                old(self).spec_has_signer(a) ==> final(self).spec_has_signer(a)
                    && final(self).spec_seed_for(a) == old(self).spec_seed_for(a),
    {
        if seed.len() != 32 {
            return false;
        }
        if let Option::Some(_) = self.find_key(&actor) {
            return false;
        }
        let public_key = ed25519_derive_public(&seed);
        self.keys.push(SignerKey { actor, seed, public_key });
        proof {
            let n = old(self).keys@.len() as int;
            assert(self.keys@.take(n) =~= old(self).keys@);
            assert(self.keys@[n].seed@.len() == 32);
            assert(self.spec_has_signer(self.keys@[n].actor@));
            assert forall|i: int| 0 <= i < self.keys@.len() implies Self::key_wf(
                #[trigger] self.keys@[i],
            ) by {
                if i < n {
                    assert(self.keys@[i] == old(self).keys@[i]);
                }
            }
            assert forall|a: Seq<char>| old(self).spec_has_signer(a) implies final(self).spec_has_signer(a)
                && final(self).spec_seed_for(a) == old(self).spec_seed_for(a) by {
                let i = old(self).spec_key_index(a);
                old(self).lemma_key_index(a);
                assert(self.keys@[i].actor@ == a);
                self.lemma_key_index(a);
                assert(self.spec_key_index(a) == i);
            }
        }
        true
    }

    /// Produces a detached Ed25519 signature over `msg` for `actor`.
    ///
    /// Fails with `UnknownSigner` exactly when no key is registered for
    /// `actor`; the returned signature verifies under the actor's public
    /// key.
    pub fn sign(&self, actor: &String, msg: &Vec<u8>) -> (r: Result<Signature, ProvenanceError>)
        requires
            self.wf(),
        ensures
            r is Ok <==> self.spec_has_signer(actor@),
            r matches Result::Ok(sig) ==> sig@ == (SignatureV {
                signer: actor@,
                signature: ed25519_sig_of(self.spec_seed_for(actor@), msg@),
                algorithm: ed25519_name(),
            }) && sig@.signature.len() == 64 && ed25519_verify_ok(
                self.spec_public_for(actor@),
                msg@,
                sig@.signature,
            ),
            r matches Result::Err(e) ==> e == ProvenanceError::UnknownSigner,
    {
        match self.find_key(actor) {
            Option::Some(i) => {
                proof {
                    self.lemma_key_index(actor@);
                }
                let sig_bytes = ed25519_sign(&self.keys[i].seed, msg);
                Result::Ok(
                    Signature {
                        signer: actor.clone(),
                        signature: sig_bytes,
                        algorithm: String::from_str("Ed25519"),
                    },
                )
            },
            Option::None => Result::Err(ProvenanceError::UnknownSigner),
        }
    }

    /// Whether a well-formed signature value is accepted for `data`: the
    /// algorithm is this service's scheme, the signer has a registered
    /// key, and the bytes verify under that key.
    pub open spec fn spec_verifies(self, data: Seq<u8>, sig: SignatureV) -> bool {
        &&& sig.algorithm == ed25519_name()
        &&& self.spec_has_signer(sig.signer)
        &&& ed25519_verify_ok(self.spec_public_for(sig.signer), data, sig.signature)
    }

    /// Verifies a detached signature over `data`.
    ///
    /// A structurally malformed signature (wrong length) fails with
    /// `MalformedSignature`; any other mismatch — unknown scheme, unknown
    /// signer, or bytes that do not verify — returns `false`, never an
    /// error.
    pub fn verify(&self, data: &Vec<u8>, sig: &Signature) -> (r: Result<bool, ProvenanceError>)
        requires
            self.wf(),
        ensures
            r is Err <==> sig.signature@.len() != 64,
            r matches Result::Err(e) ==> e == ProvenanceError::MalformedSignature,
            r matches Result::Ok(b) ==> b == self.spec_verifies(data@, sig@),
    {
        if sig.signature.len() != 64 {
            return Result::Err(ProvenanceError::MalformedSignature);
        }
        let expected = String::from_str("Ed25519");
        if !(sig.algorithm == expected) {
            return Result::Ok(false);
        }
        match self.find_key(&sig.signer) {
            Option::None => Result::Ok(false),
            Option::Some(i) => {
                proof {
                    self.lemma_key_index(sig.signer@);
                }
                Result::Ok(ed25519_verify(&self.keys[i].public_key, data, &sig.signature))
            },
        }
    }
}

} // verus!
