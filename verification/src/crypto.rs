//! The cryptographic capability behind the ledger: SHA-256 digests for
//! block chaining and Ed25519 detached signatures for events, provided by
//! ring, plus a verified hexadecimal rendering of digests.

use ring::signature::KeyPair;
use vstd::prelude::*;

verus! {

/// The SHA-256 digest of a byte string.
pub uninterp spec fn sha256_of(data: Seq<u8>) -> Seq<u8>;

/// The Ed25519 signature over a message by the key pair derived from a
/// 32-byte seed. Ed25519 signing is deterministic, so the signature is a
/// function of the seed and the message alone.
pub uninterp spec fn ed25519_sig_of(seed: Seq<u8>, msg: Seq<u8>) -> Seq<u8>;

/// The Ed25519 public key derived from a 32-byte seed.
pub uninterp spec fn ed25519_public_of(seed: Seq<u8>) -> Seq<u8>;

/// Whether `sig` is a valid Ed25519 signature over `msg` under the public
/// key `public_key`.
pub uninterp spec fn ed25519_verify_ok(public_key: Seq<u8>, msg: Seq<u8>, sig: Seq<u8>) -> bool;

/// Relies on `ring::digest::digest` with SHA-256: the digest depends on
/// the input bytes alone and is 32 bytes long.
#[verifier::external_body]
pub(crate) fn sha256(data: &Vec<u8>) -> (r: Vec<u8>)
    ensures
        r@ == sha256_of(data@),
        r@.len() == 32,
{
    ring::digest::digest(&ring::digest::SHA256, data).as_ref().to_vec()
}

/// Relies on `ring::signature::Ed25519KeyPair::from_seed_unchecked` and
/// `Ed25519KeyPair::sign`: for a 32-byte seed the key pair is derived
/// deterministically, signing is a function of the seed and the message
/// alone, the signature is 64 bytes, and it verifies under the public key
/// derived from the same seed.
#[verifier::external_body]
pub(crate) fn ed25519_sign(seed: &Vec<u8>, msg: &Vec<u8>) -> (r: Vec<u8>)
    requires
        seed@.len() == 32,
    ensures
        r@ == ed25519_sig_of(seed@, msg@),
        r@.len() == 64,
        ed25519_verify_ok(ed25519_public_of(seed@), msg@, r@),
{
    let key_pair = ring::signature::Ed25519KeyPair::from_seed_unchecked(seed).unwrap();
    key_pair.sign(msg).as_ref().to_vec()
}

/// Relies on `ring::signature::Ed25519KeyPair::from_seed_unchecked` and
/// `KeyPair::public_key`: the public key is derived deterministically from
/// a 32-byte seed and is 32 bytes long.
#[verifier::external_body]
pub(crate) fn ed25519_derive_public(seed: &Vec<u8>) -> (r: Vec<u8>)
    requires
        seed@.len() == 32,
    ensures
        r@ == ed25519_public_of(seed@),
        r@.len() == 32,
{
    let key_pair = ring::signature::Ed25519KeyPair::from_seed_unchecked(seed).unwrap();
    key_pair.public_key().as_ref().to_vec()
}

/// Relies on `ring::signature::UnparsedPublicKey::verify` with the
/// Ed25519 algorithm: acceptance depends only on the public key, message
/// and signature bytes.
#[verifier::external_body]
pub(crate) fn ed25519_verify(public_key: &Vec<u8>, msg: &Vec<u8>, sig: &Vec<u8>) -> (r: bool)
    ensures
        r == ed25519_verify_ok(public_key@, msg@, sig@),
{
    ring::signature::UnparsedPublicKey::new(&ring::signature::ED25519, public_key)
        .verify(msg, sig)
        .is_ok()
}

/// The lower-case hexadecimal digit for a nibble.
pub open spec fn hex_digit(n: u8) -> char {
    if n < 10 {
        ((48 + n) as u8) as char
    } else {
        ((87 + n) as u8) as char
    }
}

/// The lower-case hexadecimal rendering of a byte string, two digits per
/// byte.
pub open spec fn hex_of(b: Seq<u8>) -> Seq<char>
    decreases b.len(),
{
    if b.len() == 0 {
        Seq::empty()
    } else {
        hex_of(b.drop_last()) + seq![
            hex_digit((b.last() / 16) as u8),
            hex_digit((b.last() % 16) as u8),
        ]
    }
}

/// Unfolds [`hex_of`] one byte at a time from the front.
pub proof fn lemma_hex_of_snoc(b: Seq<u8>, k: int)
    requires
        0 <= k < b.len(),
    ensures
        hex_of(b.take(k + 1)) == hex_of(b.take(k)) + seq![
            hex_digit((b[k] / 16) as u8),
            hex_digit((b[k] % 16) as u8),
        ],
{
    assert(b.take(k + 1).drop_last() =~= b.take(k));
    assert(b.take(k + 1).last() == b[k]);
}

/// The one-character string for a nibble's hexadecimal digit.
fn nibble_str(n: u8) -> (r: &'static str)
    requires
        n < 16,
    ensures
        r@ == seq![hex_digit(n)],
{
    proof {
        reveal_strlit("0");
        reveal_strlit("1");
        reveal_strlit("2");
        reveal_strlit("3");
        reveal_strlit("4");
        reveal_strlit("5");
        reveal_strlit("6");
        reveal_strlit("7");
        reveal_strlit("8");
        reveal_strlit("9");
        reveal_strlit("a");
        reveal_strlit("b");
        reveal_strlit("c");
        reveal_strlit("d");
        reveal_strlit("e");
        reveal_strlit("f");
    }
    let r = match n {
        0 => "0",
        1 => "1",
        2 => "2",
        3 => "3",
        4 => "4",
        5 => "5",
        6 => "6",
        7 => "7",
        8 => "8",
        9 => "9",
        10 => "a",
        11 => "b",
        12 => "c",
        13 => "d",
        14 => "e",
        _ => "f",
    };
    proof {
        assert(r@ =~= seq![hex_digit(n)]);
    }
    r
}

/// Renders bytes as lower-case hexadecimal, two digits per byte.
pub fn to_hex(b: &Vec<u8>) -> (r: String)
    ensures
        r@ == hex_of(b@),
{
    let mut s = String::new();
    let mut i: usize = 0;
    while i < b.len()
        invariant
            i <= b@.len(),
            s@ == hex_of(b@.take(i as int)),
        decreases b@.len() - i,
    {
        let hi = b[i] / 16;
        let lo = b[i] % 16;
        s.append(nibble_str(hi));
        s.append(nibble_str(lo));
        proof {
            lemma_hex_of_snoc(b@, i as int);
            assert(s@ =~= hex_of(b@.take(i + 1)));
        }
        i += 1;
    }
    proof {
        assert(b@.take(b@.len() as int) =~= b@);
    }
    s
}

} // verus!
