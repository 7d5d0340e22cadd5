//! Key agreement: X25519 between two fresh secrets, then HKDF-SHA256 to turn
//! the shared point into the 32-byte session key.
use vstd::prelude::*;

pub mod chacha;

verus! {

/// HKDF salt of the session key derivation ("Murmr v1 crypto").
pub const KDF_SALT: [u8; 15] = [
    0x4D, 0x75, 0x72, 0x6D, 0x72, 0x20, 0x76, 0x31, 0x20, 0x63, 0x72, 0x79, 0x70, 0x74, 0x6F,
];

/// HKDF info string of the session key derivation ("Testing, testing, 123").
pub const KDF_INFO: [u8; 21] = [
    0x54, 0x65, 0x73, 0x74, 0x69, 0x6E, 0x67, 0x2C, 0x20, 0x74, 0x65, 0x73, 0x74, 0x69, 0x6E,
    0x67, 0x2C, 0x20, 0x31, 0x32, 0x33,
];

/// The X25519 base point (u = 9).
pub const BASEPOINT: [u8; 32] = [
    9, 0, 0, 0, 0, 0, 0, 0, 0, 0, 0, 0, 0, 0, 0, 0, 0, 0, 0, 0, 0, 0, 0, 0, 0, 0, 0, 0, 0, 0, 0, 0,
];

/// The X25519 function of RFC 7748 on a scalar and a u-coordinate.
pub uninterp spec fn x25519_spec(scalar: Seq<u8>, u: Seq<u8>) -> Seq<u8>;

/// The first `len` bytes of HKDF-SHA256 output keying material.
pub uninterp spec fn hkdf_sha256_expand(salt: Seq<u8>, ikm: Seq<u8>, info: Seq<u8>, len: nat) -> Seq<u8>;

/// `x25519_dalek::x25519(k, u)`: the result is named `x25519_spec`. The crate's
/// documentation shows Diffie-Hellman agreement: when `u` is the public key
/// `x25519(b, 9)` of some scalar `b`, the result equals `x25519(b, x25519(k, 9))`.
#[verifier::external_body]
fn x25519(k: [u8; 32], u: [u8; 32]) -> (r: [u8; 32])
    ensures
        r@ == x25519_spec(k@, u@),
        forall|b: Seq<u8>|
            b.len() == 32 && u@ == #[trigger] x25519_spec(b, BASEPOINT@) ==> r@ == x25519_spec(
                b,
                x25519_spec(k@, BASEPOINT@),
            ),
{
    x25519_dalek::x25519(k, u)
}

/// `hkdf::Hkdf::<sha2::Sha256>::new(Some(salt), ikm)` followed by `expand(info)`
/// into 32 bytes (which the crate never refuses: the limit is 255 * 32 bytes).
#[verifier::external_body]
fn hkdf_sha256(salt: &[u8], ikm: &[u8], info: &[u8]) -> (okm: [u8; 32])
    ensures
        okm@ == hkdf_sha256_expand(salt@, ikm@, info@, 32),
{
    let hk = hkdf::Hkdf::<sha2::Sha256>::new(Some(salt), ikm);
    let mut okm = [0u8; 32];
    let _ = hk.expand(info, &mut okm);
    okm
}

/// 32 random bytes from the operating system (`rand_core::OsRng`); nothing is
/// promised of their value.
#[verifier::external_body]
fn random_secret() -> (secret: [u8; 32]) {
    let mut bytes = [0u8; 32];
    rand_core::RngCore::fill_bytes(&mut rand_core::OsRng, &mut bytes);
    bytes
}

/// Session key that a shared X25519 point gives.
pub open spec fn session_key(shared: Seq<u8>) -> Seq<u8> {
    hkdf_sha256_expand(KDF_SALT@, shared, KDF_INFO@, 32)
}

/// Derives the session key from a shared X25519 point.
pub fn derive_session_key(shared: [u8; 32]) -> (key: [u8; 32])
    ensures
        key@ == session_key(shared@),
{
    hkdf_sha256(&KDF_SALT, &shared, &KDF_INFO)
}

/// One side of a key agreement: a fresh secret scalar that is used once.
pub struct Handshake {
    secret: [u8; 32],
}

impl View for Handshake {
    type V = Seq<u8>;

    closed spec fn view(&self) -> Seq<u8> {
        self.secret@
    }
}

impl Handshake {
    /// Starts a key agreement with a fresh random secret.
    pub fn new() -> (h: Handshake)
        ensures
            h@.len() == 32,
    {
        Handshake { secret: random_secret() }
    }

    /// The public key to send to the peer.
    pub fn public_key(&self) -> (public: [u8; 32])
        ensures
            public@ == x25519_spec(self@, BASEPOINT@),
    {
        x25519(self.secret, BASEPOINT)
    }

    /// Finishes the agreement with the peer's public key and gives the session
    /// key. When the peer's key is the public key of a secret `b`, the result is
    /// the session key the peer derives from `b` and this side's public key, so
    /// both sides hold the same key.
    pub fn finish(self, peer_public: [u8; 32]) -> (key: [u8; 32])
        ensures
            key@ == session_key(x25519_spec(self@, peer_public@)),
            forall|b: Seq<u8>|
                b.len() == 32 && peer_public@ == #[trigger] x25519_spec(b, BASEPOINT@) ==> key@
                    == session_key(x25519_spec(b, x25519_spec(self@, BASEPOINT@))),
    {
        let shared = x25519(self.secret, peer_public);
        derive_session_key(shared)
    }
}

} // verus!
