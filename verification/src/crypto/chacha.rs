//! XChaCha20-Poly1305 sealing of audio payloads under a 32-byte session key.
use vstd::prelude::*;
use chacha20poly1305::aead::Aead;
use chacha20poly1305::AeadCore;
use chacha20poly1305::KeyInit;

verus! {

#[verifier::external_type_specification]
#[verifier::external_body]
pub struct ExAeadError(chacha20poly1305::Error);

/// Plaintexts shorter than this are sealed. Block 0 of the 32-bit ChaCha20
/// block counter keys Poly1305 and the payload starts at block 1, so
/// `u32::MAX - 1` blocks of 64 bytes (274,877,906,816 bytes) are left for it.
pub const SEAL_LIMIT: u64 = 274_877_906_817;

/// Plaintexts of this many bytes (`u32::MAX` blocks of 64) or more are refused
/// with an error before any keystream is used. The cipher panics on the lengths
/// from `SEAL_LIMIT` up to this one, which would run the block counter out.
pub const REFUSE_LIMIT: u64 = 274_877_906_880;

/// Length of the Poly1305 tag appended to every sealed message.
pub const TAG_LEN: usize = 16;

/// The ciphertext with its appended tag that XChaCha20-Poly1305 gives for
/// `plaintext` under `key` and `nonce`, with no associated data.
pub uninterp spec fn xchacha20poly1305_seal(key: Seq<u8>, nonce: Seq<u8>, plaintext: Seq<u8>) -> Seq<u8>;

/// Whether a sealed message of `len` bytes (ciphertext and tag) is opened or
/// refused without the cipher panicking: its ciphertext is shorter than
/// `SEAL_LIMIT`, or at least `REFUSE_LIMIT` long.
pub open spec fn openable_length(len: int) -> bool {
    len < SEAL_LIMIT + TAG_LEN || len >= REFUSE_LIMIT + TAG_LEN
}

/// Encrypts with `XChaCha20Poly1305::new(key)` and `Aead::encrypt` (empty
/// associated data). The crate seals plaintexts shorter than `SEAL_LIMIT`,
/// refuses those of `REFUSE_LIMIT` bytes or more, and panics in between (left
/// out here); the result is the ciphertext followed by the 16-byte tag, which is
/// named `xchacha20poly1305_seal`.
#[verifier::external_body]
fn xchacha_encrypt(key: &[u8; 32], nonce: &[u8; 24], plaintext: &[u8]) -> (sealed: Result<Vec<u8>, chacha20poly1305::Error>)
    requires
        plaintext.len() < SEAL_LIMIT || plaintext.len() >= REFUSE_LIMIT,
        plaintext.len() + 16 <= isize::MAX,
    ensures
        sealed is Ok <==> plaintext.len() < SEAL_LIMIT,
        sealed matches Ok(c) ==> c@ == xchacha20poly1305_seal(key@, nonce@, plaintext@) && c.len()
            == plaintext.len() + 16,
{
    let cipher = chacha20poly1305::XChaCha20Poly1305::new(chacha20poly1305::Key::from_slice(key));
    cipher.encrypt(nonce.into(), plaintext)
}

/// Decrypts with `XChaCha20Poly1305::new(key)` and `Aead::decrypt` (empty
/// associated data). Encryption is deterministic and the tag is checked before
/// anything is returned, so the crate gives back `p` exactly when `ciphertext` is the
/// sealing of `p` under the same key and nonce, and refuses every other input.
/// When the ciphertext part is between `SEAL_LIMIT` and `REFUSE_LIMIT` long and
/// the tag matches, the crate panics; such lengths are left out.
#[verifier::external_body]
fn xchacha_decrypt(key: &[u8; 32], nonce: &[u8; 24], ciphertext: &[u8]) -> (opened: Result<Vec<u8>, chacha20poly1305::Error>)
    requires
        openable_length(ciphertext.len() as int),
    ensures
        opened matches Ok(p) ==> ciphertext@ == xchacha20poly1305_seal(key@, nonce@, p@) && p.len() + 16
            == ciphertext.len(),
        opened matches Ok(p) ==> forall|m: Seq<u8>| #[trigger]
            xchacha20poly1305_seal(key@, nonce@, m) == ciphertext@ ==> m == p@,
        opened is Err ==> forall|m: Seq<u8>| m.len() < SEAL_LIMIT ==> #[trigger]
            xchacha20poly1305_seal(key@, nonce@, m) != ciphertext@,
{
    let cipher = chacha20poly1305::XChaCha20Poly1305::new(chacha20poly1305::Key::from_slice(key));
    cipher.decrypt(nonce.into(), ciphertext)
}

/// A fresh random 24-byte nonce (`AeadCore::generate_nonce` with the operating
/// system's generator); nothing is promised of its value.
#[verifier::external_body]
pub fn nonce_gen() -> (nonce: [u8; 24]) {
    chacha20poly1305::XChaCha20Poly1305::generate_nonce(&mut rand_core::OsRng).into()
}

/// Why a sealed payload was not opened.
#[derive(Clone, Copy, PartialEq, Eq, Debug)]
pub enum CryptoError {
    /// The bytes are not a sealing of any message under this key and nonce.
    Rejected,
}

/// Seals `content` under `key` and `nonce`: the ciphertext followed by its tag.
pub fn chacha(key: [u8; 32], nonce: [u8; 24], content: &[u8]) -> (sealed: Result<Vec<u8>, CryptoError>)
    requires
        content.len() < SEAL_LIMIT,
        content.len() + 16 <= isize::MAX,
    ensures
        sealed matches Ok(c) && c@ == xchacha20poly1305_seal(key@, nonce@, content@) && c.len()
            == content.len() + TAG_LEN,
{
    match xchacha_encrypt(&key, &nonce, content) {
        Ok(c) => Ok(c),
        Err(_) => Err(CryptoError::Rejected),
    }
}

/// Opens a payload sealed by `chacha` under the same key and nonce; refuses
/// anything that is not such a sealing.
pub fn decrypt(key: [u8; 32], nonce: [u8; 24], content: &[u8]) -> (opened: Result<Vec<u8>, CryptoError>)
    requires
        openable_length(content.len() as int),
    ensures
        opened matches Ok(p) ==> content@ == xchacha20poly1305_seal(key@, nonce@, p@),
        opened is Err ==> opened == Err::<Vec<u8>, CryptoError>(CryptoError::Rejected),
        opened matches Ok(p) ==> forall|m: Seq<u8>| #[trigger]
            xchacha20poly1305_seal(key@, nonce@, m) == content@ ==> m == p@,
        opened is Err ==> forall|m: Seq<u8>| m.len() < SEAL_LIMIT ==> #[trigger]
            xchacha20poly1305_seal(key@, nonce@, m) != content@,
{
    match xchacha_decrypt(&key, &nonce, content) {
        Ok(p) => Ok(p),
        Err(_) => Err(CryptoError::Rejected),
    }
}

} // verus!
