use murmr::crypto::chacha::{chacha, decrypt, nonce_gen, CryptoError, REFUSE_LIMIT, SEAL_LIMIT};
use murmr::crypto::{derive_session_key, Handshake};

const KEY: [u8; 32] = [7; 32];
const NONCE: [u8; 24] = [3; 24];

#[test]
fn sealed_payload_opens_again() {
    let msg = b"voice frame".to_vec();
    let sealed = chacha(KEY, NONCE, &msg).unwrap();
    assert_eq!(sealed.len(), msg.len() + 16);
    assert_ne!(&sealed[..msg.len()], &msg[..]);
    assert_eq!(decrypt(KEY, NONCE, &sealed), Ok(msg));
}

#[test]
fn empty_payload_seals_to_a_tag() {
    let sealed = chacha(KEY, NONCE, &[]).unwrap();
    assert_eq!(sealed.len(), 16);
    assert_eq!(decrypt(KEY, NONCE, &sealed), Ok(vec![]));
}

#[test]
fn tampered_payload_is_rejected() {
    let mut sealed = chacha(KEY, NONCE, b"abc").unwrap();
    sealed[0] ^= 1;
    assert_eq!(decrypt(KEY, NONCE, &sealed), Err(CryptoError::Rejected));
}

#[test]
fn wrong_key_or_nonce_is_rejected() {
    let sealed = chacha(KEY, NONCE, b"abc").unwrap();
    assert_eq!(decrypt([8; 32], NONCE, &sealed), Err(CryptoError::Rejected));
    assert_eq!(decrypt(KEY, [4; 24], &sealed), Err(CryptoError::Rejected));
    assert_eq!(decrypt(KEY, NONCE, &sealed[..10]), Err(CryptoError::Rejected));
}

#[test]
fn nonces_are_fresh() {
    assert_ne!(nonce_gen(), nonce_gen());
}

#[test]
fn session_key_is_hkdf_sha256_of_the_shared_point() {
    let shared: [u8; 32] = core::array::from_fn(|i| i as u8);
    let expected: [u8; 32] = [
        90, 51, 97, 106, 92, 204, 173, 171, 203, 185, 116, 61, 77, 47, 162, 214, 37, 197, 119, 126,
        96, 3, 107, 185, 110, 41, 57, 50, 15, 85, 208, 1,
    ];
    assert_eq!(derive_session_key(shared), expected);
}

#[test]
fn both_sides_agree_on_the_session_key() {
    let alice = Handshake::new();
    let bob = Handshake::new();
    let alice_public = alice.public_key();
    let bob_public = bob.public_key();
    assert_ne!(alice_public, bob_public);
    let k1 = alice.finish(bob_public);
    let k2 = bob.finish(alice_public);
    assert_eq!(k1, k2);
}

#[test]
fn different_peers_give_different_keys() {
    let alice = Handshake::new();
    let bob = Handshake::new();
    let carol = Handshake::new();
    let alice_public = alice.public_key();
    let k_bob = bob.finish(alice_public);
    let k_carol = carol.finish(alice_public);
    assert_ne!(k_bob, k_carol);
}

#[test]
fn length_limits_match_the_block_counter() {
    assert_eq!(SEAL_LIMIT, 64 * (u32::MAX as u64 - 1) + 1);
    assert_eq!(REFUSE_LIMIT, 64 * u32::MAX as u64);
}
