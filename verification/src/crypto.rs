//! The cryptographic primitives of the stream: the pair-code key derivation
//! and the authenticated decryption of encrypted audio payloads.
use chacha20poly1305::aead::{Aead, KeyInit, Payload};
use chacha20poly1305::{ChaCha20Poly1305, Key, Nonce};
use sha2::{Digest, Sha256};
use vstd::prelude::*;
use vstd::string::StringSliceAdditionalSpecFns;

verus! {

/// The SHA-256 digest of `data`.
pub uninterp spec fn sha256(data: Seq<u8>) -> Seq<u8>;

/// What ChaCha20-Poly1305 (RFC 8439) gives back when it opens the sealed box
/// `ciphertext` (ciphertext followed by its 16-byte tag) under `key`, `nonce`
/// and associated data `aad`: the plaintext, or nothing when authentication fails.
pub uninterp spec fn chacha20poly1305_open(
    key: Seq<u8>,
    nonce: Seq<u8>,
    aad: Seq<u8>,
    ciphertext: Seq<u8>,
) -> Option<Seq<u8>>;

/// The byte contents of an optional buffer.
pub open spec fn bytes_of(b: Option<Vec<u8>>) -> Option<Seq<u8>> {
    match b {
        Some(v) => Some(v@),
        None => None,
    }
}

/// Hashes `data` with `sha2::Sha256::digest`.
/// Trusted: the 32 bytes returned are the SHA-256 digest of `data`, named `sha256`.
#[verifier::external_body]
fn sha256_digest(data: &[u8]) -> (digest: [u8; 32])
    ensures
        digest@ == sha256(data@),
{
    Sha256::digest(data).into()
}

/// Opens `ciphertext` with `<ChaCha20Poly1305 as Aead>::decrypt` under a cipher built
/// by `ChaCha20Poly1305::new` from `key`.
/// Trusted: the result is `chacha20poly1305_open` of the four arguments; as the `aead`
/// crate's `decrypt_in_place` shows, a box shorter than the 16-byte tag is refused and
/// an opened box yields a plaintext 16 bytes shorter than the box.
#[verifier::external_body]
pub(crate) fn chacha20poly1305_decrypt(
    key: &[u8; 32],
    nonce: &[u8; 12],
    aad: &[u8],
    ciphertext: &[u8],
) -> (plaintext: Option<Vec<u8>>)
    ensures
        bytes_of(plaintext) == chacha20poly1305_open(key@, nonce@, aad@, ciphertext@),
        ciphertext@.len() < 16 ==> plaintext is None,
        plaintext matches Some(p) ==> p@.len() + 16 == ciphertext@.len(),
{
    let cipher = ChaCha20Poly1305::new(Key::from_slice(key));
    cipher.decrypt(Nonce::from_slice(nonce), Payload { msg: ciphertext, aad }).ok()
}

/// The 32-byte stream key of a pair code: SHA-256 of its UTF-8 bytes.
pub fn derive_pairing_key(pair_code: &str) -> (key: [u8; 32])
    ensures
        key@ == sha256(pair_code.spec_bytes()),
{
    sha256_digest(pair_code.as_bytes())
}

} // verus!
