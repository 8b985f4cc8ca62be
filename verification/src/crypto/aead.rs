//! Authenticated encryption with ChaCha20-Poly1305.
use chacha20poly1305::aead::{Aead, Payload};
use chacha20poly1305::{ChaCha20Poly1305, KeyInit};
use vstd::prelude::*;

verus! {

/// Bytes of the authentication tag behind a ciphertext.
pub const TAG_LEN: usize = 16;

/// The error of the `aead` crate, which says nothing beyond that the call failed.
#[verifier::external_type_specification]
#[verifier::external_body]
pub struct ExAeadError(chacha20poly1305::aead::Error);

/// Ciphertext and tag of `message` under `key`, `nonce` and associated data `aad`.
pub uninterp spec fn chacha_seal(
    key: Seq<u8>,
    nonce: Seq<u8>,
    aad: Seq<u8>,
    message: Seq<u8>,
) -> Seq<u8>;

/// The message behind a ciphertext with its tag, where the tag is right.
pub uninterp spec fn chacha_open(
    key: Seq<u8>,
    nonce: Seq<u8>,
    aad: Seq<u8>,
    sealed: Seq<u8>,
) -> Option<Seq<u8>>;

/// The longest ciphertext whose keystream a 32-bit block counter is sure to hold.
pub open spec fn max_sealed_len() -> int {
    64 * (u32::MAX - 1)
}

/// Calls `ChaCha20Poly1305::encrypt`: it succeeds on every message this short, appends a 16-byte
/// tag to a ciphertext of the message's length, and opening the result with the same key, nonce
/// and associated data gives the message back.
#[verifier::external_body]
pub(crate) fn seal(key: &[u8; 32], nonce: &[u8; 12], aad: &[u8], message: &[u8]) -> (r: Result<
    Vec<u8>,
    chacha20poly1305::aead::Error,
>)
    requires
        message@.len() <= u16::MAX,
    ensures
        r is Ok,
        r->Ok_0@ == chacha_seal(key@, nonce@, aad@, message@),
        r->Ok_0@.len() == message@.len() + TAG_LEN,
        chacha_open(key@, nonce@, aad@, r->Ok_0@) == Some(message@),
{
    ChaCha20Poly1305::new(key.into()).encrypt(nonce.into(), Payload { msg: message, aad })
}

/// Calls `ChaCha20Poly1305::decrypt`: whether it succeeds, and with which message, depends on the
/// arguments alone. It fails where there is no room for a tag, and a message is 16 bytes shorter
/// than what it was sealed into.
#[verifier::external_body]
pub(crate) fn open(key: &[u8; 32], nonce: &[u8; 12], aad: &[u8], sealed: &[u8]) -> (r: Result<
    Vec<u8>,
    chacha20poly1305::aead::Error,
>)
    requires
        sealed@.len() <= max_sealed_len(),
    ensures
        match r {
            Ok(message) => chacha_open(key@, nonce@, aad@, sealed@) == Some(message@)
                && message@.len() + TAG_LEN == sealed@.len(),
            Err(_) => chacha_open(key@, nonce@, aad@, sealed@) is None,
        },
{
    ChaCha20Poly1305::new(key.into()).decrypt(nonce.into(), Payload { msg: sealed, aad })
}

/// A tag has sixteen bytes, and a ciphertext may be as long as the keystream of all 64-byte blocks
/// that a 32-bit counter can number, but for two.
pub proof fn law_sealed_sizes()
    ensures
        TAG_LEN == 16,
        max_sealed_len() == 64 * (0x1_0000_0000 - 2),
{
}

} // verus!
