//! Key derivation with HKDF over SHA-512.
use hkdf::Hkdf;
use sha2::Sha512;
use vstd::prelude::*;

verus! {

/// The error of the `hkdf` crate for an output that is too long.
#[verifier::external_type_specification]
#[verifier::external_body]
pub struct ExInvalidLength(hkdf::InvalidLength);

/// The first `len` bytes of HKDF-SHA-512 output.
pub uninterp spec fn hkdf_sha512(
    salt: Seq<u8>,
    secret: Seq<u8>,
    info: Seq<u8>,
    len: nat,
) -> Seq<u8>;

/// Calls `Hkdf::<Sha512>::new` and `expand`, which fails for more than 255 * 64 bytes of output
/// only: 32 bytes are always delivered.
#[verifier::external_body]
pub(crate) fn derive_key(salt: &[u8], secret: &[u8], info: &[u8]) -> (r: Result<
    [u8; 32],
    hkdf::InvalidLength,
>)
    ensures
        r is Ok,
        r->Ok_0@ == hkdf_sha512(salt@, secret@, info@, 32),
{
    let mut key = [0u8; 32];
    Hkdf::<Sha512>::new(Some(salt), secret).expand(info, &mut key)?;
    Ok(key)
}

} // verus!
