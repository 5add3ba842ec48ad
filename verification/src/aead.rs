//! AES-256-GCM with a caller-provided 32-byte key and 12-byte nonce and a
//! detached 16-byte tag. Missing buffers are reported with a status code;
//! a failed authentication clears the destination.
use aes_gcm::aead::{AeadInPlace, KeyInit};
use aes_gcm::{Aes256Gcm, Key, Nonce, Tag};
use vstd::prelude::*;

verus! {

/// Status returned on success.
pub const AEAD_OK: i32 = 0;

/// Status returned when a required buffer is missing.
pub const AEAD_NULL_POINTER: i32 = 1;

/// Status returned when the tag does not authenticate the ciphertext.
pub const AEAD_AUTHENTICATION_FAILED: i32 = 2;

/// Status returned when encryption fails.
pub const AEAD_PANIC: i32 = 3;

/// Longest plaintext, in bytes, that `aes-gcm` encrypts (`P_MAX`).
pub const PLAINTEXT_MAX: u64 = 0x10_0000_0000;

/// Longest associated data, in bytes, that `aes-gcm` accepts (`A_MAX`).
pub const AAD_MAX: u64 = 0x10_0000_0000;

/// `aes_gcm::Error`, the opaque error of an encryption or decryption,
/// carried through opaquely.
#[verifier::external_type_specification]
#[verifier::external_body]
pub struct ExAeadError(aes_gcm::Error);

/// The AES-256-GCM encryption of `plaintext` under `key`, `nonce` and
/// associated data `aad`: the ciphertext and the 16-byte tag.
pub uninterp spec fn aes256_gcm_seal(key: Seq<u8>, nonce: Seq<u8>, aad: Seq<u8>, plaintext: Seq<u8>) -> (
    Seq<u8>,
    Seq<u8>,
);

/// The AES-256-GCM decryption of `ciphertext` with `tag`: the plaintext,
/// or `None` when the tag does not authenticate the ciphertext and `aad`
/// or a length exceeds the limits of `aes-gcm`.
pub uninterp spec fn aes256_gcm_open(
    key: Seq<u8>,
    nonce: Seq<u8>,
    aad: Seq<u8>,
    ciphertext: Seq<u8>,
    tag: Seq<u8>,
) -> Option<Seq<u8>>;

/// `aes_gcm::AeadInPlace::encrypt_in_place_detached` for `Aes256Gcm`: fails
/// exactly when the plaintext exceeds `P_MAX` or the associated data
/// exceeds `A_MAX` bytes (leaving the buffer unchanged); otherwise the
/// buffer becomes the ciphertext and the 16-byte tag is returned. Also
/// stated: decrypting the result with that tag gives the plaintext back,
/// and with any other 16-byte tag fails (decryption recomputes the tag over
/// the ciphertext and compares it).
#[verifier::external_body]
fn aes256_gcm_encrypt_in_place(key: &[u8], nonce: &[u8], aad: &[u8], buffer: &mut [u8]) -> (tag:
    Result<Vec<u8>, aes_gcm::Error>)
    requires
        key@.len() == 32,
        nonce@.len() == 12,
    ensures
        final(buffer)@.len() == old(buffer)@.len(),
        tag is Ok <==> (old(buffer)@.len() <= PLAINTEXT_MAX && aad@.len() <= AAD_MAX),
        tag matches Ok(t) ==> (final(buffer)@, t@) == aes256_gcm_seal(key@, nonce@, aad@, old(buffer)@),
        tag matches Ok(t) ==> t@.len() == 16,
        tag matches Ok(t) ==> aes256_gcm_open(key@, nonce@, aad@, final(buffer)@, t@) == Some(
            old(buffer)@,
        ),
        tag matches Ok(t) ==> forall|other: Seq<u8>|
            other.len() == 16 && other != t@ ==> #[trigger] aes256_gcm_open(
                key@,
                nonce@,
                aad@,
                final(buffer)@,
                other,
            ) is None,
        tag is Err ==> final(buffer)@ == old(buffer)@,
{
    let cipher = Aes256Gcm::new(Key::<Aes256Gcm>::from_slice(key));
    match cipher.encrypt_in_place_detached(Nonce::from_slice(nonce), aad, buffer) {
        Ok(tag) => Ok(tag.to_vec()),
        Err(error) => Err(error),
    }
}

/// `aes_gcm::AeadInPlace::decrypt_in_place_detached` for `Aes256Gcm`:
/// succeeds exactly when the decryption exists, the buffer then holding the
/// plaintext; on failure the buffer is unchanged.
#[verifier::external_body]
fn aes256_gcm_decrypt_in_place(
    key: &[u8],
    nonce: &[u8],
    aad: &[u8],
    buffer: &mut [u8],
    tag: &[u8],
) -> (result: Result<(), aes_gcm::Error>)
    requires
        key@.len() == 32,
        nonce@.len() == 12,
        tag@.len() == 16,
    ensures
        final(buffer)@.len() == old(buffer)@.len(),
        result is Ok <==> aes256_gcm_open(key@, nonce@, aad@, old(buffer)@, tag@) is Some,
        result is Ok ==> Some(final(buffer)@) == aes256_gcm_open(key@, nonce@, aad@, old(buffer)@, tag@),
        result is Err ==> final(buffer)@ == old(buffer)@,
{
    let cipher = Aes256Gcm::new(Key::<Aes256Gcm>::from_slice(key));
    cipher.decrypt_in_place_detached(Nonce::from_slice(nonce), aad, buffer, Tag::from_slice(tag))
}

/// The status of a call for the buffers it was handed: `AEAD_NULL_POINTER`
/// when the key, the nonce, the source, the destination or the tag is
/// missing, or when associated data of nonzero length is missing; `AEAD_OK`
/// otherwise (empty associated data may be absent).
pub fn buffers_status(
    key: bool,
    nonce: bool,
    aad_len: usize,
    aad: bool,
    source: bool,
    destination: bool,
    tag: bool,
) -> (status: i32)
    ensures
        status == (if key && nonce && source && destination && tag && (aad_len == 0 || aad) {
            AEAD_OK
        } else {
            AEAD_NULL_POINTER
        }),
{
    if !key || !nonce || !source || !destination || !tag || (aad_len > 0 && !aad) {
        AEAD_NULL_POINTER
    } else {
        AEAD_OK
    }
}

/// Copies `source` over `destination`, which has its length.
fn copy_bytes(source: &[u8], destination: &mut [u8])
    requires
        source@.len() == old(destination)@.len(),
    ensures
        final(destination)@ == source@,
{
    let mut index: usize = 0;
    while index < source.len()
        invariant
            source@.len() == destination@.len(),
            index <= source@.len(),
            forall|i: int| 0 <= i < index ==> #[trigger] destination@[i] == source@[i],
        decreases source@.len() - index,
    {
        destination[index] = source[index];
        index += 1;
    }
    assert(destination@ =~= source@);
}

/// Encrypts `plaintext` into `ciphertext` (of the same length) and writes
/// the 16-byte tag into `tag`. Returns `AEAD_PANIC`, with the plaintext
/// copied into `ciphertext` and `tag` untouched, when `aes-gcm` refuses the
/// lengths, and `AEAD_OK` otherwise; the ciphertext and tag then decrypt to
/// the plaintext, and the ciphertext with any other tag does not decrypt.
pub fn encrypt_impl(
    key: &[u8],
    nonce: &[u8],
    aad: &[u8],
    plaintext: &[u8],
    ciphertext: &mut [u8],
    tag: &mut [u8],
) -> (status: i32)
    requires
        key@.len() == 32,
        nonce@.len() == 12,
        old(ciphertext)@.len() == plaintext@.len(),
        old(tag)@.len() == 16,
    ensures
        status == AEAD_OK || status == AEAD_PANIC,
        final(ciphertext)@.len() == plaintext@.len(),
        final(tag)@.len() == 16,
        status == AEAD_OK <==> (plaintext@.len() <= PLAINTEXT_MAX && aad@.len() <= AAD_MAX),
        status == AEAD_OK ==> (final(ciphertext)@, final(tag)@) == aes256_gcm_seal(
            key@,
            nonce@,
            aad@,
            plaintext@,
        ),
        status == AEAD_OK ==> aes256_gcm_open(key@, nonce@, aad@, final(ciphertext)@, final(tag)@)
            == Some(plaintext@),
        status == AEAD_OK ==> forall|other: Seq<u8>|
            other.len() == 16 && other != final(tag)@ ==> #[trigger] aes256_gcm_open(
                key@,
                nonce@,
                aad@,
                final(ciphertext)@,
                other,
            ) is None,
        status == AEAD_PANIC ==> final(ciphertext)@ == plaintext@ && final(tag)@ == old(tag)@,
{
    copy_bytes(plaintext, ciphertext);
    match aes256_gcm_encrypt_in_place(key, nonce, aad, ciphertext) {
        Ok(authentication_tag) => {
            copy_bytes(authentication_tag.as_slice(), tag);
            AEAD_OK
        },
        Err(_) => AEAD_PANIC,
    }
}

/// Decrypts `ciphertext` with `tag` into `plaintext` (of the same length).
/// Returns `AEAD_OK` with the plaintext when the decryption exists, and
/// otherwise `AEAD_AUTHENTICATION_FAILED` with `plaintext` cleared to zero.
pub fn decrypt_impl(
    key: &[u8],
    nonce: &[u8],
    aad: &[u8],
    ciphertext: &[u8],
    tag: &[u8],
    plaintext: &mut [u8],
) -> (status: i32)
    requires
        key@.len() == 32,
        nonce@.len() == 12,
        tag@.len() == 16,
        old(plaintext)@.len() == ciphertext@.len(),
    ensures
        status == AEAD_OK || status == AEAD_AUTHENTICATION_FAILED,
        status == AEAD_OK <==> aes256_gcm_open(key@, nonce@, aad@, ciphertext@, tag@) is Some,
        status == AEAD_OK ==> Some(final(plaintext)@) == aes256_gcm_open(
            key@,
            nonce@,
            aad@,
            ciphertext@,
            tag@,
        ),
        status == AEAD_AUTHENTICATION_FAILED ==> final(plaintext)@ == Seq::new(
            ciphertext@.len(),
            |i: int| 0u8,
        ),
{
    copy_bytes(ciphertext, plaintext);
    match aes256_gcm_decrypt_in_place(key, nonce, aad, plaintext, tag) {
        Ok(()) => AEAD_OK,
        Err(_) => {
            let mut index: usize = 0;
            while index < plaintext.len()
                invariant
                    plaintext@.len() == ciphertext@.len(),
                    index <= plaintext@.len(),
                    forall|i: int| 0 <= i < index ==> #[trigger] plaintext@[i] == 0u8,
                decreases plaintext@.len() - index,
            {
                plaintext[index] = 0;
                index += 1;
            }
            assert(plaintext@ =~= Seq::new(ciphertext@.len(), |i: int| 0u8));
            AEAD_AUTHENTICATION_FAILED
        },
    }
}

} // verus!
