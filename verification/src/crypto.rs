//! Framing and sealing of secret values with AES-256-GCM.
//!
//! A sealed payload is `"EENV"`, a version byte `1`, a 12-byte nonce, then
//! the AES-256-GCM ciphertext (with its tag) of the value.

use vstd::prelude::*;

use aes_gcm::aead::{Aead, KeyInit};

use crate::error::EnvError;

verus! {

pub const KEY_LEN: usize = 32;

pub const NONCE_LEN: usize = 12;

pub const HEADER_LEN: usize = 17;

pub const VERSION: u8 = 1;

/// The four magic bytes `"EENV"`.
pub open spec fn magic() -> Seq<u8> {
    seq![0x45u8, 0x45u8, 0x4eu8, 0x56u8]
}

/// AES-256-GCM encryption with an empty associated data, as the `aes-gcm`
/// crate computes it; `None` when it refuses.
pub uninterp spec fn aes256gcm_seal(key: Seq<u8>, nonce: Seq<u8>, plaintext: Seq<u8>) -> Option<
    Seq<u8>,
>;

/// AES-256-GCM decryption with an empty associated data, as the `aes-gcm`
/// crate computes it; `None` when authentication fails.
pub uninterp spec fn aes256gcm_open(key: Seq<u8>, nonce: Seq<u8>, ciphertext: Seq<u8>) -> Option<
    Seq<u8>,
>;

#[verifier::external_type_specification]
#[verifier::external_body]
pub struct ExRandomError(getrandom::Error);

/// Calls `getrandom::fill` on `buf`. Trusted: the length of `buf` is kept;
/// its contents come from the system random source and nothing is stated of them.
#[verifier::external_body]
fn fill_random(buf: &mut Vec<u8>) -> (r: Result<(), getrandom::Error>)
    ensures
        final(buf)@.len() == old(buf)@.len(),
{
    getrandom::fill(buf.as_mut_slice())
}

/// Calls `Aes256Gcm::new_from_slice(key)` and `Aead::encrypt(nonce, plaintext)`.
/// Trusted: the result is `aes256gcm_seal(key, nonce, plaintext)`; it
/// exists exactly when the plaintext is at most 2^36 bytes, is 16 bytes
/// longer than the plaintext, and opens again to the plaintext under the
/// same key and nonce.
#[verifier::external_body]
fn seal(key: &[u8], nonce: &[u8], plaintext: &[u8]) -> (r: Option<Vec<u8>>)
    requires
        key@.len() == 32,
        nonce@.len() == 12,
    ensures
        r matches Some(c) ==> aes256gcm_seal(key@, nonce@, plaintext@) == Some(c@),
        r is None ==> aes256gcm_seal(key@, nonce@, plaintext@) is None,
        r is Some <==> plaintext@.len() <= 0x1_0000_0000_0,
        r matches Some(c) ==> c@.len() == plaintext@.len() + 16,
        r matches Some(c) ==> aes256gcm_open(key@, nonce@, c@) == Some(plaintext@),
{
    let cipher = aes_gcm::Aes256Gcm::new_from_slice(key).expect("32-byte key");
    cipher.encrypt(aes_gcm::Nonce::from_slice(nonce), plaintext).ok()
}

/// Calls `Aes256Gcm::new_from_slice(key)` and `Aead::decrypt(nonce, ciphertext)`.
/// Trusted: the result is `aes256gcm_open(key, nonce, ciphertext)`.
#[verifier::external_body]
fn open(key: &[u8], nonce: &[u8], ciphertext: &[u8]) -> (r: Option<Vec<u8>>)
    requires
        key@.len() == 32,
        nonce@.len() == 12,
    ensures
        r matches Some(p) ==> aes256gcm_open(key@, nonce@, ciphertext@) == Some(p@),
        r is None ==> aes256gcm_open(key@, nonce@, ciphertext@) is None,
{
    let cipher = aes_gcm::Aes256Gcm::new_from_slice(key).expect("32-byte key");
    cipher.decrypt(aes_gcm::Nonce::from_slice(nonce), ciphertext).ok()
}

/// A fresh 32-byte master key from the system random source.
pub fn generate_key() -> (r: Result<Vec<u8>, EnvError>)
    ensures
        r matches Ok(k) ==> k@.len() == KEY_LEN,
        r matches Err(e) ==> e == EnvError::KeyGenerationFailed,
{
    let mut key: Vec<u8> = vec![0u8; KEY_LEN];
    match fill_random(&mut key) {
        Ok(()) => Ok(key),
        Err(_) => Err(EnvError::KeyGenerationFailed),
    }
}

/// What decrypting `blob` with `key` gives.
pub open spec fn decrypt_outcome(key: Seq<u8>, blob: Seq<u8>) -> Result<Seq<u8>, EnvError> {
    if key.len() != 32 {
        Err(EnvError::BadKeyLength)
    } else if blob.len() < 17 {
        Err(EnvError::PayloadTruncated)
    } else if blob.take(4) != magic() {
        Err(EnvError::PayloadBadHeader)
    } else if blob[4] != 1 {
        Err(EnvError::PayloadBadVersion)
    } else {
        match aes256gcm_open(key, blob.subrange(5, 17), blob.skip(17)) {
            Some(p) => Ok(p),
            None => Err(EnvError::DecryptFailed),
        }
    }
}

/// A payload with this framing: magic, version 1, `nonce`, then `ciphertext`.
pub open spec fn frame(nonce: Seq<u8>, ciphertext: Seq<u8>) -> Seq<u8> {
    magic() + seq![1u8] + nonce + ciphertext
}

/// Seals `plaintext` under `key` with a fresh random nonce.
pub fn encrypt(key: &[u8], plaintext: &[u8]) -> (r: Result<Vec<u8>, EnvError>)
    ensures
        key@.len() != 32 <==> r == Err::<Vec<u8>, EnvError>(EnvError::BadKeyLength),
        r matches Ok(blob) ==> exists|nonce: Seq<u8>|
            nonce.len() == 12 && aes256gcm_seal(key@, nonce, plaintext@) == Some(blob@.skip(17))
                && blob@ == frame(nonce, blob@.skip(17)),
        r matches Ok(blob) ==> decrypt_outcome(key@, blob@) == Ok::<Seq<u8>, EnvError>(plaintext@),
        r matches Err(e) ==> e == EnvError::BadKeyLength || e == EnvError::NonceGenerationFailed
            || (e == EnvError::EncryptFailed && plaintext@.len() > 0x1_0000_0000_0),
{
    if key.len() != KEY_LEN {
        return Err(EnvError::BadKeyLength);
    }
    let mut nonce: Vec<u8> = vec![0u8; NONCE_LEN];
    match fill_random(&mut nonce) {
        Ok(()) => {},
        Err(_) => {
            return Err(EnvError::NonceGenerationFailed);
        },
    }
    let ciphertext = match seal(key, nonce.as_slice(), plaintext) {
        Some(c) => c,
        None => {
            return Err(EnvError::EncryptFailed);
        },
    };
    let mut blob: Vec<u8> = Vec::new();
    blob.push(0x45u8);
    blob.push(0x45u8);
    blob.push(0x4eu8);
    blob.push(0x56u8);
    blob.push(VERSION);
    let mut i: usize = 0;
    while i < NONCE_LEN
        invariant
            nonce@.len() == 12,
            0 <= i <= 12,
            blob@ == magic() + seq![1u8] + nonce@.take(i as int),
        decreases 12 - i,
    {
        blob.push(nonce[i]);
        i += 1;
        assert(blob@ =~= magic() + seq![1u8] + nonce@.take(i as int));
    }
    let mut j: usize = 0;
    while j < ciphertext.len()
        invariant
            nonce@.len() == 12,
            0 <= j <= ciphertext@.len(),
            blob@ == magic() + seq![1u8] + nonce@ + ciphertext@.take(j as int),
        decreases ciphertext@.len() - j,
    {
        blob.push(ciphertext[j]);
        j += 1;
        assert(blob@ =~= magic() + seq![1u8] + nonce@ + ciphertext@.take(j as int));
    }
    proof {
        assert(nonce@.take(12) =~= nonce@);
        assert(ciphertext@.take(ciphertext@.len() as int) =~= ciphertext@);
        assert(blob@.skip(17) =~= ciphertext@);
        assert(blob@.subrange(5, 17) =~= nonce@);
        assert(blob@.take(4) =~= magic());
        assert(blob@ =~= frame(nonce@, blob@.skip(17)));
    }
    Ok(blob)
}

/// Opens a payload made by `encrypt`.
pub fn decrypt(key: &[u8], blob: &[u8]) -> (r: Result<Vec<u8>, EnvError>)
    ensures
        r matches Ok(p) ==> decrypt_outcome(key@, blob@) == Ok::<Seq<u8>, EnvError>(p@),
        r matches Err(e) ==> decrypt_outcome(key@, blob@) == Err::<Seq<u8>, EnvError>(e),
{
    if key.len() != KEY_LEN {
        return Err(EnvError::BadKeyLength);
    }
    if blob.len() < HEADER_LEN {
        return Err(EnvError::PayloadTruncated);
    }
    if !(blob[0] == 0x45u8 && blob[1] == 0x45u8 && blob[2] == 0x4eu8 && blob[3] == 0x56u8) {
        proof {
            if blob@.take(4) == magic() {
                assert(blob@.take(4)[0] == blob@[0]);
                assert(blob@.take(4)[1] == blob@[1]);
                assert(blob@.take(4)[2] == blob@[2]);
                assert(blob@.take(4)[3] == blob@[3]);
            }
        }
        return Err(EnvError::PayloadBadHeader);
    }
    assert(blob@.take(4) =~= magic());
    if blob[4] != VERSION {
        return Err(EnvError::PayloadBadVersion);
    }
    let mut nonce: Vec<u8> = Vec::new();
    let mut i: usize = 5;
    while i < HEADER_LEN
        invariant
            5 <= i <= 17 <= blob@.len(),
            nonce@ == blob@.subrange(5, i as int),
        decreases 17 - i,
    {
        nonce.push(blob[i]);
        i += 1;
        assert(nonce@ =~= blob@.subrange(5, i as int));
    }
    let mut ciphertext: Vec<u8> = Vec::new();
    let mut j: usize = HEADER_LEN;
    while j < blob.len()
        invariant
            17 <= j <= blob@.len(),
            ciphertext@ == blob@.subrange(17, j as int),
        decreases blob@.len() - j,
    {
        ciphertext.push(blob[j]);
        j += 1;
        assert(ciphertext@ =~= blob@.subrange(17, j as int));
    }
    assert(ciphertext@ =~= blob@.skip(17));
    match open(key, nonce.as_slice(), ciphertext.as_slice()) {
        Some(p) => Ok(p),
        None => Err(EnvError::DecryptFailed),
    }
}

} // verus!
