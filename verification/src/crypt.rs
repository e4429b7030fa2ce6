//! The cryptographic boundary: key derivation, authenticated
//! encryption and randomness.
//!
//! The outside calls live behind trusted items.  What they return is
//! named by uninterpreted spec functions (`kdf_key`, `sealed_bytes`,
//! `unsealed_bytes`): the library's contracts speak of those names, and
//! the rest of the logic is verified against them.

use vstd::prelude::*;
use vstd::utf8::{encode_utf8, valid_utf8};

use aes_gcm_siv::aead::Aead;
use aes_gcm_siv::{Aes256GcmSiv, KeyInit, Nonce};

verus! {

/// Byte length of a derived symmetric key.
pub const KEY_LEN: usize = 32;

/// Byte length of an AEAD nonce.
pub const NONCE_LEN: usize = 12;

/// Byte length of the AEAD authentication tag appended to a ciphertext.
pub const TAG_LEN: usize = 16;

/// Largest plaintext the cipher accepts, per its documentation.
pub const MAX_PLAIN_LEN: u64 = 0x10_0000_0000;

/// The 32-byte key that the passphrase-hardening function derives from
/// a passphrase and a salt.  A function of its arguments alone: the KDF
/// parameters are fixed constants of this library.
pub uninterp spec fn kdf_key(pass: Seq<u8>, salt: Seq<u8>) -> Seq<u8>;

/// The ciphertext, tag included, that the authenticated cipher produces
/// for a key, a nonce and a plaintext.  Deterministic in all three.
pub uninterp spec fn sealed_bytes(key: Seq<u8>, nonce: Seq<u8>, plain: Seq<u8>) -> Seq<u8>;

/// What authenticated decryption yields for a key, a nonce and a
/// ciphertext: the matching plaintext, or nothing.
pub uninterp spec fn unsealed_bytes(key: Seq<u8>, nonce: Seq<u8>, ct: Seq<u8>) -> Option<Seq<u8>>;

/// Relies on `argon2::Argon2::hash_password_into` (Argon2id, version
/// 19) with this library's fixed parameters — 1 MiB of memory, three
/// passes, one lane: a deterministic function of the passphrase and
/// the salt, filling the output with the derived key.  It accepts any
/// passphrase of at most `u32::MAX` bytes and any salt of 8 to 64
/// bytes.  The parameters are never stored in the file; the file's
/// KDF identifier byte names this parameter set.
#[verifier::external_body]
pub(crate) fn kdf_derive(pass: &Vec<u8>, salt: &Vec<u8>) -> (r: Vec<u8>)
    requires
        pass@.len() <= u32::MAX as nat,
        8 <= salt@.len() <= 64,
    ensures
        r@ == kdf_key(pass@, salt@),
        r@.len() == KEY_LEN,
{
    let params = argon2::Params::new(1024, 3, 1, Some(32)).expect("parameters are valid");
    let kdf = argon2::Argon2::new(argon2::Algorithm::Argon2id, argon2::Version::V0x13, params);
    let mut out = [0u8; 32];
    kdf.hash_password_into(pass, salt, &mut out)
        .expect("inputs are within the hash function's documented bounds");
    out.to_vec()
}

/// Relies on `aes_gcm_siv::Aes256GcmSiv` through `aead::Aead::encrypt`:
/// encryption is deterministic in key, nonce and plaintext, appends a
/// 16-byte tag, and succeeds on any plaintext under the cipher's
/// documented size cap.
#[verifier::external_body]
pub(crate) fn aead_encrypt(key: &Vec<u8>, nonce: &Vec<u8>, plain: &Vec<u8>) -> (r: Vec<u8>)
    requires
        key@.len() == KEY_LEN,
        nonce@.len() == NONCE_LEN,
        plain@.len() < MAX_PLAIN_LEN,
    ensures
        r@ == sealed_bytes(key@, nonce@, plain@),
        r@.len() == plain@.len() + TAG_LEN,
{
    let cipher = Aes256GcmSiv::new_from_slice(key).expect("key is 32 bytes");
    cipher
        .encrypt(Nonce::from_slice(nonce), plain.as_slice())
        .expect("plaintext is within the cipher's documented bounds")
}

/// Relies on `aes_gcm_siv::Aes256GcmSiv` through `aead::Aead::decrypt`:
/// decryption inverts encryption under the same key and nonce, and it
/// succeeds only on a ciphertext that encryption produces, returning
/// that ciphertext's unique plaintext.
#[verifier::external_body]
pub(crate) fn aead_decrypt(key: &Vec<u8>, nonce: &Vec<u8>, ct: &Vec<u8>) -> (r: Option<Vec<u8>>)
    requires
        key@.len() == KEY_LEN,
        nonce@.len() == NONCE_LEN,
    ensures
        r matches Some(p) ==> unsealed_bytes(key@, nonce@, ct@) == Some(p@) && ct@ == sealed_bytes(
            key@,
            nonce@,
            p@,
        ) && ct@.len() == p@.len() + TAG_LEN,
        r is None ==> unsealed_bytes(key@, nonce@, ct@) is None,
        r is None ==> forall|p: Seq<u8>|
            p.len() < MAX_PLAIN_LEN ==> ct@ != #[trigger] sealed_bytes(key@, nonce@, p),
        r matches Some(q) ==> forall|p: Seq<u8>|
            p.len() < MAX_PLAIN_LEN && ct@ == #[trigger] sealed_bytes(key@, nonce@, p) ==> p == q@,
{
    let cipher = Aes256GcmSiv::new_from_slice(key).expect("key is 32 bytes");
    cipher.decrypt(Nonce::from_slice(nonce), ct.as_slice()).ok()
}

/// Relies on `rand::random`: a value drawn from the thread-local
/// cryptographically secure generator.  Nothing is promised of it.
pub assume_specification<T>[ rand::random::<T> ]() -> (r: T)
    where
        rand::distributions::Standard: rand::distributions::Distribution<T>,
;

/// `n` fresh random bytes.  Nothing is promised of their values, only
/// of their count.
pub fn random_bytes(n: usize) -> (r: Vec<u8>)
    ensures
        r@.len() == n,
{
    let mut r: Vec<u8> = Vec::new();
    let mut i: usize = 0;
    while i < n
        invariant
            i <= n,
            r@.len() == i,
        decreases n - i,
    {
        r.push(rand::random::<u8>());
        i = i + 1;
    }
    r
}

/// Relies on `alloc::string::String::from_utf8`: it succeeds exactly on
/// valid UTF-8 and returns the string carrying those bytes.
#[verifier::external_body]
pub(crate) fn string_from_bytes(b: Vec<u8>) -> (r: Option<String>)
    ensures
        r matches Some(s) ==> encode_utf8(s@) == b@,
        valid_utf8(b@) ==> r is Some,
{
    String::from_utf8(b).ok()
}

} // verus!
