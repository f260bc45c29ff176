//! Trusted boundary to the cryptographic crates.
//!
//! Every function here is an `external_body` wrapper around one operation of
//! an outside crate.  The results of the deterministic operations are given
//! opaque names (`argon2id_key_of`, `aes256_gcm_seal`, `aes256_gcm_open`,
//! `aes256_ctr_xor`): the contracts of the verified code speak of those names,
//! and the only facts assumed about them are the ones stated here, which the
//! crates' sources and documentation plainly give.

use aes_gcm::aead::Aead;
use aes_gcm::aead::KeyInit;
use ctr::cipher::KeyIvInit;
use ctr::cipher::StreamCipher;
use rand::RngCore;
use vstd::prelude::*;
use vstd::string::StringSliceAdditionalSpecFns;

verus! {

/// The 32-byte Argon2id digest of a passphrase and a salt, under the engine's
/// fixed cost parameters (32 MiB memory, 2 iterations, 4 lanes).
pub uninterp spec fn argon2id_key_of(passphrase: Seq<char>, salt: Seq<u8>) -> Seq<u8>;

/// The AES-256-GCM ciphertext-with-tag for a key, a 12-byte nonce and a plaintext.
pub uninterp spec fn aes256_gcm_seal(key: Seq<u8>, nonce: Seq<u8>, plaintext: Seq<u8>) -> Seq<u8>;

/// What AES-256-GCM decryption returns for a key, a 12-byte nonce and a buffer:
/// the plaintext, or `None` when the tag does not verify.
pub uninterp spec fn aes256_gcm_open(key: Seq<u8>, nonce: Seq<u8>, buffer: Seq<u8>) -> Option<Seq<u8>>;

/// The AES-256-CTR keystream applied to a buffer, for a key and a 16-byte IV.
pub uninterp spec fn aes256_ctr_xor(key: Seq<u8>, iv: Seq<u8>, data: Seq<u8>) -> Seq<u8>;

/// Relies on argon2's `Argon2::hash_password_into` with `Params::new(32768, 2, 4, Some(32))`:
/// the digest is a function of the passphrase and the salt alone, and with a
/// 16-byte salt the only rejected input is a passphrase over `MAX_PWD_LEN` bytes.
#[verifier::external_body]
pub(crate) fn argon2id_derive(passphrase: &str, salt: &[u8]) -> (r: Option<Vec<u8>>)
    requires
        salt@.len() == 16,
    ensures
        r is Some <==> passphrase.spec_bytes().len() <= 0xFFFF_FFFF,
        r matches Some(key) ==> key@.len() == 32 && key@ == argon2id_key_of(
            passphrase@,
            salt@,
        ),
{
    let params = match argon2::Params::new(32768, 2, 4, Some(32)) {
        Ok(p) => p,
        Err(_) => return None,
    };
    let argon = argon2::Argon2::new(argon2::Algorithm::Argon2id, argon2::Version::V0x13, params);
    let mut key = vec![0u8; 32];
    match argon.hash_password_into(passphrase.as_bytes(), salt, &mut key) {
        Ok(()) => Some(key),
        Err(_) => None,
    }
}

/// Relies on aes-gcm's `Aead::encrypt` for `Aes256Gcm`: encryption is a function
/// of key, nonce and plaintext; the output is the plaintext's length plus the
/// 16-byte tag; the only rejected plaintext is one over `P_MAX` (2^36) bytes.
#[verifier::external_body]
pub(crate) fn gcm_encrypt(key: &[u8], nonce: &[u8], plaintext: &[u8]) -> (r: Option<Vec<u8>>)
    requires
        key@.len() == 32,
        nonce@.len() == 12,
    ensures
        r is Some <==> plaintext@.len() <= 0x10_0000_0000,
        r matches Some(ct) ==> ct@ == aes256_gcm_seal(key@, nonce@, plaintext@)
            && ct@.len() == plaintext@.len() + 16,
{
    let cipher = match aes_gcm::Aes256Gcm::new_from_slice(key) {
        Ok(c) => c,
        Err(_) => return None,
    };
    let nonce = aes_gcm::Nonce::from_slice(nonce);
    cipher.encrypt(nonce, plaintext).ok()
}

/// Relies on aes-gcm's `Aead::decrypt` for `Aes256Gcm`: decryption is a function
/// of key, nonce and buffer; it returns exactly the plaintext that
/// `Aead::encrypt` sealed under the same key and nonce; and, as authenticated
/// encryption, it accepts a buffer only if that buffer was sealed under this
/// key and nonce.
#[verifier::external_body]
pub(crate) fn gcm_decrypt(key: &[u8], nonce: &[u8], buffer: &[u8]) -> (r: Option<Vec<u8>>)
    requires
        key@.len() == 32,
        nonce@.len() == 12,
    ensures
        forall|pt: Seq<u8>|
            buffer@ == #[trigger] aes256_gcm_seal(key@, nonce@, pt) ==> r is Some
                && r.unwrap()@ == pt,
        r matches Some(pt) ==> buffer@ == aes256_gcm_seal(key@, nonce@, pt@),
        r matches Some(pt) ==> aes256_gcm_open(key@, nonce@, buffer@) == Some(pt@),
        r is None ==> aes256_gcm_open(key@, nonce@, buffer@) is None,
{
    let cipher = match aes_gcm::Aes256Gcm::new_from_slice(key) {
        Ok(c) => c,
        Err(_) => return None,
    };
    let nonce = aes_gcm::Nonce::from_slice(nonce);
    cipher.decrypt(nonce, buffer).ok()
}

/// Relies on ctr's `Ctr128BE<Aes256>` with cipher's `StreamCipher::apply_keystream`:
/// the keystream depends on the key and the IV alone, is XORed onto the buffer
/// byte for byte (so the length is kept), and applying it twice restores the
/// buffer.
#[verifier::external_body]
pub(crate) fn ctr_apply(key: &[u8], iv: &[u8], data: Vec<u8>) -> (r: Vec<u8>)
    requires
        key@.len() == 32,
        iv@.len() == 16,
    ensures
        r@ == aes256_ctr_xor(key@, iv@, data@),
        r@.len() == data@.len(),
        aes256_ctr_xor(key@, iv@, r@) == data@,
        forall|d: Seq<u8>| data@ == #[trigger] aes256_ctr_xor(key@, iv@, d) ==> r@ == d,
{
    let mut cipher = match <ctr::Ctr128BE<aes::Aes256> as KeyIvInit>::new_from_slices(key, iv) {
        Ok(c) => c,
        Err(_) => return data,
    };
    let mut buf = data;
    cipher.apply_keystream(&mut buf);
    buf
}

/// Relies on rand's `OsRng::fill_bytes`: it fills the whole buffer, so the
/// result has the requested length.  Nothing is assumed about the values.
#[verifier::external_body]
pub(crate) fn random_bytes(n: usize) -> (r: Vec<u8>)
    ensures
        r@.len() == n,
{
    let mut buf = vec![0u8; n];
    rand::rngs::OsRng.fill_bytes(&mut buf);
    buf
}

/// Relies on uuid's `Uuid::new_v4` and its `Display` form: the hyphenated
/// rendering of a UUID is always 36 characters, lowercase hex digits and
/// hyphens, so ASCII.  The value is random, so nothing more is assumed.
#[verifier::external_body]
pub(crate) fn new_uuid_string() -> (r: String)
    ensures
        r@.len() == 36,
        forall|i: int| 0 <= i < r@.len() ==> ' ' <= #[trigger] r@[i] <= '~',
{
    uuid::Uuid::new_v4().to_string()
}

} // verus!
