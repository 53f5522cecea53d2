//! Key derivation and authenticated encryption.
//!
//! The outside calls (argon2, AES-256-GCM, the system's randomness) sit behind
//! small trusted wrappers; everything around them — nonce framing, length
//! checks, the shape of the stored blob — is verified.

use vstd::prelude::*;
use aes_gcm::aead::{Aead, KeyInit};
use aes_gcm::{Aes256Gcm, Key, Nonce};

verus! {

/// Greatest plaintext length, in bytes, that the AEAD accepts in one call.
pub const AEAD_MAX_PLAINTEXT: u64 = 0x10_0000_0000;

/// Greatest password length, in bytes, that the key derivation accepts.
pub const MAX_PASSWORD_LEN: u64 = 0xFFFF_FFFF;

/// The 32-byte key that the key derivation returns for a password and a salt.
/// It is a fixed function of the two: the same pair always derives the same key.
pub uninterp spec fn derived_key_of(password: Seq<u8>, salt: Seq<u8>) -> Seq<u8>;

/// What AES-256-GCM decryption returns for a key, a nonce and a ciphertext:
/// the plaintext when the authentication tag verifies, `None` otherwise. It is
/// a fixed function of the three arguments.
pub uninterp spec fn aead_open_of(key: Seq<u8>, nonce: Seq<u8>, ct: Seq<u8>) -> Option<Seq<u8>>;

/// Relies on argon2's `Argon2::default()` and `hash_password_into`: the key is
/// a deterministic function of password and salt; with a 16-byte salt and a
/// 32-byte output buffer the source's only error path is a password longer
/// than its `MAX_PWD_LEN`.
#[verifier::external_body]
pub(crate) fn derive_key(password: &Vec<u8>, salt: &Vec<u8>) -> (r: Option<Vec<u8>>)
    requires
        salt@.len() == 16,
    ensures
        (r matches Some(k) ==> k@ == derived_key_of(password@, salt@) && k@.len() == 32),
        r is Some <==> password@.len() <= MAX_PASSWORD_LEN,
{
    let argon2 = argon2::Argon2::default();
    let mut key = [0u8; 32];
    match argon2.hash_password_into(password.as_slice(), salt.as_slice(), &mut key) {
        Ok(()) => Some(key.to_vec()),
        Err(_) => None,
    }
}

/// Relies on aes_gcm's `Aes256Gcm` with the `Aead` trait's `encrypt`: the
/// ciphertext is the plaintext's length plus the 16-byte tag, decrypting it
/// under the same key and nonce gives the plaintext back, and the source's
/// only error path is a plaintext longer than its `P_MAX`.
#[verifier::external_body]
fn aead_seal(key: &Vec<u8>, nonce: &Vec<u8>, data: &Vec<u8>) -> (r: Option<Vec<u8>>)
    requires
        key@.len() == 32,
        nonce@.len() == 12,
    ensures
        (r matches Some(ct) ==> ct@.len() == data@.len() + 16 && aead_open_of(key@, nonce@, ct@)
            == Some(data@)),
        r is Some <==> data@.len() <= AEAD_MAX_PLAINTEXT,
{
    let cipher = Aes256Gcm::new(Key::<Aes256Gcm>::from_slice(key.as_slice()));
    cipher.encrypt(Nonce::from_slice(nonce.as_slice()), data.as_slice()).ok()
}

/// Relies on aes_gcm's `Aes256Gcm` with the `Aead` trait's `decrypt`: the
/// result is a deterministic function of key, nonce and ciphertext, and is an
/// error exactly when the authentication tag does not verify (which includes
/// every ciphertext shorter than the tag or longer than the source's `C_MAX`).
#[verifier::external_body]
fn aead_open(key: &Vec<u8>, nonce: &Vec<u8>, ct: &Vec<u8>) -> (r: Option<Vec<u8>>)
    requires
        key@.len() == 32,
        nonce@.len() == 12,
    ensures
        match r {
            Some(p) => aead_open_of(key@, nonce@, ct@) == Some(p@),
            None => aead_open_of(key@, nonce@, ct@) is None,
        },
{
    let cipher = Aes256Gcm::new(Key::<Aes256Gcm>::from_slice(key.as_slice()));
    cipher.decrypt(Nonce::from_slice(nonce.as_slice()), ct.as_slice()).ok()
}

/// Relies on rand's `thread_rng` and `RngCore::fill_bytes`: the buffer is
/// filled completely. Nothing is assumed about the values drawn.
#[verifier::external_body]
pub(crate) fn random_bytes(n: usize) -> (r: Vec<u8>)
    ensures
        r@.len() == n,
{
    let mut buf = vec![0u8; n];
    rand::RngCore::fill_bytes(&mut rand::thread_rng(), &mut buf);
    buf
}

/// Turns a master password and a 16-byte salt into the 32-byte symmetric key.
/// Deterministic: the same pair always yields the same key; the password goes
/// in whole, never truncated or padded. Fails exactly when the password is
/// longer than the derivation's limit.
pub fn derive(password: &Vec<u8>, salt: &Vec<u8>) -> (r: Option<Vec<u8>>)
    requires
        salt@.len() == 16,
    ensures
        (r matches Some(k) ==> k@ == derived_key_of(password@, salt@) && k@.len() == 32),
        r is Some <==> password@.len() <= MAX_PASSWORD_LEN,
{
    derive_key(password, salt)
}

/// Encrypts `data` under `key` with a fresh random 12-byte nonce and returns
/// `nonce || ciphertext_with_tag`. Fails exactly when `data` is longer than
/// the AEAD's plaintext limit.
pub fn encrypt_data(data: &Vec<u8>, key: &Vec<u8>) -> (r: Option<Vec<u8>>)
    requires
        key@.len() == 32,
    ensures
        (r matches Some(blob) ==> blob@.len() == data@.len() + 28 && aead_open_of(
            key@,
            blob@.subrange(0, 12),
            blob@.skip(12),
        ) == Some(data@)),
        r is Some <==> data@.len() <= AEAD_MAX_PLAINTEXT,
{
    let nonce = random_bytes(12);
    match aead_seal(key, &nonce, data) {
        None => None,
        Some(mut ct) => {
            let ghost nv = nonce@;
            let ghost cv = ct@;
            let mut blob = nonce;
            blob.append(&mut ct);
            proof {
                assert(blob@.subrange(0, 12) =~= nv);
                assert(blob@.skip(12) =~= cv);
            }
            Some(blob)
        },
    }
}

/// Decrypts a stored blob of the form `nonce || ciphertext_with_tag` under
/// `key`. A blob shorter than the nonce, a tampered blob, and a key derived
/// from the wrong password all fail the same way: `None`.
pub fn decrypt_data(blob: &Vec<u8>, key: &Vec<u8>) -> (r: Option<Vec<u8>>)
    requires
        key@.len() == 32,
    ensures
        blob@.len() < 12 ==> r is None,
        blob@.len() >= 12 ==> match r {
            Some(p) => aead_open_of(key@, blob@.subrange(0, 12), blob@.skip(12)) == Some(p@),
            None => aead_open_of(key@, blob@.subrange(0, 12), blob@.skip(12)) is None,
        },
{
    if blob.len() < 12 {
        return None;
    }
    let nonce = vstd::slice::slice_to_vec(vstd::slice::slice_subrange(blob.as_slice(), 0, 12));
    let ct = vstd::slice::slice_to_vec(
        vstd::slice::slice_subrange(blob.as_slice(), 12, blob.len()),
    );
    proof {
        assert(nonce@ =~= blob@.subrange(0, 12));
        assert(ct@ =~= blob@.skip(12));
    }
    aead_open(key, &nonce, &ct)
}

} // verus!
