//! Loading and saving a vault as an encrypted blob plus a 16-byte salt.
//!
//! The functions here work on file *contents* handed in as byte strings
//! (`None` standing for an absent file); the surrounding application does the
//! reading and writing. `load`'s result is pinned down exactly by `load_spec`,
//! and `save` promises that the blob it hands back decrypts — under the key
//! derived from the same password and the salt it returns — to the vault's
//! canonical encoding.

use vstd::prelude::*;
use crate::vault::{PasswordManager, RecordView};
use crate::codec::{decode, decode_spec, encode, encode_spec, lemma_decode_of_encode, records_fit};
use crate::crypto::{
    aead_open_of, decrypt_data, derive_key, derived_key_of, encrypt_data, random_bytes,
    AEAD_MAX_PLAINTEXT, MAX_PASSWORD_LEN,
};

verus! {

/// Why a load or a save failed. Wrong password and tampered or truncated
/// ciphertext are deliberately one variant: the caller must not be able to
/// tell them apart.
#[derive(Clone, Copy, Debug, PartialEq, Eq, Structural)]
pub enum VaultError {
    /// No vault file exists: a first-run condition, not damage.
    NotFound,
    /// The vault file exists but the salt file does not; the vault can no
    /// longer be decrypted.
    CorruptState,
    /// The salt file exists but does not hold exactly 16 bytes.
    CorruptSalt,
    /// The authentication tag did not verify: wrong master password, or a
    /// corrupted or truncated blob.
    AuthenticationFailed,
    /// Decryption succeeded but the plaintext is not a canonical vault
    /// encoding.
    MalformedVault,
    /// The key derivation rejected its input; with the fixed parameters used
    /// here that takes a password longer than `MAX_PASSWORD_LEN`.
    DerivationFailed,
    /// The encoded vault exceeds the AEAD's plaintext limit.
    TooLarge,
}

/// The byte string behind an optional file content.
pub open spec fn opt_view(o: Option<&Vec<u8>>) -> Option<Seq<u8>> {
    match o {
        Some(v) => Some(v@),
        None => None,
    }
}

/// Exactly what `load` returns for given file contents and password.
pub open spec fn load_spec(
    vault_bytes: Option<Seq<u8>>,
    salt_bytes: Option<Seq<u8>>,
    password: Seq<u8>,
) -> Result<Seq<RecordView>, VaultError> {
    match vault_bytes {
        None => Err(VaultError::NotFound),
        Some(blob) => match salt_bytes {
            None => Err(VaultError::CorruptState),
            Some(salt) => if salt.len() != 16 {
                Err(VaultError::CorruptSalt)
            } else if password.len() > MAX_PASSWORD_LEN {
                Err(VaultError::DerivationFailed)
            } else if blob.len() < 12 {
                Err(VaultError::AuthenticationFailed)
            } else {
                match aead_open_of(
                    derived_key_of(password, salt),
                    blob.subrange(0, 12),
                    blob.skip(12),
                ) {
                    None => Err(VaultError::AuthenticationFailed),
                    Some(plain) => match decode_spec(plain) {
                        None => Err(VaultError::MalformedVault),
                        Some(rs) => Ok(rs),
                    },
                }
            },
        },
    }
}

/// Reads a vault out of the given file contents: the blob is decrypted under
/// the key derived from `password` and the salt, then decoded.
pub fn load(
    vault_bytes: Option<&Vec<u8>>,
    salt_bytes: Option<&Vec<u8>>,
    password: &Vec<u8>,
) -> (r: Result<PasswordManager, VaultError>)
    ensures
        match r {
            Ok(m) => load_spec(opt_view(vault_bytes), opt_view(salt_bytes), password@)
                == Ok::<Seq<RecordView>, VaultError>(m@),
            Err(e) => load_spec(opt_view(vault_bytes), opt_view(salt_bytes), password@)
                == Err::<Seq<RecordView>, VaultError>(e),
        },
{
    let blob = match vault_bytes {
        None => {
            return Err(VaultError::NotFound);
        },
        Some(b) => b,
    };
    let salt = match salt_bytes {
        None => {
            return Err(VaultError::CorruptState);
        },
        Some(s) => s,
    };
    if salt.len() != 16 {
        return Err(VaultError::CorruptSalt);
    }
    let key = match derive_key(password, salt) {
        None => {
            return Err(VaultError::DerivationFailed);
        },
        Some(k) => k,
    };
    if blob.len() < 12 {
        return Err(VaultError::AuthenticationFailed);
    }
    let plain = match decrypt_data(blob, &key) {
        None => {
            return Err(VaultError::AuthenticationFailed);
        },
        Some(p) => p,
    };
    match decode(&plain) {
        None => Err(VaultError::MalformedVault),
        Some(m) => Ok(m),
    }
}

/// Like `load`, but a missing vault file is a first run, not an error: it
/// yields an empty vault.
pub fn load_or_init(
    vault_bytes: Option<&Vec<u8>>,
    salt_bytes: Option<&Vec<u8>>,
    password: &Vec<u8>,
) -> (r: Result<PasswordManager, VaultError>)
    ensures
        vault_bytes is None ==> (r matches Ok(m) && m@ == Seq::<RecordView>::empty()),
        vault_bytes is Some ==> match r {
            Ok(m) => load_spec(opt_view(vault_bytes), opt_view(salt_bytes), password@)
                == Ok::<Seq<RecordView>, VaultError>(m@),
            Err(e) => load_spec(opt_view(vault_bytes), opt_view(salt_bytes), password@)
                == Err::<Seq<RecordView>, VaultError>(e),
        },
{
    if vault_bytes.is_none() {
        return Ok(PasswordManager::new());
    }
    load(vault_bytes, salt_bytes, password)
}

/// What a save writes back: the encrypted vault file's new contents, the salt
/// the key was derived from, and whether that salt is new and must be written
/// to the salt file before or with the blob.
pub struct SaveOutput {
    pub blob: Vec<u8>,
    pub salt: Vec<u8>,
    pub salt_created: bool,
}

/// The error a save reports for the given inputs, or `None` when it succeeds.
pub open spec fn save_err(
    salt_bytes: Option<Seq<u8>>,
    password: Seq<u8>,
    vault: Seq<RecordView>,
) -> Option<VaultError> {
    if (salt_bytes matches Some(s) && s.len() != 16) {
        Some(VaultError::CorruptSalt)
    } else if password.len() > MAX_PASSWORD_LEN {
        Some(VaultError::DerivationFailed)
    } else if encode_spec(vault).len() > AEAD_MAX_PLAINTEXT {
        Some(VaultError::TooLarge)
    } else {
        None
    }
}

/// Encrypts `vault` for persistence. An existing 16-byte salt is reused and
/// returned untouched — so every later save stays decryptable under the salt
/// already on disk; only when no salt file exists yet is a fresh random one
/// produced, to be written together with the first blob.
pub fn save(
    vault: &PasswordManager,
    salt_bytes: Option<&Vec<u8>>,
    password: &Vec<u8>,
) -> (r: Result<SaveOutput, VaultError>)
    ensures
        (r matches Err(e) ==> save_err(opt_view(salt_bytes), password@, vault@) == Some(e)),
        (r is Ok <==> save_err(opt_view(salt_bytes), password@, vault@) is None),
        (r matches Ok(out) ==> {
            &&& match opt_view(salt_bytes) {
                Some(s) => out.salt@ == s && !out.salt_created,
                None => out.salt@.len() == 16 && out.salt_created,
            }
            &&& out.salt@.len() == 16
            &&& records_fit(vault@)
            &&& out.blob@.len() == encode_spec(vault@).len() + 28
            &&& aead_open_of(
                derived_key_of(password@, out.salt@),
                out.blob@.subrange(0, 12),
                out.blob@.skip(12),
            ) == Some(encode_spec(vault@))
        }),
{
    let (salt, salt_created): (Vec<u8>, bool) = match salt_bytes {
        Some(s) => {
            if s.len() != 16 {
                return Err(VaultError::CorruptSalt);
            }
            (clone_bytes(s), false)
        },
        None => (random_bytes(16), true),
    };
    let key = match derive_key(password, &salt) {
        None => {
            return Err(VaultError::DerivationFailed);
        },
        Some(k) => k,
    };
    let encoded = encode(vault);
    match encrypt_data(&encoded, &key) {
        None => Err(VaultError::TooLarge),
        Some(blob) => Ok(SaveOutput { blob, salt, salt_created }),
    }
}

/// Copies a byte string.
fn clone_bytes(s: &Vec<u8>) -> (r: Vec<u8>)
    ensures
        r@ == s@,
{
    let mut r: Vec<u8> = Vec::new();
    let n = s.len();
    let mut i: usize = 0;
    while i < n
        invariant
            i <= n,
            n == s@.len(),
            r@ == s@.subrange(0, i as int),
        decreases n - i,
    {
        r.push(s[i]);
        proof {
            assert(r@ =~= s@.subrange(0, i as int + 1));
        }
        i += 1;
    }
    proof {
        assert(r@ =~= s@);
    }
    r
}

/// Law: a vault saved under a password, then loaded back with the same
/// password and the salt the save returned, is recovered exactly. The result
/// is `None` only on the inputs on which the save itself fails.
pub fn saved_vault_loads_back(
    vault: &PasswordManager,
    salt_bytes: Option<&Vec<u8>>,
    password: &Vec<u8>,
) -> (r: Option<PasswordManager>)
    ensures
        (r matches Some(m) ==> m@ == vault@),
        (r is None <==> save_err(opt_view(salt_bytes), password@, vault@) is Some),
{
    match save(vault, salt_bytes, password) {
        Err(_) => None,
        Ok(out) => {
            proof {
                lemma_decode_of_encode(vault@);
            }
            match load(Some(&out.blob), Some(&out.salt), password) {
                Ok(m) => Some(m),
                Err(_) => {
                    proof {
                        assert(false);
                    }
                    None
                },
            }
        },
    }
}

/// Law: a second save against the salt the first one produced leaves the salt
/// bytes unchanged, and both blobs decrypt — under the one key derived from
/// the password and that shared salt — to their vaults' encodings. The vault
/// may have changed in between. The result is `None` only where one of the
/// two saves itself fails.
pub fn consecutive_saves_share_the_salt(
    first_vault: &PasswordManager,
    second_vault: &PasswordManager,
    salt_bytes: Option<&Vec<u8>>,
    password: &Vec<u8>,
) -> (r: Option<(SaveOutput, SaveOutput)>)
    ensures
        (r matches Some(pair) ==> {
            &&& pair.1.salt@ == pair.0.salt@
            &&& !pair.1.salt_created
            &&& aead_open_of(
                derived_key_of(password@, pair.0.salt@),
                pair.0.blob@.subrange(0, 12),
                pair.0.blob@.skip(12),
            ) == Some(encode_spec(first_vault@))
            &&& aead_open_of(
                derived_key_of(password@, pair.0.salt@),
                pair.1.blob@.subrange(0, 12),
                pair.1.blob@.skip(12),
            ) == Some(encode_spec(second_vault@))
        }),
        (r is None <==> save_err(opt_view(salt_bytes), password@, first_vault@) is Some
            || encode_spec(second_vault@).len() > AEAD_MAX_PLAINTEXT),
{
    match save(first_vault, salt_bytes, password) {
        Err(_) => None,
        Ok(first) => match save(second_vault, Some(&first.salt), password) {
            Err(_) => None,
            Ok(second) => Some((first, second)),
        },
    }
}

} // verus!
