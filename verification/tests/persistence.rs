use lockbox::codec::encode;
use lockbox::crypto::{decrypt_data, encrypt_data};
use lockbox::store::{
    consecutive_saves_share_the_salt, load, load_or_init, save, saved_vault_loads_back, VaultError,
};
use lockbox::vault::{Password, PasswordManager};

fn record(service: &str, username: Option<&str>, secret: &str) -> Password {
    Password {
        service: service.as_bytes().to_vec(),
        username: username.map(|u| u.as_bytes().to_vec()),
        password: secret.as_bytes().to_vec(),
    }
}

fn sample_vault() -> PasswordManager {
    let mut m = PasswordManager::new();
    m.add(record("github", Some("alice"), "s3cr3t"));
    m.add(record("mail", None, "hunter2"));
    m
}

fn assert_same_records(a: &PasswordManager, b: &PasswordManager) {
    let (la, lb) = (a.list(), b.list());
    assert_eq!(la.len(), lb.len());
    for (x, y) in la.iter().zip(lb.iter()) {
        assert_eq!(x.service, y.service);
        assert_eq!(x.username, y.username);
        assert_eq!(x.password, y.password);
    }
}

#[test]
fn save_then_load_restores_the_vault() {
    let vault = sample_vault();
    let password = b"master".to_vec();
    let out = save(&vault, None, &password).expect("first save should succeed");
    assert!(out.salt_created);
    assert_eq!(out.salt.len(), 16);
    let back = load(Some(&out.blob), Some(&out.salt), &password).expect("load should succeed");
    assert_same_records(&vault, &back);
}

#[test]
fn round_trip_law_on_concrete_values() {
    let vault = sample_vault();
    let back = saved_vault_loads_back(&vault, None, &b"pw".to_vec())
        .expect("round trip should succeed");
    assert_same_records(&vault, &back);
}

#[test]
fn wrong_password_is_rejected_as_authentication_failure() {
    let vault = sample_vault();
    let password = b"right horse".to_vec();
    let out = save(&vault, None, &password).expect("save should succeed");
    let r = load(Some(&out.blob), Some(&out.salt), &b"wrong horse".to_vec());
    assert_eq!(r.err(), Some(VaultError::AuthenticationFailed));
}

#[test]
fn any_single_bit_flip_makes_decryption_fail() {
    let key = vec![7u8; 32];
    let data = b"attack at dawn".to_vec();
    let blob = encrypt_data(&data, &key).expect("encryption should succeed");
    assert_eq!(decrypt_data(&blob, &key), Some(data));
    for byte in 0..blob.len() {
        for bit in 0..8 {
            let mut tampered = blob.clone();
            tampered[byte] ^= 1u8 << bit;
            assert_eq!(
                decrypt_data(&tampered, &key),
                None,
                "flip of bit {bit} in byte {byte} went unnoticed"
            );
        }
    }
}

#[test]
fn tampered_stored_blob_fails_to_load() {
    let vault = sample_vault();
    let password = b"master".to_vec();
    let out = save(&vault, None, &password).expect("save should succeed");
    let mut tampered = out.blob.clone();
    let last = tampered.len() - 1;
    tampered[last] ^= 0x80;
    let r = load(Some(&tampered), Some(&out.salt), &password);
    assert_eq!(r.err(), Some(VaultError::AuthenticationFailed));
}

#[test]
fn second_save_reuses_the_salt_verbatim() {
    let vault = sample_vault();
    let password = b"master".to_vec();
    let first = save(&vault, None, &password).expect("first save should succeed");
    let second = save(&vault, Some(&first.salt), &password).expect("second save should succeed");
    assert!(!second.salt_created);
    assert_eq!(first.salt, second.salt);
    // both ciphertexts stay decryptable under the one salt
    let a = load(Some(&first.blob), Some(&first.salt), &password).expect("first blob loads");
    let b = load(Some(&second.blob), Some(&first.salt), &password).expect("second blob loads");
    assert_same_records(&a, &b);
}

#[test]
fn salt_stability_law_on_concrete_values() {
    let mut grown = sample_vault();
    grown.add(record("bank", None, "pin"));
    let password = b"master".to_vec();
    let (first, second) = consecutive_saves_share_the_salt(&sample_vault(), &grown, None, &password)
        .expect("both saves should succeed");
    assert_eq!(first.salt, second.salt);
    assert!(!second.salt_created);
    let back = load(Some(&second.blob), Some(&first.salt), &password).expect("second blob loads");
    assert_eq!(back.list().len(), 3);
}

#[test]
fn wrong_length_salt_is_corrupt() {
    let vault = sample_vault();
    let password = b"master".to_vec();
    let short_salt = vec![1u8; 15];
    assert_eq!(
        save(&vault, Some(&short_salt), &password).err(),
        Some(VaultError::CorruptSalt)
    );
    let out = save(&vault, None, &password).expect("save should succeed");
    let r = load(Some(&out.blob), Some(&short_salt), &password);
    assert_eq!(r.err(), Some(VaultError::CorruptSalt));
}

#[test]
fn vault_file_without_salt_file_is_corrupt_state() {
    let vault = sample_vault();
    let password = b"master".to_vec();
    let out = save(&vault, None, &password).expect("save should succeed");
    let r = load(Some(&out.blob), None, &password);
    assert_eq!(r.err(), Some(VaultError::CorruptState));
}

#[test]
fn garbage_plaintext_is_malformed_vault() {
    // authenticate fine, decode badly: encrypt bytes that are no vault
    // encoding under the very key a load will derive
    let password = b"master".to_vec();
    let salt = vec![9u8; 16];
    let key = lockbox::crypto::derive(&password, &salt).expect("derivation should succeed");
    let garbage = b"not an encoding".to_vec();
    let blob = encrypt_data(&garbage, &key).expect("encryption should succeed");
    let r = load(Some(&blob), Some(&salt), &password);
    assert_eq!(r.err(), Some(VaultError::MalformedVault));
}

#[test]
fn derivation_is_deterministic_and_salt_sensitive() {
    let password = b"master".to_vec();
    let salt_a = vec![9u8; 16];
    let salt_b = vec![8u8; 16];
    let k1 = lockbox::crypto::derive(&password, &salt_a).expect("derivation should succeed");
    let k2 = lockbox::crypto::derive(&password, &salt_a).expect("derivation should succeed");
    let k3 = lockbox::crypto::derive(&password, &salt_b).expect("derivation should succeed");
    assert_eq!(k1.len(), 32);
    assert_eq!(k1, k2);
    assert_ne!(k1, k3);
    assert_ne!(k1, password);
}

#[test]
fn short_blob_fails_like_a_wrong_password() {
    let password = b"master".to_vec();
    let salt = vec![9u8; 16];
    let shorter_than_nonce = vec![1u8; 11];
    let r = load(Some(&shorter_than_nonce), Some(&salt), &password);
    assert_eq!(r.err(), Some(VaultError::AuthenticationFailed));
}

#[test]
fn missing_vault_file_is_not_found_but_init_gives_empty_vault() {
    let password = b"master".to_vec();
    assert_eq!(load(None, None, &password).err(), Some(VaultError::NotFound));
    let salt = vec![9u8; 16];
    assert_eq!(
        load(None, Some(&salt), &password).err(),
        Some(VaultError::NotFound)
    );
    let m = load_or_init(None, None, &password).expect("first run yields a vault");
    assert_eq!(m.list().len(), 0);
}

#[test]
fn end_to_end_first_run_save_and_load() {
    // no files yet
    let password = b"hunter2".to_vec();
    let mut vault = load_or_init(None, None, &password).expect("first run yields a vault");
    assert_eq!(vault.list().len(), 0);
    vault.add(record("github", Some("alice"), "s3cr3t"));
    let out = save(&vault, None, &password).expect("first save should succeed");
    assert!(out.salt_created);

    // both "files" now exist; a load with the right password sees the record
    let back = load(Some(&out.blob), Some(&out.salt), &password).expect("load should succeed");
    let records = back.list();
    assert_eq!(records.len(), 1);
    assert_eq!(records[0].service, b"github".to_vec());
    assert_eq!(records[0].username, Some(b"alice".to_vec()));
    assert_eq!(records[0].password, b"s3cr3t".to_vec());

    // the wrong password is turned away without detail
    let r = load(Some(&out.blob), Some(&out.salt), &b"wrong".to_vec());
    assert_eq!(r.err(), Some(VaultError::AuthenticationFailed));
}

#[test]
fn blob_layout_is_nonce_then_ciphertext_with_tag() {
    let vault = sample_vault();
    let password = b"master".to_vec();
    let out = save(&vault, None, &password).expect("save should succeed");
    assert_eq!(out.blob.len(), encode(&vault).len() + 28);
}
