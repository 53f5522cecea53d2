use lockbox::codec::{decode, encode};
use lockbox::vault::{Password, PasswordManager};

fn record(service: &str, username: Option<&str>, secret: &str) -> Password {
    Password {
        service: service.as_bytes().to_vec(),
        username: username.map(|u| u.as_bytes().to_vec()),
        password: secret.as_bytes().to_vec(),
    }
}

fn assert_same_records(a: &PasswordManager, b: &PasswordManager) {
    let (la, lb) = (a.list(), b.list());
    assert_eq!(la.len(), lb.len());
    for (x, y) in la.iter().zip(lb.iter()) {
        assert_eq!(x.service, y.service);
        assert_eq!(x.username, y.username);
        assert_eq!(x.password, y.password);
    }
}

#[test]
fn empty_vault_round_trips() {
    let m = PasswordManager::new();
    let bytes = encode(&m);
    // count field alone: eight zero bytes
    assert_eq!(bytes, vec![0u8; 8]);
    let back = decode(&bytes).expect("canonical encoding should decode");
    assert_eq!(back.list().len(), 0);
}

#[test]
fn vault_with_and_without_usernames_round_trips() {
    let mut m = PasswordManager::new();
    m.add(record("github", Some("alice"), "s3cr3t"));
    m.add(record("mail", None, ""));
    m.add(record("", Some(""), "odd but preserved"));
    let bytes = encode(&m);
    let back = decode(&bytes).expect("canonical encoding should decode");
    assert_same_records(&m, &back);
}

#[test]
fn one_record_encoding_is_exact() {
    let mut m = PasswordManager::new();
    m.add(record("ab", None, "c"));
    let bytes = encode(&m);
    let mut expected = vec![1, 0, 0, 0, 0, 0, 0, 0]; // one record
    expected.extend_from_slice(&[2, 0, 0, 0, 0, 0, 0, 0]); // service length
    expected.extend_from_slice(b"ab");
    expected.push(0); // no username
    expected.extend_from_slice(&[1, 0, 0, 0, 0, 0, 0, 0]); // secret length
    expected.extend_from_slice(b"c");
    assert_eq!(bytes, expected);
}

#[test]
fn truncated_input_is_rejected() {
    let mut m = PasswordManager::new();
    m.add(record("github", Some("alice"), "s3cr3t"));
    let bytes = encode(&m);
    for cut in 0..bytes.len() {
        assert!(decode(&bytes[..cut].to_vec()).is_none(), "cut at {cut}");
    }
}

#[test]
fn trailing_bytes_are_rejected() {
    let m = PasswordManager::new();
    let mut bytes = encode(&m);
    bytes.push(0);
    assert!(decode(&bytes).is_none());
}

#[test]
fn unknown_username_tag_is_rejected() {
    let mut m = PasswordManager::new();
    m.add(record("ab", None, "c"));
    let mut bytes = encode(&m);
    // the tag byte sits right after the count and the length-prefixed service
    let tag_at = 8 + 8 + 2;
    assert_eq!(bytes[tag_at], 0);
    bytes[tag_at] = 2;
    assert!(decode(&bytes).is_none());
}

#[test]
fn overlong_length_prefix_is_rejected() {
    let mut bytes = vec![1, 0, 0, 0, 0, 0, 0, 0]; // one record
    bytes.extend_from_slice(&[255, 255, 255, 255, 255, 255, 255, 255]); // absurd service length
    bytes.extend_from_slice(b"short");
    assert!(decode(&bytes).is_none());
}
