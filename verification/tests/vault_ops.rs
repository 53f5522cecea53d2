use lockbox::vault::{Password, PasswordManager};

fn record(service: &str, username: Option<&str>, secret: &str) -> Password {
    Password {
        service: service.as_bytes().to_vec(),
        username: username.map(|u| u.as_bytes().to_vec()),
        password: secret.as_bytes().to_vec(),
    }
}

#[test]
fn new_vault_is_empty() {
    let m = PasswordManager::new();
    assert_eq!(m.list().len(), 0);
}

#[test]
fn add_keeps_insertion_order() {
    let mut m = PasswordManager::new();
    m.add(record("github", Some("alice"), "a"));
    m.add(record("mail", None, "b"));
    m.add(record("bank", Some("carol"), "c"));
    let all = m.list();
    assert_eq!(all.len(), 3);
    assert_eq!(all[0].service, b"github".to_vec());
    assert_eq!(all[1].service, b"mail".to_vec());
    assert_eq!(all[2].service, b"bank".to_vec());
}

#[test]
fn remove_absent_service_leaves_vault_unchanged() {
    let mut m = PasswordManager::new();
    m.add(record("github", Some("alice"), "a"));
    m.add(record("mail", None, "b"));
    let found = m.remove(&b"nosuch".to_vec());
    assert!(!found);
    let all = m.list();
    assert_eq!(all.len(), 2);
    assert_eq!(all[0].service, b"github".to_vec());
    assert_eq!(all[1].service, b"mail".to_vec());
}

#[test]
fn remove_drops_exactly_the_first_match() {
    let mut m = PasswordManager::new();
    m.add(record("dup", Some("first"), "1"));
    m.add(record("other", None, "x"));
    m.add(record("dup", Some("second"), "2"));
    let found = m.remove(&b"dup".to_vec());
    assert!(found);
    let all = m.list();
    assert_eq!(all.len(), 2);
    assert_eq!(all[0].service, b"other".to_vec());
    assert_eq!(all[1].service, b"dup".to_vec());
    assert_eq!(all[1].username, Some(b"second".to_vec()));
}

#[test]
fn find_returns_first_match_only() {
    let mut m = PasswordManager::new();
    m.add(record("dup", Some("first"), "1"));
    m.add(record("dup", Some("second"), "2"));
    let hit = m.find(&b"dup".to_vec()).expect("record should be found");
    assert_eq!(hit.username, Some(b"first".to_vec()));
    assert_eq!(hit.password, b"1".to_vec());
    assert!(m.find(&b"absent".to_vec()).is_none());
}
