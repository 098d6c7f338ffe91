use shadowenv::shellpid::{determine_shellpid_or_crash, ShellPidError};
use shadowenv::trust::TrustStore;

fn s(x: &str) -> String {
    x.to_string()
}

#[test]
fn shellpid_from_argument() {
    assert_eq!(determine_shellpid_or_crash(Some("123"), 9), Ok(123));
    assert_eq!(determine_shellpid_or_crash(Some("+7"), 9), Ok(7));
    assert_eq!(determine_shellpid_or_crash(Some("4294967295"), 9), Ok(4294967295));
}

#[test]
fn shellpid_rejects_bad_numbers() {
    for bad in ["", "+", "-1", "12a", "4294967296", "99999999999999999999", " 1"] {
        assert_eq!(determine_shellpid_or_crash(Some(bad), 9), Err(ShellPidError::InvalidNumber));
    }
}

#[test]
fn shellpid_from_parent() {
    assert_eq!(determine_shellpid_or_crash(None, 42), Ok(42));
    assert_eq!(determine_shellpid_or_crash(None, 0), Err(ShellPidError::NoParent));
    assert_eq!(determine_shellpid_or_crash(None, -3), Err(ShellPidError::NoParent));
}

#[test]
fn trust_records_are_hash_specific() {
    let mut store = TrustStore::new();
    assert!(!store.is_trusted(&s("/a"), &s("h1")));
    store.record_trust(&s("/a"), &s("h1"));
    assert!(store.is_trusted(&s("/a"), &s("h1")));
    assert!(!store.is_trusted(&s("/a"), &s("h2")));
    store.record_trust(&s("/a"), &s("h2"));
    assert!(store.is_trusted(&s("/a"), &s("h2")));
    assert!(!store.is_trusted(&s("/a"), &s("h1")));
    assert_eq!(store.records.len(), 1);
    store.revoke_trust(&s("/a"));
    assert!(!store.is_trusted(&s("/a"), &s("h2")));
    assert!(store.records.is_empty());
}
