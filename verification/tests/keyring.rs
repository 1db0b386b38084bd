use debkit::keyring::{key_records, fingerprint_matches, key_expired_at, verification_outcome, keys_kept_after_removal, keys_kept_after_removing_one, verify_clearsigned, verify_detached, KeyCheck, KeyId, KeyRecord, KeyringError};

fn check(verified: bool, expired: bool, revoked: bool, fp: &str) -> KeyCheck {
    KeyCheck { verified, expired, revoked, fingerprint: fp.to_string() }
}

#[test]
fn accepted_signers_in_order() {
    let checks = vec![check(true, false, false, "aa"), check(false, false, false, "bb"), check(true, false, false, "cc")];
    let r = verification_outcome(&checks, false, false).unwrap();
    assert_eq!(r, vec![KeyId("aa".to_string()), KeyId("cc".to_string())]);
}

#[test]
fn expired_key_reported_before_revoked() {
    let checks = vec![check(true, false, true, "aa"), check(true, true, false, "bb")];
    match verification_outcome(&checks, false, false) {
        Err(KeyringError::KeyExpired(m)) => assert_eq!(m, "a matching signature was produced by an expired key"),
        _ => panic!("expected KeyExpired"),
    }
    match verification_outcome(&checks, true, false) {
        Ok(v) => assert_eq!(v, vec![KeyId("bb".to_string())]),
        _ => panic!("expected a signer"),
    }
}

#[test]
fn revoked_only_and_none() {
    let checks = vec![check(true, false, true, "aa")];
    assert!(matches!(verification_outcome(&checks, false, false), Err(KeyringError::KeyRevoked(_))));
    assert!(verification_outcome(&checks, false, true).is_ok());
    let none = vec![check(false, true, true, "aa")];
    assert!(matches!(verification_outcome(&none, false, false), Err(KeyringError::NoSignature)));
    assert!(matches!(verification_outcome(&[], true, true), Err(KeyringError::NoSignature)));
}

#[test]
fn expiry_and_fingerprints() {
    assert!(key_expired_at(Some(10), 11));
    assert!(!key_expired_at(Some(10), 10));
    assert!(!key_expired_at(None, 1_000_000));
    assert!(fingerprint_matches("ABCDEF01", "abcdef01"));
    assert!(!fingerprint_matches("ABCDEF01", "abcdef02"));
}

#[test]
fn error_texts() {
    assert_eq!(KeyringError::NoSignature.to_string(), "no valid signature found");
    assert_eq!(KeyringError::Load("x".to_string()).to_string(), "failed to load key material: x");
    assert_eq!(KeyringError::KeyRevoked("y".to_string()).to_string(), "signing key has been revoked");
    assert_eq!(KeyId("ab".to_string()).to_string(), "ab");
}

#[test]
fn unparsable_clearsigned_document_is_a_verification_error() {
    let keys = vec![KeyRecord { bytes: vec![1, 2, 3], fingerprint: "ab".to_string(), expires_at: None, revoked: false }];
    let r = verify_clearsigned(&keys, b"Origin: Debian\n", 0, false, false);
    assert!(matches!(r, Err(KeyringError::Verification(_))));
}

#[test]
fn unparsable_detached_signature_is_a_verification_error() {
    let r = verify_detached(&[], b"Origin: Debian\n", b"not a signature", 0, false, false);
    assert!(matches!(r, Err(KeyringError::Verification(_))));
}

#[test]
fn removal_keeps_other_keys_in_order() {
    let fps = vec!["AB12".to_string(), "cd34".to_string(), "ab12".to_string(), "ef56".to_string()];
    assert_eq!(keys_kept_after_removal(&fps, "ab12"), vec![1, 3]);
    assert_eq!(keys_kept_after_removal(&fps, "0000"), vec![0, 1, 2, 3]);
}

#[test]
fn removing_by_id_takes_only_the_first_copy() {
    let fps = vec!["AB12".to_string(), "cd34".to_string(), "ab12".to_string()];
    assert_eq!(keys_kept_after_removing_one(&fps, "ab12"), vec![1, 2]);
    assert_eq!(keys_kept_after_removing_one(&fps, "0000"), vec![0, 1, 2]);
}

#[test]
fn load_bytes_errors_on_empty_input() {
    let result = key_records(b"");
    assert!(result.is_err());
    assert!(matches!(result, Err(KeyringError::Load(ref m)) if m == "empty key material"));
}

#[test]
fn load_bytes_errors_on_garbage() {
    let result = key_records(b"not pgp data at all!!");
    assert!(result.is_err());
    assert!(matches!(result, Err(KeyringError::Load(_))));
}

#[test]
fn armored_garbage_is_a_load_error() {
    let result = key_records(b"-----BEGIN NOTHING-----\nxyz\n");
    assert!(matches!(result, Err(KeyringError::Load(_))));
}
