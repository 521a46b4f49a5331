use earthquake_alert::record_cipher::{associated_data, CipherError, RecordCipher};

#[test]
fn encryption_is_randomized_and_bound_to_its_record() {
    let cipher = RecordCipher::new([7; 32]).unwrap();
    let first = cipher.seal(b"subscriptions", b"1", b"secret").unwrap();
    let second = cipher.seal(b"subscriptions", b"1", b"secret").unwrap();

    assert!(first != second);
    assert!(cipher.open(b"subscriptions", b"1", &first).unwrap() == b"secret");
    assert!(cipher.open(b"subscriptions", b"2", &first).is_err());
}

#[test]
fn legacy_plaintext_is_returned_for_startup_migration() {
    let cipher = RecordCipher::new([7; 32]).unwrap();
    assert!(cipher.open(b"subscriptions", b"1", b"legacy").unwrap() == b"legacy");
}

#[test]
fn envelope_layout_is_marker_nonce_ciphertext_tag() {
    let cipher = RecordCipher::new([1; 32]).unwrap();
    let sealed = cipher.seal(b"subscriptions", b"k", b"hello").unwrap();
    assert_eq!(sealed.len(), 4 + 12 + 5 + 16);
    assert_eq!(&sealed[..4], b"DAE1");
    assert!(RecordCipher::is_encrypted(&sealed));
    // the ciphertext is not the plain value
    assert_ne!(&sealed[16..21], b"hello");
}

#[test]
fn marker_detection() {
    assert!(RecordCipher::is_encrypted(b"DAE1"));
    assert!(RecordCipher::is_encrypted(b"DAE1rest"));
    assert!(!RecordCipher::is_encrypted(b"DAE"));
    assert!(!RecordCipher::is_encrypted(b"DAE2xxxx"));
    assert!(!RecordCipher::is_encrypted(b""));
}

#[test]
fn sealed_records_open_only_in_their_table_and_under_their_key() {
    let cipher = RecordCipher::new([7; 32]).unwrap();
    let other = RecordCipher::new([8; 32]).unwrap();
    let sealed = cipher.seal(b"subscriptions", b"1", b"secret").unwrap();
    assert_eq!(
        cipher.open(b"devices", b"1", &sealed),
        Err(CipherError::DecryptFailed)
    );
    assert_eq!(
        other.open(b"subscriptions", b"1", &sealed),
        Err(CipherError::DecryptFailed)
    );
    let mut tampered = sealed.clone();
    let last = tampered.len() - 1;
    tampered[last] ^= 1;
    assert_eq!(
        cipher.open(b"subscriptions", b"1", &tampered),
        Err(CipherError::DecryptFailed)
    );
}

#[test]
fn truncated_envelopes_are_refused() {
    let cipher = RecordCipher::new([7; 32]).unwrap();
    let mut short = b"DAE1".to_vec();
    short.extend_from_slice(&[0u8; 27]);
    assert_eq!(cipher.open(b"subscriptions", b"1", &short), Err(CipherError::Truncated));
    let mut just_long_enough = b"DAE1".to_vec();
    just_long_enough.extend_from_slice(&[0u8; 28]);
    assert_eq!(
        cipher.open(b"subscriptions", b"1", &just_long_enough),
        Err(CipherError::DecryptFailed)
    );
}

#[test]
fn empty_values_seal_and_open() {
    let cipher = RecordCipher::new([3; 32]).unwrap();
    let sealed = cipher.seal(b"d", b"", b"").unwrap();
    assert_eq!(sealed.len(), 32);
    assert_eq!(cipher.open(b"d", b"", &sealed).unwrap(), Vec::<u8>::new());
}

#[test]
fn associated_data_binds_domain_and_key() {
    let aad = associated_data(b"subscriptions", b"42");
    let mut expected = b"disaster-alert:encrypted-record:v1\0".to_vec();
    expected.extend_from_slice(b"subscriptions");
    expected.push(0);
    expected.extend_from_slice(b"42");
    assert_eq!(aad, expected);
    assert_ne!(associated_data(b"ab", b"c"), associated_data(b"a", b"bc"));
}
