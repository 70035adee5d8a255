use eco_weave::clock::millis_from_nanos;
use eco_weave::encoding::{push_bytes, push_decimal};
use eco_weave::keys::verifying_key_for;
use eco_weave::transaction::{is_valid_id, MAX_PAYLOAD_SIZE};
use eco_weave::{ErrorKind, Transaction};
use ed25519_dalek::{Signature, SigningKey, Verifier};
use rand::rngs::OsRng;

#[test]
fn test_transaction_creation() {
    let tx = Transaction::new("tx1", r#"{"temperature": 25}"#).unwrap();
    assert_eq!(tx.id, "tx1");
    assert_eq!(tx.payload, r#"{"temperature": 25}"#);
    assert!(tx.timestamp > 0);
}

#[test]
fn test_validate_valid_transaction() {
    let tx = Transaction::new("tx1", r#"{"temperature": 25}"#).unwrap();
    assert!(tx.validate().is_ok());
}

#[test]
fn test_validate_empty_id() {
    let tx = Transaction::new("", r#"{"temperature": 25}"#);
    assert!(tx.is_err());
}

#[test]
fn test_validate_empty_payload() {
    let tx = Transaction::new("tx2", "");
    assert!(tx.is_err());
}

#[test]
fn test_validate_payload_size() {
    let valid_payload = "a".repeat(MAX_PAYLOAD_SIZE);
    let tx_valid = Transaction::new("tx1", &valid_payload).unwrap();
    assert!(tx_valid.validate().is_ok());

    let invalid_payload = "a".repeat(MAX_PAYLOAD_SIZE + 1);
    let tx_invalid = Transaction::new("tx2", &invalid_payload);
    assert!(tx_invalid.is_err());
}

#[test]
fn test_validate_id_format() {
    let tx_valid = Transaction::new("valid-id-123", "Payload").unwrap();
    assert!(
        tx_valid.validate().is_ok(),
        "Transaction with valid ID format should pass"
    );

    let tx_invalid = Transaction::new("invalid id!", "Payload");
    assert!(
        tx_invalid.is_err(),
        "Transaction with invalid ID format should fail"
    );
}

#[test]
fn test_validate_timestamp() {
    let mut tx = Transaction::new("tx1", r#"{"temperature": 25}"#).unwrap();
    tx.timestamp = u64::MAX;
    assert!(tx.validate().is_err());
}

#[test]
fn test_sign_and_verify_transaction() {
    let mut rng = OsRng;
    let signing_key = SigningKey::generate(&mut rng);
    let verifying_key = signing_key.verifying_key();

    let mut tx = Transaction::new("tx1", r#"{"temperature": 25}"#).unwrap();
    tx.sign(&signing_key.to_bytes());

    assert!(tx.signature.is_some());
    assert!(tx.validate_signature(&verifying_key.to_bytes()).is_ok());
}

#[test]
fn test_invalid_signature() {
    let mut rng = OsRng;
    let signing_key1 = SigningKey::generate(&mut rng);
    let signing_key2 = SigningKey::generate(&mut rng);

    let verifying_key2 = signing_key2.verifying_key();

    let mut tx = Transaction::new("tx1", r#"{"temperature": 25}"#).unwrap();
    tx.sign(&signing_key1.to_bytes());

    assert!(tx.validate_signature(&verifying_key2.to_bytes()).is_err());
}

#[test]
fn creation_reports_the_first_broken_rule() {
    assert_eq!(Transaction::new_at("", "", 1, 2).unwrap_err(), ErrorKind::InvalidId);
    assert_eq!(Transaction::new_at("bad id", "", 1, 2).unwrap_err(), ErrorKind::InvalidId);
    assert_eq!(Transaction::new_at("a_b", "p", 1, 2).unwrap_err(), ErrorKind::InvalidId);
    assert_eq!(Transaction::new_at("tx-1", "", 1, 2).unwrap_err(), ErrorKind::InvalidPayload);
    let long = "x".repeat(MAX_PAYLOAD_SIZE + 1);
    assert_eq!(Transaction::new_at("tx-1", &long, 1, 2).unwrap_err(), ErrorKind::InvalidPayload);
    assert_eq!(Transaction::new_at("", &long, 1, 2).unwrap_err(), ErrorKind::InvalidId);
}

#[test]
fn creation_fills_every_field() {
    let tx = Transaction::new_at("tx-1", "hello", 17, 99).unwrap();
    assert_eq!(tx.id, "tx-1");
    assert_eq!(tx.payload, "hello");
    assert_eq!(tx.timestamp, 17);
    assert_eq!(tx.nonce, 99);
    assert_eq!(tx.signature, None);
    assert_eq!(tx.weight, 0);
    assert!(!tx.confirmed);
}

#[test]
fn plain_ids_and_bounded_payloads_are_accepted() {
    for id in ["a", "Z", "0", "-", "abc-XYZ-019", "---"] {
        for payload in ["p", " ", "\u{e9}", &"y".repeat(MAX_PAYLOAD_SIZE)] {
            let tx = Transaction::new(id, payload).unwrap();
            assert_eq!(tx.validate_at(tx.timestamp), Ok(()));
            assert_eq!(tx.validate_at(u64::MAX), Ok(()));
        }
    }
}

#[test]
fn payload_size_is_counted_in_bytes() {
    let two_bytes_each = "\u{e9}".repeat(MAX_PAYLOAD_SIZE / 2);
    assert!(Transaction::new_at("tx", &two_bytes_each, 0, 0).is_ok());
    let over = "\u{e9}".repeat(MAX_PAYLOAD_SIZE / 2 + 1);
    assert_eq!(Transaction::new_at("tx", &over, 0, 0).unwrap_err(), ErrorKind::InvalidPayload);
}

#[test]
fn oversized_payload_is_rejected_on_validation() {
    let mut tx = Transaction::new_at("tx1", "ok", 5, 0).unwrap();
    tx.payload = "z".repeat(MAX_PAYLOAD_SIZE + 1);
    assert_eq!(tx.validate_at(10), Err(ErrorKind::InvalidPayload));
    assert_eq!(tx.validate(), Err(ErrorKind::InvalidPayload));
    tx.payload = String::new();
    assert_eq!(tx.validate_at(10), Err(ErrorKind::InvalidPayload));
}

#[test]
fn validation_checks_id_then_payload_then_time() {
    let mut tx = Transaction::new_at("tx1", "ok", 100, 0).unwrap();
    assert_eq!(tx.validate_at(100), Ok(()));
    assert_eq!(tx.validate_at(99), Err(ErrorKind::TimestampInFuture));
    tx.payload = String::new();
    assert_eq!(tx.validate_at(99), Err(ErrorKind::InvalidPayload));
    tx.id = "no good".to_string();
    assert_eq!(tx.validate_at(99), Err(ErrorKind::InvalidId));
    tx.id = String::new();
    assert_eq!(tx.validate_at(200), Err(ErrorKind::InvalidId));
}

#[test]
fn ids_are_alphanumeric_or_dashes() {
    assert!(is_valid_id("abc-123"));
    assert!(is_valid_id("\u{e9}\u{663}"));
    assert!(is_valid_id(""));
    assert!(!is_valid_id("a b"));
    assert!(!is_valid_id("a:b"));
    assert!(!is_valid_id("a_b"));
}

#[test]
fn weight_is_the_number_of_approvals_and_at_least_one() {
    let tx = Transaction::new_at("tx1", "p", 0, 0).unwrap();
    assert_eq!(tx.calculate_weight(0), 1);
    assert_eq!(tx.calculate_weight(1), 1);
    assert_eq!(tx.calculate_weight(5), 5);
    assert_eq!(tx.calculate_weight(u32::MAX as usize), u32::MAX);
    assert_eq!(tx.calculate_weight(1usize << 32), 1);
    assert_eq!(tx.calculate_weight((1usize << 32) + 7), 7);
}

#[test]
fn signing_bytes_join_the_fields_with_colons() {
    let tx = Transaction::new_at("tx-1", "pay:load", 1700000000123, 0).unwrap();
    assert_eq!(tx.signing_bytes(), b"tx-1:pay:load:1700000000123:0".to_vec());
    let tx = Transaction::new_at("\u{e9}", "\u{20ac}", u64::MAX, 42).unwrap();
    assert_eq!(
        tx.signing_bytes(),
        "\u{e9}:\u{20ac}:18446744073709551615:42".as_bytes().to_vec()
    );
}

#[test]
fn decimal_digits_of_numbers() {
    for value in [0u64, 7, 9, 10, 11, 99, 100, 101, 1234567890, u64::MAX] {
        let mut out = vec![b'#'];
        push_decimal(&mut out, value);
        assert_eq!(out, format!("#{}", value).into_bytes());
    }
}

#[test]
fn bytes_are_appended() {
    let mut out = vec![1u8, 2];
    push_bytes(&mut out, &[3, 4, 5]);
    push_bytes(&mut out, &[]);
    assert_eq!(out, vec![1, 2, 3, 4, 5]);
}

#[test]
fn signature_is_the_ed25519_signature_of_the_signing_bytes() {
    let signing_key = SigningKey::from_bytes(&[7u8; 32]);
    let mut tx = Transaction::new_at("tx1", "payload", 12, 34).unwrap();
    tx.sign(&signing_key.to_bytes());
    let signature = Signature::from_bytes(&tx.signature.unwrap());
    assert!(signing_key
        .verifying_key()
        .verify(b"tx1:payload:12:34", &signature)
        .is_ok());
    assert!(signing_key
        .verifying_key()
        .verify(b"tx1:payload:12:35", &signature)
        .is_err());
}

#[test]
fn signing_twice_gives_the_same_signature() {
    let key = [3u8; 32];
    let mut a = Transaction::new_at("tx1", "payload", 12, 34).unwrap();
    let mut b = a.clone();
    a.sign(&key);
    b.sign(&key);
    assert_eq!(a.signature, b.signature);
    assert_ne!(a.signature, Some([0u8; 64]));
}

#[test]
fn verifying_key_matches_the_signing_key() {
    let signing_key = SigningKey::generate(&mut OsRng);
    assert_eq!(
        verifying_key_for(&signing_key.to_bytes()),
        signing_key.verifying_key().to_bytes()
    );
    assert_ne!(verifying_key_for(&[1u8; 32]), [1u8; 32]);
}

#[test]
fn signature_round_trip_with_the_matching_key() {
    for seed in 0u8..8 {
        let secret = [seed; 32];
        let mut tx = Transaction::new("node-7", "reading").unwrap();
        tx.sign(&secret);
        assert_eq!(tx.validate_signature(&verifying_key_for(&secret)), Ok(()));
        let other = verifying_key_for(&[seed.wrapping_add(1); 32]);
        assert_eq!(tx.validate_signature(&other), Err(ErrorKind::InvalidSignature));
    }
}

#[test]
fn unsigned_and_tampered_transactions_fail_the_signature_check() {
    let secret = [9u8; 32];
    let public = verifying_key_for(&secret);
    let mut tx = Transaction::new_at("tx1", "payload", 12, 34).unwrap();
    assert_eq!(tx.validate_signature(&public), Err(ErrorKind::Unsigned));
    tx.sign(&secret);
    assert_eq!(tx.validate_signature(&public), Ok(()));
    tx.payload.push('!');
    assert_eq!(tx.validate_signature(&public), Err(ErrorKind::InvalidSignature));
    tx.payload.pop();
    tx.nonce += 1;
    assert_eq!(tx.validate_signature(&public), Err(ErrorKind::InvalidSignature));
    tx.nonce -= 1;
    tx.weight = 50;
    tx.confirm();
    assert_eq!(tx.validate_signature(&public), Ok(()));
}

#[test]
fn bytes_that_are_no_key_accept_nothing() {
    let mut tx = Transaction::new_at("tx1", "payload", 12, 34).unwrap();
    tx.sign(&[9u8; 32]);
    let mut found = 0;
    for first in 0u8..=255 {
        let mut bytes = [0u8; 32];
        bytes[0] = first;
        if ed25519_dalek::VerifyingKey::from_bytes(&bytes).is_err() {
            found += 1;
            assert_eq!(tx.validate_signature(&bytes), Err(ErrorKind::InvalidSignature));
        }
    }
    assert!(found > 0);
}

#[test]
fn confirmation_sets_the_flag_only() {
    let mut tx = Transaction::new_at("tx1", "payload", 12, 34).unwrap();
    let before = tx.clone();
    tx.confirm();
    assert!(tx.confirmed);
    tx.confirmed = false;
    assert_eq!(tx, before);
}

#[test]
fn nonces_differ_between_transactions() {
    let a = Transaction::new("tx1", "payload").unwrap();
    let b = Transaction::new("tx1", "payload").unwrap();
    let c = Transaction::new("tx1", "payload").unwrap();
    assert!(a.nonce != b.nonce || b.nonce != c.nonce);
}

#[test]
fn milliseconds_in_a_count_of_nanoseconds() {
    assert_eq!(millis_from_nanos(0), 0);
    assert_eq!(millis_from_nanos(999_999), 0);
    assert_eq!(millis_from_nanos(1_000_000), 1);
    assert_eq!(millis_from_nanos(1_999_999), 1);
    assert_eq!(millis_from_nanos(1_700_000_000_123_456_789), 1_700_000_000_123);
    let top = u64::MAX as u128 * 1_000_000;
    assert_eq!(millis_from_nanos(top - 1), u64::MAX - 1);
    assert_eq!(millis_from_nanos(top), u64::MAX);
    assert_eq!(millis_from_nanos(top + 1_000_000), u64::MAX);
    assert_eq!(millis_from_nanos(u128::MAX), u64::MAX);
}
