use ledger_core::transaction::{DecodeError, Serialization, Transaction};

fn sample() -> Transaction {
    Transaction::new(b"alice".to_vec(), b"bob".to_vec(), 258)
}

#[test]
fn encode_has_length_prefixed_layout() {
    let bytes = sample().serialization();
    let mut expected: Vec<u8> = vec![0, 0, 0, 0, 0, 0, 0, 5];
    expected.extend_from_slice(b"alice");
    expected.extend_from_slice(&[0, 0, 0, 0, 0, 0, 0, 3]);
    expected.extend_from_slice(b"bob");
    expected.extend_from_slice(&[0, 0, 0, 0, 0, 0, 1, 2]);
    assert_eq!(bytes, expected);
}

#[test]
fn decode_reverses_encode() {
    let tx = sample();
    let back = Transaction::deserialization(tx.serialization()).unwrap();
    assert!(back == tx);
    assert_eq!(back.sender_address, b"alice".to_vec());
    assert_eq!(back.recipient_address, b"bob".to_vec());
    assert_eq!(back.value, 258);
}

#[test]
fn decode_round_trip_empty_addresses_and_max_amount() {
    let tx = Transaction::new(Vec::new(), Vec::new(), u64::MAX);
    let bytes = tx.serialization();
    assert_eq!(bytes.len(), 24);
    let back = Transaction::deserialization(bytes).unwrap();
    assert!(back == tx);
}

#[test]
fn decode_rejects_empty_buffer() {
    assert_eq!(
        Transaction::deserialization(Vec::new()).unwrap_err(),
        DecodeError::Truncated
    );
}

#[test]
fn decode_rejects_truncated_amount() {
    let mut bytes = sample().serialization();
    bytes.pop();
    assert_eq!(
        Transaction::deserialization(bytes).unwrap_err(),
        DecodeError::Truncated
    );
}

#[test]
fn decode_rejects_length_past_end() {
    let bytes = vec![0, 0, 0, 0, 0, 0, 1, 0, 1, 2, 3];
    assert_eq!(
        Transaction::deserialization(bytes).unwrap_err(),
        DecodeError::Truncated
    );
}

#[test]
fn decode_rejects_huge_length() {
    let bytes = vec![0xff; 16];
    assert_eq!(
        Transaction::deserialization(bytes).unwrap_err(),
        DecodeError::Truncated
    );
}

#[test]
fn decode_rejects_trailing_bytes() {
    let mut bytes = sample().serialization();
    bytes.push(7);
    assert_eq!(
        Transaction::deserialization(bytes).unwrap_err(),
        DecodeError::TrailingBytes
    );
}

#[test]
fn transactions_differing_in_amount_are_unequal() {
    let a = sample();
    let b = Transaction::new(b"alice".to_vec(), b"bob".to_vec(), 259);
    assert!(a != b);
}
