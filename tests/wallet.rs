use ledger_core::wallet::{
    address_from_public_key, append_checksum, versioned_key_hash, Transaction as WalletTransaction,
    Wallet,
};
use sha2::Digest;

fn expected_address(public: &[u8]) -> String {
    let h = sha2::Sha256::digest(public);
    let r = <ripemd160::Ripemd160 as ripemd160::Digest>::digest(&h);
    let mut payload = vec![0u8];
    payload.extend_from_slice(&r);
    let c = sha2::Sha256::digest(sha2::Sha256::digest(&payload));
    payload.extend_from_slice(&c[..4]);
    bs58::encode(payload).into_string()
}

#[test]
fn keys_are_hex_text() {
    let w = Wallet::new().unwrap();
    let private = w.private_key_str();
    let public = w.public_key_str();
    assert_eq!(private.len(), 64);
    assert_eq!(public.len(), 128);
    assert!(private.chars().all(|c| c.is_ascii_hexdigit() && !c.is_ascii_uppercase()));
    assert!(public.chars().all(|c| c.is_ascii_hexdigit() && !c.is_ascii_uppercase()));
}

#[test]
fn address_derives_from_public_key() {
    let w = Wallet::new().unwrap();
    let public = hex::decode(w.public_key_str()).unwrap();
    assert_eq!(w.get_address(), expected_address(&public));
    assert_eq!(address_from_public_key(&public), w.get_address());
    assert!(w.get_address().starts_with('1'));
}

#[test]
fn address_of_fixed_key() {
    let public = [7u8; 64];
    let a = address_from_public_key(&public);
    assert_eq!(a, expected_address(&public));
    assert_ne!(a, address_from_public_key(&[8u8; 64]));
}

#[test]
fn versioned_and_checksummed_payloads() {
    assert_eq!(versioned_key_hash(&[1, 2, 3]), vec![0, 1, 2, 3]);
    assert_eq!(
        append_checksum(&[0, 1], &[9, 8, 7, 6, 5, 4]),
        vec![0, 1, 9, 8, 7, 6]
    );
}

#[test]
fn sign_then_verify() {
    let w = Wallet::new().unwrap();
    let tx = w.sign_transaction(&"bob".to_string(), 42);
    assert_eq!(tx.sender, w.get_address());
    assert_eq!(tx.recipient, "bob");
    assert_eq!(tx.amount, 42);
    assert_eq!(tx.public_key, w.public_key_str());
    assert_eq!(tx.signature.len(), 128);
    assert!(Wallet::verify_transaction(&tx));
}

#[test]
fn signing_is_deterministic() {
    let w = Wallet::new().unwrap();
    let a = w.sign_transaction(&"bob".to_string(), 1);
    let b = w.sign_transaction(&"bob".to_string(), 1);
    assert_eq!(a.signature, b.signature);
}

#[test]
fn tampered_amount_fails_verification() {
    let w = Wallet::new().unwrap();
    let mut tx = w.sign_transaction(&"bob".to_string(), 42);
    tx.amount = 43;
    assert!(!Wallet::verify_transaction(&tx));
    tx.amount = 42 ^ (1 << 40);
    assert!(!Wallet::verify_transaction(&tx));
}

#[test]
fn tampered_recipient_fails_verification() {
    let w = Wallet::new().unwrap();
    let mut tx = w.sign_transaction(&"bob".to_string(), 42);
    tx.recipient = "bod".to_string();
    assert!(!Wallet::verify_transaction(&tx));
}

#[test]
fn signature_from_another_wallet_fails() {
    let w = Wallet::new().unwrap();
    let other = Wallet::new().unwrap();
    let mut tx = w.sign_transaction(&"bob".to_string(), 5);
    tx.public_key = other.public_key_str();
    assert!(!Wallet::verify_transaction(&tx));
}

#[test]
fn malformed_signature_or_key_gives_false() {
    let w = Wallet::new().unwrap();
    let tx = w.sign_transaction(&"bob".to_string(), 5);
    let mut odd = tx.clone();
    odd.signature.push('0');
    assert!(!Wallet::verify_transaction(&odd));
    let mut short = tx.clone();
    short.signature.truncate(126);
    assert!(!Wallet::verify_transaction(&short));
    let mut not_hex = tx.clone();
    not_hex.signature.replace_range(0..2, "zz");
    assert!(!Wallet::verify_transaction(&not_hex));
    let mut bad_key = tx.clone();
    bad_key.public_key = "00".repeat(64);
    assert!(!Wallet::verify_transaction(&bad_key));
    let mut empty = tx.clone();
    empty.signature = String::new();
    assert!(!Wallet::verify_transaction(&empty));
}

#[test]
fn uppercase_hex_signature_still_verifies() {
    let w = Wallet::new().unwrap();
    let mut tx = w.sign_transaction(&"bob".to_string(), 5);
    tx.signature = tx.signature.to_uppercase();
    assert!(Wallet::verify_transaction(&tx));
}

#[test]
fn signing_bytes_are_the_json_object() {
    let tx = WalletTransaction {
        sender: "al\"ice".to_string(),
        recipient: "bob".to_string(),
        amount: 1234567890123,
        public_key: "0a".to_string(),
        signature: "ff".to_string(),
    };
    let expected = "{\"sender\":\"al\\\"ice\",\"recipient\":\"bob\",\"amount\":1234567890123,\"public_key\":\"0a\",\"signature\":\"\"}";
    assert_eq!(tx.signing_bytes(), expected.as_bytes().to_vec());
}

#[test]
fn signing_bytes_of_zero_amount() {
    let tx = WalletTransaction {
        sender: String::new(),
        recipient: "r".to_string(),
        amount: 0,
        public_key: String::new(),
        signature: String::new(),
    };
    let expected = "{\"sender\":\"\",\"recipient\":\"r\",\"amount\":0,\"public_key\":\"\",\"signature\":\"\"}";
    assert_eq!(tx.signing_bytes(), expected.as_bytes().to_vec());
}
