use ledger_core::block::{meets_difficulty, Block, MAX_DIFFICULTY};
use ledger_core::ledger::BlockChain;
use ledger_core::transaction::{Serialization, Transaction};
use sha2::Digest;

fn fixed_block() -> Block {
    let mut b = Block::with_time_stamp(-1, vec![9, 8], 0x0102);
    b.transactions.push(vec![1, 2, 3]);
    b.transactions.push(vec![4]);
    b
}

#[test]
fn preimage_concatenates_fields() {
    let b = fixed_block();
    let mut expected: Vec<u8> = vec![0xff, 0xff, 0xff, 0xff, 9, 8];
    expected.extend_from_slice(&[0; 14]);
    expected.extend_from_slice(&[1, 2]);
    expected.extend_from_slice(&[1, 2, 3, 4]);
    assert_eq!(b.hash_preimage(), expected);
}

#[test]
fn hash_is_sha256_of_preimage() {
    let b = fixed_block();
    let h = b.hash();
    assert_eq!(h.len(), 32);
    assert_ne!(h, b.hash_preimage());
    assert_eq!(h, sha2::Sha256::digest(b.hash_preimage()).to_vec());
}

#[test]
fn hash_is_deterministic() {
    let b = fixed_block();
    assert_eq!(b.hash(), b.hash());
}

#[test]
fn incrementing_nonce_changes_hash() {
    let mut b = fixed_block();
    let before = b.hash();
    b.increment_nonce();
    assert_eq!(b.nonce, 0);
    assert_ne!(b.hash(), before);
}

#[test]
fn blocks_with_same_content_are_equal() {
    let a = fixed_block();
    let b = fixed_block();
    assert!(a == b);
    let mut c = fixed_block();
    c.increment_nonce();
    assert!(a != c);
}

#[test]
fn new_block_is_empty() {
    let b = Block::new(5, vec![0; 32]);
    assert_eq!(b.nonce, 5);
    assert_eq!(b.previous_hash, vec![0; 32]);
    assert!(b.transactions.is_empty());
    assert!(b.time_stamp > 0);
}

#[test]
fn block_add_transaction_skips_duplicates() {
    let mut b = Block::with_time_stamp(0, vec![], 1);
    let tx = Transaction::new(b"a".to_vec(), b"b".to_vec(), 3);
    b.add_transaction(&tx);
    b.add_transaction(&tx);
    assert_eq!(b.transactions.len(), 1);
    assert_eq!(b.transactions[0], tx.serialization());
}

#[test]
fn difficulty_counts_hex_digits() {
    let hash = [0x00, 0x0a, 0xff];
    assert!(meets_difficulty(&hash, 0));
    assert!(meets_difficulty(&hash, 2));
    assert!(meets_difficulty(&hash, 3));
    assert!(!meets_difficulty(&hash, 4));
    assert!(!meets_difficulty(&hash, 7));
    assert!(!meets_difficulty(&[0u8; 40], MAX_DIFFICULTY + 1));
    assert!(meets_difficulty(&[0u8; 40], MAX_DIFFICULTY));
}

#[test]
fn proof_of_work_seals_block() {
    let mut b = fixed_block();
    b.nonce = 0;
    let proof = BlockChain::do_proof_of_work(&mut b, 2).unwrap();
    assert!(proof.starts_with("00"));
    assert_eq!(proof, hex::encode(b.hash()));
    assert!(b.nonce >= 0);
    assert_eq!(b.previous_hash, vec![9, 8]);
    assert_eq!(b.transactions.len(), 2);
}

#[test]
fn proof_of_work_with_zero_difficulty_keeps_nonce() {
    let mut b = fixed_block();
    let proof = BlockChain::do_proof_of_work(&mut b, 0).unwrap();
    assert_eq!(b.nonce, -1);
    assert_eq!(proof.len(), 64);
}

#[test]
fn proof_of_work_beyond_hash_length_gives_none() {
    let mut b = fixed_block();
    assert!(BlockChain::do_proof_of_work(&mut b, MAX_DIFFICULTY + 1).is_none());
    assert_eq!(b.nonce, -1);
}

#[test]
fn proof_of_work_at_last_nonce_without_seal_gives_none() {
    let mut b = fixed_block();
    b.nonce = i32::MAX;
    let sealed = meets_difficulty(&b.hash(), 1);
    let r = BlockChain::do_proof_of_work(&mut b, 1);
    assert_eq!(r.is_some(), sealed);
    assert_eq!(b.nonce, i32::MAX);
}
