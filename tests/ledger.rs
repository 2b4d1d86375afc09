use ledger_core::block::meets_difficulty;
use ledger_core::config::Config;
use ledger_core::ledger::{BlockChain, BlockSearch, BlockSearchResult, Rejection};
use ledger_core::transaction::{Serialization, Transaction};
use ledger_core::wallet::{Transaction as WalletTransaction, Wallet};

const SYSTEM: &str = "THE BLOCKCHAIN";

fn config(difficulty: usize, reward: u64) -> Config {
    Config {
        difficulty,
        sender: SYSTEM,
        reward,
    }
}

fn unsigned(sender: &str, recipient: &str, amount: u64) -> WalletTransaction {
    WalletTransaction {
        sender: sender.to_string(),
        recipient: recipient.to_string(),
        amount,
        public_key: String::new(),
        signature: String::new(),
    }
}

fn encoded(sender: &str, recipient: &str, amount: u64) -> Vec<u8> {
    Transaction::new(sender.as_bytes().to_vec(), recipient.as_bytes().to_vec(), amount)
        .serialization()
}

#[test]
fn default_config_values() {
    let c = Config::default();
    assert_eq!(c.difficulty, 3);
    assert_eq!(c.reward, 1);
    assert_eq!(c.sender, "THE BLOCKCHAIN");
}

#[test]
fn new_ledger_and_second_mining_round() {
    let mut bc = BlockChain::new(config(1, 1), "miner1".to_string());
    assert_eq!(bc.len(), 2);
    assert_eq!(bc.calculate_total_amount("miner1".to_string()), 1);
    assert!(bc.mining());
    assert_eq!(bc.len(), 3);
    assert_eq!(bc.calculate_total_amount("miner1".to_string()), 2);
}

#[test]
fn genesis_and_reward_block_shape() {
    let bc = BlockChain::new(config(1, 5), "miner1".to_string());
    let genesis = bc.block_at(0);
    assert_eq!(genesis.nonce, 0);
    assert_eq!(genesis.previous_hash, vec![0u8; 32]);
    assert!(genesis.transactions.is_empty());
    let mined = bc.last_block();
    assert_eq!(mined.previous_hash, genesis.hash());
    assert_eq!(mined.transactions, vec![encoded(SYSTEM, "miner1", 5)]);
    assert!(meets_difficulty(&mined.hash(), 1));
    assert!(hex::encode(mined.hash()).starts_with('0'));
}

#[test]
fn default_difficulty_ledger_seals_with_three_zeros() {
    let bc = BlockChain::new(Config::default(), "miner1".to_string());
    assert_eq!(bc.len(), 2);
    assert!(hex::encode(bc.last_block().hash()).starts_with("000"));
}

#[test]
fn owner_cannot_send() {
    let mut bc = BlockChain::new(config(1, 1), "miner1".to_string());
    assert!(!bc.add_transaction(&unsigned("miner1", "bob", 0)));
    assert!(!bc.add_transaction(&unsigned("miner1", "bob", 1_000_000)));
    assert_eq!(
        bc.admit_transaction(&unsigned("miner1", "bob", 1), true),
        Err(Rejection::SelfPayment)
    );
}

#[test]
fn unsigned_transaction_is_rejected() {
    let mut bc = BlockChain::new(config(1, 1), "miner1".to_string());
    assert!(!bc.add_transaction(&unsigned("alice", "bob", 0)));
    assert_eq!(
        bc.admit_transaction(&unsigned("alice", "bob", 0), false),
        Err(Rejection::InvalidSignature)
    );
}

#[test]
fn insufficient_balance_is_rejected() {
    let mut bc = BlockChain::new(config(1, 1), "miner1".to_string());
    assert_eq!(
        bc.admit_transaction(&unsigned("alice", "bob", 1), true),
        Err(Rejection::InsufficientBalance)
    );
    assert_eq!(bc.admit_transaction(&unsigned("alice", "bob", 0), true), Ok(()));
}

#[test]
fn large_amounts_are_admitted_and_balance_saturates() {
    let mut bc = BlockChain::new(config(1, 1), "miner1".to_string());
    assert_eq!(bc.admit_transaction(&unsigned(SYSTEM, "bob", u64::MAX), true), Ok(()));
    assert!(bc.add_transaction(&unsigned(SYSTEM, "bob", u64::MAX - 1)));
    assert!(bc.mining());
    assert_eq!(bc.calculate_total_amount("bob".to_string()), i64::MAX);
}

#[test]
fn transfers_back_and_forth_are_always_admitted() {
    let mut bc = BlockChain::new(config(0, 1), "miner1".to_string());
    assert!(bc.add_transaction(&unsigned(SYSTEM, "alice", i64::MAX as u64)));
    assert!(bc.mining());
    assert_eq!(bc.admit_transaction(&unsigned("alice", "bob", i64::MAX as u64), true), Ok(()));
    assert!(bc.mining());
    assert_eq!(bc.admit_transaction(&unsigned("bob", "alice", i64::MAX as u64), true), Ok(()));
    assert!(bc.mining());
    assert_eq!(bc.calculate_total_amount("alice".to_string()), i64::MAX);
    assert_eq!(bc.calculate_total_amount("bob".to_string()), 0);
}

#[test]
fn difficulty_zero_always_mines() {
    let mut bc = BlockChain::new(config(0, 2), "miner1".to_string());
    assert_eq!(bc.len(), 2);
    assert_eq!(bc.last_block().nonce, 0);
    for _ in 0..3 {
        assert!(bc.mining());
    }
    assert_eq!(bc.len(), 5);
    assert_eq!(bc.calculate_total_amount("miner1".to_string()), 8);
}

#[test]
fn system_transfer_credits_after_mining() {
    let mut bc = BlockChain::new(config(1, 1), "miner1".to_string());
    assert!(bc.add_transaction(&unsigned(SYSTEM, "alice", 10)));
    assert_eq!(bc.calculate_total_amount("alice".to_string()), 0);
    assert!(bc.mining());
    assert_eq!(bc.calculate_total_amount("alice".to_string()), 10);
    assert_eq!(bc.calculate_total_amount(SYSTEM.to_string()), 0);
}

#[test]
fn duplicate_submission_is_pooled_once() {
    let mut bc = BlockChain::new(config(1, 1), "miner1".to_string());
    let tx = unsigned(SYSTEM, "alice", 4);
    assert!(bc.add_transaction(&tx));
    assert!(bc.add_transaction(&tx));
    assert!(bc.mining());
    let block = bc.last_block();
    assert_eq!(
        block.transactions,
        vec![encoded(SYSTEM, "alice", 4), encoded(SYSTEM, "miner1", 1)]
    );
    assert_eq!(bc.calculate_total_amount("alice".to_string()), 4);
}

#[test]
fn signed_transaction_is_admitted_and_mined() {
    let mut bc = BlockChain::new(config(1, 1), "miner1".to_string());
    let w = Wallet::new().unwrap();
    assert!(bc.add_transaction(&unsigned(SYSTEM, &w.get_address(), 10)));
    assert!(bc.mining());
    let tx = w.sign_transaction(&"bob".to_string(), 7);
    assert!(bc.add_transaction(&tx));
    assert!(bc.mining());
    let e = encoded(&w.get_address(), "bob", 7);
    assert!(bc.last_block().transactions.contains(&e));
    assert_eq!(bc.calculate_total_amount(w.get_address()), 3);
    assert_eq!(bc.calculate_total_amount("bob".to_string()), 7);
    match bc.search_block(BlockSearch::SearchByTransaction(e)) {
        BlockSearchResult::Success(b) => assert!(*b == *bc.last_block()),
        _ => panic!("transaction not found"),
    }
}

#[test]
fn overspending_signed_transaction_is_rejected() {
    let mut bc = BlockChain::new(config(1, 1), "miner1".to_string());
    let w = Wallet::new().unwrap();
    assert!(bc.add_transaction(&unsigned(SYSTEM, &w.get_address(), 2)));
    assert!(bc.mining());
    let tx = w.sign_transaction(&"bob".to_string(), 3);
    assert!(!bc.add_transaction(&tx));
    assert_eq!(
        bc.admit_transaction(&tx, true),
        Err(Rejection::InsufficientBalance)
    );
}

#[test]
fn balances_add_up_to_minted_amount() {
    let mut bc = BlockChain::new(config(1, 3), "miner1".to_string());
    assert!(bc.add_transaction(&unsigned(SYSTEM, "alice", 10)));
    assert!(bc.mining());
    assert_eq!(bc.admit_transaction(&unsigned("alice", "bob", 4), true), Ok(()));
    assert!(bc.mining());
    let total: i64 = ["miner1", "alice", "bob", SYSTEM]
        .iter()
        .map(|a| bc.calculate_total_amount(a.to_string()))
        .sum();
    assert_eq!(total, 3 * 3 + 10);
    assert_eq!(bc.calculate_total_amount("alice".to_string()), 6);
    assert_eq!(bc.calculate_total_amount("bob".to_string()), 4);
}

#[test]
fn search_by_each_criterion() {
    let mut bc = BlockChain::new(config(1, 1), "miner1".to_string());
    assert!(bc.mining());
    let b1 = bc.block_at(1);
    match bc.search_block(BlockSearch::SearchByIndex(1)) {
        BlockSearchResult::Success(b) => assert!(*b == *b1),
        _ => panic!("index"),
    }
    match bc.search_block(BlockSearch::SearchByIndex(3)) {
        BlockSearchResult::FailOfIndex(i) => assert_eq!(i, 3),
        _ => panic!("index past end"),
    }
    match bc.search_block(BlockSearch::SearchByPreviousHash(vec![0; 32])) {
        BlockSearchResult::Success(b) => assert!(*b == *bc.block_at(0)),
        _ => panic!("previous hash"),
    }
    match bc.search_block(BlockSearch::SearchByBlockHash(b1.hash())) {
        BlockSearchResult::Success(b) => assert!(*b == *b1),
        _ => panic!("block hash"),
    }
    match bc.search_block(BlockSearch::SearchByBlockHash(vec![1, 2])) {
        BlockSearchResult::FailOfBlockHash(h) => assert_eq!(h, vec![1, 2]),
        _ => panic!("missing block hash"),
    }
    match bc.search_block(BlockSearch::SearchByTimeStamp(b1.time_stamp)) {
        BlockSearchResult::Success(b) => assert_eq!(b.time_stamp, b1.time_stamp),
        _ => panic!("time stamp"),
    }
    match bc.search_block(BlockSearch::SearchByTimeStamp(1)) {
        BlockSearchResult::FailOfTimeStamp(t) => assert_eq!(t, 1),
        _ => panic!("missing time stamp"),
    }
    match bc.search_block(BlockSearch::SearchByNonce(-5)) {
        BlockSearchResult::FailOfNonce(n) => assert_eq!(n, -5),
        _ => panic!("missing nonce"),
    }
    match bc.search_block(BlockSearch::SearchByNonce(0)) {
        BlockSearchResult::Success(b) => assert!(*b == *bc.block_at(0)),
        _ => panic!("nonce of genesis"),
    }
    match bc.search_block(BlockSearch::SearchByPreviousHash(vec![7])) {
        BlockSearchResult::FailOfPreviousHash(h) => assert_eq!(h, vec![7]),
        _ => panic!("missing previous hash"),
    }
    match bc.search_block(BlockSearch::SearchByTransaction(vec![7])) {
        BlockSearchResult::FailOfTransaction(t) => assert_eq!(t, vec![7]),
        _ => panic!("missing transaction"),
    }
    match bc.search_block(BlockSearch::SearchByTransaction(encoded(SYSTEM, "miner1", 1))) {
        BlockSearchResult::Success(b) => assert!(*b == *b1),
        _ => panic!("first reward"),
    }
}
