//! A single-node proof-of-work ledger and the key-pair wallet that signs
//! its transactions.
pub mod bytes;
pub mod transaction;
pub mod crypto;
pub mod config;
pub mod block;
pub mod wallet;
pub mod ledger;
