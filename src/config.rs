//! The ledger's settings.
use vstd::prelude::*;

verus! {

/// How hard a block is to seal, what a mined block pays, and the sender name
/// that minted transactions carry.
#[derive(Debug)]
pub struct Config {
    /// Leading hexadecimal `'0'` characters that a sealed block's hash shows.
    pub difficulty: usize,
    /// The sender of reward transactions; it is never debited and passes
    /// admission without signature or balance checks.
    pub sender: &'static str,
    /// The amount minted for each mined block.
    pub reward: u64,
}

impl Config {
    /// Difficulty 3, reward 1, sender `"THE BLOCKCHAIN"`.
    pub fn default() -> (r: Config)
        ensures
            r.difficulty == 3,
            r.reward == 1,
            r.sender@ == "THE BLOCKCHAIN"@,
    {
        Config { difficulty: 3, sender: "THE BLOCKCHAIN", reward: 1 }
    }
}

} // verus!
