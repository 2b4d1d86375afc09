//! A block: a nonce, the hash of the block before it, a creation time in
//! nanoseconds and the encoded transactions it seals, with its SHA-256 hash.
use crate::bytes::{
    append_bytes, be_bytes, bytes_equal, lemma_be_bytes_len, lemma_be_round_trip, pow256, push_be, views_of,
};
use crate::crypto::{hex_lower, nanos_since_epoch, sha256, sha256_of};
use crate::transaction::{encode_tx, Serialization, Transaction};
use vstd::prelude::*;

verus! {

#[derive(Debug)]
pub struct Block {
    pub nonce: i32,
    pub previous_hash: Vec<u8>,
    pub time_stamp: u128,
    pub transactions: Vec<Vec<u8>>,
}

/// A block's fields as mathematical values.
pub struct BlockView {
    pub nonce: i32,
    pub previous_hash: Seq<u8>,
    pub time_stamp: u128,
    pub transactions: Seq<Seq<u8>>,
}

impl View for Block {
    type V = BlockView;

    open spec fn view(&self) -> BlockView {
        BlockView {
            nonce: self.nonce,
            previous_hash: self.previous_hash@,
            time_stamp: self.time_stamp,
            transactions: views_of(self.transactions@),
        }
    }
}

/// A nonce read as an unsigned 32-bit number (two's complement).
pub open spec fn nonce_value(n: i32) -> nat {
    if n >= 0 {
        n as nat
    } else {
        (n + 0x1_0000_0000) as nat
    }
}

/// The four big-endian bytes of a nonce in two's complement.
pub open spec fn nonce_bytes(n: i32) -> Seq<u8> {
    be_bytes(nonce_value(n), 4)
}

/// The byte strings one after the other.
pub open spec fn concat_all(parts: Seq<Seq<u8>>) -> Seq<u8>
    decreases parts.len(),
{
    if parts.len() == 0 {
        Seq::empty()
    } else {
        concat_all(parts.drop_last()) + parts.last()
    }
}

/// What a block's hash is taken over: nonce, previous hash, time stamp (16
/// big-endian bytes) and each transaction's bytes in order.
pub open spec fn block_preimage(b: BlockView) -> Seq<u8> {
    nonce_bytes(b.nonce) + b.previous_hash + be_bytes(b.time_stamp as nat, 16) + concat_all(
        b.transactions,
    )
}

/// A block's hash.
pub open spec fn block_hash(b: BlockView) -> Seq<u8> {
    sha256_of(block_preimage(b))
}

/// The most hexadecimal digits that a difficulty can ask for: all those of
/// a SHA-256 hash.
pub const MAX_DIFFICULTY: usize = 64;

/// Whether the hexadecimal text of `hash` opens with `difficulty` `'0'`
/// characters, `difficulty` being at most `MAX_DIFFICULTY`.
pub open spec fn meets_difficulty_spec(hash: Seq<u8>, difficulty: nat) -> bool {
    difficulty <= MAX_DIFFICULTY && difficulty <= 2 * hash.len() && forall|i: int|
        0 <= i < difficulty ==> #[trigger] hex_lower(hash)[i] == '0'
}

/// Whether `hash` meets `difficulty`: its first `difficulty` hexadecimal
/// digits are all `'0'`.
pub fn meets_difficulty(hash: &[u8], difficulty: usize) -> (r: bool)
    ensures
        r == meets_difficulty_spec(hash@, difficulty as nat),
{
    let n: usize = hash.len();
    if difficulty > MAX_DIFFICULTY {
        return false;
    }
    if difficulty / 2 > n || (difficulty / 2 == n && difficulty % 2 == 1) {
        assert(difficulty > 2 * n);
        return false;
    }
    assert(difficulty <= 2 * n);
    let mut i: usize = 0;
    while i < difficulty
        invariant
            i <= difficulty <= 2 * hash@.len(),
            difficulty <= MAX_DIFFICULTY,
            n == hash@.len(),
            forall|k: int| 0 <= k < i ==> #[trigger] hex_lower(hash@)[k] == '0',
        decreases difficulty - i,
    {
        let byte: u8 = hash[i / 2];
        let half: u8 = if i % 2 == 0 {
            byte / 16
        } else {
            byte % 16
        };
        proof {
            lemma_hex_digit_zero(half);
        }
        if half != 0 {
            assert(hex_lower(hash@)[i as int] != '0');
            return false;
        }
        i = i + 1;
    }
    true
}

/// The digit of a value below 16 is `'0'` exactly for zero.
pub proof fn lemma_hex_digit_zero(n: u8)
    requires
        n < 16,
    ensures
        (crate::crypto::hex_digit(n) == '0') <==> (n == 0),
{
    let d = seq!['0', '1', '2', '3', '4', '5', '6', '7', '8', '9', 'a', 'b', 'c', 'd', 'e', 'f'];
    assert(d[0] == '0');
    assert(forall|k: int| 1 <= k < 16 ==> d[k] != '0');
}

/// Two different nonces give a block two different hash inputs, so a
/// nonce step always hashes new bytes.
pub proof fn lemma_nonce_changes_preimage(b: BlockView, n: i32, m: i32)
    requires
        n != m,
    ensures
        block_preimage(BlockView { nonce: n, ..b }) != block_preimage(BlockView { nonce: m, ..b }),
{
    let pn = block_preimage(BlockView { nonce: n, ..b });
    let pm = block_preimage(BlockView { nonce: m, ..b });
    lemma_be_bytes_len(nonce_value(n), 4);
    lemma_be_bytes_len(nonce_value(m), 4);
    lemma_pow4();
    lemma_be_round_trip(nonce_value(n), 4);
    lemma_be_round_trip(nonce_value(m), 4);
    assert(pn.subrange(0, 4) =~= nonce_bytes(n));
    assert(pm.subrange(0, 4) =~= nonce_bytes(m));
}

proof fn lemma_pow4()
    ensures
        pow256(4) == 0x1_0000_0000,
{
    reveal_with_fuel(pow256, 5);
}

impl Block {
    /// A block with no transactions, stamped with the given time.
    pub fn with_time_stamp(nonce: i32, previous_hash: Vec<u8>, time_stamp: u128) -> (r: Block)
        ensures
            r.nonce == nonce,
            r.previous_hash@ == previous_hash@,
            r.time_stamp == time_stamp,
            r.transactions@.len() == 0,
    {
        Block { nonce, previous_hash, time_stamp, transactions: Vec::new() }
    }

    /// A block with no transactions, stamped with the nanoseconds since the
    /// Unix epoch (zero when the clock stands before it).
    pub fn new(nonce: i32, previous_hash: Vec<u8>) -> (r: Block)
        ensures
            r.nonce == nonce,
            r.previous_hash@ == previous_hash@,
            r.transactions@.len() == 0,
    {
        let time_stamp: u128 = match nanos_since_epoch() {
            Some(t) => t,
            None => 0,
        };
        Block::with_time_stamp(nonce, previous_hash, time_stamp)
    }

    /// The bytes that the hash is taken over.
    pub fn hash_preimage(&self) -> (r: Vec<u8>)
        ensures
            r@ == block_preimage(self@),
    {
        let mut bin: Vec<u8> = Vec::new();
        let n: u128 = if self.nonce >= 0 {
            self.nonce as u128
        } else {
            (self.nonce as i64 + 0x1_0000_0000i64) as u128
        };
        push_be(&mut bin, n, 4);
        append_bytes(&mut bin, self.previous_hash.as_slice());
        push_be(&mut bin, self.time_stamp, 16);
        let ghost head = bin@;
        let ghost txs = self@.transactions;
        let mut i: usize = 0;
        while i < self.transactions.len()
            invariant
                i <= txs.len() == self.transactions@.len(),
                txs == self@.transactions,
                bin@ == head + concat_all(txs.subrange(0, i as int)),
            decreases txs.len() - i,
        {
            append_bytes(&mut bin, self.transactions[i].as_slice());
            i = i + 1;
            assert(txs.subrange(0, i as int).drop_last() =~= txs.subrange(0, i - 1));
        }
        assert(txs.subrange(0, i as int) =~= txs);
        assert(bin@ =~= block_preimage(self@));
        bin
    }

    /// SHA-256 over the block's fields, recomputed on every call.
    pub fn hash(&self) -> (r: Vec<u8>)
        ensures
            r@ == block_hash(self@),
            r@.len() == 32,
    {
        let bin = self.hash_preimage();
        sha256(bin.as_slice())
    }

    /// Adds one to the nonce and leaves the rest.
    pub fn increment_nonce(&mut self)
        requires
            old(self).nonce < i32::MAX,
        ensures
            final(self).nonce == old(self).nonce + 1,
            final(self).previous_hash == old(self).previous_hash,
            final(self).time_stamp == old(self).time_stamp,
            final(self).transactions == old(self).transactions,
    {
        self.nonce = self.nonce + 1;
    }

    /// Appends the encoding of `transaction` unless the block already holds
    /// those very bytes.
    pub fn add_transaction(&mut self, transaction: &Transaction)
        ensures
            final(self).nonce == old(self).nonce,
            final(self).previous_hash == old(self).previous_hash,
            final(self).time_stamp == old(self).time_stamp,
            final(self)@.transactions == if old(self)@.transactions.contains(encode_tx(transaction@)) {
                old(self)@.transactions
            } else {
                old(self)@.transactions.push(encode_tx(transaction@))
            },
    {
        let bin = transaction.serialization();
        let ghost txs = self@.transactions;
        let mut i: usize = 0;
        while i < self.transactions.len()
            invariant
                i <= self.transactions@.len(),
                txs == self@.transactions,
                bin@ == encode_tx(transaction@),
                forall|k: int| 0 <= k < i ==> txs[k] != bin@,
            decreases self.transactions@.len() - i,
        {
            if bytes_equal(self.transactions[i].as_slice(), bin.as_slice()) {
                assert(txs[i as int] == bin@);
                return;
            }
            i = i + 1;
        }
        self.transactions.push(bin);
        assert(self@.transactions =~= txs.push(encode_tx(transaction@)));
    }
}

/// Two blocks are equal when their hashes are.
impl PartialEq for Block {
    fn eq(&self, other: &Block) -> (r: bool) {
        let a = self.hash();
        let b = other.hash();
        bytes_equal(a.as_slice(), b.as_slice())
    }
}

impl vstd::std_specs::cmp::PartialEqSpecImpl for Block {
    open spec fn obeys_eq_spec() -> bool {
        true
    }

    open spec fn eq_spec(&self, other: &Block) -> bool {
        block_hash(self@) == block_hash(other@)
    }
}

} // verus!
