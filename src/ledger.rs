//! The ledger: a chain of sealed blocks, the pool of admitted transactions
//! waiting for the next block, the owner who is paid for mining, and the
//! settings. Balances are computed by scanning the whole chain.
use crate::block::{
    block_hash, meets_difficulty, meets_difficulty_spec, Block, BlockView, MAX_DIFFICULTY,
};
use crate::bytes::{
    append_bytes, bytes_equal, copy_bytes, lemma_pow256_8, lemma_views_push, pow256, views_of,
};
use crate::config::Config;
use crate::crypto::{hex_encode, hex_lower};
use crate::transaction::{
    decode_tx, encode_tx, lemma_decode_encode, DecodeError, Serialization, Transaction, TxView,
};
use crate::wallet::{transaction_verifies, Transaction as WalletTransaction, Wallet};
use vstd::prelude::*;
use vstd::utf8::{encode_utf8, encode_utf8_decode_utf8};

verus! {

/// What an encoded transaction does to the balance of `addr`: the amount is
/// credited to the recipient and debited from the sender, unless the sender
/// is `system`, which is never debited.
pub open spec fn tx_delta(b: Seq<u8>, addr: Seq<u8>, system: Seq<u8>) -> int {
    match decode_tx(b) {
        Ok(t) => (if t.1 == addr {
            t.2 as int
        } else {
            0
        }) - (if t.0 == addr && t.0 != system {
            t.2 as int
        } else {
            0
        }),
        Err(_) => 0,
    }
}

/// What a run of encoded transactions does to the balance of `addr`.
pub open spec fn txs_balance(txs: Seq<Seq<u8>>, addr: Seq<u8>, system: Seq<u8>) -> int
    decreases txs.len(),
{
    if txs.len() == 0 {
        0
    } else {
        txs_balance(txs.drop_last(), addr, system) + tx_delta(txs.last(), addr, system)
    }
}

/// The balance of `addr` over the blocks.
pub open spec fn chain_balance(blocks: Seq<BlockView>, addr: Seq<u8>, system: Seq<u8>) -> int
    decreases blocks.len(),
{
    if blocks.len() == 0 {
        0
    } else {
        chain_balance(blocks.drop_last(), addr, system) + txs_balance(
            blocks.last().transactions,
            addr,
            system,
        )
    }
}

/// `x` pinned into the range of `i64`.
pub open spec fn clamp_i64(x: int) -> int {
    if x > i64::MAX {
        i64::MAX as int
    } else if x < i64::MIN {
        i64::MIN as int
    } else {
        x
    }
}

/// Every transaction of the blocks, block after block.
pub open spec fn all_txs(blocks: Seq<BlockView>) -> Seq<Seq<u8>>
    decreases blocks.len(),
{
    if blocks.len() == 0 {
        Seq::empty()
    } else {
        all_txs(blocks.drop_last()) + blocks.last().transactions
    }
}

/// The running balance of `addr` over a run of transactions, held in the
/// range of `i64` after each step: it equals `txs_balance` whenever no
/// prefix leaves that range.
pub open spec fn scan_balance(txs: Seq<Seq<u8>>, addr: Seq<u8>, system: Seq<u8>) -> int
    decreases txs.len(),
{
    if txs.len() == 0 {
        0
    } else {
        clamp_i64(scan_balance(txs.drop_last(), addr, system) + tx_delta(txs.last(), addr, system))
    }
}

/// The balance that the ledger reports for `addr`: the running balance over
/// every transaction of the chain.
pub open spec fn balance_of(blocks: Seq<BlockView>, addr: Seq<u8>, system: Seq<u8>) -> int {
    scan_balance(all_txs(blocks), addr, system)
}

/// The ledger as mathematical values: the blocks, the pool and the owner's
/// address.
pub struct LedgerView {
    pub chain: Seq<BlockView>,
    pub pool: Seq<Seq<u8>>,
    pub owner: Seq<char>,
    /// The sender name of minted transactions.
    pub system: Seq<char>,
    pub difficulty: nat,
    pub reward: u64,
}

/// The bytes of a text address.
pub open spec fn addr_bytes(s: Seq<char>) -> Seq<u8> {
    encode_utf8(s)
}

/// The ledger's encoding of a transfer between two text addresses.
pub open spec fn transfer_bytes(sender: Seq<char>, recipient: Seq<char>, amount: u64) -> Seq<u8> {
    encode_tx((addr_bytes(sender), addr_bytes(recipient), amount))
}

/// The pool after `e` is offered to it: unchanged when it already holds `e`.
pub open spec fn pool_with(pool: Seq<Seq<u8>>, e: Seq<u8>) -> Seq<Seq<u8>> {
    if pool.contains(e) {
        pool
    } else {
        pool.push(e)
    }
}

/// Why a transaction is not admitted to the pool.
#[derive(Clone, Copy, Debug, PartialEq, Eq, Structural)]
pub enum Rejection {
    /// The sender is the ledger's owner.
    SelfPayment,
    /// The signature does not check.
    InvalidSignature,
    /// The sender's balance is below the amount.
    InsufficientBalance,
}

/// The outcome of offering `t` to the ledger, `signature_ok` being whether
/// its signature checks. The system sender skips the signature and balance
/// checks; a transaction already pending is accepted without a second entry.
pub open spec fn admission(
    v: LedgerView,
    system: Seq<char>,
    t: WalletTransaction,
    signature_ok: bool,
) -> Result<(), Rejection> {
    if t.sender@ == v.owner {
        Err(Rejection::SelfPayment)
    } else if t.sender@ != system && !signature_ok {
        Err(Rejection::InvalidSignature)
    } else if t.sender@ != system && balance_of(
        v.chain,
        addr_bytes(t.sender@),
        addr_bytes(system),
    ) < t.amount as int {
        Err(Rejection::InsufficientBalance)
    } else {
        Ok(())
    }
}

/// The ledger once `t` is admitted: its transfer offered to the pool.
pub open spec fn after_admission(v: LedgerView, t: WalletTransaction) -> LedgerView {
    LedgerView { pool: pool_with(v.pool, transfer_bytes(t.sender@, t.recipient@, t.amount)), ..v }
}

/// `new` is `old` with one block appended, which holds `txs`, links to
/// `previous_hash`, and is sealed at the first nonce from `seed` on that
/// meets the difficulty; the pool is then empty.
pub open spec fn appended_sealed(
    old: LedgerView,
    new: LedgerView,
    txs: Seq<Seq<u8>>,
    previous_hash: Seq<u8>,
    seed: i32,
) -> bool {
    let b = new.chain.last();
    &&& new.chain == old.chain.push(b)
    &&& new.pool.len() == 0
    &&& b.previous_hash == previous_hash
    &&& b.transactions == txs
    &&& seed <= b.nonce
    &&& meets_difficulty_spec(block_hash(b), old.difficulty)
    &&& forall|n: i32| seed <= n < b.nonce ==> !seals(b, n, old.difficulty)
}

/// Whether the block with these fields and time stamp `t` meets
/// `difficulty` at no nonce from `seed` on.
pub open spec fn unsealable_at(
    previous_hash: Seq<u8>,
    txs: Seq<Seq<u8>>,
    seed: i32,
    t: u128,
    difficulty: nat,
) -> bool {
    forall|n: i32|
        seed <= n ==> !seals(
            BlockView { nonce: seed, previous_hash, time_stamp: t, transactions: txs },
            n,
            difficulty,
        )
}

/// Whether, for some time stamp, no nonce from `seed` on seals a block with
/// these fields: the only way a mining round can fail.
pub open spec fn unsealable(previous_hash: Seq<u8>, txs: Seq<Seq<u8>>, seed: i32, difficulty: nat) -> bool {
    exists|t: u128| #[trigger] unsealable_at(previous_hash, txs, seed, t, difficulty)
}

/// The settings and the owner are the same in both views.
pub open spec fn same_settings(a: LedgerView, b: LedgerView) -> bool {
    &&& a.owner == b.owner
    &&& a.system == b.system
    &&& a.difficulty == b.difficulty
    &&& a.reward == b.reward
}

/// The reward transaction of a mining round: the system pays the owner.
pub open spec fn reward_bytes(v: LedgerView) -> Seq<u8> {
    transfer_bytes(v.system, v.owner, v.reward)
}

/// Whether block `b`, at position `idx`, is what `s` looks for.
pub open spec fn block_matches(b: BlockView, idx: int, s: BlockSearch) -> bool {
    match s {
        BlockSearch::SearchByIndex(i) => idx == i,
        BlockSearch::SearchByPreviousHash(h) => b.previous_hash == h@,
        BlockSearch::SearchByBlockHash(h) => block_hash(b) == h@,
        BlockSearch::SearchByNonce(n) => b.nonce == n,
        BlockSearch::SearchByTimeStamp(t) => b.time_stamp == t,
        BlockSearch::SearchByTransaction(t) => b.transactions.contains(t@),
    }
}

/// Whether `r` is the not-found result for `s`, carrying its key.
pub open spec fn not_found_for(s: BlockSearch, r: BlockSearchResult) -> bool {
    match s {
        BlockSearch::SearchByIndex(i) => r == BlockSearchResult::FailOfIndex(i),
        BlockSearch::SearchByPreviousHash(h) => r matches BlockSearchResult::FailOfPreviousHash(k)
            && k@ == h@,
        BlockSearch::SearchByBlockHash(h) => r matches BlockSearchResult::FailOfBlockHash(k) && k@
            == h@,
        BlockSearch::SearchByNonce(n) => r == BlockSearchResult::FailOfNonce(n),
        BlockSearch::SearchByTimeStamp(t) => r == BlockSearchResult::FailOfTimeStamp(t),
        BlockSearch::SearchByTransaction(t) => r matches BlockSearchResult::FailOfTransaction(k)
            && k@ == t@,
    }
}

/// A block view with another nonce.
pub open spec fn with_nonce(b: BlockView, n: i32) -> BlockView {
    BlockView { nonce: n, ..b }
}

/// Whether the block with nonce `n` meets the difficulty.
pub open spec fn seals(b: BlockView, n: i32, difficulty: nat) -> bool {
    meets_difficulty_spec(block_hash(with_nonce(b, n)), difficulty)
}

/// Sequences whose entries are pairwise distinct.
pub open spec fn distinct(s: Seq<Seq<u8>>) -> bool {
    forall|i: int, j: int| 0 <= i < j < s.len() ==> s[i] != s[j]
}

pub enum BlockSearch {
    SearchByIndex(usize),
    SearchByPreviousHash(Vec<u8>),
    SearchByBlockHash(Vec<u8>),
    SearchByNonce(i32),
    SearchByTimeStamp(u128),
    SearchByTransaction(Vec<u8>),
}

pub enum BlockSearchResult<'a> {
    Success(&'a Block),
    FailOfEmptyBlocks,
    FailOfIndex(usize),
    FailOfPreviousHash(Vec<u8>),
    FailOfBlockHash(Vec<u8>),
    FailOfNonce(i32),
    FailOfTimeStamp(u128),
    FailOfTransaction(Vec<u8>),
}

#[derive(Debug)]
pub struct BlockChain {
    pub config: Config,
    transaction_pool: Vec<Vec<u8>>,
    chain: Vec<Block>,
    blockchain_address: String,
}

impl View for BlockChain {
    type V = LedgerView;

    closed spec fn view(&self) -> LedgerView {
        LedgerView {
            chain: self.chain@.map_values(|b: Block| b@),
            pool: views_of(self.transaction_pool@),
            owner: self.blockchain_address@,
            system: self.config.sender@,
            difficulty: self.config.difficulty as nat,
            reward: self.config.reward,
        }
    }
}

/// After a genesis block and one block holding only the reward, the owner's
/// balance is the reward (held in the range of `i64`).
proof fn lemma_reward_only_balance(blocks: Seq<BlockView>, e: Seq<u8>, owner: Seq<u8>, system: Seq<u8>, reward: u64)
    requires
        blocks.len() == 2,
        blocks[0].transactions.len() == 0,
        blocks[1].transactions == seq![e],
        decode_tx(e) == Ok::<TxView, DecodeError>((system, owner, reward)),
    ensures
        balance_of(blocks, owner, system) == clamp_i64(reward as int),
{
    let first = blocks.drop_last();
    assert(first.drop_last() =~= Seq::<BlockView>::empty());
    assert(first.last().transactions =~= Seq::<Seq<u8>>::empty());
    assert(all_txs(first.drop_last()) == Seq::<Seq<u8>>::empty());
    assert(all_txs(first) =~= all_txs(first.drop_last()) + first.last().transactions);
    assert(all_txs(first) =~= Seq::<Seq<u8>>::empty());
    assert(blocks.last() == blocks[1]);
    assert(all_txs(blocks) =~= seq![e]);
    assert(seq![e].drop_last() =~= Seq::<Seq<u8>>::empty());
    assert(tx_delta(e, owner, system) == reward as int);
    assert(scan_balance(Seq::<Seq<u8>>::empty(), owner, system) == 0);
    assert(scan_balance(seq![e], owner, system) == clamp_i64(reward as int));
}

/// Bytes made by `encode_tx` from addresses that a `usize` can measure
/// decode to the same transfer.
proof fn lemma_transfer_decodes(s: Seq<u8>, r: Seq<u8>, amount: u64)
    requires
        s.len() <= usize::MAX,
        r.len() <= usize::MAX,
    ensures
        decode_tx(encode_tx((s, r, amount))) == Ok::<TxView, DecodeError>((s, r, amount)),
{
    lemma_pow256_8();
    lemma_decode_encode((s, r, amount));
}

proof fn lemma_txs_balance_concat(a: Seq<Seq<u8>>, b: Seq<Seq<u8>>, addr: Seq<u8>, system: Seq<u8>)
    ensures
        txs_balance(a + b, addr, system) == txs_balance(a, addr, system) + txs_balance(b, addr, system),
    decreases b.len(),
{
    if b.len() == 0 {
        assert(a + b =~= a);
    } else {
        lemma_txs_balance_concat(a, b.drop_last(), addr, system);
        assert((a + b).drop_last() =~= a + b.drop_last());
    }
}

/// The balance over the blocks is the balance over all their transactions.
proof fn lemma_all_txs_balance(blocks: Seq<BlockView>, addr: Seq<u8>, system: Seq<u8>)
    ensures
        txs_balance(all_txs(blocks), addr, system) == chain_balance(blocks, addr, system),
    decreases blocks.len(),
{
    if blocks.len() > 0 {
        lemma_all_txs_balance(blocks.drop_last(), addr, system);
        lemma_txs_balance_concat(all_txs(blocks.drop_last()), blocks.last().transactions, addr, system);
    }
}

proof fn lemma_scan_exact(txs: Seq<Seq<u8>>, addr: Seq<u8>, system: Seq<u8>)
    requires
        forall|k: int|
            0 <= k <= txs.len() ==> i64::MIN <= #[trigger] txs_balance(txs.subrange(0, k), addr, system)
                <= i64::MAX,
    ensures
        scan_balance(txs, addr, system) == txs_balance(txs, addr, system),
    decreases txs.len(),
{
    if txs.len() > 0 {
        let init = txs.drop_last();
        assert forall|k: int| 0 <= k <= init.len() implies i64::MIN <= #[trigger] txs_balance(
            init.subrange(0, k),
            addr,
            system,
        ) <= i64::MAX by {
            assert(init.subrange(0, k) =~= txs.subrange(0, k));
        }
        lemma_scan_exact(init, addr, system);
        assert(txs.subrange(0, txs.len() as int) =~= txs);
    }
}

/// The reported balance is the exact balance whenever the running balance
/// over the chain's transactions never leaves the range of `i64`.
pub proof fn lemma_balance_exact(blocks: Seq<BlockView>, addr: Seq<u8>, system: Seq<u8>)
    requires
        forall|k: int|
            0 <= k <= all_txs(blocks).len() ==> i64::MIN <= #[trigger] txs_balance(
                all_txs(blocks).subrange(0, k),
                addr,
                system,
            ) <= i64::MAX,
    ensures
        balance_of(blocks, addr, system) == chain_balance(blocks, addr, system),
{
    lemma_scan_exact(all_txs(blocks), addr, system);
    lemma_all_txs_balance(blocks, addr, system);
}

/// The encoding of a transfer between two byte addresses.
fn encode_transfer(sender: &[u8], recipient: &[u8], amount: u64) -> (r: Vec<u8>)
    ensures
        r@ == encode_tx((sender@, recipient@, amount)),
        decode_tx(r@) == Ok::<TxView, DecodeError>((sender@, recipient@, amount)),
{
    let ls: usize = sender.len();
    let lr: usize = recipient.len();
    proof {
        lemma_transfer_decodes(sender@, recipient@, amount);
    }
    let mut s: Vec<u8> = Vec::new();
    append_bytes(&mut s, sender);
    let mut r: Vec<u8> = Vec::new();
    append_bytes(&mut r, recipient);
    assert(s@ =~= sender@ && r@ =~= recipient@);
    let t = Transaction::new(s, r, amount);
    t.serialization()
}

impl BlockChain {
    /// The chain is never empty, every stored transaction decodes, and the
    /// pool holds no entry twice.
    pub closed spec fn wf(&self) -> bool {
        let v = self@;
        &&& v.chain.len() >= 1
        &&& forall|i: int, j: int|
            0 <= i < v.chain.len() && 0 <= j < v.chain[i].transactions.len() ==> (#[trigger] decode_tx(
                v.chain[i].transactions[j],
            )) is Ok
        &&& forall|k: int| 0 <= k < v.pool.len() ==> (#[trigger] decode_tx(v.pool[k])) is Ok
        &&& distinct(v.pool)
    }

    /// Number of blocks in the chain.
    pub fn len(&self) -> (r: usize)
        ensures
            r == self@.chain.len(),
    {
        self.chain.len()
    }

    /// The block at `index`; indexes past the end are a caller's error.
    pub fn block_at(&self, index: usize) -> (r: &Block)
        requires
            index < self@.chain.len(),
        ensures
            r@ == self@.chain[index as int],
    {
        &self.chain[index]
    }

    /// The most recently appended block.
    pub fn last_block(&self) -> (r: &Block)
        requires
            self.wf(),
        ensures
            r@ == self@.chain.last(),
    {
        &self.chain[self.chain.len() - 1]
    }

    /// The balance of `address`: credits minus debits over every transaction
    /// of every block, the system sender never debited; the pool is not
    /// consulted. The running total is held in the range of `i64`, so the
    /// result is the exact balance whenever that range is never left
    /// (`lemma_balance_exact`).
    pub fn calculate_total_amount(&self, address: String) -> (r: i64)
        ensures
            r as int == balance_of(self@.chain, addr_bytes(address@), addr_bytes(self@.system)),
    {
        let addr = address.as_str().as_bytes();
        let system = self.config.sender.as_bytes();
        let ghost blocks = self@.chain;
        let ghost a = addr@;
        let ghost sys = system@;
        let mut total: i64 = 0;
        let mut i: usize = 0;
        while i < self.chain.len()
            invariant
                blocks == self@.chain,
                a == addr@,
                sys == system@,
                a == addr_bytes(address@),
                sys == addr_bytes(self@.system),
                i <= blocks.len(),
                total as int == scan_balance(all_txs(blocks.subrange(0, i as int)), a, sys),
            decreases blocks.len() - i,
        {
            let block = &self.chain[i];
            let ghost txs = blocks[i as int].transactions;
            let ghost base = all_txs(blocks.subrange(0, i as int));
            assert(base + txs.subrange(0, 0) =~= base);
            let mut j: usize = 0;
            while j < block.transactions.len()
                invariant
                    a == addr@,
                    sys == system@,
                    block@.transactions == txs,
                    j <= txs.len(),
                    total as int == scan_balance(base + txs.subrange(0, j as int), a, sys),
                decreases txs.len() - j,
            {
                let t = &block.transactions[j];
                assert(txs[j as int] == t@);
                let mut delta: i128 = 0;
                match Transaction::deserialization(copy_bytes(t)) {
                    Ok(tx) => {
                        if bytes_equal(addr, tx.recipient_address.as_slice()) {
                            delta = delta + tx.value as i128;
                        }
                        if bytes_equal(addr, tx.sender_address.as_slice()) && !bytes_equal(
                            tx.sender_address.as_slice(),
                            system,
                        ) {
                            delta = delta - tx.value as i128;
                        }
                    },
                    Err(_) => {},
                }
                let next: i128 = total as i128 + delta;
                total = if next > i64::MAX as i128 {
                    i64::MAX
                } else if next < i64::MIN as i128 {
                    i64::MIN
                } else {
                    next as i64
                };
                proof {
                    let pre = base + txs.subrange(0, j as int);
                    let post = base + txs.subrange(0, j + 1);
                    assert(post.drop_last() =~= pre);
                    assert(post.last() == txs[j as int]);
                }
                j = j + 1;
            }
            proof {
                assert(txs.subrange(0, j as int) =~= txs);
                let next = blocks.subrange(0, i + 1);
                assert(next.drop_last() =~= blocks.subrange(0, i as int));
                assert(next.last() == blocks[i as int]);
            }
            i = i + 1;
        }
        assert(blocks.subrange(0, i as int) =~= blocks);
        total
    }

    /// Whether the pool holds exactly these bytes.
    fn pool_contains(&self, e: &[u8]) -> (r: bool)
        ensures
            r == self@.pool.contains(e@),
    {
        let ghost pool = self@.pool;
        let mut k: usize = 0;
        while k < self.transaction_pool.len()
            invariant
                pool == self@.pool,
                k <= pool.len(),
                forall|m: int| 0 <= m < k ==> pool[m] != e@,
            decreases pool.len() - k,
        {
            if bytes_equal(self.transaction_pool[k].as_slice(), e) {
                assert(pool[k as int] == e@);
                return true;
            }
            k = k + 1;
        }
        false
    }

    /// A copy of the pool, in order.
    fn pool_copy(&self) -> (r: Vec<Vec<u8>>)
        ensures
            views_of(r@) == self@.pool,
    {
        let ghost pool = self@.pool;
        let mut out: Vec<Vec<u8>> = Vec::new();
        let mut i: usize = 0;
        while i < self.transaction_pool.len()
            invariant
                pool == self@.pool,
                i <= pool.len(),
                views_of(out@) == pool.subrange(0, i as int),
            decreases pool.len() - i,
        {
            let c = copy_bytes(&self.transaction_pool[i]);
            assert(c@ == pool[i as int]);
            let ghost before = out@;
            out.push(c);
            proof {
                lemma_views_push(before, c);
            }
            i = i + 1;
            assert(views_of(out@) =~= pool.subrange(0, i as int));
        }
        assert(pool.subrange(0, i as int) =~= pool);
        out
    }

    /// Searches nonces from the block's own upward for the first whose hash
    /// meets `difficulty`, leaving the block at that nonce and returning the
    /// hash as hexadecimal text. The search is bounded by the nonce range:
    /// `None` when no nonce up to `i32::MAX` seals the block. Only the nonce
    /// changes.
    pub fn do_proof_of_work(block: &mut Block, difficulty: usize) -> (r: Option<String>)
        ensures
            final(block)@ == with_nonce(old(block)@, final(block).nonce),
            old(block).nonce <= final(block).nonce,
            forall|n: i32|
                old(block).nonce <= n < final(block).nonce ==> !seals(
                    old(block)@,
                    n,
                    difficulty as nat,
                ),
            match r {
                Some(h) => h@ == hex_lower(block_hash(final(block)@)) && seals(
                    old(block)@,
                    final(block).nonce,
                    difficulty as nat,
                ),
                None => forall|n: i32|
                    old(block).nonce <= n <= i32::MAX ==> !seals(old(block)@, n, difficulty as nat),
            },
    {
        let ghost start = block@;
        let ghost n0 = block.nonce;
        if difficulty > MAX_DIFFICULTY {
            assert(block@ == with_nonce(start, block.nonce));
            return None;
        }
        loop
            invariant
                start == old(block)@,
                n0 == old(block).nonce,
                block@ == with_nonce(start, block.nonce),
                n0 <= block.nonce,
                forall|n: i32| n0 <= n < block.nonce ==> !seals(start, n, difficulty as nat),
            decreases i32::MAX - block.nonce,
        {
            let h = block.hash();
            assert(with_nonce(start, block.nonce) == block@);
            if meets_difficulty(h.as_slice(), difficulty) {
                return Some(hex_encode(h.as_slice()));
            }
            if block.nonce == i32::MAX {
                return None;
            }
            block.increment_nonce();
            assert(block@ =~= with_nonce(start, block.nonce));
        }
    }

    /// Moves the whole pool, in order, into a new block linked to
    /// `previous_hash`, seals it by proof of work from `nonce` on, and
    /// appends it. The result is `false`, and nothing changes, exactly when
    /// no nonce from `nonce` on seals the block at its time stamp; at
    /// difficulty 0 every hash seals, so the block is always appended.
    pub fn create_block(&mut self, nonce: i32, previous_hash: Vec<u8>) -> (r: bool)
        requires
            old(self).wf(),
        ensures
            final(self).wf(),
            final(self)@.chain.len() >= 1,
            distinct(final(self)@.pool),
            same_settings(old(self)@, final(self)@),
            r ==> appended_sealed(old(self)@, final(self)@, old(self)@.pool, previous_hash@, nonce),
            r ==> distinct(final(self)@.chain.last().transactions),
            !r ==> final(self)@ == old(self)@,
            !r ==> unsealable(previous_hash@, old(self)@.pool, nonce, old(self)@.difficulty),
    {
        let mut b = Block::new(nonce, previous_hash);
        let ghost pool = self@.pool;
        b.transactions = self.pool_copy();
        let ghost sealed_from = b@;
        let proof_hash = BlockChain::do_proof_of_work(&mut b, self.config.difficulty);
        match proof_hash {
            None => {
                proof {
                    let t = sealed_from.time_stamp;
                    assert(sealed_from == BlockView {
                        nonce,
                        previous_hash: previous_hash@,
                        time_stamp: t,
                        transactions: pool,
                    });
                    assert(unsealable_at(previous_hash@, pool, nonce, t, self@.difficulty));
                }
                false
            },
            Some(_) => {
                let ghost old_chain = self@.chain;
                self.transaction_pool.clear();
                self.chain.push(b);
                proof {
                    let v = self@;
                    assert(v.chain =~= old_chain.push(b@));
                    assert(v.pool =~= Seq::<Seq<u8>>::empty());
                    assert(v.chain.drop_last() =~= old_chain);
                    assert forall|n: i32| nonce <= n < b.nonce implies !seals(
                        b@,
                        n,
                        v.difficulty,
                    ) by {
                        assert(sealed_from.nonce == nonce);
                        assert(!seals(sealed_from, n, self.config.difficulty as nat));
                        assert(with_nonce(b@, n) == with_nonce(sealed_from, n));
                    }
                    assert(with_nonce(sealed_from, b.nonce) == b@);
                    assert forall|i: int, j: int|
                        0 <= i < v.chain.len() && 0 <= j < v.chain[i].transactions.len() implies (
                        #[trigger] decode_tx(v.chain[i].transactions[j])) is Ok by {
                        if i == v.chain.len() - 1 {
                            assert(decode_tx(pool[j]) is Ok);
                        }
                    }
                }
                true
            },
        }
    }

    /// Offers `tx` to the pool, `signature_valid` saying whether its
    /// signature checks. On acceptance the encoded transfer is appended
    /// unless the same bytes are already pending.
    pub fn admit_transaction(&mut self, tx: &WalletTransaction, signature_valid: bool) -> (r: Result<
        (),
        Rejection,
    >)
        requires
            old(self).wf(),
        ensures
            final(self).wf(),
            final(self)@.chain.len() >= 1,
            distinct(final(self)@.pool),
            r == admission(old(self)@, old(self)@.system, *tx, signature_valid),
            r is Ok ==> final(self)@ == after_admission(old(self)@, *tx),
            r is Err ==> final(self)@ == old(self)@,
    {
        if tx.sender == self.blockchain_address {
            return Err(Rejection::SelfPayment);
        }
        let sender = tx.sender.as_str().as_bytes();
        let system = self.config.sender.as_bytes();
        let is_system = bytes_equal(sender, system);
        proof {
            encode_utf8_decode_utf8(tx.sender@);
            encode_utf8_decode_utf8(self@.system);
            assert(is_system == (tx.sender@ == self@.system));
        }
        if !is_system && !signature_valid {
            return Err(Rejection::InvalidSignature);
        }
        if !is_system {
            let balance = self.calculate_total_amount(tx.sender.clone());
            if (balance as i128) < (tx.amount as i128) {
                return Err(Rejection::InsufficientBalance);
            }
        }
        let e = encode_transfer(sender, tx.recipient.as_str().as_bytes(), tx.amount);
        let ghost pool = self@.pool;
        if self.pool_contains(e.as_slice()) {
            return Ok(());
        }
        assert(!pool.contains(e@));
        let ghost before = self@;
        let ghost raw = self.transaction_pool@;
        self.transaction_pool.push(e);
        proof {
            lemma_views_push(raw, e);
            let v = self@;
            assert(v.pool =~= pool.push(e@));
            assert(v.pool.drop_last() =~= pool);
            assert(v.chain =~= before.chain);
            assert forall|k: int| 0 <= k < v.pool.len() implies (#[trigger] decode_tx(v.pool[k])) is Ok by {
                if k < pool.len() {
                    assert(v.pool[k] == pool[k]);
                }
            }
        }
        Ok(())
    }

    /// Offers `tx` to the pool: false when the sender is the owner, when a
    /// sender other than the system's signature does not check or has a
    /// reported balance below the amount.
    pub fn add_transaction(&mut self, tx: &WalletTransaction) -> (r: bool)
        requires
            old(self).wf(),
        ensures
            final(self).wf(),
            final(self)@.chain.len() >= 1,
            distinct(final(self)@.pool),
            r == (admission(old(self)@, old(self)@.system, *tx, transaction_verifies(*tx)) is Ok),
            r ==> final(self)@ == after_admission(old(self)@, *tx),
            !r ==> final(self)@ == old(self)@,
    {
        let sender = tx.sender.as_str().as_bytes();
        let system = self.config.sender.as_bytes();
        let is_system = bytes_equal(sender, system);
        proof {
            encode_utf8_decode_utf8(tx.sender@);
            encode_utf8_decode_utf8(self@.system);
        }
        let signature_valid = if is_system {
            true
        } else {
            Wallet::verify_transaction(tx)
        };
        self.admit_transaction(tx, signature_valid).is_ok()
    }

    /// Pays the owner the reward: the reward transaction joins the pool
    /// without admission checks (unless the same bytes are pending), and the
    /// pool is sealed into a block linked to the last block's hash. The
    /// result is `false` exactly when no nonce from 0 on seals that block at
    /// its time stamp; the chain is then unchanged and the reward stays
    /// pending. At difficulty 0 mining always succeeds.
    pub fn mining(&mut self) -> (r: bool)
        requires
            old(self).wf(),
        ensures
            final(self).wf(),
            final(self)@.chain.len() >= 1,
            distinct(final(self)@.pool),
            same_settings(old(self)@, final(self)@),
            r ==> appended_sealed(
                old(self)@,
                final(self)@,
                pool_with(old(self)@.pool, reward_bytes(old(self)@)),
                block_hash(old(self)@.chain.last()),
                0,
            ),
            r ==> distinct(final(self)@.chain.last().transactions),
            !r ==> final(self)@.chain == old(self)@.chain,
            !r ==> final(self)@.pool == pool_with(old(self)@.pool, reward_bytes(old(self)@)),
            !r ==> unsealable(
                block_hash(old(self)@.chain.last()),
                pool_with(old(self)@.pool, reward_bytes(old(self)@)),
                0,
                old(self)@.difficulty,
            ),
    {
        let e = encode_transfer(
            self.config.sender.as_bytes(),
            self.blockchain_address.as_str().as_bytes(),
            self.config.reward,
        );
        let ghost pool = self@.pool;
        if !self.pool_contains(e.as_slice()) {
            let ghost raw = self.transaction_pool@;
            self.transaction_pool.push(e);
            proof {
                lemma_views_push(raw, e);
                let v = self@;
                assert(v.pool == pool.push(e@));
                assert(v.pool.drop_last() =~= pool);
                assert forall|k: int| 0 <= k < v.pool.len() implies (#[trigger] decode_tx(
                    v.pool[k],
                )) is Ok by {
                    if k < pool.len() {
                        assert(v.pool[k] == pool[k]);
                    }
                }
            }
        }
        assert(self@.pool == pool_with(pool, e@));
        let previous_hash = self.last_block().hash();
        self.create_block(0, previous_hash)
    }

    /// A ledger for `address` with `config`: a genesis block (nonce 0, 32
    /// zero bytes as previous hash, no transactions), then one mining round.
    /// The chain has two blocks, the second holding the owner's reward,
    /// unless no nonce seals that block (never at difficulty 0).
    pub fn new(config: Config, address: String) -> (r: BlockChain)
        ensures
            r.wf(),
            r@.chain.len() >= 1,
            distinct(r@.pool),
            r@.owner == address@,
            r@.system == config.sender@,
            r@.difficulty == config.difficulty as nat,
            r@.reward == config.reward,
            r@.chain[0].nonce == 0,
            r@.chain[0].previous_hash == Seq::new(32, |i: int| 0u8),
            r@.chain[0].transactions.len() == 0,
            1 <= r@.chain.len() <= 2,
            r@.chain.len() == 1 ==> unsealable(
                block_hash(r@.chain[0]),
                seq![reward_bytes(r@)],
                0,
                r@.difficulty,
            ),
            r@.chain.len() == 2 ==> r@.chain[1].transactions == seq![reward_bytes(r@)],
            r@.chain.len() == 2 ==> r@.chain[1].previous_hash == block_hash(r@.chain[0]),
            r@.chain.len() == 2 ==> meets_difficulty_spec(block_hash(r@.chain[1]), r@.difficulty),
            r@.chain.len() == 2 ==> r@.pool.len() == 0,
            r@.chain.len() == 2 ==> balance_of(
                r@.chain,
                addr_bytes(address@),
                addr_bytes(config.sender@),
            ) == clamp_i64(config.reward as int),
    {
        let mut zeros: Vec<u8> = Vec::new();
        let mut i: usize = 0;
        while i < 32
            invariant
                i <= 32,
                zeros@ == Seq::new(i as nat, |k: int| 0u8),
            decreases 32 - i,
        {
            zeros.push(0u8);
            i = i + 1;
            assert(zeros@ =~= Seq::new(i as nat, |k: int| 0u8));
        }
        let sender_len: usize = config.sender.as_bytes().len();
        let owner_len: usize = address.as_str().as_bytes().len();
        let mut bc = BlockChain {
            config,
            transaction_pool: Vec::new(),
            chain: Vec::new(),
            blockchain_address: address,
        };
        bc.chain.push(Block::new(0, zeros));
        proof {
            let v = bc@;
            assert(v.pool =~= Seq::<Seq<u8>>::empty());
            assert(v.chain.len() == 1);
            assert(v.chain[0].transactions =~= Seq::<Seq<u8>>::empty());
        }
        let ghost genesis = bc@.chain[0];
        let ghost c0 = bc@.chain;
        let ok = bc.mining();
        proof {
            let v = bc@;
            let e = reward_bytes(v);
            assert(pool_with(Seq::<Seq<u8>>::empty(), e) =~= seq![e]);
            if ok {
                assert(v.chain == c0.push(v.chain.last()));
                assert(v.chain[0] == c0[0]);
                lemma_transfer_decodes(addr_bytes(v.system), addr_bytes(v.owner), v.reward);
                lemma_reward_only_balance(v.chain, e, addr_bytes(v.owner), addr_bytes(v.system), v.reward);
            }
            assert(v.chain[0] == genesis);
        }
        bc
    }

    /// The first block that `search` finds, scanning from the genesis block;
    /// by index, the block at that position. An empty chain gives
    /// `FailOfEmptyBlocks`; a chain without such a block, the failure of
    /// that criterion with the key looked for.
    pub fn search_block(&self, search: BlockSearch) -> (r: BlockSearchResult<'_>)
        ensures
            self@.chain.len() == 0 ==> r is FailOfEmptyBlocks,
            self@.chain.len() > 0 ==> match r {
                BlockSearchResult::Success(b) => exists|j: int|
                    0 <= j < self@.chain.len() && #[trigger] self@.chain[j] == b@ && block_matches(
                        self@.chain[j],
                        j,
                        search,
                    ) && forall|k: int|
                        0 <= k < j ==> !block_matches(self@.chain[k], k, search),
                _ => not_found_for(search, r) && forall|j: int|
                    0 <= j < self@.chain.len() ==> !block_matches(self@.chain[j], j, search),
            },
    {
        let n: usize = self.chain.len();
        if n == 0 {
            return BlockSearchResult::FailOfEmptyBlocks;
        }
        if let BlockSearch::SearchByIndex(index) = search {
            if index < n {
                let b = &self.chain[index];
                assert(self@.chain[index as int] == b@);
                assert(block_matches(self@.chain[index as int], index as int, search));
                return BlockSearchResult::Success(b);
            }
            return BlockSearchResult::FailOfIndex(index);
        }
        let mut idx: usize = 0;
        while idx < n
            invariant
                n == self@.chain.len(),
                idx <= n,
                !(search is SearchByIndex),
                forall|k: int| 0 <= k < idx ==> !block_matches(self@.chain[k], k, search),
            decreases n - idx,
        {
            let block = &self.chain[idx];
            if block_found(block, &search) {
                assert(self@.chain[idx as int] == block@);
                assert(block_matches(self@.chain[idx as int], idx as int, search));
                return BlockSearchResult::Success(block);
            }
            idx = idx + 1;
        }
        match search {
            BlockSearch::SearchByIndex(index) => BlockSearchResult::FailOfIndex(index),
            BlockSearch::SearchByPreviousHash(h) => BlockSearchResult::FailOfPreviousHash(h),
            BlockSearch::SearchByBlockHash(h) => BlockSearchResult::FailOfBlockHash(h),
            BlockSearch::SearchByNonce(nonce) => BlockSearchResult::FailOfNonce(nonce),
            BlockSearch::SearchByTimeStamp(t) => BlockSearchResult::FailOfTimeStamp(t),
            BlockSearch::SearchByTransaction(t) => BlockSearchResult::FailOfTransaction(t),
        }
    }
}

/// A transaction whose sender is the ledger's owner is refused as a
/// self-payment, whatever its amount and signature.
pub proof fn lemma_owner_cannot_send(
    v: LedgerView,
    system: Seq<char>,
    t: WalletTransaction,
    signature_ok: bool,
)
    requires
        t.sender@ == v.owner,
    ensures
        admission(v, system, t, signature_ok) == Err::<(), Rejection>(Rejection::SelfPayment),
{
}

/// Offering the same transaction twice before mining leaves one copy in the
/// pool: the second offer is accepted and changes nothing.
pub proof fn lemma_admission_idempotent(
    v: LedgerView,
    system: Seq<char>,
    t: WalletTransaction,
    signature_ok: bool,
)
    requires
        admission(v, system, t, signature_ok) is Ok,
    ensures
        admission(after_admission(v, t), system, t, signature_ok) is Ok,
        after_admission(after_admission(v, t), t) == after_admission(v, t),
{
    let e = transfer_bytes(t.sender@, t.recipient@, t.amount);
    let w = after_admission(v, t);
    if !v.pool.contains(e) {
        assert(v.pool.push(e)[v.pool.len() as int] == e);
    }
    assert(w.pool.contains(e));
    assert(w.chain == v.chain);
}

/// A transaction from someone other than the owner, with a signature that
/// checks and a reported balance that covers the amount, is admitted: it is
/// then pending, and the next block that mining seals holds it.
pub proof fn lemma_admitted_transaction_is_mined(
    v: LedgerView,
    t: WalletTransaction,
    mined: LedgerView,
    previous_hash: Seq<u8>,
)
    requires
        t.sender@ != v.owner,
        t.sender@ == v.system || balance_of(v.chain, addr_bytes(t.sender@), addr_bytes(v.system))
            >= t.amount,
        appended_sealed(
            after_admission(v, t),
            mined,
            pool_with(after_admission(v, t).pool, reward_bytes(after_admission(v, t))),
            previous_hash,
            0,
        ),
    ensures
        admission(v, v.system, t, true) is Ok,
        after_admission(v, t).pool.contains(transfer_bytes(t.sender@, t.recipient@, t.amount)),
        mined.chain.last().transactions.contains(transfer_bytes(t.sender@, t.recipient@, t.amount)),
{
    let e = transfer_bytes(t.sender@, t.recipient@, t.amount);
    let w = after_admission(v, t);
    if !v.pool.contains(e) {
        assert(v.pool.push(e)[v.pool.len() as int] == e);
    }
    assert(w.pool.contains(e));
    let r = reward_bytes(w);
    if !w.pool.contains(r) {
        let k = choose|k: int| 0 <= k < w.pool.len() && w.pool[k] == e;
        assert(w.pool.push(r)[k] == e);
    }
}

proof fn lemma_balance_of_strangers(txs: Seq<Seq<u8>>, addr: Seq<u8>, system: Seq<u8>)
    requires
        forall|k: int|
            0 <= k < txs.len() ==> (decode_tx(#[trigger] txs[k]) matches Ok(t) ==> t.0 != addr && t.1
                != addr),
    ensures
        txs_balance(txs, addr, system) == 0,
    decreases txs.len(),
{
    if txs.len() > 0 {
        let init = txs.drop_last();
        assert forall|k: int| 0 <= k < init.len() implies (decode_tx(#[trigger] init[k]) matches Ok(t)
            ==> t.0 != addr && t.1 != addr) by {
            assert(init[k] == txs[k]);
        }
        lemma_balance_of_strangers(init, addr, system);
        assert(txs.last() == txs[txs.len() - 1]);
    }
}

/// A successful mining round raises the owner's balance by exactly the
/// reward, when the owner is not the system sender and no pending
/// transaction names the owner. (A `String` holds at most `usize::MAX`
/// bytes.)
pub proof fn lemma_mining_pays_owner(old: LedgerView, new: LedgerView, previous_hash: Seq<u8>)
    requires
        appended_sealed(old, new, pool_with(old.pool, reward_bytes(old)), previous_hash, 0),
        old.owner != old.system,
        addr_bytes(old.owner).len() <= usize::MAX,
        addr_bytes(old.system).len() <= usize::MAX,
        forall|k: int|
            0 <= k < old.pool.len() ==> (decode_tx(#[trigger] old.pool[k]) matches Ok(t) ==> t.0
                != addr_bytes(old.owner) && t.1 != addr_bytes(old.owner)),
    ensures
        chain_balance(new.chain, addr_bytes(old.owner), addr_bytes(old.system)) == chain_balance(
            old.chain,
            addr_bytes(old.owner),
            addr_bytes(old.system),
        ) + old.reward,
{
    let own = addr_bytes(old.owner);
    let sys = addr_bytes(old.system);
    let e = reward_bytes(old);
    lemma_transfer_decodes(sys, own, old.reward);
    encode_utf8_decode_utf8(old.owner);
    encode_utf8_decode_utf8(old.system);
    assert(own != sys);
    if old.pool.contains(e) {
        let k = choose|k: int| 0 <= k < old.pool.len() && old.pool[k] == e;
        assert(decode_tx(old.pool[k]) matches Ok(t) ==> t.1 != own);
    }
    let pool1 = old.pool.push(e);
    assert(pool1.drop_last() =~= old.pool);
    lemma_balance_of_strangers(old.pool, own, sys);
    assert(new.chain.drop_last() =~= old.chain);
    assert(tx_delta(e, own, sys) == old.reward as int);
}

/// What an encoded transaction mints: its amount when the system sends it.
pub open spec fn tx_minted(b: Seq<u8>, system: Seq<u8>) -> int {
    match decode_tx(b) {
        Ok(t) => if t.0 == system {
            t.2 as int
        } else {
            0
        },
        Err(_) => 0,
    }
}

pub open spec fn txs_minted(txs: Seq<Seq<u8>>, system: Seq<u8>) -> int
    decreases txs.len(),
{
    if txs.len() == 0 {
        0
    } else {
        txs_minted(txs.drop_last(), system) + tx_minted(txs.last(), system)
    }
}

/// All that the system has sent over the blocks: the money minted.
pub open spec fn chain_minted(blocks: Seq<BlockView>, system: Seq<u8>) -> int
    decreases blocks.len(),
{
    if blocks.len() == 0 {
        0
    } else {
        chain_minted(blocks.drop_last(), system) + txs_minted(blocks.last().transactions, system)
    }
}

/// The sum of `f` over a list of addresses.
pub open spec fn sum_over(addrs: Seq<Seq<u8>>, f: spec_fn(Seq<u8>) -> int) -> int
    decreases addrs.len(),
{
    if addrs.len() == 0 {
        0
    } else {
        sum_over(addrs.drop_last(), f) + f(addrs.last())
    }
}

/// Whether the list names the sender and the recipient of every transaction
/// in the blocks.
pub open spec fn names_every_party(addrs: Seq<Seq<u8>>, blocks: Seq<BlockView>) -> bool {
    forall|i: int, j: int|
        0 <= i < blocks.len() && 0 <= j < blocks[i].transactions.len() ==> match decode_tx(
            #[trigger] blocks[i].transactions[j],
        ) {
            Ok(t) => addrs.contains(t.0) && addrs.contains(t.1),
            Err(_) => true,
        }
}

proof fn lemma_sum_ext(addrs: Seq<Seq<u8>>, f: spec_fn(Seq<u8>) -> int, g: spec_fn(Seq<u8>) -> int)
    requires
        forall|a: Seq<u8>| #[trigger] f(a) == g(a),
    ensures
        sum_over(addrs, f) == sum_over(addrs, g),
    decreases addrs.len(),
{
    if addrs.len() > 0 {
        lemma_sum_ext(addrs.drop_last(), f, g);
    }
}

proof fn lemma_sum_zero(addrs: Seq<Seq<u8>>, f: spec_fn(Seq<u8>) -> int)
    requires
        forall|a: Seq<u8>| #[trigger] f(a) == 0,
    ensures
        sum_over(addrs, f) == 0,
    decreases addrs.len(),
{
    if addrs.len() > 0 {
        lemma_sum_zero(addrs.drop_last(), f);
    }
}

proof fn lemma_sum_add(addrs: Seq<Seq<u8>>, f: spec_fn(Seq<u8>) -> int, g: spec_fn(Seq<u8>) -> int)
    ensures
        sum_over(addrs, |a: Seq<u8>| f(a) + g(a)) == sum_over(addrs, f) + sum_over(addrs, g),
    decreases addrs.len(),
{
    if addrs.len() > 0 {
        lemma_sum_add(addrs.drop_last(), f, g);
    }
}

proof fn lemma_sum_indicator(addrs: Seq<Seq<u8>>, f: spec_fn(Seq<u8>) -> int, x: Seq<u8>, v: int)
    requires
        addrs.no_duplicates(),
        forall|a: Seq<u8>| #[trigger] f(a) == if a == x { v } else { 0 },
    ensures
        sum_over(addrs, f) == if addrs.contains(x) {
            v
        } else {
            0
        },
    decreases addrs.len(),
{
    if addrs.len() > 0 {
        let init = addrs.drop_last();
        assert(init.no_duplicates());
        lemma_sum_indicator(init, f, x, v);
        if init.contains(x) {
            let k = choose|k: int| 0 <= k < init.len() && init[k] == x;
            assert(addrs[k] == x);
            assert(addrs.last() != x);
        }
        if addrs.last() == x {
            assert(addrs.contains(x));
        } else if addrs.contains(x) {
            let k = choose|k: int| 0 <= k < addrs.len() && addrs[k] == x;
            assert(init[k] == x);
        }
    }
}

proof fn lemma_sum_delta(b: Seq<u8>, addrs: Seq<Seq<u8>>, system: Seq<u8>)
    requires
        addrs.no_duplicates(),
        decode_tx(b) matches Ok(t) ==> addrs.contains(t.0) && addrs.contains(t.1),
    ensures
        sum_over(addrs, |a: Seq<u8>| tx_delta(b, a, system)) == tx_minted(b, system),
{
    let f = |a: Seq<u8>| tx_delta(b, a, system);
    match decode_tx(b) {
        Ok(t) => {
            let v = t.2 as int;
            let d = if t.0 != system { -v } else { 0 };
            let credit = |a: Seq<u8>| if a == t.1 { v } else { 0 };
            let debit = |a: Seq<u8>| if a == t.0 { d } else { 0 };
            let cd = |a: Seq<u8>| credit(a) + debit(a);
            assert forall|a: Seq<u8>| #[trigger] f(a) == cd(a) by {}
            lemma_sum_ext(addrs, f, cd);
            lemma_sum_add(addrs, credit, debit);
            lemma_sum_indicator(addrs, credit, t.1, v);
            lemma_sum_indicator(addrs, debit, t.0, d);
            assert(sum_over(addrs, credit) == v);
            assert(sum_over(addrs, debit) == d);
            assert(sum_over(addrs, f) == v + d);
        },
        Err(_) => {
            lemma_sum_zero(addrs, f);
        },
    }
}

proof fn lemma_sum_txs(txs: Seq<Seq<u8>>, addrs: Seq<Seq<u8>>, system: Seq<u8>)
    requires
        addrs.no_duplicates(),
        forall|j: int|
            0 <= j < txs.len() ==> (decode_tx(#[trigger] txs[j]) matches Ok(t) ==> addrs.contains(
                t.0,
            ) && addrs.contains(t.1)),
    ensures
        sum_over(addrs, |a: Seq<u8>| txs_balance(txs, a, system)) == txs_minted(txs, system),
    decreases txs.len(),
{
    let f = |a: Seq<u8>| txs_balance(txs, a, system);
    if txs.len() == 0 {
        lemma_sum_zero(addrs, f);
    } else {
        let init = txs.drop_last();
        assert forall|j: int| 0 <= j < init.len() implies (decode_tx(#[trigger] init[j]) matches Ok(t)
            ==> addrs.contains(t.0) && addrs.contains(t.1)) by {
            assert(init[j] == txs[j]);
        }
        lemma_sum_txs(init, addrs, system);
        let g = |a: Seq<u8>| txs_balance(init, a, system);
        let h = |a: Seq<u8>| tx_delta(txs.last(), a, system);
        lemma_sum_ext(addrs, f, |a: Seq<u8>| g(a) + h(a));
        lemma_sum_add(addrs, g, h);
        assert(txs.last() == txs[txs.len() - 1]);
        lemma_sum_delta(txs.last(), addrs, system);
    }
}

/// Conservation: over a duplicate-free list of addresses that names every
/// sender and recipient in the chain, the balances add up to what the
/// system sender minted. Transfers between addresses move money and never
/// make any; only the system's transactions, which debit no one, add to it.
pub proof fn lemma_conservation(blocks: Seq<BlockView>, addrs: Seq<Seq<u8>>, system: Seq<u8>)
    requires
        addrs.no_duplicates(),
        names_every_party(addrs, blocks),
    ensures
        sum_over(addrs, |a: Seq<u8>| chain_balance(blocks, a, system)) == chain_minted(blocks, system),
    decreases blocks.len(),
{
    let f = |a: Seq<u8>| chain_balance(blocks, a, system);
    if blocks.len() == 0 {
        lemma_sum_zero(addrs, f);
    } else {
        let init = blocks.drop_last();
        let last = blocks.last();
        assert forall|i: int, j: int|
            0 <= i < init.len() && 0 <= j < init[i].transactions.len() implies match decode_tx(
            #[trigger] init[i].transactions[j],
        ) {
            Ok(t) => addrs.contains(t.0) && addrs.contains(t.1),
            Err(_) => true,
        } by {
            assert(init[i] == blocks[i]);
            assert(blocks[i].transactions[j] == init[i].transactions[j]);
        }
        lemma_conservation(init, addrs, system);
        assert forall|j: int| 0 <= j < last.transactions.len() implies (decode_tx(
            #[trigger] last.transactions[j],
        ) matches Ok(t) ==> addrs.contains(t.0) && addrs.contains(t.1)) by {
            assert(blocks[blocks.len() - 1].transactions[j] == last.transactions[j]);
        }
        lemma_sum_txs(last.transactions, addrs, system);
        let g = |a: Seq<u8>| chain_balance(init, a, system);
        let h = |a: Seq<u8>| txs_balance(last.transactions, a, system);
        lemma_sum_ext(addrs, f, |a: Seq<u8>| g(a) + h(a));
        lemma_sum_add(addrs, g, h);
    }
}

/// When the genesis block mints nothing and every later block mints
/// exactly `reward` (its reward transaction and no other from the system),
/// the chain has minted `reward` times the number of mined blocks.
pub proof fn lemma_minted_by_rewards(blocks: Seq<BlockView>, system: Seq<u8>, reward: u64)
    requires
        blocks.len() >= 1,
        txs_minted(blocks[0].transactions, system) == 0,
        forall|i: int|
            1 <= i < blocks.len() ==> txs_minted(#[trigger] blocks[i].transactions, system) == reward,
    ensures
        chain_minted(blocks, system) == reward * (blocks.len() - 1),
    decreases blocks.len(),
{
    let init = blocks.drop_last();
    if blocks.len() == 1 {
        assert(init.len() == 0);
        assert(chain_minted(init, system) == 0);
        assert(blocks.last() == blocks[0]);
    } else {
        assert forall|i: int| 1 <= i < init.len() implies txs_minted(
            #[trigger] init[i].transactions,
            system,
        ) == reward by {
            assert(init[i] == blocks[i]);
        }
        assert(init[0] == blocks[0]);
        lemma_minted_by_rewards(init, system, reward);
        assert(blocks.last() == blocks[blocks.len() - 1]);
        assert(reward * (init.len() - 1) + reward == reward * (blocks.len() - 1)) by (nonlinear_arith)
            requires
                init.len() == blocks.len() - 1,
        ;
    }
}

/// Whether the block holds exactly these transaction bytes.
fn holds_transaction(block: &Block, t: &[u8]) -> (r: bool)
    ensures
        r == block@.transactions.contains(t@),
{
    let ghost txs = block@.transactions;
    let mut i: usize = 0;
    while i < block.transactions.len()
        invariant
            i <= txs.len(),
            txs == block@.transactions,
            forall|k: int| 0 <= k < i ==> txs[k] != t@,
        decreases txs.len() - i,
    {
        if bytes_equal(block.transactions[i].as_slice(), t) {
            assert(txs[i as int] == t@);
            return true;
        }
        i = i + 1;
    }
    false
}

/// Whether `block` is what a search other than by index looks for.
fn block_found(block: &Block, search: &BlockSearch) -> (r: bool)
    requires
        !(*search is SearchByIndex),
    ensures
        forall|idx: int| r == block_matches(block@, idx, *search),
{
    match search {
        BlockSearch::SearchByIndex(_) => false,
        BlockSearch::SearchByPreviousHash(h) => bytes_equal(
            block.previous_hash.as_slice(),
            h.as_slice(),
        ),
        BlockSearch::SearchByBlockHash(h) => {
            let hash = block.hash();
            bytes_equal(hash.as_slice(), h.as_slice())
        },
        BlockSearch::SearchByNonce(nonce) => block.nonce == *nonce,
        BlockSearch::SearchByTimeStamp(t) => block.time_stamp == *t,
        BlockSearch::SearchByTransaction(t) => holds_transaction(block, t.as_slice()),
    }
}

} // verus!
