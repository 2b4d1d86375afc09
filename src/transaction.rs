//! The ledger's transaction record and its byte layout: an 8-byte big-endian
//! length and the sender's bytes, the same for the recipient, then the amount
//! as 8 big-endian bytes.
use crate::bytes::{
    append_bytes, be_bytes, be_value, bytes_equal, lemma_be_bytes_len, lemma_be_bytes_of_value,
    lemma_be_round_trip, lemma_be_value_bound, lemma_pow256_8, pow256, push_be, read_be_u64,
};
use vstd::prelude::*;

verus! {

/// Why a byte string is not the layout of a transaction.
#[derive(Clone, Copy, Debug, PartialEq, Eq, Structural)]
pub enum DecodeError {
    /// The bytes end before a length field, a payload or the amount is complete.
    Truncated,
    /// Bytes follow the amount.
    TrailingBytes,
}

/// Turning a value into bytes and back.
pub trait Serialization<T: View>: Sized + View {
    /// The bytes written for a value with view `v`.
    spec fn spec_encode(v: Self::V) -> Seq<u8>;

    /// What reading `b` gives: a value's view or an error.
    spec fn spec_decode(b: Seq<u8>) -> Result<T::V, DecodeError>;

    fn serialization(&self) -> (r: Vec<u8>)
        ensures
            r@ == Self::spec_encode(self@),
    ;

    fn deserialization(bytes: Vec<u8>) -> (r: Result<T, DecodeError>)
        ensures
            match r {
                Ok(t) => Self::spec_decode(bytes@) == Ok::<T::V, DecodeError>(t@),
                Err(e) => Self::spec_decode(bytes@) == Err::<T::V, DecodeError>(e),
            },
    ;
}

/// A transfer of `value` from one address to another, addresses as raw bytes.
#[derive(Clone, Debug)]
pub struct Transaction {
    pub sender_address: Vec<u8>,
    pub recipient_address: Vec<u8>,
    pub value: u64,
}

/// Sender, recipient and amount.
pub type TxView = (Seq<u8>, Seq<u8>, u64);

impl View for Transaction {
    type V = TxView;

    open spec fn view(&self) -> TxView {
        (self.sender_address@, self.recipient_address@, self.value)
    }
}

/// The byte layout of a transaction.
pub open spec fn encode_tx(t: TxView) -> Seq<u8> {
    be_bytes(t.0.len(), 8) + t.0 + be_bytes(t.1.len(), 8) + t.1 + be_bytes(t.2 as nat, 8)
}

/// Reading a transaction from `b`, fields in order, each length checked
/// against what is left.
pub open spec fn decode_tx(b: Seq<u8>) -> Result<TxView, DecodeError> {
    if b.len() < 8 {
        Err(DecodeError::Truncated)
    } else {
        let ls = be_value(b.subrange(0, 8));
        let recipient_at: int = 8 + ls as int;
        if b.len() < recipient_at + 8 {
            Err(DecodeError::Truncated)
        } else {
            let lr = be_value(b.subrange(recipient_at, recipient_at + 8));
            let amount_at: int = recipient_at + 8 + lr;
            if b.len() < amount_at + 8 {
                Err(DecodeError::Truncated)
            } else if b.len() > amount_at + 8 {
                Err(DecodeError::TrailingBytes)
            } else {
                Ok(
                    (
                        b.subrange(8, recipient_at),
                        b.subrange(recipient_at + 8, amount_at),
                        be_value(b.subrange(amount_at, amount_at + 8)) as u64,
                    ),
                )
            }
        }
    }
}

/// Reading the bytes written for a transaction gives that transaction back.
pub proof fn lemma_decode_encode(t: TxView)
    requires
        t.0.len() < pow256(8),
        t.1.len() < pow256(8),
    ensures
        decode_tx(encode_tx(t)) == Ok::<TxView, DecodeError>(t),
{
    let b = encode_tx(t);
    lemma_pow256_8();
    lemma_be_bytes_len(t.0.len(), 8);
    lemma_be_bytes_len(t.1.len(), 8);
    lemma_be_bytes_len(t.2 as nat, 8);
    lemma_be_round_trip(t.0.len(), 8);
    lemma_be_round_trip(t.1.len(), 8);
    lemma_be_round_trip(t.2 as nat, 8);
    let recipient_at: int = 8 + t.0.len() as int;
    let amount_at: int = recipient_at + 8 + t.1.len();
    assert(b.subrange(0, 8) =~= be_bytes(t.0.len(), 8));
    assert(b.subrange(8, recipient_at) =~= t.0);
    assert(b.subrange(recipient_at, recipient_at + 8) =~= be_bytes(t.1.len(), 8));
    assert(b.subrange(recipient_at + 8, amount_at) =~= t.1);
    assert(b.subrange(amount_at, amount_at + 8) =~= be_bytes(t.2 as nat, 8));
}

/// A byte string that reads as a transaction is exactly the layout of that
/// transaction: no two byte strings read as the same transaction.
pub proof fn lemma_encode_decode(b: Seq<u8>)
    requires
        decode_tx(b) is Ok,
    ensures
        encode_tx(decode_tx(b)->Ok_0) == b,
{
    let t = decode_tx(b)->Ok_0;
    let ls = be_value(b.subrange(0, 8));
    let recipient_at: int = 8 + ls as int;
    let lr = be_value(b.subrange(recipient_at, recipient_at + 8));
    let amount_at: int = recipient_at + 8 + lr;
    lemma_pow256_8();
    lemma_be_value_bound(b.subrange(amount_at, amount_at + 8));
    lemma_be_bytes_of_value(b.subrange(0, 8));
    lemma_be_bytes_of_value(b.subrange(recipient_at, recipient_at + 8));
    lemma_be_bytes_of_value(b.subrange(amount_at, amount_at + 8));
    assert(t.0.len() == ls);
    assert(t.1.len() == lr);
    assert(encode_tx(t) =~= b);
}

/// Decoding the encoding of any transaction gives that transaction back.
/// (A vector's length is a `usize`.)
pub proof fn lemma_codec_round_trip(tx: Transaction)
    requires
        tx.sender_address@.len() <= usize::MAX,
        tx.recipient_address@.len() <= usize::MAX,
    ensures
        decode_tx(encode_tx(tx@)) == Ok::<TxView, DecodeError>(tx@),
{
    lemma_pow256_8();
    lemma_decode_encode(tx@);
}

impl Transaction {
    pub fn new(sender: Vec<u8>, recipient: Vec<u8>, value: u64) -> (r: Transaction)
        ensures
            r@ == (sender@, recipient@, value),
    {
        Transaction { sender_address: sender, recipient_address: recipient, value }
    }
}

fn copy_range(s: &Vec<u8>, start: usize, end: usize) -> (r: Vec<u8>)
    requires
        start <= end <= s@.len(),
    ensures
        r@ == s@.subrange(start as int, end as int),
{
    let mut r: Vec<u8> = Vec::new();
    let mut i: usize = start;
    while i < end
        invariant
            start <= i <= end <= s@.len(),
            r@ == s@.subrange(start as int, i as int),
        decreases end - i,
    {
        r.push(s[i]);
        i = i + 1;
        assert(r@ =~= s@.subrange(start as int, i as int));
    }
    r
}

impl Serialization<Transaction> for Transaction {
    open spec fn spec_encode(v: TxView) -> Seq<u8> {
        encode_tx(v)
    }

    open spec fn spec_decode(b: Seq<u8>) -> Result<TxView, DecodeError> {
        decode_tx(b)
    }

    fn serialization(&self) -> (r: Vec<u8>) {
        let mut bin: Vec<u8> = Vec::new();
        push_be(&mut bin, self.sender_address.len() as u128, 8);
        append_bytes(&mut bin, self.sender_address.as_slice());
        push_be(&mut bin, self.recipient_address.len() as u128, 8);
        append_bytes(&mut bin, self.recipient_address.as_slice());
        push_be(&mut bin, self.value as u128, 8);
        assert(bin@ =~= encode_tx(self@));
        bin
    }

    fn deserialization(bytes: Vec<u8>) -> (r: Result<Transaction, DecodeError>) {
        let b = &bytes;
        let n: usize = b.len();
        if n < 8 {
            return Err(DecodeError::Truncated);
        }
        let ls: u64 = read_be_u64(b, 0, 8);
        let rest: usize = n - 8;
        if (rest as u64) < ls || rest - (ls as usize) < 8 {
            return Err(DecodeError::Truncated);
        }
        let recipient_at: usize = 8 + ls as usize;
        let lr: u64 = read_be_u64(b, recipient_at, 8);
        let rest2: usize = n - recipient_at - 8;
        if (rest2 as u64) < lr || rest2 - (lr as usize) < 8 {
            return Err(DecodeError::Truncated);
        }
        let amount_at: usize = recipient_at + 8 + lr as usize;
        if n - amount_at > 8 {
            return Err(DecodeError::TrailingBytes);
        }
        let value: u64 = read_be_u64(b, amount_at, 8);
        let sender = copy_range(b, 8, recipient_at);
        let recipient = copy_range(b, recipient_at + 8, amount_at);
        proof {
            lemma_pow256_8();
            lemma_be_value_bound(b@.subrange(amount_at as int, amount_at + 8));
        }
        Ok(Transaction { sender_address: sender, recipient_address: recipient, value })
    }
}

impl PartialEq for Transaction {
    fn eq(&self, other: &Transaction) -> (r: bool) {
        self.value == other.value && bytes_equal(
            self.sender_address.as_slice(),
            other.sender_address.as_slice(),
        ) && bytes_equal(self.recipient_address.as_slice(), other.recipient_address.as_slice())
    }
}

impl vstd::std_specs::cmp::PartialEqSpecImpl for Transaction {
    open spec fn obeys_eq_spec() -> bool {
        true
    }

    open spec fn eq_spec(&self, other: &Transaction) -> bool {
        self@ == other@
    }
}

} // verus!
