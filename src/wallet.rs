//! A P-256 key pair with the address derived from its public key, and the
//! signed transactions it produces.
//!
//! The address of a public point `x || y` is Base58 of
//! `0x00 || RIPEMD-160(SHA-256(x || y)) || checksum`, where the checksum is the
//! first four bytes of SHA-256 applied twice to the 21 bytes before it.
//!
//! A signature covers the signing message of a transaction: its JSON object
//! with the fields `sender`, `recipient`, `amount`, `public_key` and
//! `signature` in that order, the signature empty, as `serde_json` writes
//! it (no spaces, strings quoted and escaped, the amount in decimal), in
//! UTF-8.
use crate::bytes::append_bytes;
use crate::crypto::{
    base58, base58_of, generate_key_pair, hex_decode, hex_encode, hex_lower, json_string,
    json_text_of, lemma_unhex_hex_lower, p256_accepts, p256_public_key_of, p256_signature_of,
    ripemd160, ripemd160_of, sha256, sha256_of, sign_message, signature_verifies, unhex,
};
use vstd::prelude::*;
use vstd::utf8::encode_utf8;

verus! {

/// A transfer between two addresses as a wallet signs it: the public key and
/// the signature are lowercase hexadecimal text.
#[derive(Clone, Debug)]
pub struct Transaction {
    pub sender: String,
    pub recipient: String,
    pub amount: u64,
    pub public_key: String,
    pub signature: String,
}

/// A wallet's secret scalar, its public point and its address.
pub struct Wallet {
    secret_key: Vec<u8>,
    public_key: Vec<u8>,
    address: String,
}

/// The decimal digits of `n`, as ASCII bytes, most significant first.
pub open spec fn decimal_bytes(n: nat) -> Seq<u8>
    decreases n,
{
    if n < 10 {
        seq![(48 + n) as u8]
    } else {
        decimal_bytes(n / 10).push((48 + n % 10) as u8)
    }
}

/// The UTF-8 bytes of the JSON string literal of a text.
pub open spec fn json_bytes(text: Seq<char>) -> Seq<u8> {
    encode_utf8(json_text_of(text))
}

/// The bytes that a signature over `t` covers: the JSON object of `t` with
/// an empty signature.
pub open spec fn signing_message(t: Transaction) -> Seq<u8> {
    encode_utf8("{\"sender\":"@) + json_bytes(t.sender@) + encode_utf8(",\"recipient\":"@)
        + json_bytes(t.recipient@) + encode_utf8(",\"amount\":"@) + decimal_bytes(t.amount as nat)
        + encode_utf8(",\"public_key\":"@) + json_bytes(t.public_key@) + encode_utf8(
        ",\"signature\":"@,
    ) + json_bytes(""@) + encode_utf8("}"@)
}

/// The signature field that signing a message produces: the hexadecimal
/// text of the signature, or empty when signing fails.
pub open spec fn signature_text(secret: Seq<u8>, message: Seq<u8>) -> Seq<char> {
    match p256_signature_of(secret, message) {
        Some(s) => hex_lower(s),
        None => Seq::empty(),
    }
}

/// `0x00` followed by the 20-byte key hash.
pub open spec fn versioned_spec(key_hash: Seq<u8>) -> Seq<u8> {
    seq![0u8] + key_hash
}

/// The address of a public point.
pub open spec fn address_of(public_key: Seq<u8>) -> Seq<char> {
    let payload = versioned_spec(ripemd160_of(sha256_of(public_key)));
    base58_of(payload + sha256_of(sha256_of(payload)).subrange(0, 4))
}

/// Whether `t` carries a signature that checks: the signature is hexadecimal
/// text of 64 bytes, the public key is hexadecimal text, and ECDSA accepts
/// the signature over the signing message under the key `0x04 || public key`.
pub open spec fn transaction_verifies(t: Transaction) -> bool {
    match unhex(encode_utf8(t.signature@)) {
        Some(sig) => sig.len() == 64 && match unhex(encode_utf8(t.public_key@)) {
            Some(pk) => p256_accepts(seq![4u8] + pk, signing_message(t), sig),
            None => false,
        },
        None => false,
    }
}

/// Appends the decimal digits of `n`.
fn push_decimal(out: &mut Vec<u8>, n: u64)
    ensures
        final(out)@ == old(out)@ + decimal_bytes(n as nat),
    decreases n,
{
    if n >= 10 {
        push_decimal(out, n / 10);
    }
    out.push((48 + n % 10) as u8);
    assert(final(out)@ =~= old(out)@ + decimal_bytes(n as nat));
}

/// Appends the UTF-8 bytes of a text.
fn push_text(out: &mut Vec<u8>, text: &str)
    ensures
        final(out)@ == old(out)@ + encode_utf8(text@),
{
    append_bytes(out, text.as_bytes());
}

/// Appends the JSON string literal of a text.
fn push_json_string(out: &mut Vec<u8>, text: &str)
    ensures
        final(out)@ == old(out)@ + json_bytes(text@),
{
    match json_string(text) {
        Ok(quoted) => append_bytes(out, quoted.as_str().as_bytes()),
        Err(_) => {
            proof {
                assert(false);
            }
        },
    }
}

impl Transaction {
    /// The bytes that a signature over this transaction covers.
    pub fn signing_bytes(&self) -> (r: Vec<u8>)
        ensures
            r@ == signing_message(*self),
    {
        let mut out: Vec<u8> = Vec::new();
        push_text(&mut out, "{\"sender\":");
        push_json_string(&mut out, self.sender.as_str());
        push_text(&mut out, ",\"recipient\":");
        push_json_string(&mut out, self.recipient.as_str());
        push_text(&mut out, ",\"amount\":");
        push_decimal(&mut out, self.amount);
        push_text(&mut out, ",\"public_key\":");
        push_json_string(&mut out, self.public_key.as_str());
        push_text(&mut out, ",\"signature\":");
        push_json_string(&mut out, "");
        push_text(&mut out, "}");
        assert(out@ =~= signing_message(*self));
        out
    }
}

/// `0x00` followed by the key hash.
pub fn versioned_key_hash(key_hash: &[u8]) -> (r: Vec<u8>)
    ensures
        r@ == versioned_spec(key_hash@),
{
    let mut out: Vec<u8> = Vec::new();
    out.push(0u8);
    append_bytes(&mut out, key_hash);
    assert(out@ =~= versioned_spec(key_hash@));
    out
}

/// The payload followed by the first four bytes of the checksum digest.
pub fn append_checksum(payload: &[u8], digest: &[u8]) -> (r: Vec<u8>)
    requires
        digest@.len() >= 4,
    ensures
        r@ == payload@ + digest@.subrange(0, 4),
{
    let mut out: Vec<u8> = Vec::new();
    append_bytes(&mut out, payload);
    let mut i: usize = 0;
    while i < 4
        invariant
            i <= 4 <= digest@.len(),
            out@ == payload@ + digest@.subrange(0, i as int),
        decreases 4 - i,
    {
        out.push(digest[i]);
        i = i + 1;
        assert(out@ =~= payload@ + digest@.subrange(0, i as int));
    }
    out
}

/// The address of a public point `x || y`.
pub fn address_from_public_key(public_key: &[u8]) -> (r: String)
    ensures
        r@ == address_of(public_key@),
{
    let digest = sha256(public_key);
    let key_hash = ripemd160(digest.as_slice());
    let payload = versioned_key_hash(key_hash.as_slice());
    let first = sha256(payload.as_slice());
    let second = sha256(first.as_slice());
    let full = append_checksum(payload.as_slice(), second.as_slice());
    base58(full.as_slice())
}

impl Wallet {
    /// The wallet holds a 32-byte secret, its 64-byte public point and the
    /// address of that point.
    pub closed spec fn wf(&self) -> bool {
        &&& self.secret_key@.len() == 32
        &&& self.public_key@ == p256_public_key_of(self.secret_key@)
        &&& self.public_key@.len() == 64
        &&& self.address@ == address_of(self.public_key@)
    }

    pub closed spec fn secret_view(&self) -> Seq<u8> {
        self.secret_key@
    }

    pub closed spec fn public_view(&self) -> Seq<u8> {
        self.public_key@
    }

    pub closed spec fn address_view(&self) -> Seq<char> {
        self.address@
    }

    /// A wallet with a fresh random key pair; `None` when the operating
    /// system's random source fails.
    pub fn new() -> (r: Option<Wallet>)
        ensures
            r matches Some(w) ==> {
                &&& w.wf()
                &&& w.secret_view().len() == 32
                &&& w.public_view() == p256_public_key_of(w.secret_view())
                &&& w.public_view().len() == 64
                &&& w.address_view() == address_of(w.public_view())
            },
    {
        let (secret_key, public_key) = match generate_key_pair() {
            Some(p) => p,
            None => return None,
        };
        let address = address_from_public_key(public_key.as_slice());
        Some(Wallet { secret_key, public_key, address })
    }

    /// The secret scalar as lowercase hexadecimal text.
    pub fn private_key_str(&self) -> (r: String)
        requires
            self.wf(),
        ensures
            r@ == hex_lower(self.secret_view()),
            r@.len() == 64,
    {
        hex_encode(self.secret_key.as_slice())
    }

    /// The public point as hexadecimal text: `hex(x)` then `hex(y)`, with no
    /// format byte.
    pub fn public_key_str(&self) -> (r: String)
        requires
            self.wf(),
        ensures
            r@ == hex_lower(self.public_view()),
            r@.len() == 128,
    {
        hex_encode(self.public_key.as_slice())
    }

    pub fn get_address(&self) -> (r: String)
        ensures
            r@ == self.address_view(),
    {
        self.address.clone()
    }

    /// A transaction from this wallet's address, signed over its signing
    /// message. The signature is the hexadecimal text of the key's signature,
    /// which then checks (`verify_transaction` gives `true`); it is empty
    /// only in the case, which the key's validity leaves to a zero `r` or `s`,
    /// where signing fails.
    pub fn sign_transaction(&self, reciever: &String, amount: u64) -> (r: Transaction)
        requires
            self.wf(),
        ensures
            r.sender@ == self.address_view(),
            r.recipient@ == reciever@,
            r.amount == amount,
            r.public_key@ == hex_lower(self.public_view()),
            r.signature@ == signature_text(self.secret_view(), signing_message(r)),
            p256_signature_of(self.secret_view(), signing_message(r)) is Some ==> r.signature@.len()
                == 128 && transaction_verifies(r),
    {
        let mut transaction = Transaction {
            sender: self.address.clone(),
            recipient: reciever.clone(),
            amount,
            public_key: self.public_key_str(),
            signature: String::new(),
        };
        let message = transaction.signing_bytes();
        let ghost unsigned = transaction;
        match sign_message(self.secret_key.as_slice(), message.as_slice()) {
            Some(sig) => {
                transaction.signature = hex_encode(sig.as_slice());
                proof {
                    assert(signing_message(transaction) == signing_message(unsigned));
                    lemma_unhex_hex_lower(sig@);
                    lemma_unhex_hex_lower(self.public_key@);
                }
            },
            None => {},
        }
        transaction
    }

    /// Whether the transaction's signature checks against its own public key
    /// over its signing message. Malformed text gives `false`.
    pub fn verify_transaction(transaction: &Transaction) -> (r: bool)
        ensures
            r == transaction_verifies(*transaction),
    {
        let sig = match hex_decode(transaction.signature.as_str().as_bytes()) {
            Ok(s) => s,
            Err(_) => return false,
        };
        if sig.len() != 64 {
            return false;
        }
        let key = match hex_decode(transaction.public_key.as_str().as_bytes()) {
            Ok(k) => k,
            Err(_) => return false,
        };
        let mut sec1: Vec<u8> = Vec::new();
        sec1.push(4u8);
        append_bytes(&mut sec1, key.as_slice());
        assert(sec1@ =~= seq![4u8] + key@);
        let message = transaction.signing_bytes();
        signature_verifies(sec1.as_slice(), message.as_slice(), sig.as_slice())
    }
}

} // verus!
