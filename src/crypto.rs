//! The calls into the hashing, encoding and elliptic-curve crates, each with
//! the contract that the library relies on, and the exact rules of the
//! hexadecimal encoding.
use vstd::prelude::*;
use vstd::utf8::{encode_utf8, is_ascii_chars, is_ascii_chars_encode_utf8};

verus! {

/// SHA-256 of a byte string.
pub uninterp spec fn sha256_of(data: Seq<u8>) -> Seq<u8>;

/// RIPEMD-160 of a byte string.
pub uninterp spec fn ripemd160_of(data: Seq<u8>) -> Seq<u8>;

/// The Base58 text (Bitcoin alphabet) of a byte string.
pub uninterp spec fn base58_of(data: Seq<u8>) -> Seq<char>;

/// The uncompressed P-256 public point, `x` then `y`, of a secret scalar.
pub uninterp spec fn p256_public_key_of(secret: Seq<u8>) -> Seq<u8>;

/// The deterministic (RFC 6979) ECDSA P-256 signature, `r` then `s`, of a
/// message under a secret scalar; `None` when the bytes are no valid scalar
/// or signing fails.
pub uninterp spec fn p256_signature_of(secret: Seq<u8>, message: Seq<u8>) -> Option<Seq<u8>>;

/// Whether an ECDSA P-256 signature over a message checks against a
/// SEC1-encoded public key.
pub uninterp spec fn p256_accepts(public_sec1: Seq<u8>, message: Seq<u8>, signature: Seq<u8>) -> bool;

/// The JSON string literal (quoted and escaped) of a text.
pub uninterp spec fn json_text_of(text: Seq<char>) -> Seq<char>;

/// The lowercase hexadecimal digit of a value below 16.
pub open spec fn hex_digit(n: u8) -> char {
    seq!['0', '1', '2', '3', '4', '5', '6', '7', '8', '9', 'a', 'b', 'c', 'd', 'e', 'f'][n as int]
}

/// Lowercase hexadecimal text of a byte string: two digits per byte, the
/// high half first.
pub open spec fn hex_lower(b: Seq<u8>) -> Seq<char> {
    Seq::new(
        2 * b.len(),
        |i: int|
            if i % 2 == 0 {
                hex_digit(b[i / 2] / 16)
            } else {
                hex_digit(b[i / 2] % 16)
            },
    )
}

/// The value of one hexadecimal digit, either case, given as an ASCII byte.
pub open spec fn hex_value(c: u8) -> Option<u8> {
    if 48 <= c <= 57 {
        Some((c - 48) as u8)
    } else if 97 <= c <= 102 {
        Some((c - 87) as u8)
    } else if 65 <= c <= 70 {
        Some((c - 55) as u8)
    } else {
        None
    }
}

/// The bytes that hexadecimal text spells, or `None` when its length is odd
/// or one of its bytes is no hexadecimal digit.
pub open spec fn unhex(s: Seq<u8>) -> Option<Seq<u8>> {
    if s.len() % 2 == 0 && forall|i: int| 0 <= i < s.len() ==> (#[trigger] hex_value(s[i])) is Some {
        Some(
            Seq::new(
                s.len() / 2,
                |i: int| (hex_value(s[2 * i])->Some_0 * 16 + hex_value(s[2 * i + 1])->Some_0) as u8,
            ),
        )
    } else {
        None
    }
}

/// A digit read back gives its value.
pub proof fn lemma_hex_digit_value(n: u8)
    requires
        n < 16,
    ensures
        hex_value(hex_digit(n) as u8) == Some(n),
        hex_digit(n) <= '\u{7f}',
{
    let d = seq!['0', '1', '2', '3', '4', '5', '6', '7', '8', '9', 'a', 'b', 'c', 'd', 'e', 'f'];
    assert(hex_digit(n) == d[n as int]);
    if n == 0 { assert(d[0] == '0'); } else if n == 1 { assert(d[1] == '1'); } else if n == 2 {
        assert(d[2] == '2');
    } else if n == 3 { assert(d[3] == '3'); } else if n == 4 { assert(d[4] == '4'); } else if n
        == 5 { assert(d[5] == '5'); } else if n == 6 { assert(d[6] == '6'); } else if n == 7 {
        assert(d[7] == '7');
    } else if n == 8 { assert(d[8] == '8'); } else if n == 9 { assert(d[9] == '9'); } else if n
        == 10 { assert(d[10] == 'a'); } else if n == 11 { assert(d[11] == 'b'); } else if n == 12 {
        assert(d[12] == 'c');
    } else if n == 13 { assert(d[13] == 'd'); } else if n == 14 { assert(d[14] == 'e'); } else {
        assert(d[15] == 'f');
    }
}

/// Lowercase hexadecimal text, as UTF-8 bytes, reads back as the bytes it
/// was made from.
pub proof fn lemma_unhex_hex_lower(b: Seq<u8>)
    ensures
        unhex(encode_utf8(hex_lower(b))) == Some(b),
{
    let h = hex_lower(b);
    assert forall|i: int| 0 <= i < h.len() implies '\0' <= #[trigger] h[i] <= '\u{7f}' by {
        lemma_hex_digit_value(b[i / 2] / 16);
        lemma_hex_digit_value(b[i / 2] % 16);
    }
    assert(is_ascii_chars(h));
    is_ascii_chars_encode_utf8(h);
    let e = encode_utf8(h);
    assert forall|i: int| 0 <= i < e.len() implies (#[trigger] hex_value(e[i])) is Some by {
        assert(h[i] as u8 == e[i]);
        lemma_hex_digit_value(b[i / 2] / 16);
        lemma_hex_digit_value(b[i / 2] % 16);
    }
    let r = unhex(e)->Some_0;
    assert forall|i: int| 0 <= i < b.len() implies #[trigger] r[i] == b[i] by {
        assert(h[2 * i] as u8 == e[2 * i]);
        assert(h[2 * i + 1] as u8 == e[2 * i + 1]);
        assert((2 * i) / 2 == i && (2 * i) % 2 == 0);
        assert((2 * i + 1) / 2 == i && (2 * i + 1) % 2 == 1);
        lemma_hex_digit_value(b[i] / 16);
        lemma_hex_digit_value(b[i] % 16);
        assert((b[i] / 16) * 16 + b[i] % 16 == b[i]);
    }
    assert(r =~= b);
}

/// Relies on `sha2::Sha256::digest`: the digest depends on the input alone
/// and has 32 bytes.
#[verifier::external_body]
pub(crate) fn sha256(data: &[u8]) -> (r: Vec<u8>)
    ensures
        r@ == sha256_of(data@),
        r@.len() == 32,
{
    <sha2::Sha256 as sha2::Digest>::digest(data).to_vec()
}

/// Relies on `ripemd160::Ripemd160::digest`: the digest depends on the input
/// alone and has 20 bytes.
#[verifier::external_body]
pub(crate) fn ripemd160(data: &[u8]) -> (r: Vec<u8>)
    ensures
        r@ == ripemd160_of(data@),
        r@.len() == 20,
{
    <ripemd160::Ripemd160 as ripemd160::Digest>::digest(data).to_vec()
}

/// Relies on `bs58::encode(..).into_string()`: the text depends on the input
/// alone.
#[verifier::external_body]
pub(crate) fn base58(data: &[u8]) -> (r: String)
    ensures
        r@ == base58_of(data@),
{
    bs58::encode(data).into_string()
}

/// Relies on `hex::encode`: two lowercase digits per byte, high half first.
#[verifier::external_body]
pub(crate) fn hex_encode(data: &[u8]) -> (r: String)
    ensures
        r@ == hex_lower(data@),
{
    hex::encode(data)
}

/// The error of `hex::decode`.
#[verifier::external_type_specification]
#[verifier::external_body]
pub struct ExFromHexError(hex::FromHexError);

/// Relies on `hex::decode`: it fails on text of odd length or with a byte
/// that is no digit of either case, and reads each pair of digits, high half
/// first.
#[verifier::external_body]
pub(crate) fn hex_decode(text: &[u8]) -> (r: Result<Vec<u8>, hex::FromHexError>)
    ensures
        match r {
            Ok(v) => unhex(text@) == Some(v@),
            Err(_) => unhex(text@) is None,
        },
{
    hex::decode(text)
}

/// Relies on `std::time::SystemTime::elapsed` from the Unix epoch: the
/// nanoseconds since then, or `None` when the clock stands before it.
#[verifier::external_body]
pub(crate) fn nanos_since_epoch() -> (r: Option<u128>) {
    std::time::UNIX_EPOCH.elapsed().ok().map(|d| d.as_nanos())
}

/// Relies on `rand_core::RngCore::try_fill_bytes` of the operating system's
/// generator (which reports a failing source as an error instead of
/// panicking) for 32 random bytes, and on `p256::ecdsa::SigningKey::from_slice`,
/// which refuses bytes that are no valid scalar. A key gives its 32-byte
/// secret scalar and its uncompressed public point, `x` then `y` (never the
/// identity, so both coordinates are there). `None` when either step fails.
#[verifier::external_body]
pub(crate) fn generate_key_pair() -> (r: Option<(Vec<u8>, Vec<u8>)>)
    ensures
        r matches Some(p) ==> p.0@.len() == 32 && p.1@ == p256_public_key_of(p.0@) && p.1@.len()
            == 64,
{
    let mut bytes = [0u8; 32];
    match rand_core::RngCore::try_fill_bytes(&mut rand_core::OsRng, &mut bytes) {
        Ok(()) => {},
        Err(_) => return None,
    }
    let key = match p256::ecdsa::SigningKey::from_slice(&bytes) {
        Ok(k) => k,
        Err(_) => return None,
    };
    let point = key.verifying_key().to_encoded_point(false);
    let public = match (point.x(), point.y()) {
        (Some(x), Some(y)) => [&x[..], &y[..]].concat(),
        _ => Vec::new(),
    };
    Some((key.to_bytes().to_vec(), public))
}

/// The error of `serde_json`'s serializer.
#[verifier::external_type_specification]
#[verifier::external_body]
pub struct ExJsonError(serde_json::Error);

/// Relies on `serde_json::to_string` of a string: the quoted, escaped JSON
/// string literal, which depends on the text alone. Serializing a `str`
/// writes into a `Vec<u8>`, which cannot fail, so the result is `Ok`.
#[verifier::external_body]
pub(crate) fn json_string(text: &str) -> (r: Result<String, serde_json::Error>)
    ensures
        r is Ok,
        r matches Ok(t) ==> t@ == json_text_of(text@),
{
    serde_json::to_string(text)
}

/// Relies on `p256::ecdsa::SigningKey::from_slice` (which refuses bytes that
/// are no valid scalar) and `SigningKey::try_sign`, which signs the
/// message's SHA-256 digest with the deterministic nonce of RFC 6979 and
/// fails only when `r` or `s` comes out zero: the outcome depends on the key
/// and the message alone. A signature made with a key is 64 bytes and, by
/// ECDSA's correctness, checks under that key's uncompressed public point.
#[verifier::external_body]
pub(crate) fn sign_message(secret: &[u8], message: &[u8]) -> (r: Option<Vec<u8>>)
    requires
        secret@.len() == 32,
    ensures
        match r {
            Some(s) => p256_signature_of(secret@, message@) == Some(s@) && s@.len() == 64
                && p256_accepts(seq![4u8] + p256_public_key_of(secret@), message@, s@),
            None => p256_signature_of(secret@, message@) is None,
        },
{
    let key = match p256::ecdsa::SigningKey::from_slice(secret) {
        Ok(k) => k,
        Err(_) => return None,
    };
    match <p256::ecdsa::SigningKey as p256::ecdsa::signature::Signer<
        p256::ecdsa::Signature,
    >>::try_sign(&key, message) {
        Ok(s) => Some(s.to_bytes().to_vec()),
        Err(_) => None,
    }
}

/// Relies on `p256::ecdsa::VerifyingKey::from_sec1_bytes`,
/// `p256::ecdsa::Signature::from_slice` (which refuses all but 64 bytes) and
/// `VerifyingKey::verify`: whether the signature checks.
#[verifier::external_body]
pub(crate) fn signature_verifies(public_sec1: &[u8], message: &[u8], signature: &[u8]) -> (r: bool)
    ensures
        r == p256_accepts(public_sec1@, message@, signature@),
        signature@.len() != 64 ==> !r,
{
    let key = match p256::ecdsa::VerifyingKey::from_sec1_bytes(public_sec1) {
        Ok(k) => k,
        Err(_) => return false,
    };
    let sig = match p256::ecdsa::Signature::from_slice(signature) {
        Ok(s) => s,
        Err(_) => return false,
    };
    <p256::ecdsa::VerifyingKey as p256::ecdsa::signature::Verifier<
        p256::ecdsa::Signature,
    >>::verify(&key, message, &sig).is_ok()
}

} // verus!
