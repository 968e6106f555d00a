//! The serialization boundary of the signature protocol: big-endian byte
//! conversion of big integers, base64 text, the canonical JSON encoding of a
//! point, and the SHA-256 challenge digest.  The byte conversions are fully
//! specified; base64, UTF-8 and the digest are named functions of their
//! input.

use vstd::prelude::*;
use num::BigUint;
use base64::Engine;
use sha2::Digest;
use crate::bigint::big_nat;

verus! {

/// The big-endian digits of `n` in base 256, most significant first and
/// without leading zeros; empty for zero.
pub open spec fn be_bytes(n: nat) -> Seq<u8>
    decreases n,
{
    if n == 0 {
        Seq::empty()
    } else {
        be_bytes(n / 256).push((n % 256) as u8)
    }
}

/// The value of a big-endian byte string.
pub open spec fn be_val(s: Seq<u8>) -> nat
    decreases s.len(),
{
    if s.len() == 0 {
        0
    } else {
        be_val(s.drop_last()) * 256 + (s.last() as nat)
    }
}

/// The byte serialization a big integer gets: minimal big-endian bytes,
/// with a single zero byte for zero.
pub open spec fn canon_be(n: nat) -> Seq<u8> {
    if n == 0 {
        seq![0u8]
    } else {
        be_bytes(n)
    }
}

/// The base64 text of a byte string, in the URL-safe alphabet without
/// padding.
pub uninterp spec fn b64_of(bytes: Seq<u8>) -> Seq<char>;

/// The UTF-8 bytes of a character sequence.
pub uninterp spec fn utf8_of(s: Seq<char>) -> Seq<u8>;

/// The SHA-256 digest of a byte string.
pub uninterp spec fn sha256_of(bytes: Seq<u8>) -> Seq<u8>;

/// The canonical JSON text of a point with pre-encoded coordinates.
pub open spec fn json_point_str(x: Seq<char>, y: Seq<char>) -> Seq<char> {
    "{\"x\":\""@ + x + "\",\"y\":\""@ + y + "\"}"@
}

/// Relies on `BigUint::to_bytes_be`: the minimal big-endian bytes of the
/// value, with a single zero byte for zero.
#[verifier::external_body]
pub fn big_to_bytes_be(n: &BigUint) -> (r: Vec<u8>)
    ensures
        big_nat(*n) == 0 ==> r@ == seq![0u8],
        big_nat(*n) > 0 ==> r@ == be_bytes(big_nat(*n)),
{
    n.to_bytes_be()
}

/// Relies on `BigUint::from_bytes_be`: reads a big-endian byte string.
#[verifier::external_body]
pub fn big_from_bytes_be(bytes: &[u8]) -> (r: BigUint)
    ensures
        big_nat(r) == be_val(bytes@),
{
    BigUint::from_bytes_be(bytes)
}

/// Relies on base64's URL-safe no-padding engine: encodes bytes as text.
#[verifier::external_body]
pub fn b64_encode(bytes: &[u8]) -> (r: String)
    ensures
        r@ == b64_of(bytes@),
{
    base64::engine::general_purpose::URL_SAFE_NO_PAD.encode(bytes)
}

/// Relies on `str::as_bytes`: the UTF-8 bytes of the text.
#[verifier::external_body]
pub fn str_to_bytes(s: &str) -> (r: Vec<u8>)
    ensures
        r@ == utf8_of(s@),
{
    s.as_bytes().to_vec()
}

/// Relies on `format!`: splices two pre-encoded coordinates into the
/// canonical JSON point object.
#[verifier::external_body]
pub fn point_json(x: &str, y: &str) -> (r: String)
    ensures
        r@ == json_point_str(x@, y@),
{
    format!("{{\"x\":\"{}\",\"y\":\"{}\"}}", x, y)
}

/// Relies on `format!`: concatenates two texts.
#[verifier::external_body]
pub fn concat_str(a: &str, b: &str) -> (r: String)
    ensures
        r@ == a@ + b@,
{
    format!("{}{}", a, b)
}

/// Relies on sha2's SHA-256: digests a byte string to 32 bytes.
#[verifier::external_body]
pub fn sha256_digest(data: &[u8]) -> (r: Vec<u8>)
    ensures
        r@ == sha256_of(data@),
        r@.len() == 32,
{
    sha2::Sha256::digest(data).to_vec()
}

/// The challenge value of a serialized commitment and a message: the
/// big-endian value of the SHA-256 digest of the JSON point text followed by
/// the message.
pub open spec fn challenge_of(xb: Seq<u8>, yb: Seq<u8>, message: Seq<char>) -> nat {
    be_val(sha256_of(utf8_of(json_point_str(b64_of(xb), b64_of(yb)) + message)))
}

/// Computes the Schnorr challenge for a commitment point given by its raw
/// affine coordinates: both coordinates are serialized to minimal big-endian
/// bytes, base64-encoded into the canonical JSON object, concatenated with
/// the message, and digested.
pub fn compute_challenge(x: &BigUint, y: &BigUint, message: &str) -> (r: BigUint)
    ensures
        big_nat(r) == challenge_of(canon_be(big_nat(*x)), canon_be(big_nat(*y)), message@),
{
    let xb = big_to_bytes_be(x);
    let yb = big_to_bytes_be(y);
    let xs = b64_encode(xb.as_slice());
    let ys = b64_encode(yb.as_slice());
    let json = point_json(xs.as_str(), ys.as_str());
    let full = concat_str(json.as_str(), message);
    let digest = sha256_digest(str_to_bytes(full.as_str()).as_slice());
    big_from_bytes_be(digest.as_slice())
}

} // verus!
