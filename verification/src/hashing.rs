//! Trusted wrappers for the content-hash primitives: MD5 plus a URL-safe
//! base64 encoding (query-string disambiguation in filenames) and the
//! streaming XXH64 hash (chunk content identity).

use vstd::prelude::*;
use std::hash::Hasher;

verus! {

/// The MD5 digest of the UTF-8 encoding of a string: a pure function of the
/// characters alone.
pub uninterp spec fn md5_of(s: Seq<char>) -> Seq<u8>;

/// Relies on the md5 crate's `compute`: the digest depends only on the input
/// bytes and is 16 bytes long.
#[verifier::external_body]
pub fn md5_digest(s: &str) -> (r: Vec<u8>)
    ensures
        r@ == md5_of(s@),
        r@.len() == 16,
{
    md5::compute(s.as_bytes()).0.to_vec()
}

/// The base64 text (URL-safe alphabet, padded) of a byte sequence: a pure
/// function of the bytes alone.
pub uninterp spec fn b64url_of(b: Seq<u8>) -> Seq<char>;

/// A character of the URL-safe base64 alphabet.
pub open spec fn is_b64url_char(c: char) -> bool {
    ||| 'A' <= c && c <= 'Z'
    ||| 'a' <= c && c <= 'z'
    ||| '0' <= c && c <= '9'
    ||| c == '-'
    ||| c == '_'
}

/// Positions below this hold alphabet characters; at and above it only the
/// padding character follows.
pub open spec fn b64_data_len(n: int) -> int {
    4 * (n / 3) + if n % 3 == 0 {
        0int
    } else {
        n % 3 + 1
    }
}

/// Relies on the base64 crate's `general_purpose::URL_SAFE` engine: encoding
/// is a pure function of the input bytes; the output is 4·⌈n/3⌉ characters;
/// every character before the trailing `=` padding is from the URL-safe
/// alphabet (A–Z, a–z, 0–9, `-`, `_`).
#[verifier::external_body]
pub fn b64url_encode(b: &[u8]) -> (r: String)
    ensures
        r@ == b64url_of(b@),
        r@.len() == 4 * ((b@.len() + 2) / 3),
        forall|i: int| 0 <= i < b64_data_len(b@.len() as int) ==> is_b64url_char(#[trigger] r@[i]),
{
    base64::Engine::encode(&base64::engine::general_purpose::URL_SAFE, b)
}

/// The short filename-disambiguation hash of a query string: the first four
/// characters of the URL-safe base64 text of its MD5 digest.
pub open spec fn query_suffix_hash(q: Seq<char>) -> Seq<char> {
    b64url_of(md5_of(q)).take(4)
}

pub fn short_query_hash(q: &str) -> (r: String)
    ensures
        r@ == query_suffix_hash(q@),
        r@.len() == 4,
        forall|i: int| 0 <= i < 4 ==> is_b64url_char(#[trigger] r@[i]),
{
    let d = md5_digest(q);
    let e = b64url_encode(d.as_slice());
    let s = e.as_str().substring_char(0, 4);
    proof {
        assert(e@.len() == 24);
        assert(s@ =~= b64url_of(d@).take(4));
        assert(b64_data_len(16) == 22);
    }
    s.to_owned()
}

/// The XXH64 digest, seed 0, of a sequence of 64-bit words, each streamed as
/// its 8-byte in-memory encoding: a pure function of the words alone.
pub uninterp spec fn xx64_of(ws: Seq<u64>) -> u64;

/// The words written so far to a streaming hasher.
pub uninterp spec fn written_words(h: twox_hash::XxHash64) -> Seq<u64>;

#[verifier::external_type_specification]
#[verifier::external_body]
pub struct ExXxHash64(twox_hash::XxHash64);

/// Relies on twox-hash's `Default` for XxHash64: a fresh hasher with seed 0
/// and nothing written.
#[verifier::external_body]
pub fn xx_new() -> (r: twox_hash::XxHash64)
    ensures
        written_words(r) == Seq::<u64>::empty(),
{
    Default::default()
}

/// Relies on `Hasher::write_u64` on XxHash64: appends the word's bytes to
/// the hashed stream.
#[verifier::external_body]
pub fn xx_write_u64(h: &mut twox_hash::XxHash64, w: u64)
    ensures
        written_words(*final(h)) == written_words(*old(h)).push(w),
{
    h.write_u64(w);
}

/// Relies on twox-hash's `finish`: the digest depends only on the seed
/// (fixed at 0 by `xx_new`) and the bytes written so far; it does not
/// consume or change the hasher.
#[verifier::external_body]
pub fn xx_finish(h: &twox_hash::XxHash64) -> (r: u64)
    ensures
        r == xx64_of(written_words(*h)),
{
    h.finish()
}

} // verus!
