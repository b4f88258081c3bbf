//! SHA-256 digests, written as lower-case hexadecimal.
use sha2::{Digest, Sha256};
use vstd::prelude::*;

verus! {

/// The SHA-256 digest of a byte sequence, as `sha2::Sha256` computes it.
pub uninterp spec fn sha256_bytes(data: Seq<u8>) -> Seq<u8>;

/// `sha2::Sha256::digest`: the 32-byte SHA-256 digest of `data`.
/// The digest itself is named by `sha256_bytes`; only its length is stated.
#[verifier::external_body]
fn sha256_digest(data: &[u8]) -> (r: Vec<u8>)
    ensures
        r@ == sha256_bytes(data@),
        r@.len() == 32,
{
    Sha256::digest(data).to_vec()
}

/// The lower-case hexadecimal digit of `n` (0 to 15).
pub open spec fn hex_digit(n: int) -> char {
    if n < 10 {
        (48 + n) as char
    } else {
        (87 + n) as char
    }
}

/// Bytes written as two lower-case hexadecimal digits each.
pub open spec fn hex_lower(b: Seq<u8>) -> Seq<char>
    decreases b.len(),
{
    if b.len() == 0 {
        Seq::empty()
    } else {
        hex_lower(b.drop_last()) + seq![hex_digit((b.last() / 16) as int), hex_digit((b.last() % 16) as int)]
    }
}

/// The digest of a byte sequence, in hexadecimal.
pub open spec fn digest_hex(data: Seq<u8>) -> Seq<char> {
    hex_lower(sha256_bytes(data))
}

proof fn lemma_hex_digit(n: int)
    requires
        0 <= n < 16,
    ensures
        crate::text::is_hex(hex_digit(n)),
{
    if n < 10 {
        assert(48 <= 48 + n <= 57);
    } else {
        assert(97 <= 87 + n <= 102);
    }
}

/// The hexadecimal digit of a number below 16.
pub fn hex_digit_char(n: u8) -> (c: char)
    requires
        n < 16,
    ensures
        c == hex_digit(n as int),
{
    if n < 10 {
        let b: u8 = 48 + n;
        b as char
    } else {
        let b: u8 = 87 + n;
        b as char
    }
}

/// The SHA-256 digest of `bytes` in lower-case hexadecimal.
pub fn sha256(bytes: &[u8]) -> (r: String)
    ensures
        r@ == digest_hex(bytes@),
        r@.len() == 64,
        forall|i: int| 0 <= i < r@.len() ==> crate::text::is_hex(#[trigger] r@[i]),
{
    let digest = sha256_digest(bytes);
    let mut out = String::new();
    let mut i: usize = 0;
    while i < digest.len()
        invariant
            i <= digest.len(),
            digest@.len() == 32,
            out@ == hex_lower(digest@.take(i as int)),
            out@.len() == 2 * i,
            forall|k: int| 0 <= k < out@.len() ==> crate::text::is_hex(#[trigger] out@[k]),
        decreases digest.len() - i,
    {
        let b = digest[i];
        let hi = hex_digit_char(b / 16);
        let lo = hex_digit_char(b % 16);
        proof {
            lemma_hex_digit((b / 16) as int);
            lemma_hex_digit((b % 16) as int);
        }
        crate::text::push_char(&mut out, hi);
        crate::text::push_char(&mut out, lo);
        proof {
            assert(digest@.take(i + 1).drop_last() =~= digest@.take(i as int));
            assert(digest@.take(i + 1).last() == b);
        }
        i += 1;
    }
    proof {
        assert(digest@.take(32) =~= digest@);
    }
    out
}

/// The SHA-256 digest of the UTF-8 encoding of a text, in hexadecimal.
pub fn sha256_text(s: &str) -> (r: String)
    ensures
        r@ == digest_hex(vstd::utf8::encode_utf8(s@)),
        r@.len() == 64,
        forall|i: int| 0 <= i < r@.len() ==> crate::text::is_hex(#[trigger] r@[i]),
{
    sha256(s.as_bytes())
}

} // verus!
