//! SHA-256 fingerprints rendered as lowercase hex, and the byte-string
//! plumbing around them.
use vstd::prelude::*;
use vstd::utf8::*;
use sha2::Digest;
use crate::text::{hex_bytes, hex_of_bytes, decimal, dec, push_char};

verus! {

/// What SHA-256 gives for a byte string (32 bytes).
pub uninterp spec fn sha256_digest(data: Seq<u8>) -> Seq<u8>;

/// `sha2::Sha256::digest`: the SHA-256 digest of `data`. Its value is named
/// (`sha256_digest`); the one further claim is the documented output size of
/// 32 bytes.
#[verifier::external_body]
fn sha256(data: &[u8]) -> (d: Vec<u8>)
    ensures
        d@ == sha256_digest(data@),
        d@.len() == 32,
{
    sha2::Sha256::digest(data).to_vec()
}

/// The lowercase hex rendering of the SHA-256 digest of `data`.
pub open spec fn sha256_hex(data: Seq<u8>) -> Seq<char> {
    hex_bytes(sha256_digest(data))
}

/// Lowercase hex of the SHA-256 digest of `data` (64 characters).
pub fn sha256_hex_of(data: &[u8]) -> (s: String)
    ensures
        s@ == sha256_hex(data@),
        s@.len() == 64,
{
    let d = sha256(data);
    proof {
        lemma_hex_bytes_len(d@);
    }
    hex_of_bytes(d.as_slice())
}

/// Hex of a byte string has two characters per byte.
pub proof fn lemma_hex_bytes_len(b: Seq<u8>)
    ensures
        hex_bytes(b).len() == 2 * b.len(),
    decreases b.len(),
{
    if b.len() > 0 {
        lemma_hex_bytes_len(b.drop_last());
    }
}

/// Appends the bytes `b` to `v`.
pub fn push_bytes(v: &mut Vec<u8>, b: &[u8])
    ensures
        final(v)@ == old(v)@ + b@,
{
    let ghost start = v@;
    let mut i: usize = 0;
    while i < b.len()
        invariant
            i <= b.len(),
            v@ == start + b@.take(i as int),
        decreases b.len() - i,
    {
        v.push(b[i]);
        i += 1;
        assert(v@ =~= start + b@.take(i as int));
    }
    assert(b@.take(b.len() as int) =~= b@);
}

/// The UTF-8 bytes of `s` appended to `v`.
pub fn push_utf8(v: &mut Vec<u8>, s: &str)
    ensures
        final(v)@ == old(v)@ + encode_utf8(s@),
{
    push_bytes(v, s.as_bytes());
}

/// Decimal rendering of a signed integer, with a leading `-` when negative
/// (what `i64::to_string` gives).
pub open spec fn signed_decimal(n: int) -> Seq<char> {
    if n < 0 {
        seq!['-'] + decimal((-n) as nat)
    } else {
        decimal(n as nat)
    }
}

/// `n` in decimal, as `i64::to_string` renders it.
pub fn signed_dec(n: i64) -> (s: String)
    ensures
        s@ == signed_decimal(n as int),
{
    if n < 0 {
        let m: u64 = ((-(n + 1)) as u64) + 1;
        assert(m == -n);
        let digits = dec(m);
        let mut s = String::new();
        push_char(&mut s, '-');
        crate::text::append(&mut s, digits.as_str());
        assert(s@ =~= seq!['-'] + decimal(m as nat));
        s
    } else {
        dec(n as u64)
    }
}

} // verus!
