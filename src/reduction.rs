//! The one-way step of a chain: hash a domain value, then reduce the digest
//! back into the domain with one of a family of reduction functions.
use sha2::Digest;
use vstd::prelude::*;

verus! {

/// Size of the domain: values are integers in `[0, DOMAIN)`, with
/// `DOMAIN = 2^38 - 1`.
pub const DOMAIN: u64 = 274877906943;

/// Length in bytes of a SHA-256 digest.
pub const DIGEST_LEN: usize = 32;

/// The eight little-endian bytes of `x`.
pub open spec fn le_bytes(x: u64) -> Seq<u8> {
    seq![
        x as u8,
        (x >> 8u64) as u8,
        (x >> 16u64) as u8,
        (x >> 24u64) as u8,
        (x >> 32u64) as u8,
        (x >> 40u64) as u8,
        (x >> 48u64) as u8,
        (x >> 56u64) as u8,
    ]
}

/// The little-endian 64-bit word held in `b[off..off + 8]`.
pub open spec fn le_word(b: Seq<u8>, off: int) -> u64 {
    (b[off] as u64) | ((b[off + 1] as u64) << 8u64) | ((b[off + 2] as u64) << 16u64) | ((b[off
        + 3] as u64) << 24u64) | ((b[off + 4] as u64) << 32u64) | ((b[off + 5] as u64) << 40u64)
        | ((b[off + 6] as u64) << 48u64) | ((b[off + 7] as u64) << 56u64)
}

/// Word `i` (of four, least significant first) of the 256-bit little-endian
/// number held in digest `d`, after rotating that number right by `r` bits:
/// a rotation by `r / 64` whole words followed by one of `r % 64` bits.
pub open spec fn rotated_word(d: Seq<u8>, r: u8, i: int) -> u64 {
    let q = r as int / 64;
    let s = (r % 64) as u64;
    let lo = le_word(d, 8 * ((i + q) % 4));
    let hi = le_word(d, 8 * ((i + q + 1) % 4));
    if s == 0 {
        lo
    } else {
        (lo >> s) | (hi << (64 - s) as u64)
    }
}

/// Reduction function number `r`: the 38 most significant bits of the
/// digest rotated right by `r` bits, taken modulo `DOMAIN` (which maps the
/// single value `2^38 - 1` to 0).
pub open spec fn reduced(d: Seq<u8>, r: u8) -> u64 {
    (rotated_word(d, r, 3) >> 26u64) % DOMAIN
}

/// The SHA-256 digest of a byte string.
pub uninterp spec fn sha256_of(data: Seq<u8>) -> Seq<u8>;

/// One hash-then-reduce step from the domain value `x`.
pub open spec fn step(x: u64, r: u8) -> u64 {
    reduced(sha256_of(le_bytes(x)), r)
}

/// Relies on `sha2::Sha256::digest` (through the `Digest` trait): the
/// SHA-256 digest of `data`, whose output size is 32 bytes.
#[verifier::external_body]
fn sha256(data: &[u8]) -> (d: Vec<u8>)
    ensures
        d@ == sha256_of(data@),
        d@.len() == DIGEST_LEN,
{
    sha2::Sha256::digest(data).to_vec()
}

/// The eight little-endian bytes of `x`.
pub fn encode_le(x: u64) -> (b: Vec<u8>)
    ensures
        b@ == le_bytes(x),
{
    let mut b: Vec<u8> = Vec::new();
    b.push(x as u8);
    b.push((x >> 8u64) as u8);
    b.push((x >> 16u64) as u8);
    b.push((x >> 24u64) as u8);
    b.push((x >> 32u64) as u8);
    b.push((x >> 40u64) as u8);
    b.push((x >> 48u64) as u8);
    b.push((x >> 56u64) as u8);
    assert(b@ =~= le_bytes(x));
    b
}

/// The little-endian 64-bit word held in `b[off..off + 8]`.
pub fn read_le_word(b: &[u8], off: usize) -> (w: u64)
    requires
        off + 8 <= b@.len(),
    ensures
        w == le_word(b@, off as int),
{
    (b[off] as u64) | ((b[off + 1] as u64) << 8u64) | ((b[off + 2] as u64) << 16u64) | ((b[off
        + 3] as u64) << 24u64) | ((b[off + 4] as u64) << 32u64) | ((b[off + 5] as u64) << 40u64)
        | ((b[off + 6] as u64) << 48u64) | ((b[off + 7] as u64) << 56u64)
}

/// Applies reduction function `r` to the digest `digest`.
pub fn reduce(digest: &[u8], r: u8) -> (x: u64)
    requires
        digest@.len() == DIGEST_LEN,
    ensures
        x == reduced(digest@, r),
        x < DOMAIN,
{
    let q: usize = (r / 64) as usize;
    let s: u64 = (r % 64) as u64;
    let lo = read_le_word(digest, 8 * ((3 + q) % 4));
    let hi = read_le_word(digest, 8 * ((4 + q) % 4));
    let w: u64 = if s == 0 {
        lo
    } else {
        (lo >> s) | (hi << (64 - s))
    };
    (w >> 26u64) % DOMAIN
}

/// One chain step: hash the little-endian encoding of `x` and reduce the
/// digest with reduction function `r`.
pub fn hash_reduce(x: u64, r: u8) -> (y: u64)
    ensures
        y == step(x, r),
        y < DOMAIN,
{
    let bytes = encode_le(x);
    let digest = sha256(bytes.as_slice());
    reduce(digest.as_slice(), r)
}

} // verus!
