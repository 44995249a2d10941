//! The 32-bit token hash: the first four bytes of a SHA-1 digest, read
//! little-endian.
use vstd::prelude::*;
use crate::tokenizer::byte_strings;

verus! {

/// The SHA-1 digest of a byte string.
pub uninterp spec fn sha1_digest(data: Seq<u8>) -> Seq<u8>;

/// Relies on `sha1::Sha1::digest`: the 20-byte SHA-1 digest of the input.
#[verifier::external_body]
fn sha1_bytes(data: &[u8]) -> (r: Vec<u8>)
    ensures
        r@ == sha1_digest(data@),
        r@.len() == 20,
{
    <sha1::Sha1 as sha1::Digest>::digest(data).to_vec()
}

/// The unsigned integer of four bytes, least significant first.
pub open spec fn le_u32(b: Seq<u8>) -> u32
    recommends
        b.len() >= 4,
{
    (b[0] as int + b[1] as int * 0x100 + b[2] as int * 0x10000 + b[3] as int * 0x1000000) as u32
}

/// The hash of a token.
pub open spec fn token_hash(token: Seq<u8>) -> u32 {
    le_u32(sha1_digest(token))
}

/// The first four bytes of the SHA-1 digest of `data`, read little-endian.
pub fn sha1_hash(data: &[u8]) -> (r: u32)
    ensures
        r == token_hash(data@),
{
    let d = sha1_bytes(data);
    let r: u32 = d[0] as u32 + d[1] as u32 * 0x100 + d[2] as u32 * 0x10000 + d[3] as u32
        * 0x1000000;
    r
}

/// The hashes of a sequence of byte strings.
pub open spec fn token_hashes(tokens: Seq<Seq<u8>>) -> Seq<u64> {
    tokens.map_values(|t: Seq<u8>| token_hash(t) as u64)
}

/// The hash of each token, widened to 64 bits, in the order of the tokens.
pub fn hash_tokens(tokens: Vec<Vec<u8>>) -> (r: Vec<u64>)
    ensures
        r@.len() == tokens@.len(),
        forall|i: int| 0 <= i < r@.len() ==> r@[i] == token_hash(#[trigger] tokens@[i]@) as u64,
        r@ == token_hashes(byte_strings(tokens@)),
{
    let mut out: Vec<u64> = Vec::with_capacity(tokens.len());
    for i in 0..tokens.len()
        invariant
            out@.len() == i,
            forall|j: int| 0 <= j < i ==> out@[j] == token_hash(#[trigger] tokens@[j]@) as u64,
    {
        let h = sha1_hash(tokens[i].as_slice());
        out.push(h as u64);
    }
    assert(out@ =~= token_hashes(byte_strings(tokens@)));
    out
}

} // verus!
