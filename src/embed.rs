//! The per-document pipeline: tokens, token hashes, signature, band keys.
use vstd::prelude::*;
use crate::bands::{band_key, encode_values, swap_bytes};
use crate::hashing::{hash_tokens, token_hashes};
use crate::minhash::{
    lemma_signature_bounded, lemma_signature_of_nothing, min_hash_fused, signature, MAX_HASH,
    MODULE_PRIME,
};
use crate::tokenizer::{byte_strings, split_text, text_tokens, tokens_from_words};

verus! {

/// The MinHash signature of a document under the permutations `(a, b)`.
pub open spec fn text_signature(
    text: Seq<char>,
    n: nat,
    min_length: nat,
    a: Seq<u64>,
    b: Seq<u64>,
) -> Seq<u64> {
    signature(token_hashes(text_tokens(text, n, min_length)), a, b, MODULE_PRIME, MAX_HASH)
}

/// Every document's signature holds one entry per permutation, none above
/// `MAX_HASH`; a document without tokens has `MAX_HASH` in every entry.
pub proof fn lemma_text_signature(text: Seq<char>, n: nat, min_length: nat, a: Seq<u64>, b: Seq<u64>)
    ensures
        text_signature(text, n, min_length, a, b).len() == a.len(),
        forall|j: int|
            0 <= j < a.len() ==> #[trigger] text_signature(text, n, min_length, a, b)[j] <= MAX_HASH,
        text_tokens(text, n, min_length).len() == 0 ==> text_signature(text, n, min_length, a, b)
            == Seq::new(a.len(), |j: int| MAX_HASH),
{
    let hs = token_hashes(text_tokens(text, n, min_length));
    lemma_signature_bounded(hs, a, b, MODULE_PRIME, MAX_HASH);
    if text_tokens(text, n, min_length).len() == 0 {
        assert(hs =~= Seq::<u64>::empty());
        lemma_signature_of_nothing(a, b, MODULE_PRIME, MAX_HASH);
    }
}

/// The band keys of a document: one per range, cut from its signature.
pub open spec fn text_band_keys(
    text: Seq<char>,
    n: nat,
    min_length: nat,
    a: Seq<u64>,
    b: Seq<u64>,
    ranges: Seq<(u32, u32)>,
) -> Seq<Seq<u8>> {
    let sig = text_signature(text, n, min_length, a, b);
    Seq::new(ranges.len(), |i: int| band_key(sig, ranges[i].0 as int, ranges[i].1 as int))
}

/// A document without tokens gets, for every band that lies within the
/// signature, the encoding of `MAX_HASH` repeated once per row; two such
/// documents therefore share every band key.
pub proof fn lemma_band_keys_of_tokenless(
    text: Seq<char>,
    n: nat,
    min_length: nat,
    a: Seq<u64>,
    b: Seq<u64>,
    ranges: Seq<(u32, u32)>,
)
    requires
        text_tokens(text, n, min_length).len() == 0,
        forall|i: int| 0 <= i < ranges.len() ==> (#[trigger] ranges[i]).0 <= ranges[i].1 <= a.len(),
    ensures
        text_band_keys(text, n, min_length, a, b, ranges).len() == ranges.len(),
        forall|i: int|
            0 <= i < ranges.len() ==> #[trigger] text_band_keys(text, n, min_length, a, b, ranges)[i]
                == encode_values(Seq::new((ranges[i].1 - ranges[i].0) as nat, |j: int| MAX_HASH)),
{
    lemma_text_signature(text, n, min_length, a, b);
    let sig = text_signature(text, n, min_length, a, b);
    assert forall|i: int| 0 <= i < ranges.len() implies #[trigger] text_band_keys(text, n, min_length, a, b, ranges)[i]
        == encode_values(Seq::new((ranges[i].1 - ranges[i].0) as nat, |j: int| MAX_HASH)) by {
        assert(sig.subrange(ranges[i].0 as int, ranges[i].1 as int) =~= Seq::new(
            (ranges[i].1 - ranges[i].0) as nat,
            |j: int| MAX_HASH,
        ));
    }
}

/// The MinHash signature of a document: its tokens hashed and folded
/// through the permutations.
pub fn signature_of(text: &str, n_grams: &u32, permutations: &(Vec<u64>, Vec<u64>), min_length: &u32) -> (r: Vec<u64>)
    requires
        *n_grams >= 1,
        permutations.0@.len() == permutations.1@.len(),
    ensures
        r@ == text_signature(
            text@,
            *n_grams as nat,
            *min_length as nat,
            permutations.0@,
            permutations.1@,
        ),
{
    let tokens = tokens_from_words(split_text(text), n_grams, min_length);
    let hashes = hash_tokens(tokens);
    let (a, b) = permutations;
    min_hash_fused(hashes.as_slice(), a.as_slice(), b.as_slice(), MODULE_PRIME, MAX_HASH)
}

/// The band keys of a document: tokenize, hash each token, take the
/// MinHash signature, and encode the signature slice of each range.
pub fn py_embed_func(
    text: &str,
    n_grams: &u32,
    permutations: &(Vec<u64>, Vec<u64>),
    hash_ranges: &[(u32, u32)],
    min_length: &u32,
) -> (r: Vec<Vec<u8>>)
    requires
        *n_grams >= 1,
        permutations.0@.len() == permutations.1@.len(),
    ensures
        byte_strings(r@) == text_band_keys(
            text@,
            *n_grams as nat,
            *min_length as nat,
            permutations.0@,
            permutations.1@,
            hash_ranges@,
        ),
{
    let sig = signature_of(text, n_grams, permutations, min_length);
    let keys = swap_bytes(sig.as_slice(), hash_ranges);
    assert(byte_strings(keys@) =~= text_band_keys(
        text@,
        *n_grams as nat,
        *min_length as nat,
        permutations.0@,
        permutations.1@,
        hash_ranges@,
    ));
    keys
}

} // verus!
