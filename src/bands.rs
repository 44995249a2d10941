//! Slicing a signature into bands and encoding each band as a byte key.
use vstd::prelude::*;

verus! {

/// The eight bytes of `x`, most significant first: the little-endian bytes
/// of `x` with its bytes swapped.
pub open spec fn be_bytes(x: u64) -> Seq<u8> {
    seq![
        (x / 0x100_0000_0000_0000) as u8,
        ((x / 0x1_0000_0000_0000) % 0x100) as u8,
        ((x / 0x100_0000_0000) % 0x100) as u8,
        ((x / 0x1_0000_0000) % 0x100) as u8,
        ((x / 0x100_0000) % 0x100) as u8,
        ((x / 0x1_0000) % 0x100) as u8,
        ((x / 0x100) % 0x100) as u8,
        (x % 0x100) as u8,
    ]
}

/// The concatenated eight-byte encodings of a run of signature values.
pub open spec fn encode_values(vals: Seq<u64>) -> Seq<u8>
    decreases vals.len(),
{
    if vals.len() == 0 {
        Seq::empty()
    } else {
        encode_values(vals.drop_last()) + be_bytes(vals.last())
    }
}

/// The key of the band `[start, end)` of a signature; empty when the range
/// is reversed or reaches past the signature.
pub open spec fn band_key(sig: Seq<u64>, start: int, end: int) -> Seq<u8> {
    if start <= end && end <= sig.len() {
        encode_values(sig.subrange(start, end))
    } else {
        Seq::empty()
    }
}

/// The band ranges `[i * r, (i + 1) * r)` for `i` in `0..b`.
pub open spec fn hash_ranges_spec(b: nat, r: nat) -> Seq<(u32, u32)> {
    Seq::new(b, |i: int| ((i * r) as u32, ((i + 1) * r) as u32))
}

fn push_be_bytes(out: &mut Vec<u8>, x: u64)
    ensures
        final(out)@ == old(out)@ + be_bytes(x),
{
    out.push((x / 0x100_0000_0000_0000) as u8);
    out.push(((x / 0x1_0000_0000_0000) % 0x100) as u8);
    out.push(((x / 0x100_0000_0000) % 0x100) as u8);
    out.push(((x / 0x1_0000_0000) % 0x100) as u8);
    out.push(((x / 0x100_0000) % 0x100) as u8);
    out.push(((x / 0x1_0000) % 0x100) as u8);
    out.push(((x / 0x100) % 0x100) as u8);
    out.push((x % 0x100) as u8);
    assert(final(out)@ =~= old(out)@ + be_bytes(x));
}

/// The byte key of every band: band `i` is the concatenation, over the
/// signature values of `hash_ranges[i]`, of each value's eight bytes most
/// significant first. A range that is reversed or reaches past the
/// signature gives the empty key.
pub fn swap_bytes(hashvalues: &[u64], hash_ranges: &[(u32, u32)]) -> (r: Vec<Vec<u8>>)
    ensures
        r@.len() == hash_ranges@.len(),
        forall|i: int|
            0 <= i < r@.len() ==> (#[trigger] r@[i])@ == band_key(
                hashvalues@,
                hash_ranges@[i].0 as int,
                hash_ranges@[i].1 as int,
            ),
{
    let mut keys: Vec<Vec<u8>> = Vec::with_capacity(hash_ranges.len());
    for i in 0..hash_ranges.len()
        invariant
            keys@.len() == i,
            forall|ii: int|
                0 <= ii < i ==> (#[trigger] keys@[ii])@ == band_key(
                    hashvalues@,
                    hash_ranges@[ii].0 as int,
                    hash_ranges@[ii].1 as int,
                ),
    {
        let (start, end) = hash_ranges[i];
        let start = start as usize;
        let end = end as usize;
        let mut key: Vec<u8> = Vec::new();
        if start <= end && end <= hashvalues.len() {
            let ghost vals = hashvalues@.subrange(start as int, end as int);
            for j in start..end
                invariant
                    start <= end <= hashvalues@.len(),
                    vals == hashvalues@.subrange(start as int, end as int),
                    key@ == encode_values(hashvalues@.subrange(start as int, j as int)),
            {
                push_be_bytes(&mut key, hashvalues[j]);
                assert(hashvalues@.subrange(start as int, j + 1).drop_last() =~= hashvalues@.subrange(
                    start as int,
                    j as int,
                ));
            }
        }
        keys.push(key);
    }
    keys
}

/// The ranges of `b` bands of `r` rows each: `[i * r, (i + 1) * r)`.
pub fn generate_hash_rangs(b: u32, r: u32) -> (ranges: Vec<(u32, u32)>)
    requires
        b * r <= u32::MAX,
    ensures
        ranges@ == hash_ranges_spec(b as nat, r as nat),
{
    let mut out: Vec<(u32, u32)> = Vec::with_capacity(b as usize);
    for i in 0..b
        invariant
            b * r <= u32::MAX,
            out@ == hash_ranges_spec(i as nat, r as nat),
    {
        assert((i + 1) * r <= b * r) by (nonlinear_arith)
            requires
                i < b,
        ;
        assert(i * r <= (i + 1) * r) by (nonlinear_arith);
        let range = (i * r, (i + 1) * r);
        out.push(range);
        assert(out@ =~= hash_ranges_spec((i + 1) as nat, r as nat));
    }
    out
}

/// The band count once it fits the permutations: `b` when `b * r` does not
/// exceed `num_perm`, else `num_perm / r`.
pub open spec fn adjusted_b(b: u32, r: u32, num_perm: u32) -> u32
    recommends
        r > 0,
{
    if b > num_perm / r {
        num_perm / r
    } else {
        b
    }
}

/// Clamps a requested band count so that `b * r` fits in `num_perm`
/// signature values; returns the band count to use and whether it changed.
pub fn adjust_b(b: u32, r: u32, num_perm: u32) -> (res: (u32, bool))
    requires
        r > 0,
    ensures
        res.0 == adjusted_b(b, r, num_perm),
        res.1 == (b > num_perm / r),
        res.0 * r <= num_perm,
{
    let max_b = num_perm / r;
    assert(max_b * r <= num_perm) by (nonlinear_arith)
        requires
            max_b == num_perm / r,
            r > 0,
    ;
    if b > max_b {
        (max_b, true)
    } else {
        assert(b * r <= max_b * r) by (nonlinear_arith)
            requires
                b <= max_b,
        ;
        (b, false)
    }
}

} // verus!
