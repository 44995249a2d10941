//! Min-wise hashing: folding token hashes through K affine permutations
//! modulo a Mersenne prime into a signature of 32-bit minima.
use vstd::prelude::*;
use vstd::wrapping::u32_specs;

verus! {

/// The Mersenne prime 2^61 - 1 that the permutations work modulo.
pub const MODULE_PRIME: u64 = 0x1fff_ffff_ffff_ffff;

/// 2^32 - 1: the mask that truncates a permuted hash to 32 bits, and the
/// value of a signature entry when a document has no tokens.
pub const MAX_HASH: u64 = 0xffff_ffff;

/// `(h * a + b) mod p`, computed on unbounded integers, then masked.
pub open spec fn permute(h: u64, a: u64, b: u64, p: u64, m: u64) -> u64
    recommends
        p > 0,
{
    (((h as int * a as int + b as int) % (p as int)) as u64) & m
}

/// The running minimum of the permuted hashes, starting from `m`.
pub open spec fn min_permuted(hs: Seq<u64>, a: u64, b: u64, p: u64, m: u64) -> u64
    decreases hs.len(),
{
    if hs.len() == 0 {
        m
    } else {
        let rest = min_permuted(hs.drop_last(), a, b, p, m);
        let v = permute(hs.last(), a, b, p, m);
        if v < rest {
            v
        } else {
            rest
        }
    }
}

/// The MinHash signature of a sequence of token hashes under the
/// permutations `(a[j], b[j])`.
pub open spec fn signature(hs: Seq<u64>, a: Seq<u64>, b: Seq<u64>, p: u64, m: u64) -> Seq<u64> {
    Seq::new(a.len(), |j: int| min_permuted(hs, a[j], b[j], p, m))
}

proof fn lemma_min_permuted_le(hs: Seq<u64>, a: u64, b: u64, p: u64, m: u64)
    ensures
        min_permuted(hs, a, b, p, m) <= m,
    decreases hs.len(),
{
    if hs.len() > 0 {
        lemma_min_permuted_le(hs.drop_last(), a, b, p, m);
    }
}

/// A signature holds one entry per permutation, and no entry exceeds the
/// mask.
pub proof fn lemma_signature_bounded(hs: Seq<u64>, a: Seq<u64>, b: Seq<u64>, p: u64, m: u64)
    ensures
        signature(hs, a, b, p, m).len() == a.len(),
        forall|j: int| 0 <= j < a.len() ==> #[trigger] signature(hs, a, b, p, m)[j] <= m,
{
    assert forall|j: int| 0 <= j < a.len() implies #[trigger] signature(hs, a, b, p, m)[j] <= m by {
        lemma_min_permuted_le(hs, a[j], b[j], p, m);
    }
}

/// Without tokens every signature entry is the mask.
pub proof fn lemma_signature_of_nothing(a: Seq<u64>, b: Seq<u64>, p: u64, m: u64)
    ensures
        signature(Seq::empty(), a, b, p, m) == Seq::new(a.len(), |j: int| m),
{
    assert(signature(Seq::empty(), a, b, p, m) =~= Seq::new(a.len(), |j: int| m));
}

/// One permuted hash: `((hash * a + b) mod modulo_prime) & max_hash`, with a
/// 128-bit intermediate so that nothing wraps.
pub fn hash_helper(hash: u64, a: u64, b: u64, modulo_prime: u64, max_hash: u64) -> (r: u64)
    requires
        modulo_prime > 0,
    ensures
        r == permute(hash, a, b, modulo_prime, max_hash),
{
    assert((hash as int) * (a as int) <= 0xffff_ffff_ffff_ffffint * 0xffff_ffff_ffff_ffffint)
        by (nonlinear_arith)
        requires
            hash <= 0xffff_ffff_ffff_ffffu64,
            a <= 0xffff_ffff_ffff_ffffu64,
    ;
    let prod: u128 = (hash as u128) * (a as u128);
    let sum: u128 = prod + b as u128;
    let reduced: u128 = sum % (modulo_prime as u128);
    (reduced as u64) & max_hash
}

/// The MinHash signature of `hashvalues`: entry `j` is the least permuted
/// hash under `(a[j], b[j])`, or `max_hash` when there are no hashes.
/// Tokens form the outer loop and permutations the inner one.
pub fn min_hash_fused(
    hashvalues: &[u64],
    a: &[u64],
    b: &[u64],
    modulo_prime: u64,
    max_hash: u64,
) -> (r: Vec<u64>)
    requires
        a@.len() == b@.len(),
        modulo_prime > 0,
    ensures
        r@ == signature(hashvalues@, a@, b@, modulo_prime, max_hash),
        r@.len() == a@.len(),
        forall|j: int| 0 <= j < r@.len() ==> #[trigger] r@[j] <= max_hash,
        hashvalues@.len() == 0 ==> r@ == Seq::new(a@.len(), |j: int| max_hash),
{
    proof {
        lemma_signature_bounded(hashvalues@, a@, b@, modulo_prime, max_hash);
        lemma_signature_of_nothing(a@, b@, modulo_prime, max_hash);
        if hashvalues@.len() == 0 {
            assert(hashvalues@ =~= Seq::<u64>::empty());
        }
    }
    let k = a.len();
    let mut min_values: Vec<u64> = vec![max_hash; k];
    let ghost hs = hashvalues@;
    assert forall|j: int| 0 <= j < k implies min_values@[j] == min_permuted(
        hs.take(0),
        a@[j],
        b@[j],
        modulo_prime,
        max_hash,
    ) by {}
    for i in 0..hashvalues.len()
        invariant
            hs == hashvalues@,
            k == a@.len(),
            k == b@.len(),
            modulo_prime > 0,
            min_values@.len() == k,
            forall|j: int|
                0 <= j < k ==> #[trigger] min_values@[j] == min_permuted(
                    hs.take(i as int),
                    a@[j],
                    b@[j],
                    modulo_prime,
                    max_hash,
                ),
    {
        let hash = hashvalues[i];
        assert(hs.take(i + 1).drop_last() =~= hs.take(i as int));
        for j in 0..k
            invariant
                hs == hashvalues@,
                hash == hs[i as int],
                i < hs.len(),
                hs.take(i + 1).drop_last() == hs.take(i as int),
                k == a@.len(),
                k == b@.len(),
                modulo_prime > 0,
                min_values@.len() == k,
                forall|jj: int|
                    0 <= jj < j ==> #[trigger] min_values@[jj] == min_permuted(
                        hs.take(i + 1),
                        a@[jj],
                        b@[jj],
                        modulo_prime,
                        max_hash,
                    ),
                forall|jj: int|
                    j <= jj < k ==> #[trigger] min_values@[jj] == min_permuted(
                        hs.take(i as int),
                        a@[jj],
                        b@[jj],
                        modulo_prime,
                        max_hash,
                    ),
        {
            let v = hash_helper(hash, a[j], b[j], modulo_prime, max_hash);
            assert(hs.take(i + 1).last() == hash);
            if v < min_values[j] {
                min_values.set(j, v);
            }
        }
    }
    assert(hs.take(hs.len() as int) =~= hs);
    assert(min_values@ =~= signature(hs, a@, b@, modulo_prime, max_hash));
    min_values
}

/// The values that a `rand::rngs::StdRng` seeded with `seed` gives when it
/// is asked in turn for one uniform `u64` in each `[low, high)` of `bounds`.
pub uninterp spec fn seeded_draws(seed: Seq<u8>, bounds: Seq<(u64, u64)>) -> Seq<u64>;

/// Relies on `rand::SeedableRng::from_seed` for `rand::rngs::StdRng`,
/// `rand::distr::Uniform::<u64>::new` and `rand::Rng::sample`: one draw per
/// range, in order, from one generator; `new` fails only when `low >= high`.
/// The draws depend on the seed and the ranges alone.
#[verifier::external_body]
fn draw_seeded(seed: [u8; 32], bounds: &Vec<(u64, u64)>) -> (r: Vec<u64>)
    requires
        forall|i: int| 0 <= i < bounds@.len() ==> (#[trigger] bounds@[i]).0 < bounds@[i].1,
    ensures
        r@ == seeded_draws(seed@, bounds@),
        r@.len() == bounds@.len(),
        forall|i: int| 0 <= i < r@.len() ==> bounds@[i].0 <= #[trigger] r@[i] < bounds@[i].1,
{
    let mut rng = <rand::rngs::StdRng as rand::SeedableRng>::from_seed(seed);
    bounds
        .iter()
        .map(|&(low, high)| rand::Rng::sample(&mut rng, rand::distr::Uniform::new(low, high).unwrap()))
        .collect()
}

/// Every byte of the 32-byte seed of the permutation generator.
pub const SEED_BYTE: u8 = 42;

/// The seed of the permutation generator: 32 bytes of `SEED_BYTE`.
pub open spec fn permutation_seed() -> Seq<u8> {
    Seq::new(32, |i: int| SEED_BYTE)
}

/// The ranges asked of the generator: `n` times `[1, p)` for `a`, then
/// `n` times `[0, p)` for `b`.
pub open spec fn permutation_bounds(p: u64, n: nat) -> Seq<(u64, u64)> {
    Seq::new(2 * n, |i: int| if i < n { (1u64, p) } else { (0u64, p) })
}

/// The draws that make the permutation coefficients, `a` first.
pub open spec fn permutation_draws(p: u64, n: nat) -> Seq<u64> {
    seeded_draws(permutation_seed(), permutation_bounds(p, n))
}

/// The permutation coefficients: `num_perm` values `a` in `[1, module_prime)`
/// then `num_perm` values `b` in `[0, module_prime)`, drawn in that order from
/// a generator seeded with 32 bytes of `SEED_BYTE`. Equal arguments give
/// equal coefficients.
pub fn generate_permutations(module_prime: u64, num_perm: u32) -> (r: (Vec<u64>, Vec<u64>))
    requires
        module_prime > 1,
    ensures
        r.0@ == permutation_draws(module_prime, num_perm as nat).take(num_perm as int),
        r.1@ == permutation_draws(module_prime, num_perm as nat).skip(num_perm as int),
        r.0@.len() == num_perm,
        r.1@.len() == num_perm,
        forall|i: int| 0 <= i < num_perm ==> 1 <= #[trigger] r.0@[i] < module_prime,
        forall|i: int| 0 <= i < num_perm ==> #[trigger] r.1@[i] < module_prime,
{
    let n = num_perm as usize;
    let ghost bnds = permutation_bounds(module_prime, num_perm as nat);
    let mut bounds: Vec<(u64, u64)> = Vec::new();
    for i in 0..n
        invariant
            n == num_perm,
            bnds == permutation_bounds(module_prime, num_perm as nat),
            bounds@ == bnds.take(i as int),
    {
        bounds.push((1u64, module_prime));
        assert(bounds@ =~= bnds.take(i + 1));
    }
    for i in 0..n
        invariant
            n == num_perm,
            bnds == permutation_bounds(module_prime, num_perm as nat),
            bounds@ == bnds.take(n + i),
    {
        bounds.push((0u64, module_prime));
        assert(bounds@ =~= bnds.take(n + i + 1));
    }
    assert(bounds@ =~= bnds);
    let seed = [SEED_BYTE; 32];
    assert(seed@ =~= permutation_seed());
    let draws = draw_seeded(seed, &bounds);
    let ghost all = draws@;
    let mut a: Vec<u64> = Vec::with_capacity(n);
    for j in 0..n
        invariant
            n == num_perm,
            all == draws@,
            all.len() == 2 * n,
            a@ == all.take(j as int),
    {
        a.push(draws[j]);
        assert(a@ =~= all.take(j + 1));
    }
    let total = draws.len();
    let mut b: Vec<u64> = Vec::with_capacity(n);
    for j in 0..n
        invariant
            n == num_perm,
            total == all.len(),
            all == draws@,
            all.len() == 2 * n,
            b@ == all.subrange(n as int, n + j),
    {
        b.push(draws[n + j]);
        assert(b@ =~= all.subrange(n as int, n + j + 1));
    }
    assert(a@ =~= all.take(n as int));
    assert(b@ =~= all.skip(n as int));
    assert forall|i: int| 0 <= i < num_perm implies 1 <= #[trigger] a@[i] < module_prime by {
        assert(bnds[i] == (1u64, module_prime));
    }
    assert forall|i: int| 0 <= i < num_perm implies #[trigger] b@[i] < module_prime by {
        assert(b@[i] == all[n + i]);
        assert(bnds[n + i] == (0u64, module_prime));
    }
    (a, b)
}

/// One permuted hash in 32-bit arithmetic: the product and the sum
/// wrap at 2^32 before the reduction.
pub open spec fn permute_wrapping(h: u32, a: u32, b: u32, p: u32, m: u32) -> u32
    recommends
        p > 0,
{
    ((u32_specs::wrapping_add(u32_specs::wrapping_mul(h, a), b) % p) as u32) & m
}

/// The matrix form of min-wise hashing in 32-bit arithmetic: one row per
/// hash holding its permuted values, then a last row of `max_hash`.
pub fn permute_hashes(
    hashvalues: Vec<u32>,
    a: &[u32],
    b: &[u32],
    modulo_prime: u32,
    max_hash: u32,
) -> (r: Vec<Vec<u32>>)
    requires
        a@.len() == b@.len(),
        modulo_prime > 0,
    ensures
        r@.len() == hashvalues@.len() + 1,
        forall|i: int|
            #![trigger r@[i]]
            0 <= i < hashvalues@.len() ==> r@[i]@.len() == a@.len() && forall|j: int|
                0 <= j < a@.len() ==> r@[i]@[j] == permute_wrapping(
                    hashvalues@[i],
                    a@[j],
                    b@[j],
                    modulo_prime,
                    max_hash,
                ),
        r@[hashvalues@.len() as int]@ == Seq::new(a@.len(), |j: int| max_hash),
{
    let k = a.len();
    let mut rows: Vec<Vec<u32>> = Vec::with_capacity(hashvalues.len());
    for i in 0..hashvalues.len()
        invariant
            k == a@.len(),
            k == b@.len(),
            modulo_prime > 0,
            rows@.len() == i,
            forall|ii: int|
                #![trigger rows@[ii]]
                0 <= ii < i ==> rows@[ii]@.len() == k && forall|j: int|
                    0 <= j < k ==> rows@[ii]@[j] == permute_wrapping(
                        hashvalues@[ii],
                        a@[j],
                        b@[j],
                        modulo_prime,
                        max_hash,
                    ),
    {
        let hash = hashvalues[i];
        let mut row: Vec<u32> = Vec::with_capacity(k);
        for j in 0..k
            invariant
                k == a@.len(),
                k == b@.len(),
                modulo_prime > 0,
                i < hashvalues@.len(),
                hash == hashvalues@[i as int],
                row@.len() == j,
                forall|jj: int|
                    0 <= jj < j ==> row@[jj] == permute_wrapping(
                        hash,
                        a@[jj],
                        b@[jj],
                        modulo_prime,
                        max_hash,
                    ),
        {
            let v = (hash.wrapping_mul(a[j]).wrapping_add(b[j]) % modulo_prime) & max_hash;
            row.push(v);
        }
        rows.push(row);
    }
    let last: Vec<u32> = vec![max_hash; k];
    rows.push(last);
    assert(rows@[hashvalues@.len() as int]@ =~= Seq::new(a@.len(), |j: int| max_hash));
    rows
}

/// The least value of column `col` over the rows.
pub open spec fn column_min(rows: Seq<Seq<u32>>, col: int) -> u32
    decreases rows.len(),
{
    if rows.len() <= 1 {
        rows[0][col]
    } else {
        let rest = column_min(rows.drop_last(), col);
        let v = rows.last()[col];
        if v < rest {
            v
        } else {
            rest
        }
    }
}

/// The least value of each column of a non-empty matrix whose rows are at
/// least as long as its first row.
pub fn find_min(hashvalues: Vec<Vec<u32>>) -> (r: Vec<u32>)
    requires
        hashvalues@.len() > 0,
        forall|i: int|
            0 <= i < hashvalues@.len() ==> #[trigger] hashvalues@[i]@.len() >= hashvalues@[0]@.len(),
    ensures
        r@.len() == hashvalues@[0]@.len(),
        forall|c: int|
            0 <= c < r@.len() ==> #[trigger] r@[c] == column_min(
                hashvalues@.map_values(|row: Vec<u32>| row@),
                c,
            ),
{
    let ghost rows = hashvalues@.map_values(|row: Vec<u32>| row@);
    let num_cols = hashvalues[0].len();
    let mut min_values: Vec<u32> = Vec::with_capacity(num_cols);
    for col in 0..num_cols
        invariant
            rows == hashvalues@.map_values(|row: Vec<u32>| row@),
            num_cols == hashvalues@[0]@.len(),
            hashvalues@.len() > 0,
            forall|i: int|
                0 <= i < hashvalues@.len() ==> #[trigger] hashvalues@[i]@.len() >= num_cols,
            min_values@.len() == col,
            forall|c: int| 0 <= c < col ==> #[trigger] min_values@[c] == column_min(rows, c),
    {
        let mut m: u32 = hashvalues[0][col];
        assert(rows.take(1).len() == 1);
        assert(rows.take(1)[0] == hashvalues@[0]@);
        let mut i: usize = 1;
        while i < hashvalues.len()
            invariant
                rows == hashvalues@.map_values(|row: Vec<u32>| row@),
                1 <= i <= hashvalues@.len(),
                col < num_cols,
                forall|ii: int|
                    0 <= ii < hashvalues@.len() ==> #[trigger] hashvalues@[ii]@.len() >= num_cols,
                m == column_min(rows.take(i as int), col as int),
            decreases hashvalues@.len() - i,
        {
            let v = hashvalues[i][col];
            assert(rows.take(i + 1).drop_last() =~= rows.take(i as int));
            assert(rows.take(i + 1).last() == hashvalues@[i as int]@);
            if v < m {
                m = v;
            }
            i = i + 1;
        }
        assert(rows.take(hashvalues.len() as int) =~= rows);
        min_values.push(m);
    }
    min_values
}

} // verus!
