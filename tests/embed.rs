use std::collections::HashSet;

use dedup_rs::bands::{adjust_b, generate_hash_rangs, swap_bytes};
use dedup_rs::embed::{py_embed_func, signature_of};
use dedup_rs::hashing::{hash_tokens, sha1_hash};
use dedup_rs::minhash::{
    find_min, generate_permutations, hash_helper, min_hash_fused, permute_hashes, MAX_HASH,
    MODULE_PRIME,
};
use dedup_rs::tokenizer::{ngrams, split_text, tokenize, tokens_from_words};

fn words(v: &[&str]) -> Vec<Vec<u8>> {
    v.iter().map(|s| s.as_bytes().to_vec()).collect()
}

#[test]
fn embed_test_embed_fn() {
    let num_perm = 200;

    let (b, r) = (50, 4);
    let permutations = generate_permutations(MODULE_PRIME, num_perm);
    let hash_ranges: Vec<(u32, u32)> = (0..b).map(|i| (i * r, (i + 1) * r)).collect();
    let n = 2;
    let text = "Lorem ipsum dolor sit amet, consectetur adipiscing elit. Sed do eiusmod tempor incididunt ut labore et dolore magna aliqua. Ut enim ad minim veniam, quis nostrud exercitation ullamco laboris nisi ut aliquip ex ea commodo consequat. Duis aute irure dolor in reprehenderit in voluptate velit esse cillum dolore eu fugiat nulla pariatur. Excepteur sint occaecat cupidatat non proident, sunt in culpa qui officia deserunt mollit anim id est laborum.";
    py_embed_func(text, &n, &permutations, &hash_ranges, &5);
}

#[test]
fn test_split_text() {
    let text = "Lorem ipsum dolor sit amet, consectetur adipiscing elit.";
    let baseline = vec![
        "lorem",
        "ipsum",
        "dolor",
        "sit",
        "amet",
        "",
        "consectetur",
        "adipiscing",
        "elit",
        "",
    ];
    let result = split_text(text);
    assert_eq!(result, words(&baseline));
}

#[test]
fn test_ngrams() {
    let n = 3;
    let min_length = 5;
    let text = vec![
        "lorem",
        "ipsum",
        "dolor",
        "sit",
        "amet",
        "",
        "consectetur",
        "adipiscing",
        "elit",
        "",
    ];
    let text = words(&text);
    let ngrams = ngrams(text, &n, &min_length);
    assert_eq!(ngrams.len(), 8);
}

#[test]
fn test_tokenize() {
    let baseline: HashSet<Vec<u8>> = HashSet::from_iter(vec![
        vec![97, 109, 101, 116, 32, 32],
        vec![
            105, 112, 115, 117, 109, 32, 100, 111, 108, 111, 114, 32, 115, 105, 116,
        ],
        vec![
            100, 111, 108, 111, 114, 32, 115, 105, 116, 32, 97, 109, 101, 116,
        ],
        vec![
            108, 111, 114, 101, 109, 32, 105, 112, 115, 117, 109, 32, 100, 111, 108, 111, 114,
        ],
        vec![115, 105, 116, 32, 97, 109, 101, 116, 32],
    ]);

    let n = 3;
    let min_length = 5;
    let text = "Lorem ipsum dolor sit amet, ";
    let tokens: HashSet<Vec<u8>> = tokenize(text, &n, &min_length).into_iter().collect();
    assert_eq!(tokens, baseline);
    let baseline: HashSet<Vec<u8>> = HashSet::from_iter(vec![
        vec![
            108, 111, 114, 101, 109, 32, 105, 112, 115, 117, 109, 32, 100, 111, 108, 111, 114,
            32, 115, 105, 116,
        ],
        vec![115, 105, 116, 32, 97, 109, 101, 116, 32, 32],
        vec![
            105, 112, 115, 117, 109, 32, 100, 111, 108, 111, 114, 32, 115, 105, 116, 32, 97,
            109, 101, 116,
        ],
        vec![
            100, 111, 108, 111, 114, 32, 115, 105, 116, 32, 97, 109, 101, 116, 32,
        ],
    ]);
    let n = 4;
    let min_length = 5;
    let text = "Lorem ipsum dolor sit amet, ";
    let tokens: HashSet<Vec<u8>> = tokenize(text, &n, &min_length).into_iter().collect();
    assert_eq!(tokens, baseline);
}

#[test]
fn test_hash_function() {
    let tokens: HashSet<Vec<u8>> = HashSet::from_iter(vec![
        vec![
            108, 111, 114, 101, 109, 32, 105, 112, 115, 117, 109, 32, 100, 111, 108, 111, 114,
        ],
        vec![
            105, 112, 115, 117, 109, 32, 100, 111, 108, 111, 114, 32, 115, 105, 116,
        ],
    ]);
    let hashes: Vec<u64> = hash_tokens(tokens.into_iter().collect());
    let hashes: HashSet<u64> = HashSet::from_iter(hashes);
    let baseline: HashSet<u64> = HashSet::from_iter(vec![3201882886, 3634006389]);
    assert_eq!(hashes, baseline);
}

#[test]
fn test_permute_hash_unit() {
    let input_hashes: Vec<u32> = vec![3201882886, 3634006389];
    let a: u32 = 1608637543;
    let b: u32 = 3421126067;
    let max_hash: u32 = u32::MAX;
    let shifted_max_hash: u32 = ((1u64 << 32) - 1) as u32;
    assert_eq!(shifted_max_hash, max_hash);

    let modulo_prime: u32 = u32::MAX - 4;
    let shifted_modulo_prime: u32 = ((1u64 << 32) - 5) as u32;
    assert_eq!(shifted_modulo_prime, modulo_prime);

    let new_hash: HashSet<u32> = input_hashes
        .iter()
        .map(|&hash| {
            let computed_hash = (hash.wrapping_mul(a).wrapping_add(b) % modulo_prime) & max_hash;
            computed_hash
        })
        .collect();
    let baseline: HashSet<u32> = HashSet::from_iter(vec![2880013597, 4211939270]);
    assert_eq!(new_hash, baseline);
}

#[test]
fn test_function_permute_hash() {
    let input_hashes: Vec<u32> = vec![3201882886, 3634006389];
    let a: Vec<u32> = vec![3143890027, 3348747336];
    let b: Vec<u32> = vec![2571218620, 2563451924];
    let max_hash: u32 = u32::MAX;
    let modulo_prime: u32 = u32::MAX - 4;
    let new_hashvalues = permute_hashes(input_hashes, &a, &b, modulo_prime, max_hash);
    let baseline: HashSet<Vec<u32>> = HashSet::from_iter(vec![
        vec![603517502, 1807728068],
        vec![203138723, 2550380796],
        vec![4294967295, 4294967295],
    ]);
    let new_hashvalues: HashSet<Vec<u32>> = HashSet::from_iter(new_hashvalues);
    assert_eq!(new_hashvalues, baseline);
}

#[test]
fn test_min_hash_original() {
    let input_hashes: Vec<u32> = vec![3201882886, 3634006389];
    let a: Vec<u32> = vec![3143890027, 3348747336];
    let b: Vec<u32> = vec![2571218620, 2563451924];
    let max_hash: u32 = u32::MAX;
    let modulo_prime: u32 = u32::MAX - 4;
    let result: Vec<Vec<u32>> = permute_hashes(input_hashes, &a, &b, modulo_prime, max_hash);

    let hashvalues = find_min(result);
    let baseline: Vec<u32> = vec![203138723, 1807728068];
    assert_eq!(hashvalues, baseline);
}

#[test]
fn test_fused_min_hash() {
    let input_hashes: Vec<u64> = vec![
        684415160, 659044179, 971394434, 2591406015, 1557223710, 827156816, 3839636002,
        1313217433, 334402827, 3601442597,
    ];
    let a: Vec<u64> = vec![2297359619001564596, 1396682528897996047];
    let b: Vec<u64> = vec![1973689801170867271, 1819927849474927636];
    let max_hash: u64 = (1u64 << 32) - 1;
    let modulo_prime: u64 = (1u64 << 61) - 1;
    let result = min_hash_fused(&input_hashes, &a, &b, modulo_prime, max_hash);
    // (h * a + b) mod p on unbounded integers; 64-bit wrapping would give
    // [307409119, 1040993984] instead
    let baseline: Vec<u64> = vec![328006234, 158579095];
    assert_eq!(result, baseline);
}

#[test]
fn test_byte_swap() {
    let hashvalues: Vec<u64> = vec![307409119, 1040993984];
    let hash_ranges: Vec<(u32, u32)> = vec![(0, 1), (1, 2)];
    let result = swap_bytes(&hashvalues, &hash_ranges);
    let baseline = vec![vec![0, 0, 0, 0, 18, 82, 176, 223], vec![0, 0, 0, 0, 62, 12, 78, 192]];
    assert_eq!(result, baseline);
    let hash_ranges: Vec<(u32, u32)> = vec![(0, 2)];
    let result = swap_bytes(&hashvalues, &hash_ranges);
    let baseline = vec![vec![0, 0, 0, 0, 18, 82, 176, 223, 0, 0, 0, 0, 62, 12, 78, 192]];
    assert_eq!(result, baseline);
}

#[test]
fn test_generate_hash_ranges() {
    let b = 10;
    let r = 5;
    let expected = vec![
        (0, 5),
        (5, 10),
        (10, 15),
        (15, 20),
        (20, 25),
        (25, 30),
        (30, 35),
        (35, 40),
        (40, 45),
        (45, 50),
    ];

    let result = generate_hash_rangs(b, r);
    assert_eq!(result, expected);
}

#[test]
fn band_reaching_past_signature_is_empty() {
    let hashvalues: Vec<u64> = vec![1, 2, 3, 4, 5];
    let result = swap_bytes(&hashvalues, &[(0, 1), (4, 8), (6, 7), (3, 2)]);
    assert_eq!(result, vec![vec![0, 0, 0, 0, 0, 0, 0, 1], vec![], vec![], vec![]]);
}

#[test]
fn permuted_hash_exact_value() {
    let p = (1u64 << 61) - 1;
    let m = (1u64 << 32) - 1;
    assert_eq!(
        hash_helper(3201882886, 2297359619001564596, 571748048327668950, p, m),
        2850258552
    );
    assert_eq!(hash_helper(0, 5, 7, p, m), 7);
}

#[test]
fn sha1_prefix_exact_values() {
    assert_eq!(sha1_hash(b"lorem ipsum dolor"), 3634006389);
    assert_eq!(sha1_hash(b"a b c"), 2620604267);
    assert_eq!(sha1_hash(b""), 4003674586);
}

#[test]
fn empty_hashes_give_max_signature() {
    let a: Vec<u64> = vec![2297359619001564596, 1396682528897996047, 5];
    let b: Vec<u64> = vec![1973689801170867271, 1819927849474927636, 9];
    let result = min_hash_fused(&[], &a, &b, MODULE_PRIME, MAX_HASH);
    assert_eq!(result, vec![MAX_HASH; 3]);
}

#[test]
fn short_document_signature_is_all_max() {
    let permutations = generate_permutations(MODULE_PRIME, 16);
    let sig = signature_of("a b c d", &3, &permutations, &5);
    assert_eq!(sig, vec![MAX_HASH; 16]);
}

#[test]
fn signature_length_and_bound() {
    let permutations = generate_permutations(MODULE_PRIME, 40);
    let sig = signature_of("The quick brown fox jumps over the lazy dog again", &2, &permutations, &3);
    assert_eq!(sig.len(), 40);
    assert!(sig.iter().all(|&v| v <= MAX_HASH));
    assert!(sig.iter().any(|&v| v < MAX_HASH));
}

#[test]
fn permutations_are_seeded_and_in_range() {
    let (a, b) = generate_permutations(MODULE_PRIME, 50);
    let (a2, b2) = generate_permutations(MODULE_PRIME, 50);
    assert_eq!(a.len(), 50);
    assert_eq!(b.len(), 50);
    assert_eq!(a, a2);
    assert_eq!(b, b2);
    assert!(a.iter().all(|&v| v >= 1 && v < MODULE_PRIME));
    assert!(b.iter().all(|&v| v < MODULE_PRIME));
    assert_ne!(a, b);
}

#[test]
fn token_round_trip() {
    let token = b"lorem ipsum dolor".to_vec();
    let again = tokenize("lorem ipsum dolor", &3, &0);
    assert_eq!(again, vec![token.clone()]);
    let words_of_token = split_text(std::str::from_utf8(&token).unwrap());
    assert_eq!(tokens_from_words(words_of_token, &3, &3), vec![token]);
}

#[test]
fn short_sequence_is_one_ngram_and_too_short_is_none() {
    let w = words(&["a", "b"]);
    assert_eq!(ngrams(w.clone(), &3, &1), vec![w.clone()]);
    assert_eq!(ngrams(w.clone(), &3, &3), Vec::<Vec<Vec<u8>>>::new());
    assert_eq!(ngrams(w, &1, &0).len(), 2);
}

#[test]
fn tokenize_removes_repeats() {
    let tokens = tokenize("a a a a", &1, &0);
    assert_eq!(tokens, vec![b"a".to_vec()]);
    assert_eq!(tokenize("", &2, &0), vec![Vec::<u8>::new()]);
}

#[test]
fn band_count_is_clamped() {
    assert_eq!(adjust_b(50, 4, 200), (50, false));
    assert_eq!(adjust_b(60, 4, 200), (50, true));
    assert_eq!(adjust_b(3, 7, 5), (0, true));
}

#[test]
fn split_is_ascii_word_classes() {
    assert_eq!(split_text("Café x_1"), words(&["caf", "", "x_1"]));
}
