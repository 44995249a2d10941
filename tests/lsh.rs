use dedup_rs::minhash::{generate_permutations, MODULE_PRIME};
use dedup_rs::lsh::EmbedFunc;
use dedup_rs::union_find::UnionFind;

fn run(docs: &[(&str, u32)], b: u32, r: u32, n: u32, min_len: u32) -> (Vec<u32>, UnionFind) {
    let mut ef = EmbedFunc::from_b_r(b, r, n, b * r, min_len);
    let text: Vec<String> = docs.iter().map(|d| d.0.to_string()).collect();
    let idx: Vec<u32> = docs.iter().map(|d| d.1).collect();
    ef.batch_embed_shard(text, idx.clone());
    let mut uf = ef.cluster();
    let kept = ef.filter_duplicates(&mut uf, &idx);
    (kept.iter().map(|&i| idx[i]).collect(), uf)
}

#[test]
fn empty_corpus() {
    let (kept, uf) = run(&[], 10, 4, 2, 5);
    assert!(kept.is_empty());
    assert!(uf.parent().is_empty());
    assert_eq!(uf.edges(), 0);
}

#[test]
fn single_document_survives() {
    let (kept, uf) = run(&[("one lonely document about nothing much at all", 42)], 10, 4, 2, 5);
    assert_eq!(kept, vec![42]);
    assert_eq!(uf.parent().len(), 1);
    assert_eq!(uf.parent().get(&42), Some(&42));
}

#[test]
fn exact_duplicates_merge() {
    let text = "the same words in the same order make the same signature";
    let (kept, mut uf) = run(&[(text, 7), (text, 3)], 10, 4, 2, 5);
    assert_eq!(kept.len(), 1);
    assert_eq!(uf.find(7), uf.find(3));
    assert_eq!(uf.edges(), 1);
}

#[test]
fn short_documents_collide_in_every_band() {
    let mut ef = EmbedFunc::from_b_r(10, 4, 3, 40, 5);
    let keys = ef.embed_func("a b c d");
    assert_eq!(keys.len(), 10);
    let other = ef.embed_func("w x y z");
    assert_eq!(keys, other);
    ef.batch_add(keys, 1);
    ef.batch_add(other, 2);
    let mut uf = ef.cluster();
    assert_eq!(uf.find(1), uf.find(2));
    assert_eq!(ef.filter_duplicates(&mut uf, &[1, 2]).len(), 1);
}

#[test]
fn different_documents_stay_apart() {
    let (kept, _) = run(
        &[
            ("alpha beta gamma delta epsilon zeta eta theta", 1),
            ("completely unrelated words appear in this sentence today", 2),
        ],
        20,
        5,
        2,
        3,
    );
    assert_eq!(kept, vec![1, 2]);
}

#[test]
fn band_count_is_lowered_to_fit() {
    let ef = EmbedFunc::from_b_r(60, 4, 2, 200, 5);
    assert_eq!(ef.embed_func("some text here to embed for bands").len(), 50);
}

#[test]
fn from_permutations_uses_given_ranges() {
    let a: Vec<u64> = vec![3, 5, 7, 11];
    let b: Vec<u64> = vec![1, 2, 3, 4];
    let ef = EmbedFunc::from_permutations(1, 0, vec![(0, 2), (2, 4)], (a, b));
    let keys = ef.embed_func("x");
    assert_eq!(keys.len(), 2);
    assert_eq!(keys[0].len(), 16);
}

#[test]
fn streaming_batches_keep_earlier_classes() {
    let text = "one two three four five six seven eight nine ten";
    let mut ef = EmbedFunc::from_b_r(10, 4, 2, 40, 3);
    let mut uf = UnionFind::new();
    ef.batch_embed_shard(vec![text.to_string(), text.to_string()], vec![1, 2]);
    ef.cluster_into(&mut uf);
    ef.clear_bands();
    ef.batch_embed_shard(vec!["an entirely different sentence about other things".to_string()], vec![3]);
    ef.cluster_into(&mut uf);
    assert_eq!(uf.find(1), uf.find(2));
    assert_ne!(uf.find(3), uf.find(1));
    assert_eq!(uf.edges(), 1);
}

#[test]
fn cleared_bands_hold_nothing() {
    let mut ef = EmbedFunc::from_b_r(5, 2, 1, 10, 0);
    ef.batch_embed_shard(vec!["same".to_string(), "same".to_string()], vec![4, 9]);
    ef.clear_bands();
    let mut uf = ef.cluster();
    assert_ne!(uf.find(4), uf.find(9));
    assert_eq!(uf.edges(), 0);
}

#[test]
fn input_order_keeps_classes() {
    let a = "a quick brown fox jumps over the lazy dog near the river bank";
    let b = "completely different words are written in this other line of text";
    let docs = [(a, 1), (b, 2), (a, 3), (b, 4), (a, 5)];
    let mut reversed = docs;
    reversed.reverse();
    let (kept1, mut uf1) = run(&docs, 10, 4, 2, 3);
    let (kept2, mut uf2) = run(&reversed, 10, 4, 2, 3);
    assert_eq!(kept1.len(), 2);
    assert_eq!(kept2.len(), 2);
    for x in 1..6usize {
        for y in 1..6usize {
            assert_eq!(uf1.find(x) == uf1.find(y), uf2.find(x) == uf2.find(y));
        }
    }
}

#[test]
fn band_product_sets_permutation_count() {
    let text = "several words make a few shingles for the signature here";
    let clamped = EmbedFunc::from_b_r(60, 4, 2, 200, 3);
    let direct = EmbedFunc::from_permutations(
        2,
        3,
        (0..50u32).map(|i| (i * 4, (i + 1) * 4)).collect(),
        generate_permutations(MODULE_PRIME, 200),
    );
    assert_eq!(clamped.embed_func(text), direct.embed_func(text));
    let small = EmbedFunc::from_b_r(10, 4, 2, 200, 3);
    let small_direct = EmbedFunc::from_permutations(
        2,
        3,
        (0..10u32).map(|i| (i * 4, (i + 1) * 4)).collect(),
        generate_permutations(MODULE_PRIME, 40),
    );
    assert_eq!(small.embed_func(text), small_direct.embed_func(text));
}

#[test]
fn tokenless_document_keys_are_all_max() {
    let ef = EmbedFunc::from_b_r(10, 4, 3, 40, 5);
    let keys = ef.embed_func("a b c d");
    let one: Vec<u8> = vec![0, 0, 0, 0, 255, 255, 255, 255];
    let band: Vec<u8> = one.iter().cycle().take(32).cloned().collect();
    assert_eq!(keys, vec![band; 10]);
}

#[test]
fn cluster_counts_joins_and_nodes() {
    let text = "the same words in the same order make the same signature";
    let mut ef = EmbedFunc::from_b_r(10, 4, 2, 40, 3);
    ef.batch_embed_shard(
        vec![text.to_string(), text.to_string(), text.to_string(), "lonely unrelated words stand apart here".to_string()],
        vec![5, 9, 2, 30],
    );
    let uf = ef.cluster();
    assert_eq!(uf.edges(), 2);
    assert_eq!(uf.parent().len(), 3);
    assert!(uf.parent().get(&30).is_none());
}

#[test]
fn single_document_leaves_partition_empty() {
    let mut ef = EmbedFunc::from_b_r(10, 4, 2, 40, 3);
    ef.batch_embed_shard(vec!["just one document in this corpus".to_string()], vec![8]);
    let uf = ef.cluster();
    assert!(uf.parent().is_empty());
    assert!(uf.rank().is_empty());
    assert_eq!(uf.edges(), 0);
}
