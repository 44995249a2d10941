//! The settings of a deduplication run.
use vstd::prelude::*;

verus! {

/// Settings of a run: requested bands and rows per band, permutation
/// count, n-gram width, minimum word count, the input's text and id
/// columns, the input path and where the partition is written.
pub struct Args {
    pub b: u32,
    pub r: u32,
    pub num_perm: u32,
    pub n_grams: u32,
    pub main_col: String,
    pub parquet_path: String,
    pub idx_col: String,
    pub min_len: u32,
    pub uf_output: String,
}

} // verus!
