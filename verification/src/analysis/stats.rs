//! Aggregate code statistics: how functions spread over complexity bands.

use vstd::prelude::*;

verus! {

/// Number of functions in each complexity band (by block count).
#[derive(Debug, Clone, Copy, PartialEq, Eq, Structural)]
pub struct ComplexityDistribution {
    pub low: usize,
    pub medium: usize,
    pub high: usize,
    pub critical: usize,
}

/// Band of a function with `blocks` blocks: 0 low (at most 10), 1 medium
/// (at most 25), 2 high (at most 50), 3 critical.
pub open spec fn band_of(blocks: i64) -> int {
    if blocks <= 10 { 0 } else if blocks <= 25 { 1 } else if blocks <= 50 { 2 } else { 3 }
}

/// Number of the first `k` counts that fall in band `b`.
pub open spec fn band_count(counts: Seq<i64>, b: int, k: nat) -> nat
    decreases k,
{
    if k == 0 {
        0
    } else {
        band_count(counts, b, (k - 1) as nat) + if band_of(counts[k - 1]) == b { 1nat } else { 0nat }
    }
}

/// Spread functions, given by their block counts, over the complexity bands.
pub fn classify_block_counts(block_counts: &Vec<i64>) -> (r: ComplexityDistribution)
    ensures
        r.low == band_count(block_counts@, 0, block_counts@.len()),
        r.medium == band_count(block_counts@, 1, block_counts@.len()),
        r.high == band_count(block_counts@, 2, block_counts@.len()),
        r.critical == band_count(block_counts@, 3, block_counts@.len()),
{
    let mut low: usize = 0;
    let mut medium: usize = 0;
    let mut high: usize = 0;
    let mut critical: usize = 0;
    let mut i: usize = 0;
    while i < block_counts.len()
        invariant
            i <= block_counts.len(),
            low == band_count(block_counts@, 0, i as nat),
            medium == band_count(block_counts@, 1, i as nat),
            high == band_count(block_counts@, 2, i as nat),
            critical == band_count(block_counts@, 3, i as nat),
            low + medium + high + critical == i,
        decreases block_counts.len() - i,
    {
        let blocks = block_counts[i];
        if blocks <= 10 {
            low = low + 1;
        } else if blocks <= 25 {
            medium = medium + 1;
        } else if blocks <= 50 {
            high = high + 1;
        } else {
            critical = critical + 1;
        }
        i = i + 1;
    }
    ComplexityDistribution { low, medium, high, critical }
}

} // verus!
