//! Path-count estimation, used to warn about path explosion before
//! enumerating.

use vstd::prelude::*;
use std::collections::HashSet;
use crate::cfg::graph::{lemma_same_multiset, Cfg, CfgEdge, cfg_blocks, cfg_edges, node_count, successors, out_nbrs};
use crate::cfg::loops::{find_loop_headers, is_header_of_some, back_edges};
use crate::cfg::paths::limits::PathLimits;

verus! {

broadcast use vstd::std_specs::hash::group_hash_axioms;

/// Loop headers among the first `k` nodes.
pub open spec fn header_count(es: Seq<CfgEdge>, k: nat) -> nat
    decreases k,
{
    if k == 0 {
        0
    } else {
        header_count(es, (k - 1) as nat) + if is_header_of_some(back_edges(es), (k - 1) as usize) { 1nat } else { 0nat }
    }
}

/// Extra paths the branching of node `u` adds: its out-degree minus one,
/// for a node with several successors that is not a loop header.
pub open spec fn branch_extra(es: Seq<CfgEdge>, u: usize) -> nat {
    if is_header_of_some(back_edges(es), u) || out_nbrs(es, u).len() <= 1 {
        0
    } else {
        (out_nbrs(es, u).len() - 1) as nat
    }
}

/// Sum of `branch_extra` over the first `k` nodes.
pub open spec fn branch_total(es: Seq<CfgEdge>, k: nat) -> nat
    decreases k,
{
    if k == 0 { 0 } else { branch_total(es, (k - 1) as nat) + branch_extra(es, (k - 1) as usize) }
}

/// `b` to the power `e`.
pub open spec fn pow(b: int, e: nat) -> int
    decreases e,
{
    if e == 0 { 1 } else { b * pow(b, (e - 1) as nat) }
}

/// `x` capped at `m`.
pub open spec fn capped(x: int, m: int) -> int {
    if x > m { m } else { x }
}

/// The estimated number of paths of a CFG with `n` nodes: 1 for a graph
/// without branches or loops; otherwise 2 to the number of extra branch
/// successors (saturating beyond 127 of them) times (unroll limit + 1) to
/// the number of loop headers, saturating at the `u128` and then the
/// `usize` range.
pub open spec fn path_estimate(es: Seq<CfgEdge>, n: nat, unroll: nat) -> int {
    let b = branch_total(es, n);
    let loops = header_count(es, n);
    if loops == 0 && b == 0 {
        1
    } else {
        let bf = if b < 128 { pow(2, b) } else { u128::MAX as int };
        let lf = capped(pow((unroll + 1) as int, loops), u128::MAX as int);
        capped(capped(bf * lf, u128::MAX as int), usize::MAX as int)
    }
}

proof fn lemma_pow_nonneg(b: int, e: nat)
    requires
        b >= 1,
    ensures
        pow(b, e) >= 1,
    decreases e,
{
    if e > 0 {
        lemma_pow_nonneg(b, (e - 1) as nat);
        assert(b * pow(b, (e - 1) as nat) >= 1) by (nonlinear_arith)
            requires b >= 1, pow(b, (e - 1) as nat) >= 1;
    }
}

proof fn lemma_pow_add(b: int, x: nat, y: nat)
    ensures
        pow(b, x + y) == pow(b, x) * pow(b, y),
    decreases y,
{
    if y > 0 {
        lemma_pow_add(b, x, (y - 1) as nat);
        assert(pow(b, x + y) == b * pow(b, (x + y - 1) as nat));
        let px = pow(b, x);
        let py1 = pow(b, (y - 1) as nat);
        assert(b * (px * py1) == px * (b * py1)) by (nonlinear_arith);
    }
}

/// Powers of two below 2^127 fit in a `u128` when doubled.
proof fn lemma_pow2_bound(j: nat)
    requires
        j < 127,
    ensures
        pow(2, j + 1) == 2 * pow(2, j),
        2 * pow(2, j) <= 0x8000_0000_0000_0000_0000_0000_0000_0000,
    decreases 127 - j,
{
    if j + 1 < 127 {
        lemma_pow2_bound(j + 1);
        lemma_pow_nonneg(2, j);
    } else {
        assert(pow(2, 8) == 256) by {
            reveal_with_fuel(pow, 9);
        }
        assert(pow(2, 7) == 128) by {
            reveal_with_fuel(pow, 8);
        }
        lemma_pow_add(2, 8, 8);
        assert(pow(2, 16) == 65536);
        lemma_pow_add(2, 16, 16);
        assert(pow(2, 32) == 4294967296);
        lemma_pow_add(2, 32, 32);
        assert(pow(2, 64) == 18446744073709551616);
        lemma_pow_add(2, 64, 32);
        assert(pow(2, 96) == 79228162514264337593543950336);
        lemma_pow_add(2, 96, 16);
        assert(pow(2, 112) == 5192296858534827628530496329220096);
        lemma_pow_add(2, 112, 8);
        assert(pow(2, 120) == 1329227995784915872903807060280344576);
        lemma_pow_add(2, 120, 7);
        assert(pow(2, 127) == 0x8000_0000_0000_0000_0000_0000_0000_0000);
    }
}

/// Estimate the number of paths (see `path_estimate`).
pub fn estimate_path_count(cfg: &Cfg, loop_unroll_limit: usize) -> (r: usize)
    ensures
        r == path_estimate(cfg_edges(*cfg), cfg_blocks(*cfg).len(), loop_unroll_limit as nat),
{
    let ghost es = cfg_edges(*cfg);
    let headers = find_loop_headers(cfg);
    let n = node_count(cfg);
    let mut loop_count: usize = 0;
    let mut branches: usize = 0;
    let mut u: usize = 0;
    while u < n
        invariant
            u <= n,
            n == cfg_blocks(*cfg).len(),
            es == cfg_edges(*cfg),
            forall|h: usize| #[trigger] headers@.contains(h) <==> is_header_of_some(back_edges(es), h),
            loop_count == header_count(es, u as nat),
            loop_count <= u,
            branches == capped(branch_total(es, u as nat) as int, 128),
        decreases n - u,
    {
        if headers.contains(&u) {
            loop_count = loop_count + 1;
        } else {
            let succs = successors(cfg, u);
            proof {
                lemma_same_multiset(succs@, out_nbrs(es, u));
            }
            let d = succs.len();
            if d > 1 {
                if d - 1 >= 128 - branches {
                    branches = 128;
                } else {
                    branches = branches + (d - 1);
                }
            }
        }
        u = u + 1;
    }
    if loop_count == 0 && branches == 0 {
        return 1;
    }
    let base: u128 = (loop_unroll_limit as u128) + 1;
    let mut loop_factor: u128 = 1;
    let mut i: usize = 0;
    while i < loop_count
        invariant
            i <= loop_count,
            base == loop_unroll_limit + 1,
            loop_factor == capped(pow(base as int, i as nat), u128::MAX as int),
        decreases loop_count - i,
    {
        proof {
            lemma_pow_nonneg(base as int, i as nat);
            let p = pow(base as int, i as nat);
            assert(pow(base as int, (i + 1) as nat) == base * p);
            assert(base * p >= p) by (nonlinear_arith) requires base >= 1, p >= 1;
        }
        loop_factor = match loop_factor.checked_mul(base) {
            Some(v) => v,
            None => u128::MAX,
        };
        proof {
            let p = pow(base as int, i as nat);
            if p > u128::MAX {
                assert(base * u128::MAX >= u128::MAX) by (nonlinear_arith) requires base >= 1;
                assert(u128::MAX * base >= u128::MAX) by (nonlinear_arith) requires base >= 1;
            } else {
                assert(p * base == base * p) by (nonlinear_arith);
            }
        }
        i = i + 1;
    }
    let branch_factor: u128 = if branches < 128 {
        let mut f: u128 = 1;
        let mut j: usize = 0;
        while j < branches
            invariant
                j <= branches,
                branches < 128,
                f == pow(2, j as nat),
            decreases branches - j,
        {
            proof {
                lemma_pow2_bound(j as nat);
            }
            f = f * 2;
            j = j + 1;
        }
        f
    } else {
        u128::MAX
    };
    let product: u128 = match branch_factor.checked_mul(loop_factor) {
        Some(v) => v,
        None => u128::MAX,
    };
    if product > usize::MAX as u128 {
        usize::MAX
    } else {
        product as usize
    }
}

/// The estimate, when it exceeds the path cap (a warning that enumeration
/// will be truncated); `None` otherwise.
pub fn check_path_explosion(cfg: &Cfg, limits: &PathLimits) -> (r: Option<usize>)
    ensures
        ({
            let e = path_estimate(cfg_edges(*cfg), cfg_blocks(*cfg).len(), limits.loop_unroll_limit as nat);
            r == if e > limits.max_paths { Some(e as usize) } else { None }
        }),
{
    let estimate = estimate_path_count(cfg, limits.loop_unroll_limit);
    if estimate > limits.max_paths {
        Some(estimate)
    } else {
        None
    }
}

} // verus!
