//! Enumeration limits, path hashing and the precomputed enumeration context.

use vstd::prelude::*;
use std::collections::HashSet;
use crate::cfg::BlockId;
use crate::cfg::analysis::{find_exits, exit_indices, is_exit_terminator, lemma_exit_indices};
use crate::cfg::graph::{lemma_same_multiset, Cfg, CfgEdge, cfg_blocks, cfg_edges, node_count, block, successors, out_nbrs, reachable_from};
use crate::cfg::loops::{find_loop_headers, is_header_of_some, back_edges};
use crate::cfg::reachability::reachable_flags;
use crate::cfg::node_set::clone_node_set;

verus! {

broadcast use vstd::std_specs::hash::group_hash_axioms;

/// Configurable limits for path enumeration: they bound the number and
/// length of paths, loop unrolling, and the total work of a search.
#[derive(Debug, Clone, PartialEq, Eq, Structural)]
pub struct PathLimits {
    /// Maximum number of blocks per path
    pub max_length: usize,
    /// Maximum number of paths to enumerate
    pub max_paths: usize,
    /// Loop iterations to unroll before stopping
    pub loop_unroll_limit: usize,
    /// Maximum number of search steps (node visits) before giving up
    pub max_visits: usize,
}

impl Default for PathLimits {
    fn default() -> (r: Self)
        ensures
            r.max_length == 1000,
            r.max_paths == 10000,
            r.loop_unroll_limit == 3,
            r.max_visits == 1_000_000,
    {
        PathLimits { max_length: 1000, max_paths: 10000, loop_unroll_limit: 3, max_visits: 1_000_000 }
    }
}

impl PathLimits {
    /// Limits with custom length, count and unroll values (and the default
    /// search budget).
    pub fn new(max_length: usize, max_paths: usize, loop_unroll_limit: usize) -> (r: Self)
        ensures
            r.max_length == max_length,
            r.max_paths == max_paths,
            r.loop_unroll_limit == loop_unroll_limit,
            r.max_visits == 1_000_000,
    {
        PathLimits { max_length, max_paths, loop_unroll_limit, max_visits: 1_000_000 }
    }

    /// The same limits with another maximum path length.
    pub fn with_max_length(self, max_length: usize) -> (r: Self)
        ensures
            r == (PathLimits { max_length, ..self }),
    {
        PathLimits { max_length, ..self }
    }

    /// The same limits with another maximum path count.
    pub fn with_max_paths(self, max_paths: usize) -> (r: Self)
        ensures
            r == (PathLimits { max_paths, ..self }),
    {
        PathLimits { max_paths, ..self }
    }

    /// The same limits with another loop unroll limit.
    pub fn with_loop_unroll_limit(self, loop_unroll_limit: usize) -> (r: Self)
        ensures
            r == (PathLimits { loop_unroll_limit, ..self }),
    {
        PathLimits { loop_unroll_limit, ..self }
    }

    /// The same limits with another search budget.
    pub fn with_max_visits(self, max_visits: usize) -> (r: Self)
        ensures
            r == (PathLimits { max_visits, ..self }),
    {
        PathLimits { max_visits, ..self }
    }

    /// Quick preset: short paths, few of them, minimal unrolling, for
    /// exploration where responsiveness matters.
    pub fn quick_analysis() -> (r: Self)
        ensures
            r.max_length == 100,
            r.max_paths == 1000,
            r.loop_unroll_limit == 2,
            r.max_visits == 100_000,
    {
        PathLimits { max_length: 100, max_paths: 1000, loop_unroll_limit: 2, max_visits: 100_000 }
    }

    /// Thorough preset: higher limits for comprehensive enumeration, still
    /// bounded.
    pub fn thorough() -> (r: Self)
        ensures
            r.max_length == 10000,
            r.max_paths == 100000,
            r.loop_unroll_limit == 5,
            r.max_visits == 10_000_000,
    {
        PathLimits { max_length: 10000, max_paths: 100000, loop_unroll_limit: 5, max_visits: 10_000_000 }
    }
}

/// The `k` low bytes of `x`, least significant first.
pub open spec fn le_bytes(x: nat, k: nat) -> Seq<u8>
    decreases k,
{
    if k == 0 {
        Seq::empty()
    } else {
        seq![(x % 256) as u8] + le_bytes(x / 256, (k - 1) as nat)
    }
}

/// Each block identifier as 8 little-endian bytes, in order.
pub open spec fn ids_encoding(blocks: Seq<usize>) -> Seq<u8>
    decreases blocks.len(),
{
    if blocks.len() == 0 {
        Seq::empty()
    } else {
        ids_encoding(blocks.drop_last()) + le_bytes(blocks.last() as nat, 8)
    }
}

/// The BLAKE3 digest of `bytes`, as 64 lowercase hexadecimal digits.
pub uninterp spec fn blake3_hex(bytes: Seq<u8>) -> Seq<char>;

/// The identifier of a path with the given blocks.
pub open spec fn path_hash(blocks: Seq<usize>) -> Seq<char> {
    blake3_hex(le_bytes(blocks.len() as nat, 8) + ids_encoding(blocks))
}

/// `blake3::hash` followed by `Hash::to_hex`: the digest of the bytes as a
/// hexadecimal string (64 characters, as the crate's `to_hex` writes two
/// per byte of the 32-byte output).
#[verifier::external_body]
fn blake3_hex_digest(bytes: &[u8]) -> (r: String)
    ensures
        r@ == blake3_hex(bytes@),
        r@.len() == 64,
{
    blake3::hash(bytes).to_hex().to_string()
}

/// Append the 8 little-endian bytes of `x`.
fn push_le_bytes(out: &mut Vec<u8>, x: u64)
    ensures
        final(out)@ == old(out)@ + le_bytes(x as nat, 8),
{
    let mut v: u64 = x;
    let mut k: usize = 0;
    let ghost start = out@;
    while k < 8
        invariant
            k <= 8,
            out@ + le_bytes(v as nat, (8 - k) as nat) == start + le_bytes(x as nat, 8),
        decreases 8 - k,
    {
        let ghost before = out@;
        let ghost vv = v;
        out.push((v % 256) as u8);
        v = v / 256;
        proof {
            assert(le_bytes(vv as nat, (8 - k) as nat) == seq![(vv % 256) as u8] + le_bytes(v as nat, (8 - k - 1) as nat));
            assert(out@ == before + seq![(vv % 256) as u8]);
            assert(out@ + le_bytes(v as nat, (8 - k - 1) as nat) == before + le_bytes(vv as nat, (8 - k) as nat));
        }
        k = k + 1;
    }
    proof {
        assert(le_bytes(v as nat, 0) == Seq::<u8>::empty());
        assert(out@ + Seq::<u8>::empty() == out@);
    }
}

/// BLAKE3 hash of a block sequence, as a hex string. The hashed bytes are
/// the sequence length followed by each block identifier, each as 8
/// little-endian bytes, so sequences of different lengths never share an
/// encoding.
pub fn hash_path(blocks: &[BlockId]) -> (r: String)
    ensures
        r@ == path_hash(blocks@),
        r@.len() == 64,
{
    let mut bytes: Vec<u8> = Vec::new();
    push_le_bytes(&mut bytes, blocks.len() as u64);
    let mut i: usize = 0;
    while i < blocks.len()
        invariant
            i <= blocks@.len(),
            bytes@ == le_bytes(blocks@.len() as nat, 8) + ids_encoding(blocks@.take(i as int)),
        decreases blocks@.len() - i,
    {
        let ghost before = bytes@;
        push_le_bytes(&mut bytes, blocks[i] as u64);
        proof {
            let t = blocks@.take(i + 1);
            assert(t.drop_last() == blocks@.take(i as int));
            assert(t.last() == blocks@[i as int]);
            assert(ids_encoding(t) == ids_encoding(blocks@.take(i as int)) + le_bytes(blocks@[i as int] as nat, 8));
        }
        i = i + 1;
    }
    proof {
        assert(blocks@.take(blocks@.len() as int) == blocks@);
    }
    blake3_hex_digest(bytes.as_slice())
}

/// Identifiers of the blocks the entry reaches.
pub open spec fn reachable_ids(bs: Seq<crate::cfg::BasicBlock>, es: Seq<CfgEdge>) -> Set<usize> {
    Set::new(|id: usize| exists|i: int| 0 <= i < bs.len() && reachable_from(es, 0, i as usize) && (#[trigger] bs[i]).id == id)
}

/// The nodes where paths end: the exit blocks (return, unreachable or
/// abort terminators), or, when there are none, the nodes with no
/// successor.
pub open spec fn exit_nodes(bs: Seq<crate::cfg::BasicBlock>, es: Seq<CfgEdge>) -> Set<usize> {
    if exit_indices(bs, bs.len()).len() > 0 {
        Set::new(|x: usize| x < bs.len() && is_exit_terminator(bs[x as int].terminator))
    } else {
        Set::new(|x: usize| x < bs.len() && out_nbrs(es, x).len() == 0)
    }
}

/// Pre-computed analysis shared by path enumerations of one CFG.
#[derive(Debug)]
pub struct EnumerationContext {
    /// Blocks reachable from the entry node
    pub reachable_blocks: HashSet<BlockId>,
    /// Loop header nodes (for bounding loop iterations)
    pub loop_headers: HashSet<usize>,
    /// Exit nodes (valid path termination points)
    pub exits: HashSet<usize>,
}

/// The identifiers of the reachable blocks.
pub fn reachable_block_ids(cfg: &Cfg) -> (r: HashSet<BlockId>)
    ensures
        r@ == reachable_ids(cfg_blocks(*cfg), cfg_edges(*cfg)),
{
    let flags = reachable_flags(cfg);
    let n = node_count(cfg);
    let ghost bs = cfg_blocks(*cfg);
    let ghost es = cfg_edges(*cfg);
    let mut r: HashSet<BlockId> = HashSet::new();
    let mut i: usize = 0;
    while i < n
        invariant
            i <= n,
            n == bs.len(),
            bs == cfg_blocks(*cfg),
            es == cfg_edges(*cfg),
            flags.len() == n,
            forall|k: int| 0 <= k < n ==> (#[trigger] flags@[k] <==> reachable_from(es, 0, k as usize)),
            forall|id: usize| #[trigger] r@.contains(id) <==>
                exists|k: int| 0 <= k < i && reachable_from(es, 0, k as usize) && (#[trigger] bs[k]).id == id,
        decreases n - i,
    {
        if flags[i] {
            let id = block(cfg, i).id;
            r.insert(id);
            proof {
                assert forall|x: usize| #[trigger] r@.contains(x) <==>
                    exists|k: int| 0 <= k < i + 1 && reachable_from(es, 0, k as usize) && (#[trigger] bs[k]).id == x by {
                    if x == id {
                        assert(reachable_from(es, 0, i as usize) && bs[i as int].id == x);
                    }
                }
            }
        } else {
            proof {
                assert forall|x: usize| #[trigger] r@.contains(x) <==>
                    exists|k: int| 0 <= k < i + 1 && reachable_from(es, 0, k as usize) && (#[trigger] bs[k]).id == x by {
                    if exists|k: int| 0 <= k < i + 1 && reachable_from(es, 0, k as usize) && (#[trigger] bs[k]).id == x {
                        let k = choose|k: int| 0 <= k < i + 1 && reachable_from(es, 0, k as usize) && (#[trigger] bs[k]).id == x;
                        assert(k != i);
                    }
                }
            }
        }
        i = i + 1;
    }
    proof {
        assert(r@ =~= reachable_ids(bs, es));
    }
    r
}

/// The nodes where paths end (see `exit_nodes`).
pub fn exit_node_set(cfg: &Cfg) -> (r: HashSet<usize>)
    ensures
        r@ == exit_nodes(cfg_blocks(*cfg), cfg_edges(*cfg)),
{
    let ghost bs = cfg_blocks(*cfg);
    let ghost es = cfg_edges(*cfg);
    let n = node_count(cfg);
    let exits = find_exits(cfg);
    let mut r: HashSet<usize> = HashSet::new();
    if exits.len() > 0 {
        let mut i: usize = 0;
        while i < exits.len()
            invariant
                i <= exits@.len(),
                n == bs.len(),
                bs == cfg_blocks(*cfg),
                exits@ == exit_indices(bs, bs.len()),
                forall|x: usize| #[trigger] r@.contains(x) <==> exists|k: int| 0 <= k < i && exits@[k] == x,
            decreases exits@.len() - i,
        {
            let x = exits[i];
            r.insert(x);
            proof {
                assert forall|y: usize| #[trigger] r@.contains(y) <==> exists|k: int| 0 <= k < i + 1 && exits@[k] == y by {
                    if y == x {
                        assert(exits@[i as int] == y);
                    }
                }
            }
            i = i + 1;
        }
        proof {
            assert forall|x: usize| #[trigger] r@.contains(x) <==> (x < bs.len() && is_exit_terminator(bs[x as int].terminator)) by {
                lemma_exit_indices(bs, bs.len(), x);
                if r@.contains(x) {
                    let k = choose|k: int| 0 <= k < exits@.len() && exits@[k] == x;
                    assert(exits@.contains(x));
                }
                if x < bs.len() && is_exit_terminator(bs[x as int].terminator) {
                    let k = choose|k: int| 0 <= k < exits@.len() && exits@[k] == x;
                }
            }
            assert(r@ =~= exit_nodes(bs, es));
        }
    } else {
        let mut i: usize = 0;
        while i < n
            invariant
                i <= n,
                n == bs.len(),
                bs == cfg_blocks(*cfg),
                es == cfg_edges(*cfg),
                forall|x: usize| #[trigger] r@.contains(x) <==> (x < i && out_nbrs(es, x).len() == 0),
            decreases n - i,
        {
            let succ = successors(cfg, i);
            proof {
                lemma_same_multiset(succ@, out_nbrs(es, i));
            }
            if succ.len() == 0 {
                r.insert(i);
            }
            i = i + 1;
        }
        proof {
            assert(r@ =~= exit_nodes(bs, es));
        }
    }
    r
}

impl Clone for EnumerationContext {
    fn clone(&self) -> (r: Self)
        ensures
            r.reachable_blocks@ == self.reachable_blocks@,
            r.loop_headers@ == self.loop_headers@,
            r.exits@ == self.exits@,
    {
        EnumerationContext {
            reachable_blocks: clone_node_set(&self.reachable_blocks),
            loop_headers: clone_node_set(&self.loop_headers),
            exits: clone_node_set(&self.exits),
        }
    }
}

impl EnumerationContext {
    /// Analyze a CFG: reachable block identifiers, loop headers and exits.
    pub fn new(cfg: &Cfg) -> (r: Self)
        ensures
            r.reachable_blocks@ == reachable_ids(cfg_blocks(*cfg), cfg_edges(*cfg)),
            forall|h: usize| #[trigger] r.loop_headers@.contains(h) <==> is_header_of_some(back_edges(cfg_edges(*cfg)), h),
            r.exits@ == exit_nodes(cfg_blocks(*cfg), cfg_edges(*cfg)),
    {
        let reachable_blocks = reachable_block_ids(cfg);
        let loop_headers = find_loop_headers(cfg);
        let exits = exit_node_set(cfg);
        EnumerationContext { reachable_blocks, loop_headers, exits }
    }

    /// Number of reachable blocks.
    pub fn reachable_count(&self) -> (r: usize)
        ensures
            r == self.reachable_blocks@.len(),
    {
        self.reachable_blocks.len()
    }

    /// Number of loop headers.
    pub fn loop_count(&self) -> (r: usize)
        ensures
            r == self.loop_headers@.len(),
    {
        self.loop_headers.len()
    }

    /// Number of exit nodes.
    pub fn exit_count(&self) -> (r: usize)
        ensures
            r == self.exits@.len(),
    {
        self.exits.len()
    }

    /// The block is reachable from the entry.
    pub fn is_reachable(&self, block_id: BlockId) -> (r: bool)
        ensures
            r == self.reachable_blocks@.contains(block_id),
    {
        self.reachable_blocks.contains(&block_id)
    }

    /// The node is a loop header.
    pub fn is_loop_header(&self, node: usize) -> (r: bool)
        ensures
            r == self.loop_headers@.contains(node),
    {
        self.loop_headers.contains(&node)
    }

    /// The node is an exit.
    pub fn is_exit(&self, node: usize) -> (r: bool)
        ensures
            r == self.exits@.contains(node),
    {
        self.exits.contains(&node)
    }
}

/// 256 to the power `k`.
pub open spec fn pow256(k: nat) -> nat
    decreases k,
{
    if k == 0 { 1 } else { 256 * pow256((k - 1) as nat) }
}

proof fn lemma_le_bytes_len(x: nat, k: nat)
    ensures
        le_bytes(x, k).len() == k,
    decreases k,
{
    if k > 0 {
        lemma_le_bytes_len(x / 256, (k - 1) as nat);
    }
}

/// Values below `256^k` have different `k`-byte encodings.
proof fn lemma_le_bytes_injective(x: nat, y: nat, k: nat)
    requires
        x < pow256(k),
        y < pow256(k),
        le_bytes(x, k) == le_bytes(y, k),
    ensures
        x == y,
    decreases k,
{
    if k == 0 {
    } else {
        let kk = (k - 1) as nat;
        lemma_le_bytes_len(x / 256, kk);
        lemma_le_bytes_len(y / 256, kk);
        assert(le_bytes(x, k) == seq![(x % 256) as u8] + le_bytes(x / 256, kk));
        assert(le_bytes(y, k) == seq![(y % 256) as u8] + le_bytes(y / 256, kk));
        assert(le_bytes(x, k)[0] == (x % 256) as u8);
        assert(le_bytes(y, k)[0] == (y % 256) as u8);
        assert(x % 256 == y % 256);
        assert(le_bytes(x / 256, kk) =~= le_bytes(x, k).skip(1));
        assert(le_bytes(y / 256, kk) =~= le_bytes(y, k).skip(1));
        assert(x / 256 < pow256(kk)) by (nonlinear_arith)
            requires x < 256 * pow256(kk);
        assert(y / 256 < pow256(kk)) by (nonlinear_arith)
            requires y < 256 * pow256(kk);
        lemma_le_bytes_injective(x / 256, y / 256, kk);
        assert(x == 256 * (x / 256) + x % 256) by (nonlinear_arith);
        assert(y == 256 * (y / 256) + y % 256) by (nonlinear_arith);
    }
}

proof fn lemma_pow256_8()
    ensures
        pow256(8) == 0x1_0000_0000_0000_0000,
{
    reveal_with_fuel(pow256, 9);
}

proof fn lemma_ids_encoding_len(blocks: Seq<usize>)
    ensures
        ids_encoding(blocks).len() == 8 * blocks.len(),
    decreases blocks.len(),
{
    if blocks.len() > 0 {
        lemma_ids_encoding_len(blocks.drop_last());
        lemma_le_bytes_len(blocks.last() as nat, 8);
    }
}

proof fn lemma_ids_encoding_injective(a: Seq<usize>, b: Seq<usize>)
    requires
        a.len() == b.len(),
        ids_encoding(a) == ids_encoding(b),
    ensures
        a == b,
    decreases a.len(),
{
    if a.len() > 0 {
        let ea = ids_encoding(a.drop_last());
        let eb = ids_encoding(b.drop_last());
        lemma_ids_encoding_len(a.drop_last());
        lemma_ids_encoding_len(b.drop_last());
        lemma_le_bytes_len(a.last() as nat, 8);
        lemma_le_bytes_len(b.last() as nat, 8);
        let whole = ids_encoding(a);
        assert(ea =~= whole.take(ea.len() as int));
        assert(eb =~= whole.take(ea.len() as int));
        assert(le_bytes(a.last() as nat, 8) =~= whole.skip(ea.len() as int));
        assert(le_bytes(b.last() as nat, 8) =~= whole.skip(ea.len() as int));
        lemma_pow256_8();
        lemma_le_bytes_injective(a.last() as nat, b.last() as nat, 8);
        lemma_ids_encoding_injective(a.drop_last(), b.drop_last());
        assert(a =~= a.drop_last().push(a.last()));
        assert(b =~= b.drop_last().push(b.last()));
    }
}

/// The bytes `hash_path` hashes: the length, then each identifier.
pub open spec fn path_hash_input(blocks: Seq<usize>) -> Seq<u8> {
    le_bytes(blocks.len() as nat, 8) + ids_encoding(blocks)
}

/// Different block sequences are hashed from different bytes (the length
/// comes first, so a sequence and its extension never share an input): two
/// paths get the same identifier only if BLAKE3 collides.
pub proof fn path_hash_input_injective(a: Seq<usize>, b: Seq<usize>)
    requires
        a.len() <= usize::MAX,
        b.len() <= usize::MAX,
        path_hash_input(a) == path_hash_input(b),
    ensures
        a == b,
{
    lemma_le_bytes_len(a.len() as nat, 8);
    lemma_le_bytes_len(b.len() as nat, 8);
    let whole = path_hash_input(a);
    assert(le_bytes(a.len() as nat, 8) =~= whole.take(8));
    assert(le_bytes(b.len() as nat, 8) =~= whole.take(8));
    lemma_pow256_8();
    lemma_le_bytes_injective(a.len() as nat, b.len() as nat, 8);
    assert(ids_encoding(a) =~= whole.skip(8));
    assert(ids_encoding(b) =~= whole.skip(8));
    lemma_ids_encoding_injective(a, b);
}

/// `hash_path` is a function of the block sequence alone: equal sequences
/// get equal identifiers.
pub proof fn path_hash_deterministic(a: Seq<usize>, b: Seq<usize>)
    requires
        a == b,
    ensures
        path_hash(a) == path_hash(b),
{
}

} // verus!
