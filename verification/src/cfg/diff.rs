//! Differences between two versions of a function's CFG: blocks added,
//! deleted or changed, and edges added or deleted.

use vstd::prelude::*;
use std::collections::HashMap;
use crate::text::same_text;

use crate::cfg::block_graph::CfgBlockData;
use crate::text::{nat_text, push_nat, push_text, string_from_chars};

verus! {

broadcast use vstd::std_specs::hash::group_hash_axioms;

/// A block as compared between versions.
#[derive(Debug, PartialEq, Eq, Hash)]
pub struct BlockDiff {
    pub block_id: i64,
    pub kind: String,
    pub terminator: String,
    pub source_location: String,
}

/// A block present in both versions whose contents changed.
#[derive(Debug, Clone)]
pub struct BlockChange {
    pub block_id: i64,
    pub before: BlockDiff,
    pub after: BlockDiff,
    pub change_type: ChangeType,
}

/// What changed in a block.
#[derive(Debug, Clone)]
pub enum ChangeType {
    /// Only the terminator changed
    TerminatorChanged { before: String, after: String },
    /// Only the source location changed
    SourceLocationChanged,
    /// Both the terminator and the source location changed
    BothChanged,
    /// The block's edges changed
    EdgesChanged,
}

/// An edge between two blocks, with its kind as text.
#[derive(Debug, PartialEq, Eq, Hash)]
pub struct EdgeDiff {
    pub from_block: i64,
    pub to_block: i64,
    pub edge_type: String,
}

/// The value of a block: id, kind, terminator and location texts.
pub open spec fn block_value(b: BlockDiff) -> (i64, Seq<char>, Seq<char>, Seq<char>) {
    (b.block_id, b.kind@, b.terminator@, b.source_location@)
}

impl Clone for BlockDiff {
    fn clone(&self) -> (r: Self)
        ensures
            block_value(r) == block_value(*self),
    {
        BlockDiff {
            block_id: self.block_id,
            kind: self.kind.clone(),
            terminator: self.terminator.clone(),
            source_location: self.source_location.clone(),
        }
    }
}

impl Clone for EdgeDiff {
    fn clone(&self) -> (r: Self)
        ensures
            edge_value(r) == edge_value(*self),
    {
        EdgeDiff { from_block: self.from_block, to_block: self.to_block, edge_type: self.edge_type.clone() }
    }
}

/// The value of an edge: source, target and kind text.
pub open spec fn edge_value(e: EdgeDiff) -> (i64, i64, Seq<char>) {
    (e.from_block, e.to_block, e.edge_type@)
}

/// The values of a list of edges.
pub open spec fn edge_values(s: Seq<EdgeDiff>) -> Seq<(i64, i64, Seq<char>)> {
    s.map_values(|e: EdgeDiff| edge_value(e))
}

/// `ids` is strictly increasing.
pub open spec fn increasing(ids: Seq<i64>) -> bool {
    forall|a: int, b: int| 0 <= a < b < ids.len() ==> #[trigger] ids[a] < #[trigger] ids[b]
}

/// An edge from `from` to the block at position `p` of `ids`, when there is one.
pub open spec fn edge_to_pos(ids: Seq<i64>, from: i64, p: int, kind: Seq<char>) -> Seq<(i64, i64, Seq<char>)> {
    if p < ids.len() { seq![(from, ids[p], kind)] } else { Seq::empty() }
}

/// The edges a block at position `i` of the ascending ids implies: its
/// terminator text "fallthrough" or "goto" leads to the next block,
/// "conditional" to the next (true branch) and the one after (false
/// branch), "call" to the next; anything else adds no edge.
pub open spec fn implied_edges_at(ids: Seq<i64>, term: Seq<char>, i: int) -> Seq<(i64, i64, Seq<char>)> {
    if term == "fallthrough"@ || term == "goto"@ {
        edge_to_pos(ids, ids[i], i + 1, "fallthrough"@)
    } else if term == "conditional"@ {
        edge_to_pos(ids, ids[i], i + 1, "true_branch"@) + edge_to_pos(ids, ids[i], i + 2, "false_branch"@)
    } else if term == "call"@ {
        edge_to_pos(ids, ids[i], i + 1, "call"@)
    } else {
        Seq::empty()
    }
}

/// The edges implied by the blocks at the first `k` positions of the
/// ascending ids.
pub open spec fn implied_edges(ids: Seq<i64>, blocks: Map<i64, BlockDiff>, k: int) -> Seq<(i64, i64, Seq<char>)>
    decreases k,
{
    if k <= 0 {
        Seq::empty()
    } else {
        implied_edges(ids, blocks, k - 1) + implied_edges_at(ids, blocks[ids[k - 1]].terminator@, k - 1)
    }
}

/// The keys of a block map (`HashMap::keys`), in the map's iteration
/// order: std documents that every key is visited exactly once.
#[verifier::external_body]
fn block_ids_of(blocks: &HashMap<i64, BlockDiff>) -> (r: Vec<i64>)
    ensures
        r@.no_duplicates(),
        forall|x: i64| #[trigger] r@.contains(x) <==> blocks@.dom().contains(x),
{
    blocks.keys().copied().collect()
}

/// `ids` lists the keys of `blocks` in ascending order.
pub open spec fn ids_of(blocks: Map<i64, BlockDiff>, ids: Seq<i64>) -> bool {
    increasing(ids) && forall|x: i64| #[trigger] ids.contains(x) <==> blocks.dom().contains(x)
}

/// `vals` are the edges the blocks imply, taken in ascending id order.
pub open spec fn derived_from(blocks: Map<i64, BlockDiff>, vals: Seq<(i64, i64, Seq<char>)>) -> bool {
    exists|ids: Seq<i64>| #[trigger] ids_of(blocks, ids) && vals == implied_edges(ids, blocks, ids.len() as int)
}

/// The block identifiers of a map, ascending.
fn sorted_keys(blocks: &HashMap<i64, BlockDiff>) -> (ids: Vec<i64>)
    ensures
        increasing(ids@),
        forall|x: i64| #[trigger] ids@.contains(x) <==> blocks@.dom().contains(x),
{
    let keys = block_ids_of(blocks);
    let mut ids: Vec<i64> = Vec::new();
    let mut i: usize = 0;
    while i < keys.len()
        invariant
            i <= keys@.len(),
            keys@.no_duplicates(),
            increasing(ids@),
            forall|x: i64| #[trigger] ids@.contains(x) <==> keys@.take(i as int).contains(x),
        decreases keys@.len() - i,
    {
        let key = keys[i];
        proof {
            assert(!ids@.contains(key)) by {
                if keys@.take(i as int).contains(key) {
                    let j = choose|j: int| 0 <= j < i && #[trigger] keys@.take(i as int)[j] == key;
                    assert(keys@[j] == keys@[i as int]);
                }
            }
        }
        let mut pos: usize = 0;
        while pos < ids.len() && ids[pos] < key
            invariant
                pos <= ids.len(),
                forall|a: int| 0 <= a < pos ==> ids@[a] < key,
            decreases ids.len() - pos,
        {
            pos = pos + 1;
        }
        let ghost old_ids = ids@;
        proof {
            if pos < old_ids.len() {
                assert(old_ids.contains(old_ids[pos as int]));
                assert(old_ids[pos as int] != key);
            }
        }
        ids.insert(pos, key);
        proof {
            assert forall|a: int, b: int| 0 <= a < b < ids@.len() implies #[trigger] ids@[a] < #[trigger] ids@[b] by {
                if b < pos {
                    assert(ids@[a] == old_ids[a] && ids@[b] == old_ids[b]);
                } else if b == pos {
                    assert(ids@[a] == old_ids[a]);
                } else if a < pos {
                    assert(ids@[a] == old_ids[a] && ids@[b] == old_ids[b - 1]);
                    if b - 1 > pos {
                        assert(old_ids[pos as int] < old_ids[b - 1]);
                    }
                } else if a == pos {
                    assert(ids@[b] == old_ids[b - 1]);
                    if b - 1 > pos {
                        assert(old_ids[pos as int] < old_ids[b - 1]);
                    }
                } else {
                    assert(ids@[a] == old_ids[a - 1] && ids@[b] == old_ids[b - 1]);
                }
            }
            assert(keys@.take(i + 1) == keys@.take(i as int).push(key));
            assert forall|x: i64| #[trigger] ids@.contains(x) <==> keys@.take(i + 1).contains(x) by {
                if x == key {
                    assert(ids@[pos as int] == key);
                    assert(keys@.take(i + 1)[i as int] == key);
                } else {
                    if ids@.contains(x) {
                        let q = choose|q: int| 0 <= q < ids@.len() && ids@[q] == x;
                        if q < pos { assert(old_ids[q] == x); } else { assert(old_ids[q - 1] == x); }
                        assert(old_ids.contains(x));
                        let j = choose|j: int| 0 <= j < i && #[trigger] keys@.take(i as int)[j] == x;
                        assert(keys@.take(i + 1)[j] == x);
                    }
                    if keys@.take(i + 1).contains(x) {
                        let j = choose|j: int| 0 <= j < i + 1 && #[trigger] keys@.take(i + 1)[j] == x;
                        assert(j != i);
                        assert(keys@.take(i as int)[j] == x);
                        assert(old_ids.contains(x));
                        let q = choose|q: int| 0 <= q < old_ids.len() && old_ids[q] == x;
                        if q < pos { assert(ids@[q] == x); } else { assert(ids@[q + 1] == x); }
                    }
                }
            }
        }
        i = i + 1;
    }
    proof {
        assert(keys@.take(keys@.len() as int) == keys@);
    }
    ids
}

/// Append an edge from `from` to the block at position `p`, if any.
fn push_edge_to(edges: &mut Vec<EdgeDiff>, ids: &Vec<i64>, from: i64, p: usize, kind: &str)
    ensures
        edge_values(final(edges)@)
            == edge_values(old(edges)@) + edge_to_pos(ids@, from, p as int, kind@),
{
    let ghost before = edges@;
    if p < ids.len() {
        edges.push(EdgeDiff { from_block: from, to_block: ids[p], edge_type: kind.to_owned() });
        proof {
            assert(edge_values(edges@) =~= edge_values(before)
                + edge_to_pos(ids@, from, p as int, kind@));
        }
    } else {
        proof {
            assert(edge_values(edges@) =~= edge_values(before)
                + edge_to_pos(ids@, from, p as int, kind@));
        }
    }
}

/// The edges implied by block terminators, taking blocks in ascending id
/// order (see `implied_edges_at`).
pub fn derive_edges(blocks: &HashMap<i64, BlockDiff>) -> (r: Vec<EdgeDiff>)
    ensures
        derived_from(blocks@, edge_values(r@)),
{
    let ids = sorted_keys(blocks);
    let mut edges: Vec<EdgeDiff> = Vec::new();
    let mut idx: usize = 0;
    proof {
        assert(edge_values(edges@) =~= implied_edges(ids@, blocks@, 0));
    }
    while idx < ids.len()
        invariant
            idx <= ids@.len(),
            increasing(ids@),
            forall|x: i64| #[trigger] ids@.contains(x) ==> blocks@.dom().contains(x),
            forall|x: i64| #[trigger] ids@.contains(x) <==> blocks@.dom().contains(x),
            edge_values(edges@) == implied_edges(ids@, blocks@, idx as int),
        decreases ids@.len() - idx,
    {
        let id = ids[idx];
        proof {
            assert(ids@.contains(id));
        }
        let block = match blocks.get(&id) {
            Some(b) => b,
            None => {
                proof {
                    assert(false);
                }
                return edges;
            },
        };
        let t = block.terminator.as_str();
        let ghost before = edge_values(edges@);
        if same_text(t, "fallthrough") || same_text(t, "goto") {
            push_edge_to(&mut edges, &ids, id, idx + 1, "fallthrough");
        } else if same_text(t, "conditional") {
            push_edge_to(&mut edges, &ids, id, idx + 1, "true_branch");
            let second = if idx + 1 < ids.len() { idx + 2 } else { ids.len() };
            push_edge_to(&mut edges, &ids, id, second, "false_branch");
            proof {
                assert(edge_values(edges@) =~= before
                    + (edge_to_pos(ids@, id, idx + 1, "true_branch"@) + edge_to_pos(ids@, id, idx + 2, "false_branch"@)));
            }
        } else if same_text(t, "call") {
            push_edge_to(&mut edges, &ids, id, idx + 1, "call");
        } else {
            proof {
                assert(edge_values(edges@) =~= before + Seq::<(i64, i64, Seq<char>)>::empty());
            }
        }
        proof {
            assert(edge_values(edges@) == before + implied_edges_at(ids@, t@, idx as int));
        }
        idx = idx + 1;
    }
    proof {
        assert(ids_of(blocks@, ids@));
    }
    edges
}

/// The edge value occurs in the list.
fn holds_edge(edges: &Vec<EdgeDiff>, e: &EdgeDiff) -> (r: bool)
    ensures
        r == edge_values(edges@).contains(edge_value(*e)),
{
    let ghost vals = edge_values(edges@);
    let mut i: usize = 0;
    while i < edges.len()
        invariant
            i <= edges@.len(),
            vals == edge_values(edges@),
            forall|k: int| 0 <= k < i ==> vals[k] != edge_value(*e),
        decreases edges@.len() - i,
    {
        let x = &edges[i];
        if x.from_block == e.from_block && x.to_block == e.to_block && same_text(x.edge_type.as_str(), e.edge_type.as_str()) {
            proof {
                assert(vals[i as int] == edge_value(*e));
            }
            return true;
        }
        i = i + 1;
    }
    false
}

/// The distinct edge values of `a` that `b` lacks.
fn edges_missing_from(a: &Vec<EdgeDiff>, b: &Vec<EdgeDiff>) -> (r: Vec<EdgeDiff>)
    ensures
        edge_values(r@).no_duplicates(),
        forall|v: (i64, i64, Seq<char>)| #[trigger] edge_values(r@).contains(v) <==>
            (edge_values(a@).contains(v) && !edge_values(b@).contains(v)),
{
    let ghost av = edge_values(a@);
    let ghost bv = edge_values(b@);
    let mut r: Vec<EdgeDiff> = Vec::new();
    let mut i: usize = 0;
    while i < a.len()
        invariant
            i <= a@.len(),
            av == edge_values(a@),
            bv == edge_values(b@),
            edge_values(r@).no_duplicates(),
            forall|v: (i64, i64, Seq<char>)| #[trigger] edge_values(r@).contains(v) <==>
                (av.take(i as int).contains(v) && !bv.contains(v)),
        decreases a@.len() - i,
    {
        let e = &a[i];
        let ghost rv = edge_values(r@);
        proof {
            assert(av.take(i + 1) == av.take(i as int).push(edge_value(*e)));
        }
        if !holds_edge(b, e) && !holds_edge(&r, e) {
            let c = e.clone();
            r.push(c);
            proof {
                assert(edge_values(r@) =~= rv.push(edge_value(*e)));
                assert forall|v: (i64, i64, Seq<char>)| #[trigger] edge_values(r@).contains(v) <==>
                    (av.take(i + 1).contains(v) && !bv.contains(v)) by {
                    if v == edge_value(*e) {
                        assert(rv.push(edge_value(*e))[rv.len() as int] == v);
                        assert(av.take(i + 1)[i as int] == v);
                    } else {
                        if rv.push(edge_value(*e)).contains(v) {
                            let k = choose|k: int| 0 <= k < rv.len() + 1 && #[trigger] rv.push(edge_value(*e))[k] == v;
                            assert(rv[k] == v);
                        }
                        if rv.contains(v) {
                            let k = choose|k: int| 0 <= k < rv.len() && #[trigger] rv[k] == v;
                            assert(rv.push(edge_value(*e))[k] == v);
                        }
                        if av.take(i + 1).contains(v) {
                            let k = choose|k: int| 0 <= k < i + 1 && #[trigger] av.take(i + 1)[k] == v;
                            assert(av.take(i as int)[k] == v);
                        }
                        if av.take(i as int).contains(v) {
                            let k = choose|k: int| 0 <= k < i && #[trigger] av.take(i as int)[k] == v;
                            assert(av.take(i + 1)[k] == v);
                        }
                    }
                }
            }
        } else {
            proof {
                assert forall|v: (i64, i64, Seq<char>)| #[trigger] edge_values(r@).contains(v) <==>
                    (av.take(i + 1).contains(v) && !bv.contains(v)) by {
                    if av.take(i + 1).contains(v) {
                        let k = choose|k: int| 0 <= k < i + 1 && #[trigger] av.take(i + 1)[k] == v;
                        if k < i {
                            assert(av.take(i as int)[k] == v);
                        }
                    }
                    if av.take(i as int).contains(v) {
                        let k = choose|k: int| 0 <= k < i && #[trigger] av.take(i as int)[k] == v;
                        assert(av.take(i + 1)[k] == v);
                    }
                }
            }
        }
        i = i + 1;
    }
    proof {
        assert(av.take(a@.len() as int) == av);
    }
    r
}

/// `added` and `deleted` are the edge changes from `before` to `after`:
/// the distinct implied edges of `after` missing from `before`, and those
/// of `before` missing from `after`, each without repeats.
pub open spec fn is_edge_diff(before: Map<i64, BlockDiff>, after: Map<i64, BlockDiff>, added: Seq<EdgeDiff>,
    deleted: Seq<EdgeDiff>) -> bool {
    exists|bv: Seq<(i64, i64, Seq<char>)>, av: Seq<(i64, i64, Seq<char>)>| {
        &&& #[trigger] derived_from(before, bv) && #[trigger] derived_from(after, av)
        &&& edge_values(added).no_duplicates()
        &&& edge_values(deleted).no_duplicates()
        &&& forall|v: (i64, i64, Seq<char>)| #[trigger] edge_values(added).contains(v) <==>
            (av.contains(v) && !bv.contains(v))
        &&& forall|v: (i64, i64, Seq<char>)| #[trigger] edge_values(deleted).contains(v) <==>
            (bv.contains(v) && !av.contains(v))
    }
}

/// Edges added and deleted between two versions: the distinct implied
/// edges of `after` missing from `before`, and those of `before` missing
/// from `after` (each list without repeats; in no particular order).
pub fn compute_edge_diff(before: &HashMap<i64, BlockDiff>, after: &HashMap<i64, BlockDiff>)
    -> (r: Result<(Vec<EdgeDiff>, Vec<EdgeDiff>), String>)
    ensures
        r matches Ok((added, deleted)) && is_edge_diff(before@, after@, added@, deleted@),
{
    let before_edges = derive_edges(before);
    let after_edges = derive_edges(after);
    let added = edges_missing_from(&after_edges, &before_edges);
    let deleted = edges_missing_from(&before_edges, &after_edges);
    Ok((added, deleted))
}

/// Blocks added, deleted and changed between two versions.
#[derive(Debug, Clone)]
pub struct BlockChanges {
    pub added_blocks: Vec<BlockDiff>,
    pub deleted_blocks: Vec<BlockDiff>,
    pub modified_blocks: Vec<BlockChange>,
}

/// The values of a list of blocks.
pub open spec fn block_values(s: Seq<BlockDiff>) -> Seq<(i64, Seq<char>, Seq<char>, Seq<char>)> {
    s.map_values(|b: BlockDiff| block_value(b))
}

/// What a change records: the block id, both versions, and the kind of
/// change (with the two terminators when only the terminator changed).
pub open spec fn change_value(c: BlockChange) -> (i64, (i64, Seq<char>, Seq<char>, Seq<char>), (i64, Seq<char>, Seq<char>, Seq<char>), Option<(Seq<char>, Seq<char>)>, nat) {
    (c.block_id, block_value(c.before), block_value(c.after), match c.change_type {
        ChangeType::TerminatorChanged { before, after } => Some((before@, after@)),
        _ => None,
    }, match c.change_type {
        ChangeType::TerminatorChanged { .. } => 0nat,
        ChangeType::SourceLocationChanged => 1nat,
        ChangeType::BothChanged => 2nat,
        ChangeType::EdgesChanged => 3nat,
    })
}

/// The change recorded for block `i`, present in both versions as `b` and
/// `a`: none when neither the terminator nor the source location differs;
/// otherwise which of them changed.
pub open spec fn change_at(i: int, b: BlockDiff, a: BlockDiff) -> Seq<(i64, (i64, Seq<char>, Seq<char>, Seq<char>), (i64, Seq<char>, Seq<char>, Seq<char>), Option<(Seq<char>, Seq<char>)>, nat)> {
    let t = b.terminator@ != a.terminator@;
    let l = b.source_location@ != a.source_location@;
    if t && !l {
        seq![(i as i64, block_value(b), block_value(a), Some((b.terminator@, a.terminator@)), 0nat)]
    } else if !t && l {
        seq![(i as i64, block_value(b), block_value(a), None, 1nat)]
    } else if t && l {
        seq![(i as i64, block_value(b), block_value(a), None, 2nat)]
    } else {
        Seq::empty()
    }
}

/// The changes of the blocks at positions below `k` (present in both).
pub open spec fn changes_upto(before: Seq<BlockDiff>, after: Seq<BlockDiff>, k: int)
    -> Seq<(i64, (i64, Seq<char>, Seq<char>, Seq<char>), (i64, Seq<char>, Seq<char>, Seq<char>), Option<(Seq<char>, Seq<char>)>, nat)>
    decreases k,
{
    if k <= 0 { Seq::empty() } else { changes_upto(before, after, k - 1) + change_at(k - 1, before[k - 1], after[k - 1]) }
}

/// The code of the change a block present in both versions as `b` and `a`
/// calls for, by what differs: 0 the terminator alone, 1 the source location
/// alone, 2 both; `None` when neither differs.
pub open spec fn expected_change_code(b: BlockDiff, a: BlockDiff) -> Option<nat> {
    if b.terminator@ != a.terminator@ {
        if b.source_location@ != a.source_location@ { Some(2nat) } else { Some(0nat) }
    } else if b.source_location@ != a.source_location@ {
        Some(1nat)
    } else {
        None
    }
}

proof fn lemma_changes_upto_codes(before: Seq<BlockDiff>, after: Seq<BlockDiff>, k: int)
    requires
        0 <= k <= before.len(),
        k <= after.len(),
        k <= i64::MAX,
    ensures
        forall|j: int| 0 <= j < changes_upto(before, after, k).len() ==>
            0 <= (#[trigger] changes_upto(before, after, k)[j]).0 < k,
        forall|i: int| 0 <= i < k && #[trigger] expected_change_code(before[i], after[i]) is Some ==>
            exists|j: int| 0 <= j < changes_upto(before, after, k).len()
                && (#[trigger] changes_upto(before, after, k)[j]).0 == i
                && changes_upto(before, after, k)[j].4 == expected_change_code(before[i], after[i])->0,
        forall|i: int, j: int|
            #![trigger changes_upto(before, after, k)[j], expected_change_code(before[i], after[i])]
            0 <= i < k && expected_change_code(before[i], after[i]) is None
            && 0 <= j < changes_upto(before, after, k).len() ==> changes_upto(before, after, k)[j].0 != i,
    decreases k,
{
    if k > 0 {
        lemma_changes_upto_codes(before, after, k - 1);
        let prev = changes_upto(before, after, k - 1);
        let here = change_at(k - 1, before[k - 1], after[k - 1]);
        let s = changes_upto(before, after, k);
        assert(s == prev + here);
        assert forall|j: int| 0 <= j < s.len() implies 0 <= (#[trigger] s[j]).0 < k by {
            if j < prev.len() {
                assert(s[j] == prev[j]);
            } else {
                assert(s[j] == here[j - prev.len()]);
            }
        }
        assert forall|i: int| 0 <= i < k && #[trigger] expected_change_code(before[i], after[i]) is Some implies
            exists|j: int| 0 <= j < s.len() && (#[trigger] s[j]).0 == i
                && s[j].4 == expected_change_code(before[i], after[i])->0 by {
            if i < k - 1 {
                let j = choose|j: int| 0 <= j < prev.len() && (#[trigger] prev[j]).0 == i
                    && prev[j].4 == expected_change_code(before[i], after[i])->0;
                assert(s[j] == prev[j]);
            } else {
                assert(here.len() == 1);
                assert(s[prev.len() as int] == here[0]);
            }
        }
        assert forall|i: int, j: int|
            #![trigger s[j], expected_change_code(before[i], after[i])]
            0 <= i < k && expected_change_code(before[i], after[i]) is None
            && 0 <= j < s.len() implies s[j].0 != i by {
            if j < prev.len() {
                assert(s[j] == prev[j]);
            } else {
                assert(s[j] == here[j - prev.len()]);
                if i == k - 1 {
                    assert(here.len() == 0);
                }
            }
        }
    }
}

/// The modified blocks that comparing two versions reports follow what
/// differs in each block present in both: a block whose source location
/// differs while its terminator is the same is listed with change type
/// `SourceLocationChanged`; one whose terminator alone differs with
/// `TerminatorChanged`; one where both differ with `BothChanged`; a block
/// where neither differs is not listed.
pub proof fn modified_blocks_follow_what_differs(before: Seq<BlockDiff>, after: Seq<BlockDiff>, mods: Seq<BlockChange>)
    requires
        before.len() <= i64::MAX,
        mods.map_values(|c: BlockChange| change_value(c))
            == changes_upto(before, after, if before.len() < after.len() { before.len() as int } else { after.len() as int }),
    ensures
        forall|i: int| 0 <= i < before.len() && i < after.len()
            && before[i].terminator@ == after[i].terminator@
            && before[i].source_location@ != after[i].source_location@ ==>
            exists|j: int| 0 <= j < mods.len() && (#[trigger] mods[j]).block_id == i
                && mods[j].change_type is SourceLocationChanged,
        forall|i: int| 0 <= i < before.len() && i < after.len()
            && before[i].terminator@ != after[i].terminator@
            && before[i].source_location@ == after[i].source_location@ ==>
            exists|j: int| 0 <= j < mods.len() && (#[trigger] mods[j]).block_id == i
                && mods[j].change_type is TerminatorChanged,
        forall|i: int| 0 <= i < before.len() && i < after.len()
            && before[i].terminator@ != after[i].terminator@
            && before[i].source_location@ != after[i].source_location@ ==>
            exists|j: int| 0 <= j < mods.len() && (#[trigger] mods[j]).block_id == i
                && mods[j].change_type is BothChanged,
        forall|i: int, j: int|
            #![trigger mods[j], before[i], after[i]]
            0 <= i < before.len() && i < after.len()
            && before[i].terminator@ == after[i].terminator@
            && before[i].source_location@ == after[i].source_location@
            && 0 <= j < mods.len() ==> mods[j].block_id != i,
{
    let common: int = if before.len() < after.len() { before.len() as int } else { after.len() as int };
    lemma_changes_upto_codes(before, after, common);
    let s = changes_upto(before, after, common);
    let vs = mods.map_values(|c: BlockChange| change_value(c));
    assert(vs.len() == mods.len());
    assert forall|i: int| 0 <= i < before.len() && i < after.len()
        && #[trigger] expected_change_code(before[i], after[i]) is Some implies
        exists|j: int| 0 <= j < mods.len() && (#[trigger] mods[j]).block_id == i
            && change_value(mods[j]).4 == expected_change_code(before[i], after[i])->0 by {
        let j = choose|j: int| 0 <= j < s.len() && (#[trigger] s[j]).0 == i
            && s[j].4 == expected_change_code(before[i], after[i])->0;
        assert(vs[j] == change_value(mods[j]));
    }
    assert forall|i: int, j: int|
        #![trigger mods[j], before[i], after[i]]
        0 <= i < before.len() && i < after.len()
        && before[i].terminator@ == after[i].terminator@
        && before[i].source_location@ == after[i].source_location@
        && 0 <= j < mods.len() implies mods[j].block_id != i by {
        assert(expected_change_code(before[i], after[i]) is None);
        assert(vs[j] == change_value(mods[j]));
        assert(s[j].0 != i);
    }
    assert forall|i: int| 0 <= i < before.len() && i < after.len()
        && before[i].terminator@ == after[i].terminator@
        && before[i].source_location@ != after[i].source_location@ implies
        exists|j: int| 0 <= j < mods.len() && (#[trigger] mods[j]).block_id == i
            && mods[j].change_type is SourceLocationChanged by {
        assert(expected_change_code(before[i], after[i]) == Some(1nat));
        let j = choose|j: int| 0 <= j < mods.len() && (#[trigger] mods[j]).block_id == i
            && change_value(mods[j]).4 == 1nat;
        assert(mods[j].change_type is SourceLocationChanged);
    }
    assert forall|i: int| 0 <= i < before.len() && i < after.len()
        && before[i].terminator@ != after[i].terminator@
        && before[i].source_location@ == after[i].source_location@ implies
        exists|j: int| 0 <= j < mods.len() && (#[trigger] mods[j]).block_id == i
            && mods[j].change_type is TerminatorChanged by {
        assert(expected_change_code(before[i], after[i]) == Some(0nat));
        let j = choose|j: int| 0 <= j < mods.len() && (#[trigger] mods[j]).block_id == i
            && change_value(mods[j]).4 == 0nat;
        assert(mods[j].change_type is TerminatorChanged);
    }
    assert forall|i: int| 0 <= i < before.len() && i < after.len()
        && before[i].terminator@ != after[i].terminator@
        && before[i].source_location@ != after[i].source_location@ implies
        exists|j: int| 0 <= j < mods.len() && (#[trigger] mods[j]).block_id == i
            && mods[j].change_type is BothChanged by {
        assert(expected_change_code(before[i], after[i]) == Some(2nat));
        let j = choose|j: int| 0 <= j < mods.len() && (#[trigger] mods[j]).block_id == i
            && change_value(mods[j]).4 == 2nat;
        assert(mods[j].change_type is BothChanged);
    }
}

/// Copies of the blocks from position `from` on.
fn copy_from(v: &[BlockDiff], from: usize) -> (r: Vec<BlockDiff>)
    ensures
        block_values(r@) == block_values(if from < v@.len() { v@.skip(from as int) } else { Seq::empty() }),
{
    let mut r: Vec<BlockDiff> = Vec::new();
    let mut i: usize = from;
    if from >= v.len() {
        proof {
            assert(block_values(r@) =~= block_values(Seq::<BlockDiff>::empty()));
        }
        return r;
    }
    proof {
        assert(block_values(r@) =~= block_values(v@.subrange(from as int, from as int)));
    }
    while i < v.len()
        invariant
            from <= i <= v@.len(),
            block_values(r@) == block_values(v@.subrange(from as int, i as int)),
        decreases v@.len() - i,
    {
        let c = v[i].clone();
        let ghost before = r@;
        r.push(c);
        proof {
            assert(v@.subrange(from as int, i + 1) =~= v@.subrange(from as int, i as int).push(v@[i as int]));
            assert(block_values(r@) =~= block_values(before).push(block_value(v@[i as int])));
            assert(block_values(v@.subrange(from as int, i + 1)) =~= block_values(v@.subrange(from as int, i as int)).push(block_value(v@[i as int])));
        }
        i = i + 1;
    }
    proof {
        assert(v@.subrange(from as int, v@.len() as int) =~= v@.skip(from as int));
    }
    r
}

/// Compare two versions' blocks, identified by position: blocks only in
/// the later version are added, blocks only in the earlier one deleted,
/// and blocks in both are changed when their terminator or source
/// location differs (ascending position).
pub fn compute_block_changes(before: &[BlockDiff], after: &[BlockDiff]) -> (r: BlockChanges)
    requires
        before@.len() <= i64::MAX,
    ensures
        block_values(r.added_blocks@) == block_values(if before@.len() < after@.len() { after@.skip(before@.len() as int) } else { Seq::empty() }),
        block_values(r.deleted_blocks@) == block_values(if after@.len() < before@.len() { before@.skip(after@.len() as int) } else { Seq::empty() }),
        r.modified_blocks@.map_values(|c: BlockChange| change_value(c))
            == changes_upto(before@, after@, if before@.len() < after@.len() { before@.len() as int } else { after@.len() as int }),
{
    let added_blocks = copy_from(after, before.len());
    let deleted_blocks = copy_from(before, after.len());
    let common = if before.len() < after.len() { before.len() } else { after.len() };
    let mut modified: Vec<BlockChange> = Vec::new();
    let mut i: usize = 0;
    while i < common
        invariant
            i <= common,
            common <= before@.len(),
            common <= after@.len(),
            before@.len() <= i64::MAX,
            modified@.map_values(|c: BlockChange| change_value(c)) == changes_upto(before@, after@, i as int),
        decreases common - i,
    {
        let b = &before[i];
        let a = &after[i];
        let t = !same_text(b.terminator.as_str(), a.terminator.as_str());
        let l = !same_text(b.source_location.as_str(), a.source_location.as_str());
        let ghost prev = modified@.map_values(|c: BlockChange| change_value(c));
        if t || l {
            let change_type = if t && !l {
                ChangeType::TerminatorChanged { before: b.terminator.clone(), after: a.terminator.clone() }
            } else if !t && l {
                ChangeType::SourceLocationChanged
            } else {
                ChangeType::BothChanged
            };
            let c = BlockChange { block_id: i as i64, before: b.clone(), after: a.clone(), change_type };
            modified.push(c);
            proof {
                assert(modified@.map_values(|c: BlockChange| change_value(c)) =~= prev + change_at(i as int, before@[i as int], after@[i as int]));
            }
        } else {
            proof {
                assert(change_at(i as int, before@[i as int], after@[i as int]) =~= Seq::empty());
                assert(prev + Seq::empty() =~= prev);
            }
        }
        i = i + 1;
    }
    BlockChanges { added_blocks, deleted_blocks, modified_blocks: modified }
}

/// Two ascending sequences holding the same values are equal.
proof fn lemma_increasing_unique(a: Seq<i64>, b: Seq<i64>)
    requires
        increasing(a),
        increasing(b),
        forall|x: i64| a.contains(x) <==> b.contains(x),
    ensures
        a == b,
    decreases a.len(),
{
    if a.len() == 0 {
        if b.len() > 0 {
            assert(b.contains(b[0]));
        }
    } else if b.len() == 0 {
        assert(a.contains(a[0]));
    } else {
        assert(a.contains(a[0]));
        assert(b.contains(b[0]));
        let ia = choose|i: int| 0 <= i < a.len() && a[i] == b[0];
        let ib = choose|i: int| 0 <= i < b.len() && b[i] == a[0];
        if ia > 0 {
            assert(a[0] < a[ia]);
        }
        if ib > 0 {
            assert(b[0] < b[ib]);
        }
        assert(a[0] == b[0]);
        let a1 = a.skip(1);
        let b1 = b.skip(1);
        assert forall|x: i64| a1.contains(x) <==> b1.contains(x) by {
            if a1.contains(x) {
                let i = choose|i: int| 0 <= i < a1.len() && a1[i] == x;
                assert(a[i + 1] == x);
                assert(a[0] < a[i + 1]);
                assert(b.contains(x));
                let j = choose|j: int| 0 <= j < b.len() && b[j] == x;
                assert(j != 0);
                assert(b1[j - 1] == x);
            }
            if b1.contains(x) {
                let i = choose|i: int| 0 <= i < b1.len() && b1[i] == x;
                assert(b[i + 1] == x);
                assert(b[0] < b[i + 1]);
                assert(a.contains(x));
                let j = choose|j: int| 0 <= j < a.len() && a[j] == x;
                assert(j != 0);
                assert(a1[j - 1] == x);
            }
        }
        assert forall|p: int, q: int| 0 <= p < q < a1.len() implies #[trigger] a1[p] < #[trigger] a1[q] by {
            assert(a[p + 1] < a[q + 1]);
        }
        assert forall|p: int, q: int| 0 <= p < q < b1.len() implies #[trigger] b1[p] < #[trigger] b1[q] by {
            assert(b[p + 1] < b[q + 1]);
        }
        lemma_increasing_unique(a1, b1);
        assert(a =~= seq![a[0]] + a1);
        assert(b =~= seq![b[0]] + b1);
    }
}

/// The edges a version implies do not depend on anything but its blocks:
/// derived twice from one version they are the same edges, so comparing a
/// version with itself reports no edge added and none deleted.
pub proof fn derived_edges_are_unique(blocks: Map<i64, BlockDiff>, v1: Seq<(i64, i64, Seq<char>)>, v2: Seq<(i64, i64, Seq<char>)>)
    requires
        derived_from(blocks, v1),
        derived_from(blocks, v2),
    ensures
        v1 == v2,
{
    let i1 = choose|ids: Seq<i64>| #[trigger] ids_of(blocks, ids) && v1 == implied_edges(ids, blocks, ids.len() as int);
    let i2 = choose|ids: Seq<i64>| #[trigger] ids_of(blocks, ids) && v2 == implied_edges(ids, blocks, ids.len() as int);
    assert forall|x: i64| i1.contains(x) <==> i2.contains(x) by {
        assert(i1.contains(x) <==> blocks.dom().contains(x));
        assert(i2.contains(x) <==> blocks.dom().contains(x));
    }
    lemma_increasing_unique(i1, i2);
}

/// Swapping the two versions swaps the added and the deleted edges.
pub proof fn edge_diff_swaps(before: Map<i64, BlockDiff>, after: Map<i64, BlockDiff>, added: Seq<EdgeDiff>,
    deleted: Seq<EdgeDiff>, added2: Seq<EdgeDiff>, deleted2: Seq<EdgeDiff>)
    requires
        is_edge_diff(before, after, added, deleted),
        is_edge_diff(after, before, added2, deleted2),
    ensures
        forall|v: (i64, i64, Seq<char>)| #[trigger] edge_values(added2).contains(v) <==> edge_values(deleted).contains(v),
        forall|v: (i64, i64, Seq<char>)| #[trigger] edge_values(deleted2).contains(v) <==> edge_values(added).contains(v),
{
    let (bv, av) = choose|bv: Seq<(i64, i64, Seq<char>)>, av: Seq<(i64, i64, Seq<char>)>| {
        &&& #[trigger] derived_from(before, bv) && #[trigger] derived_from(after, av)
        &&& edge_values(added).no_duplicates()
        &&& edge_values(deleted).no_duplicates()
        &&& forall|v: (i64, i64, Seq<char>)| #[trigger] edge_values(added).contains(v) <==>
            (av.contains(v) && !bv.contains(v))
        &&& forall|v: (i64, i64, Seq<char>)| #[trigger] edge_values(deleted).contains(v) <==>
            (bv.contains(v) && !av.contains(v))
    };
    let (av2, bv2) = choose|av2: Seq<(i64, i64, Seq<char>)>, bv2: Seq<(i64, i64, Seq<char>)>| {
        &&& #[trigger] derived_from(after, av2) && #[trigger] derived_from(before, bv2)
        &&& edge_values(added2).no_duplicates()
        &&& edge_values(deleted2).no_duplicates()
        &&& forall|v: (i64, i64, Seq<char>)| #[trigger] edge_values(added2).contains(v) <==>
            (bv2.contains(v) && !av2.contains(v))
        &&& forall|v: (i64, i64, Seq<char>)| #[trigger] edge_values(deleted2).contains(v) <==>
            (av2.contains(v) && !bv2.contains(v))
    };
    derived_edges_are_unique(before, bv, bv2);
    derived_edges_are_unique(after, av, av2);
}

/// Comparing a version with itself finds no edge added and none deleted.
pub proof fn edge_diff_of_identical_versions(blocks: Map<i64, BlockDiff>, added: Seq<EdgeDiff>, deleted: Seq<EdgeDiff>)
    requires
        is_edge_diff(blocks, blocks, added, deleted),
    ensures
        added.len() == 0,
        deleted.len() == 0,
{
    let (bv, av) = choose|bv: Seq<(i64, i64, Seq<char>)>, av: Seq<(i64, i64, Seq<char>)>| {
        &&& #[trigger] derived_from(blocks, bv) && #[trigger] derived_from(blocks, av)
        &&& edge_values(added).no_duplicates()
        &&& edge_values(deleted).no_duplicates()
        &&& forall|v: (i64, i64, Seq<char>)| #[trigger] edge_values(added).contains(v) <==>
            (av.contains(v) && !bv.contains(v))
        &&& forall|v: (i64, i64, Seq<char>)| #[trigger] edge_values(deleted).contains(v) <==>
            (bv.contains(v) && !av.contains(v))
    };
    derived_edges_are_unique(blocks, bv, av);
    if added.len() > 0 {
        assert(edge_values(added).contains(edge_values(added)[0]));
    }
    if deleted.len() > 0 {
        assert(edge_values(deleted).contains(edge_values(deleted)[0]));
    }
}

/// Comparing a version's blocks with themselves finds no changed block.
pub proof fn block_changes_of_identical_versions(blocks: Seq<BlockDiff>, k: int)
    ensures
        changes_upto(blocks, blocks, k) == Seq::<(i64, (i64, Seq<char>, Seq<char>, Seq<char>), (i64, Seq<char>, Seq<char>, Seq<char>), Option<(Seq<char>, Seq<char>)>, nat)>::empty(),
    decreases k,
{
    if k > 0 {
        block_changes_of_identical_versions(blocks, k - 1);
        assert(change_at(k - 1, blocks[k - 1], blocks[k - 1]).len() == 0);
        assert(changes_upto(blocks, blocks, k) =~= changes_upto(blocks, blocks, k - 1));
    }
}

/// The location text of a stored block: an empty file name, then start
/// line and column, a dash, end line and column.
pub open spec fn row_location(b: CfgBlockData) -> Seq<char> {
    ":"@ + nat_text(b.start_line as nat) + ":"@ + nat_text(b.start_col as nat) + "-"@
        + nat_text(b.end_line as nat) + ":"@ + nat_text(b.end_col as nat)
}

/// `d` describes stored block `b` at position `i`.
pub open spec fn diff_of_row(d: BlockDiff, b: CfgBlockData, i: int) -> bool {
    &&& d.block_id == i
    &&& d.kind@ == b.kind@
    &&& d.terminator@ == b.terminator@
    &&& d.source_location@ == row_location(b)
}

/// The diff view of stored blocks, identified by position.
pub fn block_diffs_from_rows(blocks: &[CfgBlockData]) -> (r: Vec<BlockDiff>)
    requires
        blocks@.len() <= i64::MAX,
    ensures
        r@.len() == blocks@.len(),
        forall|i: int| 0 <= i < r@.len() ==> diff_of_row(#[trigger] r@[i], blocks@[i], i),
{
    let mut r: Vec<BlockDiff> = Vec::new();
    let mut i: usize = 0;
    while i < blocks.len()
        invariant
            i <= blocks@.len(),
            blocks@.len() <= i64::MAX,
            r@.len() == i,
            forall|q: int| 0 <= q < i ==> diff_of_row(#[trigger] r@[q], blocks@[q], q),
        decreases blocks.len() - i,
    {
        let b = &blocks[i];
        let mut loc: Vec<char> = Vec::new();
        push_text(&mut loc, ":");
        push_nat(&mut loc, b.start_line);
        push_text(&mut loc, ":");
        push_nat(&mut loc, b.start_col);
        push_text(&mut loc, "-");
        push_nat(&mut loc, b.end_line);
        push_text(&mut loc, ":");
        push_nat(&mut loc, b.end_col);
        proof {
            assert(loc@ =~= row_location(*b));
        }
        r.push(BlockDiff {
            block_id: i as i64,
            kind: b.kind.clone(),
            terminator: b.terminator.clone(),
            source_location: string_from_chars(&loc),
        });
        i = i + 1;
    }
    r
}

} // verus!
