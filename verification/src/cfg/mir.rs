//! Build a CFG from a ULLBC body.

use vstd::prelude::*;
use crate::cfg::{BasicBlock, BlockKind, Terminator};
use crate::cfg::edge::EdgeType;
use crate::cfg::graph::{Cfg, CfgEdge, cfg_blocks, cfg_edges, cfg_new, add_block, add_cfg_edge};
use crate::mir::{UllbcBlock, UllbcBody, UllbcTerminator};

verus! {

/// `t` is the CFG form of the ULLBC terminator `u`.
pub open spec fn converts_terminator(t: Terminator, u: UllbcTerminator) -> bool {
    match u {
        UllbcTerminator::Goto { target } => t == Terminator::Goto { target },
        UllbcTerminator::SwitchInt { targets, otherwise } => t matches Terminator::SwitchInt { targets: ts, otherwise: o }
            && ts@ == targets@ && o == otherwise,
        UllbcTerminator::Return => t == Terminator::Return,
        UllbcTerminator::Unreachable => t == Terminator::Unreachable,
        UllbcTerminator::Call { target, unwind } => t == Terminator::Call { target, unwind },
        UllbcTerminator::Abort { message } => t matches Terminator::Abort(m) && m@ == message@,
    }
}

/// Convert a ULLBC terminator to the CFG's terminator, variant for variant.
pub fn convert_terminator(term: &UllbcTerminator) -> (r: Terminator)
    ensures
        converts_terminator(r, *term),
{
    match term {
        UllbcTerminator::Goto { target } => Terminator::Goto { target: *target },
        UllbcTerminator::SwitchInt { targets, otherwise } => {
            let mut ts: Vec<usize> = Vec::new();
            let mut i: usize = 0;
            while i < targets.len()
                invariant
                    i <= targets.len(),
                    ts@ == targets@.take(i as int),
                decreases targets.len() - i,
            {
                ts.push(targets[i]);
                proof {
                    assert(targets@.take(i + 1) == targets@.take(i as int).push(targets@[i as int]));
                }
                i = i + 1;
            }
            proof {
                assert(targets@.take(targets@.len() as int) == targets@);
            }
            Terminator::SwitchInt { targets: ts, otherwise: *otherwise }
        },
        UllbcTerminator::Return => Terminator::Return,
        UllbcTerminator::Unreachable => Terminator::Unreachable,
        UllbcTerminator::Call { target, unwind } => Terminator::Call { target: *target, unwind: *unwind },
        UllbcTerminator::Abort { message } => Terminator::Abort(message.clone()),
    }
}

/// The typed successor edges of a ULLBC terminator: each switch target as a
/// true branch, then the otherwise target as a false branch; a call's
/// return target, then its unwind target as an exception edge; a goto's
/// target as a fallthrough.
pub open spec fn ullbc_edges(u: UllbcTerminator) -> Seq<(usize, EdgeType)> {
    match u {
        UllbcTerminator::Goto { target } => seq![(target, EdgeType::Fallthrough)],
        UllbcTerminator::SwitchInt { targets, otherwise } =>
            Seq::new(targets@.len(), |i: int| (targets@[i], EdgeType::TrueBranch)).push((otherwise, EdgeType::FalseBranch)),
        UllbcTerminator::Call { target, unwind } => {
            let first: Seq<(usize, EdgeType)> = match target {
                Some(t) => seq![(t, EdgeType::Call)],
                None => Seq::empty(),
            };
            match unwind {
                Some(w) => first.push((w, EdgeType::Exception)),
                None => first,
            }
        },
        _ => Seq::empty(),
    }
}

/// Classify the successor edges of a ULLBC terminator (see `ullbc_edges`).
pub fn classify_ullbc_terminator(term: &UllbcTerminator) -> (r: Vec<(usize, EdgeType)>)
    ensures
        r@ == ullbc_edges(*term),
{
    match term {
        UllbcTerminator::Goto { target } => vec![(*target, EdgeType::Fallthrough)],
        UllbcTerminator::SwitchInt { targets, otherwise } => {
            let mut edges: Vec<(usize, EdgeType)> = Vec::new();
            let mut i: usize = 0;
            while i < targets.len()
                invariant
                    i <= targets.len(),
                    edges@ == Seq::new(i as nat, |k: int| (targets@[k], EdgeType::TrueBranch)),
                decreases targets.len() - i,
            {
                edges.push((targets[i], EdgeType::TrueBranch));
                proof {
                    assert(edges@ =~= Seq::new((i + 1) as nat, |k: int| (targets@[k], EdgeType::TrueBranch)));
                }
                i = i + 1;
            }
            edges.push((*otherwise, EdgeType::FalseBranch));
            edges
        },
        UllbcTerminator::Call { target, unwind } => {
            let mut edges: Vec<(usize, EdgeType)> = Vec::new();
            match target {
                Some(t) => edges.push((*t, EdgeType::Call)),
                None => {},
            }
            match unwind {
                Some(w) => edges.push((*w, EdgeType::Exception)),
                None => {},
            }
            proof {
                assert(edges@ =~= ullbc_edges(*term));
            }
            edges
        },
        _ => Vec::new(),
    }
}

/// The kind of a block: the block with id 0 is the entry; a block that
/// returns or is unreachable is an exit; any other is normal.
pub open spec fn ullbc_kind(b: UllbcBlock) -> BlockKind {
    if b.id == 0 {
        BlockKind::Entry
    } else if b.terminator is Return || b.terminator is Unreachable {
        BlockKind::Exit
    } else {
        BlockKind::Normal
    }
}

/// `bb` is the CFG block built from ULLBC block `b`.
pub open spec fn builds_block(bb: BasicBlock, b: UllbcBlock) -> bool {
    &&& bb.id == b.id
    &&& bb.db_id is None
    &&& bb.kind == ullbc_kind(b)
    &&& bb.statements@ == b.statements@
    &&& converts_terminator(bb.terminator, b.terminator)
    &&& bb.source_location is None
    &&& bb.coord_x == 0 && bb.coord_y == 0 && bb.coord_z == 0
}

/// The edges block `i` contributes: one per terminator edge whose target is
/// a position of the body, from node `i` to node `target`.
pub open spec fn block_edges(i: usize, es: Seq<(usize, EdgeType)>, n: nat) -> Seq<CfgEdge>
    decreases es.len(),
{
    if es.len() == 0 {
        Seq::empty()
    } else {
        let prev = block_edges(i, es.drop_last(), n);
        let (t, k) = es.last();
        if t < n { prev.push((i, t, k)) } else { prev }
    }
}

/// The edges of the first `k` blocks of a body, block by block.
pub open spec fn body_edges(blocks: Seq<UllbcBlock>, k: nat) -> Seq<CfgEdge>
    decreases k,
{
    if k == 0 {
        Seq::empty()
    } else {
        body_edges(blocks, (k - 1) as nat) + block_edges((k - 1) as usize, ullbc_edges(blocks[k - 1].terminator), blocks.len())
    }
}

proof fn lemma_block_edges_len(i: usize, es: Seq<(usize, EdgeType)>, n: nat)
    ensures
        block_edges(i, es, n).len() <= es.len(),
    decreases es.len(),
{
    if es.len() > 0 {
        lemma_block_edges_len(i, es.drop_last(), n);
    }
}

proof fn lemma_body_edges_mono(blocks: Seq<UllbcBlock>, j: nat, k: nat)
    requires
        j <= k,
    ensures
        body_edges(blocks, j).len() <= body_edges(blocks, k).len(),
    decreases k,
{
    if j < k {
        lemma_body_edges_mono(blocks, j, (k - 1) as nat);
    }
}

fn build_block(b: &UllbcBlock) -> (r: BasicBlock)
    ensures
        builds_block(r, *b),
{
    let kind = if b.id == 0 {
        BlockKind::Entry
    } else {
        match &b.terminator {
            UllbcTerminator::Return => BlockKind::Exit,
            UllbcTerminator::Unreachable => BlockKind::Exit,
            _ => BlockKind::Normal,
        }
    };
    let mut statements: Vec<String> = Vec::new();
    let mut i: usize = 0;
    while i < b.statements.len()
        invariant
            i <= b.statements@.len(),
            statements@ == b.statements@.take(i as int),
        decreases b.statements@.len() - i,
    {
        statements.push(b.statements[i].clone());
        proof {
            assert(b.statements@.take(i + 1) == b.statements@.take(i as int).push(b.statements@[i as int]));
        }
        i = i + 1;
    }
    proof {
        assert(b.statements@.take(b.statements@.len() as int) == b.statements@);
    }
    BasicBlock {
        id: b.id,
        db_id: None,
        kind,
        statements,
        terminator: convert_terminator(&b.terminator),
        source_location: None,
        coord_x: 0,
        coord_y: 0,
        coord_z: 0,
    }
}

/// Build the CFG of a ULLBC body: node `i` is block `i` (its id, kind,
/// statements and terminator carried over), and each terminator edge whose
/// target is a position of the body joins the two nodes, block by block.
/// petgraph holds at most `u32::MAX` nodes and edges.
pub fn ullbc_to_cfg(body: &UllbcBody) -> (r: Cfg)
    requires
        body.blocks@.len() <= u32::MAX,
        body_edges(body.blocks@, body.blocks@.len()).len() <= u32::MAX,
    ensures
        cfg_blocks(r).len() == body.blocks@.len(),
        forall|i: int| 0 <= i < body.blocks@.len() ==> builds_block(#[trigger] cfg_blocks(r)[i], body.blocks@[i]),
        cfg_edges(r) == body_edges(body.blocks@, body.blocks@.len()),
{
    let ghost bl = body.blocks@;
    let n = body.blocks.len();
    let mut graph = cfg_new();
    let mut i: usize = 0;
    while i < n
        invariant
            n == bl.len(),
            bl == body.blocks@,
            n <= u32::MAX,
            i <= n,
            cfg_blocks(graph).len() == i,
            forall|k: int| 0 <= k < i ==> builds_block(#[trigger] cfg_blocks(graph)[k], bl[k]),
            cfg_edges(graph) == Seq::<CfgEdge>::empty(),
        decreases n - i,
    {
        let bb = build_block(&body.blocks[i]);
        add_block(&mut graph, bb);
        i = i + 1;
    }
    let mut b: usize = 0;
    while b < n
        invariant
            n == bl.len(),
            bl == body.blocks@,
            b <= n,
            cfg_blocks(graph).len() == n,
            forall|k: int| 0 <= k < n ==> builds_block(#[trigger] cfg_blocks(graph)[k], bl[k]),
            cfg_edges(graph) == body_edges(bl, b as nat),
            body_edges(bl, n as nat).len() <= u32::MAX,
        decreases n - b,
    {
        let edges = classify_ullbc_terminator(&body.blocks[b].terminator);
        let ghost base = cfg_edges(graph);
        proof {
            lemma_body_edges_mono(bl, (b + 1) as nat, n as nat);
        }
        let mut j: usize = 0;
        while j < edges.len()
            invariant
                n == bl.len(),
                b < n,
                j <= edges.len(),
                cfg_blocks(graph).len() == n,
                forall|k: int| 0 <= k < n ==> builds_block(#[trigger] cfg_blocks(graph)[k], bl[k]),
                edges@ == ullbc_edges(bl[b as int].terminator),
                cfg_edges(graph) == base + block_edges(b, edges@.take(j as int), n as nat),
                base == body_edges(bl, b as nat),
                body_edges(bl, (b + 1) as nat).len() <= u32::MAX,
            decreases edges.len() - j,
        {
            let (target, kind) = edges[j];
            proof {
                assert(edges@.take(j + 1).drop_last() == edges@.take(j as int));
                lemma_block_edges_len(b, edges@.take(j + 1), n as nat);
                lemma_block_edges_len(b, edges@, n as nat);
                lemma_block_edges_prefix(b, edges@, (j + 1) as nat, n as nat);
            }
            if target < n {
                add_cfg_edge(&mut graph, b, target, kind);
            }
            proof {
                assert(cfg_edges(graph) == base + block_edges(b, edges@.take(j + 1), n as nat));
            }
            j = j + 1;
        }
        proof {
            assert(edges@.take(edges@.len() as int) == edges@);
        }
        b = b + 1;
    }
    graph
}

proof fn lemma_block_edges_prefix(i: usize, es: Seq<(usize, EdgeType)>, j: nat, n: nat)
    requires
        j <= es.len(),
    ensures
        block_edges(i, es.take(j as int), n).len() <= block_edges(i, es, n).len(),
    decreases es.len(),
{
    if j < es.len() {
        assert(es.drop_last().take(j as int) == es.take(j as int));
        lemma_block_edges_prefix(i, es.drop_last(), j, n);
    } else {
        assert(es.take(j as int) == es);
    }
}

} // verus!
