//! CFG export: DOT text for visualization and a structured form for JSON.
//!
//! Nodes carry their 4D coordinates: dominator depth (X) shades the fill
//! colour, loop nesting (Y) widens a red border.

use vstd::prelude::*;
use std::collections::HashMap;
use crate::cfg::{BasicBlock, BlockKind, Terminator, SourceLocation};
use crate::cfg::edge::{EdgeType, dot_color_text, dot_label_text};
use crate::cfg::analysis::{find_entry, find_exits, exit_indices};
use crate::cfg::graph::{Cfg, CfgEdge, cfg_blocks, cfg_edges, node_count, edge_count, block, cfg_edge};
use crate::text::{nat_text, int_text, push_nat, push_int, push_text, string_from_chars, chars_of};

verus! {

broadcast use vstd::std_specs::hash::group_hash_axioms;

/// Display name of a block kind.
pub open spec fn block_kind_text(k: BlockKind) -> Seq<char> {
    match k {
        BlockKind::Entry => "ENTRY"@,
        BlockKind::Normal => "NORMAL"@,
        BlockKind::Exit => "EXIT"@,
    }
}

/// `Some(n)` or `None`, as debug text.
pub open spec fn option_text(o: Option<usize>) -> Seq<char> {
    match o {
        Some(x) => "Some("@ + nat_text(x as nat) + ")"@,
        None => "None"@,
    }
}

/// Display text of a terminator.
pub open spec fn terminator_text(t: Terminator) -> Seq<char> {
    match t {
        Terminator::Goto { target } => "goto "@ + nat_text(target as nat),
        Terminator::SwitchInt { targets, otherwise } =>
            "switch("@ + nat_text(targets@.len()) + " targets, otherwise "@ + nat_text(otherwise as nat) + ")"@,
        Terminator::Return => "return"@,
        Terminator::Unreachable => "unreachable"@,
        Terminator::Call { target, unwind } => "call "@ + option_text(target) + ", unwind "@ + option_text(unwind),
        Terminator::Abort(msg) => "abort("@ + msg@ + ")"@,
    }
}

/// `s` with every double quote preceded by a backslash.
pub open spec fn escape_quotes(s: Seq<char>) -> Seq<char>
    decreases s.len(),
{
    if s.len() == 0 {
        Seq::empty()
    } else {
        escape_quotes(s.drop_last()) + if s.last() == '"' { seq!['\\', '"'] } else { seq![s.last()] }
    }
}

/// The display name of a block kind.
pub fn format_block_kind(kind: &BlockKind) -> (r: &'static str)
    ensures
        r@ == block_kind_text(*kind),
{
    match kind {
        BlockKind::Entry => "ENTRY",
        BlockKind::Normal => "NORMAL",
        BlockKind::Exit => "EXIT",
    }
}

fn push_option(out: &mut Vec<char>, o: Option<usize>)
    ensures
        final(out)@ == old(out)@ + option_text(o),
{
    match o {
        Some(x) => {
            push_text(out, "Some(");
            push_nat(out, x as u64);
            push_text(out, ")");
            proof {
                assert(out@ =~= old(out)@ + option_text(o));
            }
        },
        None => push_text(out, "None"),
    }
}

fn push_terminator(out: &mut Vec<char>, t: &Terminator)
    ensures
        final(out)@ == old(out)@ + terminator_text(*t),
{
    match t {
        Terminator::Goto { target } => {
            push_text(out, "goto ");
            push_nat(out, *target as u64);
        },
        Terminator::SwitchInt { targets, otherwise } => {
            push_text(out, "switch(");
            push_nat(out, targets.len() as u64);
            push_text(out, " targets, otherwise ");
            push_nat(out, *otherwise as u64);
            push_text(out, ")");
        },
        Terminator::Return => push_text(out, "return"),
        Terminator::Unreachable => push_text(out, "unreachable"),
        Terminator::Call { target, unwind } => {
            push_text(out, "call ");
            push_option(out, *target);
            push_text(out, ", unwind ");
            push_option(out, *unwind);
        },
        Terminator::Abort(msg) => {
            push_text(out, "abort(");
            push_text(out, msg.as_str());
            push_text(out, ")");
        },
    }
    proof {
        assert(out@ =~= old(out)@ + terminator_text(*t));
    }
}

/// Display text of a terminator.
pub fn format_terminator(term: &Terminator) -> (r: String)
    ensures
        r@ == terminator_text(*term),
{
    let mut out: Vec<char> = Vec::new();
    push_terminator(&mut out, term);
    proof {
        assert(out@ =~= terminator_text(*term));
    }
    string_from_chars(&out)
}

/// Escape the double quotes of `s` for a DOT label.
pub fn escape_dot_string(s: &str) -> (r: String)
    ensures
        r@ == escape_quotes(s@),
{
    let cs = chars_of(s);
    let mut out: Vec<char> = Vec::new();
    let mut i: usize = 0;
    while i < cs.len()
        invariant
            i <= cs@.len(),
            cs@ == s@,
            out@ == escape_quotes(s@.take(i as int)),
        decreases cs@.len() - i,
    {
        let c = cs[i];
        if c == '"' {
            out.push('\\');
            out.push('"');
        } else {
            out.push(c);
        }
        proof {
            assert(s@.take(i + 1).drop_last() == s@.take(i as int));
            assert(s@.take(i + 1).last() == c);
            assert(out@ =~= escape_quotes(s@.take(i + 1)));
        }
        i = i + 1;
    }
    proof {
        assert(s@.take(s@.len() as int) == s@);
    }
    string_from_chars(&out)
}

/// Red border for a block inside loops: width 1 plus the nesting depth,
/// capped at 5; no border outside loops.
pub open spec fn border_style_text(coord_y: int) -> Seq<char> {
    if coord_y == 0 {
        Seq::empty()
    } else {
        "penwidth="@ + int_text(1 + if coord_y < 4 { coord_y } else { 4 }) + ", color=red"@
    }
}

/// Border style for a block's loop nesting depth (see `border_style_text`).
pub fn get_loop_border_style(coord_y: i64, _max_y: i64) -> (r: String)
    ensures
        r@ == border_style_text(coord_y as int),
{
    let mut out: Vec<char> = Vec::new();
    if coord_y != 0 {
        let width: i64 = 1 + if coord_y < 4 { coord_y } else { 4 };
        push_text(&mut out, "penwidth=");
        push_int(&mut out, width);
        push_text(&mut out, ", color=red");
    }
    proof {
        assert(out@ =~= border_style_text(coord_y as int));
    }
    string_from_chars(&out)
}

/// The largest of 0 and the first `k` values of a coordinate.
pub open spec fn coord_max(bs: Seq<BasicBlock>, which: int, k: nat) -> int
    decreases k,
{
    if k == 0 {
        0
    } else {
        let m = coord_max(bs, which, (k - 1) as nat);
        let c = coord_of(bs[k - 1], which);
        if c > m { c } else { m }
    }
}

/// Coordinate `which` (0: X, 1: Y, otherwise Z) of a block.
pub open spec fn coord_of(b: BasicBlock, which: int) -> int {
    if which == 0 { b.coord_x as int } else if which == 1 { b.coord_y as int } else { b.coord_z as int }
}

proof fn lemma_coord_max_bounds(bs: Seq<BasicBlock>, which: int, k: nat)
    requires
        k <= bs.len(),
    ensures
        0 <= coord_max(bs, which, k) <= i64::MAX,
    decreases k,
{
    if k > 0 {
        lemma_coord_max_bounds(bs, which, (k - 1) as nat);
    }
}

/// Largest X, Y and Z coordinates over the blocks (at least 0).
pub fn calculate_coordinate_ranges(cfg: &Cfg) -> (r: (i64, i64, i64))
    ensures
        r.0 == coord_max(cfg_blocks(*cfg), 0, cfg_blocks(*cfg).len()),
        r.1 == coord_max(cfg_blocks(*cfg), 1, cfg_blocks(*cfg).len()),
        r.2 == coord_max(cfg_blocks(*cfg), 2, cfg_blocks(*cfg).len()),
{
    let n = node_count(cfg);
    let ghost bs = cfg_blocks(*cfg);
    let mut mx: i64 = 0;
    let mut my: i64 = 0;
    let mut mz: i64 = 0;
    let mut i: usize = 0;
    while i < n
        invariant
            i <= n,
            n == bs.len(),
            bs == cfg_blocks(*cfg),
            mx == coord_max(bs, 0, i as nat),
            my == coord_max(bs, 1, i as nat),
            mz == coord_max(bs, 2, i as nat),
        decreases n - i,
    {
        let b = block(cfg, i);
        if b.coord_x > mx { mx = b.coord_x; }
        if b.coord_y > my { my = b.coord_y; }
        if b.coord_z > mz { mz = b.coord_z; }
        i = i + 1;
    }
    (mx, my, mz)
}

/// The fill style of a block kind.
pub open spec fn base_style_text(k: BlockKind) -> Seq<char> {
    match k {
        BlockKind::Entry => "fillcolor=lightgreen, style=filled"@,
        BlockKind::Exit => "fillcolor=lightcoral, style=filled"@,
        BlockKind::Normal => Seq::empty(),
    }
}

/// The label of a block's DOT node (before escaping).
pub open spec fn node_label_text(b: BasicBlock) -> Seq<char> {
    "Block "@ + nat_text(b.id as nat) + "\\n"@ + block_kind_text(b.kind) + "\\n"@ + terminator_text(b.terminator)
        + "\\nCoords: X="@ + int_text(b.coord_x as int) + ", Y="@ + int_text(b.coord_y as int) + ", Z="@ + int_text(b.coord_z as int)
}

/// The DOT line of node `i`, given its depth colour attribute.
pub open spec fn node_line_text(i: nat, b: BasicBlock, depth_color: Seq<char>, max_y: int) -> Seq<char> {
    "  \""@ + nat_text(i) + "\" [label=\""@ + escape_quotes(node_label_text(b)) + "\" "@ + base_style_text(b.kind) + " "@
        + depth_color + " "@ + border_style_text(b.coord_y as int) + "];\n"@
}

/// The DOT line of an edge.
pub open spec fn edge_line_text(e: CfgEdge) -> Seq<char> {
    "  \""@ + nat_text(e.0 as nat) + "\" -> \""@ + nat_text(e.1 as nat) + "\" [color="@ + dot_color_text(e.2)
        + ", style="@ + (if e.2 == EdgeType::Fallthrough { "dashed"@ } else { "solid"@ })
        + label_attr_text(e.2) + "];\n"@
}

/// The node lines of the first `k` blocks.
pub open spec fn node_lines(bs: Seq<BasicBlock>, colors: Seq<String>, max_y: int, k: nat) -> Seq<char>
    decreases k,
{
    if k == 0 { Seq::empty() } else { node_lines(bs, colors, max_y, (k - 1) as nat) + node_line_text((k - 1) as nat, bs[k - 1], colors[k - 1]@, max_y) }
}

/// The edge lines of the first `k` edges.
pub open spec fn edge_lines(es: Seq<CfgEdge>, k: nat) -> Seq<char>
    decreases k,
{
    if k == 0 { Seq::empty() } else { edge_lines(es, (k - 1) as nat) + edge_line_text(es[k - 1]) }
}

/// The DOT text of a CFG, given each node's depth colour attribute.
pub open spec fn dot_text(bs: Seq<BasicBlock>, es: Seq<CfgEdge>, colors: Seq<String>) -> Seq<char> {
    "digraph CFG {\n"@ + "  rankdir=TB;\n"@ + "  node [shape=box, style=rounded];\n\n"@
        + node_lines(bs, colors, coord_max(bs, 1, bs.len()), bs.len()) + "\n"@ + edge_lines(es, es.len()) + "}\n"@
}

fn node_label(b: &BasicBlock) -> (r: Vec<char>)
    ensures
        r@ == node_label_text(*b),
{
    let mut label: Vec<char> = Vec::new();
    push_text(&mut label, "Block ");
    push_nat(&mut label, b.id as u64);
    push_text(&mut label, "\\n");
    push_text(&mut label, format_block_kind(&b.kind));
    push_text(&mut label, "\\n");
    push_terminator(&mut label, &b.terminator);
    push_text(&mut label, "\\nCoords: X=");
    push_int(&mut label, b.coord_x);
    push_text(&mut label, ", Y=");
    push_int(&mut label, b.coord_y);
    push_text(&mut label, ", Z=");
    push_int(&mut label, b.coord_z);
    proof {
        assert(label@ =~= node_label_text(*b));
    }
    label
}

fn push_node_line(out: &mut Vec<char>, i: usize, b: &BasicBlock, color: &String, max_y: i64)
    ensures
        final(out)@ == old(out)@ + node_line_text(i as nat, *b, color@, max_y as int),
{
    let label = node_label(b);
    let label_text = string_from_chars(&label);
    let escaped = escape_dot_string(label_text.as_str());
    let base_style: &str = match b.kind {
        BlockKind::Entry => "fillcolor=lightgreen, style=filled",
        BlockKind::Exit => "fillcolor=lightcoral, style=filled",
        BlockKind::Normal => "",
    };
    let border = get_loop_border_style(b.coord_y, max_y);
    push_text(out, "  \"");
    push_nat(out, i as u64);
    push_text(out, "\" [label=\"");
    push_text(out, escaped.as_str());
    push_text(out, "\" ");
    push_text(out, base_style);
    push_text(out, " ");
    push_text(out, color.as_str());
    push_text(out, " ");
    push_text(out, border.as_str());
    push_text(out, "];\n");
    proof {
        reveal_strlit("");
        assert(base_style@ == base_style_text(b.kind));
        assert(out@ =~= old(out)@ + node_line_text(i as nat, *b, color@, max_y as int));
    }
}

/// The label attribute of an edge kind: none for an empty label.
pub open spec fn label_attr_text(kind: EdgeType) -> Seq<char> {
    let label = dot_label_text(kind);
    if label.len() == 0 { Seq::empty() } else { ", label=\""@ + label + "\""@ }
}

fn push_label_attr(out: &mut Vec<char>, kind: EdgeType)
    ensures
        final(out)@ == old(out)@ + label_attr_text(kind),
{
    let label = kind.dot_label();
    if label.unicode_len() != 0 {
        push_text(out, ", label=\"");
        push_text(out, label);
        push_text(out, "\"");
        proof {
            assert(out@ =~= old(out)@ + label_attr_text(kind));
        }
    } else {
        proof {
            assert(out@ =~= old(out)@ + label_attr_text(kind));
        }
    }
}

fn push_edge_line(out: &mut Vec<char>, e: CfgEdge)
    ensures
        final(out)@ == old(out)@ + edge_line_text(e),
{
    let (from, to, kind) = e;
    let color = kind.dot_color();
    push_text(out, "  \"");
    push_nat(out, from as u64);
    push_text(out, "\" -> \"");
    push_nat(out, to as u64);
    push_text(out, "\" [color=");
    push_text(out, color);
    push_text(out, ", style=");
    if kind == EdgeType::Fallthrough {
        push_text(out, "dashed");
    } else {
        push_text(out, "solid");
    }
    push_label_attr(out, kind);
    push_text(out, "];\n");
    proof {
        assert(out@ =~= old(out)@ + edge_line_text(e));
    }
}

/// DOT text of a CFG, with the given depth colour attribute for each node
/// (see `dot_text`).
pub fn export_dot_with_colors(cfg: &Cfg, depth_colors: &Vec<String>) -> (r: String)
    requires
        depth_colors@.len() == cfg_blocks(*cfg).len(),
    ensures
        r@ == dot_text(cfg_blocks(*cfg), cfg_edges(*cfg), depth_colors@),
{
    let ghost bs = cfg_blocks(*cfg);
    let ghost es = cfg_edges(*cfg);
    let mut out: Vec<char> = Vec::new();
    push_text(&mut out, "digraph CFG {\n");
    push_text(&mut out, "  rankdir=TB;\n");
    push_text(&mut out, "  node [shape=box, style=rounded];\n\n");
    let (_max_x, max_y, _max_z) = calculate_coordinate_ranges(cfg);
    let ghost header = out@;
    let n = node_count(cfg);
    let mut i: usize = 0;
    while i < n
        invariant
            i <= n,
            n == bs.len(),
            bs == cfg_blocks(*cfg),
            depth_colors@.len() == n,
            max_y == coord_max(bs, 1, bs.len()),
            out@ == header + node_lines(bs, depth_colors@, max_y as int, i as nat),
        decreases n - i,
    {
        push_node_line(&mut out, i, block(cfg, i), &depth_colors[i], max_y);
        proof {
            assert(out@ =~= header + node_lines(bs, depth_colors@, max_y as int, (i + 1) as nat));
        }
        i = i + 1;
    }
    push_text(&mut out, "\n");
    let ghost mid = out@;
    let m = edge_count(cfg);
    let mut k: usize = 0;
    while k < m
        invariant
            k <= m,
            m == es.len(),
            es == cfg_edges(*cfg),
            out@ == mid + edge_lines(es, k as nat),
        decreases m - k,
    {
        push_edge_line(&mut out, cfg_edge(cfg, k));
        proof {
            assert(out@ =~= mid + edge_lines(es, (k + 1) as nat));
        }
        k = k + 1;
    }
    push_text(&mut out, "}\n");
    proof {
        assert(out@ =~= dot_text(bs, es, depth_colors@));
    }
    string_from_chars(&out)
}

/// Display name of an edge kind, as `{:?}` writes it.
pub open spec fn edge_kind_name(e: EdgeType) -> Seq<char> {
    match e {
        EdgeType::TrueBranch => "TrueBranch"@,
        EdgeType::FalseBranch => "FalseBranch"@,
        EdgeType::Fallthrough => "Fallthrough"@,
        EdgeType::LoopBack => "LoopBack"@,
        EdgeType::LoopExit => "LoopExit"@,
        EdgeType::Exception => "Exception"@,
        EdgeType::Call => "Call"@,
        EdgeType::Return => "Return"@,
    }
}

/// The name of an edge kind (see `edge_kind_name`).
pub fn format_edge_kind(e: &EdgeType) -> (r: &'static str)
    ensures
        r@ == edge_kind_name(*e),
{
    match e {
        EdgeType::TrueBranch => "TrueBranch",
        EdgeType::FalseBranch => "FalseBranch",
        EdgeType::Fallthrough => "Fallthrough",
        EdgeType::LoopBack => "LoopBack",
        EdgeType::LoopExit => "LoopExit",
        EdgeType::Exception => "Exception",
        EdgeType::Call => "Call",
        EdgeType::Return => "Return",
    }
}

/// Text of a source span: `file:line:column-line:column`.
pub open spec fn location_text(l: SourceLocation) -> Seq<char> {
    l.file_path@ + ":"@ + nat_text(l.start_line as nat) + ":"@ + nat_text(l.start_column as nat) + "-"@
        + nat_text(l.end_line as nat) + ":"@ + nat_text(l.end_column as nat)
}

impl SourceLocation {
    /// The span as `file:line:column-line:column`.
    pub fn display(&self) -> (r: String)
        ensures
            r@ == location_text(*self),
    {
        let mut out: Vec<char> = Vec::new();
        push_text(&mut out, self.file_path.as_str());
        push_text(&mut out, ":");
        push_nat(&mut out, self.start_line as u64);
        push_text(&mut out, ":");
        push_nat(&mut out, self.start_column as u64);
        push_text(&mut out, "-");
        push_nat(&mut out, self.end_line as u64);
        push_text(&mut out, ":");
        push_nat(&mut out, self.end_column as u64);
        proof {
            assert(out@ =~= location_text(*self));
        }
        string_from_chars(&out)
    }
}

/// Complete CFG export, the shape serialized to JSON.
#[derive(Debug, Clone)]
pub struct CFGExport {
    pub function_name: String,
    pub entry: Option<usize>,
    pub exits: Vec<usize>,
    pub blocks: Vec<BlockExport>,
    pub edges: Vec<EdgeExport>,
}

/// Coverage data for a single block.
#[derive(Debug, Clone, Copy, PartialEq, Eq, Structural)]
pub struct BlockCoverage {
    /// Number of times this block was executed
    pub hit_count: i64,
}

/// One block of a CFG export.
#[derive(Debug, Clone)]
pub struct BlockExport {
    pub id: usize,
    pub kind: String,
    pub statements: Vec<String>,
    pub terminator: String,
    pub source_location: Option<String>,
    /// X coordinate: dominator depth
    pub coord_x: i64,
    /// Y coordinate: loop nesting depth
    pub coord_y: i64,
    /// Z coordinate: branch distance from entry
    pub coord_z: i64,
    /// Coverage data (present only when coverage is known for the block)
    pub coverage: Option<BlockCoverage>,
}

/// One edge of a CFG export.
#[derive(Debug, Clone)]
pub struct EdgeExport {
    pub from: usize,
    pub to: usize,
    pub kind: String,
}

/// The coverage map, if any, as a mathematical map.
pub open spec fn coverage_view(c: Option<&HashMap<i64, i64>>) -> Option<Map<i64, i64>> {
    match c {
        Some(m) => Some(m@),
        None => None,
    }
}

/// The hit count recorded for a block: its database id looked up in the map.
pub open spec fn coverage_of(b: BasicBlock, cov: Option<Map<i64, i64>>) -> Option<BlockCoverage> {
    match (cov, b.db_id) {
        (Some(m), Some(d)) => if m.contains_key(d) { Some(BlockCoverage { hit_count: m[d] }) } else { None },
        _ => None,
    }
}

/// `e` is the export of block `b`.
pub open spec fn exports_block(e: BlockExport, b: BasicBlock, cov: Option<Map<i64, i64>>) -> bool {
    &&& e.id == b.id
    &&& e.kind@ == block_kind_text(b.kind)
    &&& e.statements@ == b.statements@
    &&& e.terminator@ == terminator_text(b.terminator)
    &&& match (e.source_location, b.source_location) {
        (Some(t), Some(l)) => t@ == location_text(l),
        (None, None) => true,
        _ => false,
    }
    &&& e.coord_x == b.coord_x
    &&& e.coord_y == b.coord_y
    &&& e.coord_z == b.coord_z
    &&& e.coverage == coverage_of(b, cov)
}

/// `e` is the export of edge `g`.
pub open spec fn exports_edge(e: EdgeExport, g: CfgEdge) -> bool {
    e.from == g.0 && e.to == g.1 && e.kind@ == edge_kind_name(g.2)
}

fn export_block(b: &BasicBlock, coverage: Option<&HashMap<i64, i64>>) -> (r: BlockExport)
    ensures
        exports_block(r, *b, coverage_view(coverage)),
{
    let mut statements: Vec<String> = Vec::new();
    let mut i: usize = 0;
    while i < b.statements.len()
        invariant
            i <= b.statements@.len(),
            statements@ == b.statements@.take(i as int),
        decreases b.statements@.len() - i,
    {
        statements.push(b.statements[i].clone());
        proof {
            assert(b.statements@.take(i + 1) == b.statements@.take(i as int).push(b.statements@[i as int]));
        }
        i = i + 1;
    }
    proof {
        assert(b.statements@.take(b.statements@.len() as int) == b.statements@);
    }
    let source_location = match &b.source_location {
        Some(loc) => Some(loc.display()),
        None => None,
    };
    let block_coverage = match (coverage, b.db_id) {
        (Some(m), Some(d)) => match m.get(&d) {
            Some(h) => Some(BlockCoverage { hit_count: *h }),
            None => None,
        },
        _ => None,
    };
    BlockExport {
        id: b.id,
        kind: format_block_kind(&b.kind).to_owned(),
        statements,
        terminator: format_terminator(&b.terminator),
        source_location,
        coord_x: b.coord_x,
        coord_y: b.coord_y,
        coord_z: b.coord_z,
        coverage: block_coverage,
    }
}

/// Export a CFG in the structured form serialized to JSON: the entry and
/// exit nodes, every block in node order (with its coverage when the map
/// records its database id) and every edge in edge order.
pub fn export_json(cfg: &Cfg, function_name: &str, coverage: Option<&HashMap<i64, i64>>) -> (r: CFGExport)
    ensures
        r.function_name@ == function_name@,
        r.entry == (if cfg_blocks(*cfg).len() == 0 { None::<usize> } else { Some(0usize) }),
        r.exits@ == exit_indices(cfg_blocks(*cfg), cfg_blocks(*cfg).len()),
        r.blocks@.len() == cfg_blocks(*cfg).len(),
        forall|k: int| 0 <= k < r.blocks@.len() ==>
            exports_block(#[trigger] r.blocks@[k], cfg_blocks(*cfg)[k], coverage_view(coverage)),
        r.edges@.len() == cfg_edges(*cfg).len(),
        forall|k: int| 0 <= k < r.edges@.len() ==> exports_edge(#[trigger] r.edges@[k], cfg_edges(*cfg)[k]),
{
    let entry = find_entry(cfg);
    let exits = find_exits(cfg);
    let ghost bs = cfg_blocks(*cfg);
    let ghost es = cfg_edges(*cfg);
    let n = node_count(cfg);
    let mut blocks: Vec<BlockExport> = Vec::new();
    let mut i: usize = 0;
    while i < n
        invariant
            i <= n,
            n == bs.len(),
            bs == cfg_blocks(*cfg),
            blocks@.len() == i,
            forall|k: int| 0 <= k < i ==> exports_block(#[trigger] blocks@[k], bs[k], coverage_view(coverage)),
        decreases n - i,
    {
        let e = export_block(block(cfg, i), coverage);
        blocks.push(e);
        i = i + 1;
    }
    let m = edge_count(cfg);
    let mut edges: Vec<EdgeExport> = Vec::new();
    let mut k: usize = 0;
    while k < m
        invariant
            k <= m,
            m == es.len(),
            es == cfg_edges(*cfg),
            edges@.len() == k,
            forall|j: int| 0 <= j < k ==> exports_edge(#[trigger] edges@[j], es[j]),
        decreases m - k,
    {
        let (from, to, kind) = cfg_edge(cfg, k);
        edges.push(EdgeExport { from, to, kind: format_edge_kind(&kind).to_owned() });
        k = k + 1;
    }
    CFGExport {
        function_name: function_name.to_owned(),
        entry,
        exits,
        blocks,
        edges,
    }
}

/// Integer coordinate totals of a CFG: the largest value (at least 0) and
/// the sum of each coordinate, and the number of blocks. Averages are the
/// sums over the count.
#[derive(Debug, Clone, Copy, PartialEq, Eq, Structural)]
pub struct CoordinateTotals {
    pub max_coord_x: i64,
    pub max_coord_y: i64,
    pub max_coord_z: i64,
    pub sum_coord_x: i128,
    pub sum_coord_y: i128,
    pub sum_coord_z: i128,
    pub total_blocks: usize,
}

/// Sum of coordinate `which` over the first `k` blocks.
pub open spec fn coord_sum(bs: Seq<BasicBlock>, which: int, k: nat) -> int
    decreases k,
{
    if k == 0 { 0 } else { coord_sum(bs, which, (k - 1) as nat) + coord_of(bs[k - 1], which) }
}

proof fn lemma_coord_sum_bounds(bs: Seq<BasicBlock>, which: int, k: nat)
    requires
        k <= bs.len(),
    ensures
        -(k * 0x8000_0000_0000_0000) <= coord_sum(bs, which, k) <= k * 0x8000_0000_0000_0000,
    decreases k,
{
    if k > 0 {
        lemma_coord_sum_bounds(bs, which, (k - 1) as nat);
        assert((k - 1) * 0x8000_0000_0000_0000 + 0x8000_0000_0000_0000 == k * 0x8000_0000_0000_0000) by (nonlinear_arith);
    }
}

proof fn lemma_sum_fits(k: nat, s: int)
    requires
        k <= usize::MAX,
        -(k * 0x8000_0000_0000_0000) <= s <= k * 0x8000_0000_0000_0000,
    ensures
        i128::MIN < s < i128::MAX,
{
    assert(k * 0x8000_0000_0000_0000 <= 0xffff_ffff_ffff_ffff * 0x8000_0000_0000_0000) by (nonlinear_arith)
        requires k <= 0xffff_ffff_ffff_ffff;
}

/// Largest values, sums and count of the block coordinates.
pub fn calculate_coordinate_totals(cfg: &Cfg) -> (r: CoordinateTotals)
    ensures
        r.max_coord_x == coord_max(cfg_blocks(*cfg), 0, cfg_blocks(*cfg).len()),
        r.max_coord_y == coord_max(cfg_blocks(*cfg), 1, cfg_blocks(*cfg).len()),
        r.max_coord_z == coord_max(cfg_blocks(*cfg), 2, cfg_blocks(*cfg).len()),
        r.sum_coord_x == coord_sum(cfg_blocks(*cfg), 0, cfg_blocks(*cfg).len()),
        r.sum_coord_y == coord_sum(cfg_blocks(*cfg), 1, cfg_blocks(*cfg).len()),
        r.sum_coord_z == coord_sum(cfg_blocks(*cfg), 2, cfg_blocks(*cfg).len()),
        r.total_blocks == cfg_blocks(*cfg).len(),
{
    let (mx, my, mz) = calculate_coordinate_ranges(cfg);
    let n = node_count(cfg);
    let ghost bs = cfg_blocks(*cfg);
    let mut sx: i128 = 0;
    let mut sy: i128 = 0;
    let mut sz: i128 = 0;
    let mut i: usize = 0;
    while i < n
        invariant
            i <= n,
            n == bs.len(),
            bs == cfg_blocks(*cfg),
            sx == coord_sum(bs, 0, i as nat),
            sy == coord_sum(bs, 1, i as nat),
            sz == coord_sum(bs, 2, i as nat),
        decreases n - i,
    {
        let b = block(cfg, i);
        proof {
            lemma_coord_sum_bounds(bs, 0, (i + 1) as nat);
            lemma_coord_sum_bounds(bs, 1, (i + 1) as nat);
            lemma_coord_sum_bounds(bs, 2, (i + 1) as nat);
            lemma_sum_fits((i + 1) as nat, coord_sum(bs, 0, (i + 1) as nat));
            lemma_sum_fits((i + 1) as nat, coord_sum(bs, 1, (i + 1) as nat));
            lemma_sum_fits((i + 1) as nat, coord_sum(bs, 2, (i + 1) as nat));
        }
        sx = sx + b.coord_x as i128;
        sy = sy + b.coord_y as i128;
        sz = sz + b.coord_z as i128;
        i = i + 1;
    }
    CoordinateTotals {
        max_coord_x: mx,
        max_coord_y: my,
        max_coord_z: mz,
        sum_coord_x: sx,
        sum_coord_y: sy,
        sum_coord_z: sz,
        total_blocks: n,
    }
}

/// Heading of the human-readable export: the function name over a rule
/// of sixty `=`.
pub open spec fn human_header_text(function_name: Seq<char>) -> Seq<char> {
    "Control Flow Graph: "@ + function_name + "\n"@ + Seq::new(60, |i: int| '=') + "\n"@
}

/// The block's heading, terminator and coordinates.
pub open spec fn human_block_main(b: BasicBlock) -> Seq<char> {
    "\n  Block "@ + nat_text(b.id as nat) + " ["@ + block_kind_text(b.kind) + "]:\n"@
        + "    Terminator: "@ + terminator_text(b.terminator) + "\n"@
        + "    Coordinates: X="@ + int_text(b.coord_x as int) + ", Y="@ + int_text(b.coord_y as int) + ", Z="@
        + int_text(b.coord_z as int) + "\n"@
}

/// What the block's coordinates mean, one line for each that says something.
pub open spec fn human_block_insights(b: BasicBlock) -> Seq<char> {
    (if b.coord_x > 0 { "    \u{2192} "@ + int_text(b.coord_x as int) + " levels deep in control flow\n"@ } else { Seq::empty() })
        + (if b.coord_y > 0 { "    \u{2192} Inside "@ + int_text(b.coord_y as int) + " loop(s)\n"@ } else { Seq::empty() })
        + (if b.coord_z > 1 { "    \u{2192} "@ + int_text(b.coord_z as int) + " conditional branches from entry\n"@ } else { Seq::empty() })
}

/// Human-readable lines of one block, with its coordinates and what they mean.
pub open spec fn human_block_text(b: BasicBlock) -> Seq<char> {
    human_block_main(b) + human_block_insights(b)
}

/// Human-readable lines of the first `k` blocks.
pub open spec fn human_blocks(bs: Seq<BasicBlock>, k: nat) -> Seq<char>
    decreases k,
{
    if k == 0 { Seq::empty() } else { human_blocks(bs, (k - 1) as nat) + human_block_text(bs[k - 1]) }
}

/// The block section of the human-readable export: a count, then each block.
pub open spec fn human_blocks_text(bs: Seq<BasicBlock>) -> Seq<char> {
    "\nBlocks ("@ + nat_text(bs.len()) + " total):\n"@ + human_blocks(bs, bs.len())
}

/// Heading of the human-readable export (see `human_header_text`).
pub fn human_header(function_name: &str) -> (r: String)
    ensures
        r@ == human_header_text(function_name@),
{
    let mut out: Vec<char> = Vec::new();
    push_text(&mut out, "Control Flow Graph: ");
    push_text(&mut out, function_name);
    push_text(&mut out, "\n");
    let ghost start = out@;
    let mut i: usize = 0;
    while i < 60
        invariant
            i <= 60,
            out@ == start + Seq::new(i as nat, |j: int| '='),
        decreases 60 - i,
    {
        out.push('=');
        proof {
            assert(out@ =~= start + Seq::new((i + 1) as nat, |j: int| '='));
        }
        i = i + 1;
    }
    push_text(&mut out, "\n");
    proof {
        assert(out@ =~= human_header_text(function_name@));
    }
    string_from_chars(&out)
}

fn push_human_block_main(out: &mut Vec<char>, b: &BasicBlock)
    ensures
        final(out)@ == old(out)@ + human_block_main(*b),
{
    push_text(out, "\n  Block ");
    push_nat(out, b.id as u64);
    push_text(out, " [");
    push_text(out, format_block_kind(&b.kind));
    push_text(out, "]:\n");
    push_text(out, "    Terminator: ");
    push_terminator(out, &b.terminator);
    push_text(out, "\n");
    push_text(out, "    Coordinates: X=");
    push_int(out, b.coord_x);
    push_text(out, ", Y=");
    push_int(out, b.coord_y);
    push_text(out, ", Z=");
    push_int(out, b.coord_z);
    push_text(out, "\n");
    proof {
        assert(out@ =~= old(out)@ + human_block_main(*b));
    }
}

fn push_human_block_insights(out: &mut Vec<char>, b: &BasicBlock)
    ensures
        final(out)@ == old(out)@ + human_block_insights(*b),
{
    let ghost base = out@;
    if b.coord_x > 0 {
        push_text(out, "    \u{2192} ");
        push_int(out, b.coord_x);
        push_text(out, " levels deep in control flow\n");
    }
    let ghost after_x = out@;
    if b.coord_y > 0 {
        push_text(out, "    \u{2192} Inside ");
        push_int(out, b.coord_y);
        push_text(out, " loop(s)\n");
    }
    let ghost after_y = out@;
    if b.coord_z > 1 {
        push_text(out, "    \u{2192} ");
        push_int(out, b.coord_z);
        push_text(out, " conditional branches from entry\n");
    }
    proof {
        if b.coord_x <= 0 {
            assert(after_x =~= base + Seq::<char>::empty());
        }
        if b.coord_y <= 0 {
            assert(after_y =~= after_x + Seq::<char>::empty());
        }
        if b.coord_z <= 1 {
            assert(out@ =~= after_y + Seq::<char>::empty());
        }
        assert(out@ =~= old(out)@ + human_block_insights(*b));
    }
}

fn push_human_block(out: &mut Vec<char>, b: &BasicBlock)
    ensures
        final(out)@ == old(out)@ + human_block_text(*b),
{
    push_human_block_main(out, b);
    push_human_block_insights(out, b);
    proof {
        assert(out@ =~= old(out)@ + human_block_text(*b));
    }
}

/// Block section of the human-readable export (see `human_blocks_text`).
pub fn human_blocks_section(cfg: &Cfg) -> (r: String)
    ensures
        r@ == human_blocks_text(cfg_blocks(*cfg)),
{
    let ghost bs = cfg_blocks(*cfg);
    let n = node_count(cfg);
    let mut out: Vec<char> = Vec::new();
    push_text(&mut out, "\nBlocks (");
    push_nat(&mut out, n as u64);
    push_text(&mut out, " total):\n");
    let ghost start = out@;
    let mut i: usize = 0;
    while i < n
        invariant
            i <= n,
            n == bs.len(),
            bs == cfg_blocks(*cfg),
            out@ == start + human_blocks(bs, i as nat),
        decreases n - i,
    {
        push_human_block(&mut out, block(cfg, i));
        proof {
            assert(out@ =~= start + human_blocks(bs, (i + 1) as nat));
        }
        i = i + 1;
    }
    proof {
        assert(out@ =~= human_blocks_text(bs));
    }
    string_from_chars(&out)
}

} // verus!
