//! Symbol-level call-graph metrics: fan-in plus fan-out of each symbol, and
//! the size of the strongly connected component (recursion cycle) it sits in.

use vstd::prelude::*;
use std::collections::HashMap;
use petgraph::graph::NodeIndex;
use crate::cfg::block_graph::{BlockGraph, block_graph_nodes, block_graph_edges, block_graph_new,
    block_graph_add_node, block_graph_add_edge};

verus! {

broadcast use vstd::std_specs::hash::group_hash_axioms;

/// Some walk along the edges `es` leads from `a` to `b` (every node reaches
/// itself).
pub open spec fn calls_reach(es: Seq<(usize, usize)>, a: usize, b: usize) -> bool {
    exists|p: Seq<usize>| {
        &&& p.len() >= 1
        &&& p[0] == a
        &&& p.last() == b
        &&& forall|i: int| 0 <= i < p.len() - 1 ==> #[trigger] es.contains((p[i], p[i + 1]))
    }
}

/// `a` and `b` reach each other: they are in one strongly connected
/// component.
pub open spec fn same_component(es: Seq<(usize, usize)>, a: usize, b: usize) -> bool {
    calls_reach(es, a, b) && calls_reach(es, b, a)
}

/// Some component lists node `x`.
pub open spec fn in_some_component(comps: Seq<Seq<usize>>, x: usize) -> bool {
    exists|c: int, i: int| 0 <= c < comps.len() && 0 <= i < comps[c].len() && #[trigger] comps[c][i] == x
}

/// `comps` are the strongly connected components of a graph of `n` nodes
/// with edges `es`: every node is in exactly one, once, and two nodes share
/// a component exactly when they reach each other.
pub open spec fn is_scc_partition(comps: Seq<Seq<usize>>, n: nat, es: Seq<(usize, usize)>) -> bool {
    &&& forall|c: int, i: int| 0 <= c < comps.len() && 0 <= i < comps[c].len() ==> #[trigger] comps[c][i] < n
    &&& forall|x: usize| x < n ==> #[trigger] in_some_component(comps, x)
    &&& forall|c1: int, i1: int, c2: int, i2: int|
        0 <= c1 < comps.len() && 0 <= i1 < comps[c1].len() && 0 <= c2 < comps.len() && 0 <= i2 < comps[c2].len()
        && #[trigger] comps[c1][i1] == #[trigger] comps[c2][i2] ==> c1 == c2 && i1 == i2
    &&& forall|c: int, i: int, j: int| 0 <= c < comps.len() && 0 <= i < comps[c].len() && 0 <= j < comps[c].len()
        ==> same_component(es, #[trigger] comps[c][i], #[trigger] comps[c][j])
    &&& forall|c1: int, i: int, c2: int, j: int|
        0 <= c1 < comps.len() && 0 <= i < comps[c1].len() && 0 <= c2 < comps.len() && 0 <= j < comps[c2].len()
        && c1 != c2 ==> !same_component(es, #[trigger] comps[c1][i], #[trigger] comps[c2][j])
}

/// The strongly connected components of the graph
/// (`petgraph::algo::tarjan_scc`), each as node indices. petgraph documents
/// that they are the strongly connected components; their order and the
/// order inside each is left unsaid.
#[verifier::external_body]
fn strongly_connected_components(g: &BlockGraph) -> (r: Vec<Vec<usize>>)
    ensures
        is_scc_partition(r@.map_values(|c: Vec<usize>| c@), block_graph_nodes(*g).len(), block_graph_edges(*g)),
{
    petgraph::algo::tarjan_scc(g).into_iter().map(|c| c.into_iter().map(|x: NodeIndex| x.index()).collect()).collect()
}

/// The symbols of the first `k` call edges, in order of first appearance
/// (caller before callee).
pub open spec fn symbols_upto(edges: Seq<(i64, i64)>, k: nat) -> Seq<i64>
    decreases k,
{
    if k == 0 {
        Seq::empty()
    } else {
        let s = symbols_upto(edges, (k - 1) as nat);
        let e = edges[k - 1];
        let s1 = if s.contains(e.0) { s } else { s.push(e.0) };
        if s1.contains(e.1) { s1 } else { s1.push(e.1) }
    }
}

/// The distinct symbols of the call edges, in order of first appearance.
pub open spec fn call_symbols(edges: Seq<(i64, i64)>) -> Seq<i64> {
    symbols_upto(edges, edges.len())
}

/// Position of `x` in `s` (its first occurrence).
pub open spec fn position_of(s: Seq<i64>, x: i64) -> usize {
    choose|i: usize| i < s.len() && s[i as int] == x
}

/// The call edges between symbol positions.
pub open spec fn symbol_edges(edges: Seq<(i64, i64)>) -> Seq<(usize, usize)> {
    let s = call_symbols(edges);
    edges.map_values(|e: (i64, i64)| (position_of(s, e.0), position_of(s, e.1)))
}

/// How many call edges start at `x`, plus how many end at it, among the
/// first `k`.
pub open spec fn endpoint_count(edges: Seq<(i64, i64)>, x: i64, k: nat) -> nat
    decreases k,
{
    if k == 0 {
        0
    } else {
        endpoint_count(edges, x, (k - 1) as nat)
            + (if edges[k - 1].0 == x { 1nat } else { 0nat })
            + (if edges[k - 1].1 == x { 1nat } else { 0nat })
    }
}

/// Number of symbols in the strongly connected component of the symbol at
/// position `k`.
pub open spec fn component_size(edges: Seq<(i64, i64)>, k: usize) -> nat {
    Set::new(|j: usize| j < call_symbols(edges).len() && same_component(symbol_edges(edges), k, j)).len()
}

/// Call-graph metrics, one entry per symbol.
pub struct CallGraphCounts {
    /// The distinct symbols, in order of first appearance in the call edges
    pub symbols: Vec<i64>,
    /// Fan-in plus fan-out of each symbol
    pub degree: Vec<usize>,
    /// Size of the strongly connected component of each symbol (1 for a
    /// symbol on no cycle)
    pub scc_size: Vec<usize>,
}

proof fn lemma_symbols_distinct(edges: Seq<(i64, i64)>, k: nat)
    requires
        k <= edges.len(),
    ensures
        symbols_upto(edges, k).no_duplicates(),
        forall|j: int| 0 <= j < k ==> symbols_upto(edges, k).contains(#[trigger] edges[j].0)
            && symbols_upto(edges, k).contains(edges[j].1),
        symbols_upto(edges, k).len() <= 2 * k,
    decreases k,
{
    if k > 0 {
        lemma_symbols_distinct(edges, (k - 1) as nat);
        let s = symbols_upto(edges, (k - 1) as nat);
        let e = edges[k - 1];
        let s1 = if s.contains(e.0) { s } else { s.push(e.0) };
        assert forall|j: int| 0 <= j < k implies symbols_upto(edges, k).contains(#[trigger] edges[j].0)
            && symbols_upto(edges, k).contains(edges[j].1) by {
            let r = symbols_upto(edges, k);
            if j < k - 1 {
                let a = choose|a: int| 0 <= a < s.len() && s[a] == edges[j].0;
                let b = choose|b: int| 0 <= b < s.len() && s[b] == edges[j].1;
                assert(s1[a] == edges[j].0 && s1[b] == edges[j].1);
                assert(r[a] == edges[j].0 && r[b] == edges[j].1);
            } else {
                if s.contains(e.0) {
                    let a = choose|a: int| 0 <= a < s.len() && s[a] == e.0;
                    assert(r[a] == e.0);
                } else {
                    assert(s1[s.len() as int] == e.0);
                    assert(r[s.len() as int] == e.0);
                }
                if s1.contains(e.1) {
                    let b = choose|b: int| 0 <= b < s1.len() && s1[b] == e.1;
                    assert(r[b] == e.1);
                } else {
                    assert(r[s1.len() as int] == e.1);
                }
            }
        }
    }
}

/// A symbol on none of the first `k` call edges has no endpoints there.
proof fn lemma_endpoint_zero(edges: Seq<(i64, i64)>, x: i64, k: nat)
    requires
        k <= edges.len(),
        forall|j: int| 0 <= j < k ==> (#[trigger] edges[j]).0 != x && edges[j].1 != x,
    ensures
        endpoint_count(edges, x, k) == 0,
    decreases k,
{
    if k > 0 {
        lemma_endpoint_zero(edges, x, (k - 1) as nat);
    }
}

/// In a sequence without duplicates, `position_of` finds the one index
/// holding `x`.
proof fn lemma_position_of(s: Seq<i64>, x: i64, i: usize)
    requires
        s.no_duplicates(),
        i < s.len(),
        s[i as int] == x,
    ensures
        position_of(s, x) == i,
{
    let p = position_of(s, x);
    assert(p < s.len() && s[p as int] == x);
}

/// Find a symbol's position in the table.
fn position(table: &HashMap<i64, usize>, x: i64) -> (r: Option<usize>)
    ensures
        r == (if table@.contains_key(x) { Some(table@[x]) } else { None::<usize> }),
{
    match table.get(&x) {
        Some(i) => Some(*i),
        None => None,
    }
}

/// Call-graph metrics of symbol-level call edges (caller, callee): the
/// distinct symbols in order of first appearance, each symbol's fan-in plus
/// fan-out (an edge from a symbol to itself counts twice), and the size of
/// its strongly connected component in the call graph.
pub fn call_graph_metrics(edges: &Vec<(i64, i64)>) -> (r: CallGraphCounts)
    requires
        2 * edges@.len() < u32::MAX,
    ensures
        r.symbols@ == call_symbols(edges@),
        r.degree@.len() == r.symbols@.len(),
        r.scc_size@.len() == r.symbols@.len(),
        forall|k: int| 0 <= k < r.symbols@.len() ==>
            #[trigger] r.degree@[k] == endpoint_count(edges@, r.symbols@[k], edges@.len()),
        forall|k: int| 0 <= k < r.symbols@.len() ==> #[trigger] r.scc_size@[k] == component_size(edges@, k as usize),
{
    let ghost es = edges@;
    let mut symbols: Vec<i64> = Vec::new();
    let mut degree: Vec<usize> = Vec::new();
    let mut table: HashMap<i64, usize> = HashMap::new();
    let mut graph = block_graph_new();
    let mut k: usize = 0;
    while k < edges.len()
        invariant
            2 * es.len() < u32::MAX,
            es == edges@,
            k <= es.len(),
            symbols@ == symbols_upto(es, k as nat),
            symbols@.no_duplicates(),
            symbols@.len() <= 2 * k,
            degree@.len() == symbols@.len(),
            block_graph_nodes(graph) == symbols@,
            block_graph_edges(graph).len() == k,
            forall|j: int| 0 <= j < k ==> #[trigger] block_graph_edges(graph)[j] == (table@[es[j].0], table@[es[j].1]),
            forall|j: int| 0 <= j < k ==> table@.contains_key((#[trigger] es[j]).0) && table@.contains_key(es[j].1),
            forall|x: i64| #[trigger] table@.contains_key(x) <==> symbols@.contains(x),
            forall|x: i64| table@.contains_key(x) ==> #[trigger] table@[x] < symbols@.len() && symbols@[table@[x] as int] == x,
            forall|j: int| 0 <= j < symbols@.len() ==> #[trigger] degree@[j] == endpoint_count(es, symbols@[j], k as nat),
            forall|j: int| 0 <= j < symbols@.len() ==> #[trigger] degree@[j] <= 2 * k,
        decreases es.len() - k,
    {
        proof {
            lemma_symbols_distinct(es, (k + 1) as nat);
        }
        let (from, to) = edges[k];
        let ghost t0 = table@;
        let ghost d0 = degree@;
        let ghost g0 = block_graph_edges(graph);
        let ghost s0 = symbols@;
        let a = match position(&table, from) {
            Some(i) => i,
            None => {
                let i = symbols.len();
                proof {
                    assert forall|j: int| 0 <= j < k implies (#[trigger] es[j]).0 != from && es[j].1 != from by {
                        assert(table@.contains_key(es[j].0));
                        assert(table@.contains_key(es[j].1));
                    }
                    lemma_endpoint_zero(es, from, k as nat);
                }
                symbols.push(from);
                degree.push(0);
                table.insert(from, i);
                block_graph_add_node(&mut graph, from);
                i
            },
        };
        let ghost t1 = table@;
        let ghost s1 = symbols@;
        proof {
            assert(s1 == (if s0.contains(from) { s0 } else { s0.push(from) }));
            assert forall|x: i64| #[trigger] table@.contains_key(x) <==> symbols@.contains(x) by {
                if !s0.contains(from) && x != from {
                    if s1.contains(x) {
                        let q = choose|q: int| 0 <= q < s1.len() && s1[q] == x;
                        assert(s0[q] == x);
                    }
                    if s0.contains(x) {
                        let q = choose|q: int| 0 <= q < s0.len() && s0[q] == x;
                        assert(s1[q] == x);
                    }
                }
                if !s0.contains(from) && x == from {
                    assert(s1[s0.len() as int] == from);
                }
            }
        }
        let b = match position(&table, to) {
            Some(i) => i,
            None => {
                let i = symbols.len();
                proof {
                    assert forall|j: int| 0 <= j < k implies (#[trigger] es[j]).0 != to && es[j].1 != to by {
                        assert(t0.contains_key(es[j].0));
                        assert(t0.contains_key(es[j].1));
                        assert(table@.contains_key(es[j].0));
                        assert(table@.contains_key(es[j].1));
                    }
                    lemma_endpoint_zero(es, to, k as nat);
                }
                symbols.push(to);
                degree.push(0);
                table.insert(to, i);
                block_graph_add_node(&mut graph, to);
                i
            },
        };
        proof {
            let s2 = symbols@;
            assert(s2 == (if s1.contains(to) { s1 } else { s1.push(to) }));
            assert forall|x: i64| #[trigger] table@.contains_key(x) <==> symbols@.contains(x) by {
                if !s1.contains(to) && x != to {
                    if s2.contains(x) {
                        let q = choose|q: int| 0 <= q < s2.len() && s2[q] == x;
                        assert(s1[q] == x);
                    }
                    if s1.contains(x) {
                        let q = choose|q: int| 0 <= q < s1.len() && s1[q] == x;
                        assert(s2[q] == x);
                    }
                }
                if !s1.contains(to) && x == to {
                    assert(s2[s1.len() as int] == to);
                }
            }
            assert(symbols@ == symbols_upto(es, (k + 1) as nat));
            assert forall|j: int| 0 <= j < k implies #[trigger] g0[j] == (table@[es[j].0], table@[es[j].1]) by {
                assert(t0.contains_key(es[j].0) && t0.contains_key(es[j].1));
            }
        }
        block_graph_add_edge(&mut graph, a, b);
        let ghost d1 = degree@;
        degree.set(a, degree[a] + 1);
        degree.set(b, degree[b] + 1);
        proof {
            assert forall|j: int| 0 <= j < symbols@.len() implies
                #[trigger] degree@[j] == endpoint_count(es, symbols@[j], (k + 1) as nat) by {
                if j == a as int {
                    assert(symbols@[j] == from);
                }
                if j == b as int {
                    assert(symbols@[j] == to);
                }
                if symbols@[j] == from {
                    assert(j == a as int);
                }
                if symbols@[j] == to {
                    assert(j == b as int);
                }
            }
            assert forall|j: int| 0 <= j < k + 1 implies #[trigger] block_graph_edges(graph)[j]
                == (table@[es[j].0], table@[es[j].1]) by {
                if j < k {
                    assert(block_graph_edges(graph)[j] == g0[j]);
                }
            }
        }
        k = k + 1;
    }
    let ghost sym = symbols@;
    let n = symbols.len();
    proof {
        assert(block_graph_edges(graph) =~= symbol_edges(es)) by {
            assert forall|j: int| 0 <= j < es.len() implies #[trigger] block_graph_edges(graph)[j] == symbol_edges(es)[j] by {
                lemma_position_of(sym, es[j].0, table@[es[j].0]);
                lemma_position_of(sym, es[j].1, table@[es[j].1]);
            }
        }
    }
    let comps = strongly_connected_components(&graph);
    let ghost cs = comps@.map_values(|v: Vec<usize>| v@);
    let mut scc_size: Vec<usize> = Vec::new();
    let mut i: usize = 0;
    while i < n
        invariant
            i <= n,
            scc_size@.len() == i,
        decreases n - i,
    {
        scc_size.push(1);
        i = i + 1;
    }
    let mut c: usize = 0;
    while c < comps.len()
        invariant
            n == sym.len(),
            cs == comps@.map_values(|v: Vec<usize>| v@),
            is_scc_partition(cs, n as nat, symbol_edges(es)),
            scc_size@.len() == n,
            c <= comps.len(),
            forall|c2: int, i2: int| 0 <= c2 < c && 0 <= i2 < cs[c2].len() ==>
                #[trigger] scc_size@[cs[c2][i2] as int] == cs[c2].len(),
        decreases comps.len() - c,
    {
        let comp = &comps[c];
        assert(comp@ == cs[c as int]);
        let size = comp.len();
        let mut j: usize = 0;
        while j < comp.len()
            invariant
                n == sym.len(),
                cs == comps@.map_values(|v: Vec<usize>| v@),
                is_scc_partition(cs, n as nat, symbol_edges(es)),
                c < comps.len(),
                comp@ == cs[c as int],
                size == comp.len(),
                scc_size@.len() == n,
                j <= comp.len(),
                forall|c2: int, i2: int| 0 <= c2 < c && 0 <= i2 < cs[c2].len() ==>
                    #[trigger] scc_size@[cs[c2][i2] as int] == cs[c2].len(),
                forall|i2: int| 0 <= i2 < j ==> #[trigger] scc_size@[cs[c as int][i2] as int] == size,
            decreases comp.len() - j,
        {
            let x = comp[j];
            proof {
                assert(cs[c as int][j as int] == x);
                assert(x < n);
            }
            let ghost before = scc_size@;
            scc_size.set(x, size);
            proof {
                assert forall|c2: int, i2: int| 0 <= c2 < c && 0 <= i2 < cs[c2].len() implies
                    #[trigger] scc_size@[cs[c2][i2] as int] == cs[c2].len() by {
                    assert(cs[c2][i2] != cs[c as int][j as int]);
                    assert(before[cs[c2][i2] as int] == cs[c2].len());
                }
                assert forall|i2: int| 0 <= i2 < j + 1 implies #[trigger] scc_size@[cs[c as int][i2] as int] == size by {
                    if i2 < j {
                        assert(cs[c as int][i2] != cs[c as int][j as int]);
                        assert(before[cs[c as int][i2] as int] == size);
                    }
                }
            }
            j = j + 1;
        }
        c = c + 1;
    }
    proof {
        let se = symbol_edges(es);
        assert forall|k: int| 0 <= k < n implies #[trigger] scc_size@[k] == component_size(es, k as usize) by {
            let ku = k as usize;
            assert(in_some_component(cs, ku));
            let (c1, i1) = choose|c1: int, i1: int| 0 <= c1 < cs.len() && 0 <= i1 < cs[c1].len() && #[trigger] cs[c1][i1] == ku;
            assert(scc_size@[cs[c1][i1] as int] == cs[c1].len());
            let members = Set::new(|j: usize| j < call_symbols(es).len() && same_component(se, ku, j));
            let comp_set = cs[c1].to_set();
            assert(members =~= comp_set) by {
                assert forall|y: usize| members.contains(y) implies comp_set.contains(y) by {
                    assert(in_some_component(cs, y));
                    let (c2, i2) = choose|c2: int, i2: int| 0 <= c2 < cs.len() && 0 <= i2 < cs[c2].len() && #[trigger] cs[c2][i2] == y;
                    if c2 != c1 {
                        assert(!same_component(se, cs[c1][i1], cs[c2][i2]));
                    }
                    assert(cs[c1].contains(y));
                }
                assert forall|y: usize| comp_set.contains(y) implies members.contains(y) by {
                    let i2 = choose|i2: int| 0 <= i2 < cs[c1].len() && cs[c1][i2] == y;
                    assert(same_component(se, cs[c1][i1], cs[c1][i2]));
                    assert(y < n);
                }
            }
            assert(cs[c1].no_duplicates()) by {
                assert forall|p: int, q: int| 0 <= p < cs[c1].len() && 0 <= q < cs[c1].len() && p != q implies
                    cs[c1][p] != cs[c1][q] by {
                    if cs[c1][p] == cs[c1][q] {
                        assert(p == q);
                    }
                }
            }
            cs[c1].unique_seq_to_set();
        }
    }
    CallGraphCounts { symbols, degree, scc_size }
}

} // verus!
