//! Facts about dominance over walks, and how a table of immediate
//! dominators determines the whole dominance relation.

use vstd::prelude::*;
use vstd::set_lib::{set_int_range, lemma_int_range, lemma_len_subset};
use crate::cfg::graph::{CfgEdge, has_edge, is_walk, walk_between, reachable_from, dominates_in,
    strictly_dominates_in, is_immediate_dominator, idom_answer};
use crate::cfg::dominators::{dom_chain, idom_of};

verus! {

/// A table of immediate dominators that is right for every node of an
/// `n`-node graph with root `r`.
pub open spec fn valid_idoms(es: Seq<CfgEdge>, r: usize, n: nat, idoms: Seq<Option<usize>>) -> bool {
    &&& idoms.len() == n
    &&& r < n
    &&& n <= usize::MAX + 1
    &&& forall|i: int| 0 <= i < n ==> idom_answer(es, r, n, i as usize, #[trigger] idoms[i])
}

/// A prefix of a walk is a walk.
pub proof fn lemma_walk_take(es: Seq<CfgEdge>, p: Seq<usize>, k: int)
    requires
        is_walk(es, p),
        0 <= k < p.len(),
    ensures
        is_walk(es, p.take(k + 1)),
        p.take(k + 1)[0] == p[0],
        p.take(k + 1).last() == p[k],
        forall|x: usize| p.take(k + 1).contains(x) ==> p.contains(x),
{
    let q = p.take(k + 1);
    assert forall|i: int| 0 <= i < q.len() - 1 implies has_edge(es, #[trigger] q[i], q[i + 1]) by {
        assert(q[i] == p[i] && q[i + 1] == p[i + 1]);
    }
    assert forall|x: usize| q.contains(x) implies p.contains(x) by {
        let j = choose|j: int| 0 <= j < q.len() && q[j] == x;
        assert(p[j] == x);
    }
}

/// Joining a walk that ends where a second one starts gives a walk.
pub proof fn lemma_walk_join(es: Seq<CfgEdge>, p: Seq<usize>, q: Seq<usize>)
    requires
        is_walk(es, p),
        is_walk(es, q),
        p.last() == q[0],
    ensures
        is_walk(es, p + q.skip(1)),
        (p + q.skip(1))[0] == p[0],
        (p + q.skip(1)).last() == q.last(),
        forall|x: usize| (p + q.skip(1)).contains(x) ==> p.contains(x) || q.skip(1).contains(x),
{
    let t = p + q.skip(1);
    assert forall|i: int| 0 <= i < t.len() - 1 implies has_edge(es, #[trigger] t[i], t[i + 1]) by {
        if i < p.len() - 1 {
            assert(t[i] == p[i] && t[i + 1] == p[i + 1]);
        } else if i == p.len() - 1 {
            assert(t[i] == q[0]);
            assert(t[i + 1] == q[1]);
        } else {
            let j = i - p.len() + 1;
            assert(t[i] == q[j] && t[i + 1] == q[j + 1]);
        }
    }
    if q.len() == 1 {
        assert(t =~= p);
    } else {
        assert(t.last() == q.skip(1).last());
    }
    assert forall|x: usize| t.contains(x) implies p.contains(x) || q.skip(1).contains(x) by {
        let j = choose|j: int| 0 <= j < t.len() && t[j] == x;
        if j < p.len() {
            assert(p[j] == x);
        } else {
            assert(q.skip(1)[j - p.len()] == x);
        }
    }
}

/// A suffix of a walk is a walk.
pub proof fn lemma_walk_skip(es: Seq<CfgEdge>, p: Seq<usize>, k: int)
    requires
        is_walk(es, p),
        0 <= k < p.len(),
    ensures
        is_walk(es, p.skip(k)),
        p.skip(k)[0] == p[k],
        p.skip(k).last() == p.last(),
{
    let q = p.skip(k);
    assert forall|i: int| 0 <= i < q.len() - 1 implies has_edge(es, #[trigger] q[i], q[i + 1]) by {
        assert(q[i] == p[i + k] && q[i + 1] == p[i + k + 1]);
    }
}

/// Every node dominates itself.
pub proof fn lemma_dominates_refl(es: Seq<CfgEdge>, r: usize, b: usize)
    ensures
        dominates_in(es, r, b, b),
{
    assert forall|p: Seq<usize>| walk_between(es, p, r, b) implies p.contains(b) by {
        assert(p[p.len() - 1] == b);
    }
}

/// Only the root dominates the root.
pub proof fn lemma_dominates_root(es: Seq<CfgEdge>, r: usize, a: usize)
    requires
        dominates_in(es, r, a, r),
    ensures
        a == r,
{
    let p = seq![r];
    assert(walk_between(es, p, r, r));
    assert(p.contains(a));
}

/// Dominance is transitive.
pub proof fn lemma_dominates_trans(es: Seq<CfgEdge>, r: usize, a: usize, b: usize, c: usize)
    requires
        dominates_in(es, r, a, b),
        dominates_in(es, r, b, c),
    ensures
        dominates_in(es, r, a, c),
{
    assert forall|p: Seq<usize>| walk_between(es, p, r, c) implies p.contains(a) by {
        assert(p.contains(b));
        let k = choose|k: int| 0 <= k < p.len() && p[k] == b;
        lemma_walk_take(es, p, k);
        assert(walk_between(es, p.take(k + 1), r, b));
        assert(p.take(k + 1).contains(a));
    }
}

/// A dominator of a reachable node is reachable.
pub proof fn lemma_dominator_reachable(es: Seq<CfgEdge>, r: usize, a: usize, b: usize)
    requires
        reachable_from(es, r, b),
        dominates_in(es, r, a, b),
    ensures
        reachable_from(es, r, a),
{
    let p = choose|p: Seq<usize>| walk_between(es, p, r, b);
    assert(p.contains(a));
    let k = choose|k: int| 0 <= k < p.len() && p[k] == a;
    lemma_walk_take(es, p, k);
    assert(walk_between(es, p.take(k + 1), r, a));
}

/// Two nodes that dominate each other, one of them reachable, are the same.
pub proof fn lemma_dominates_antisym(es: Seq<CfgEdge>, r: usize, a: usize, b: usize)
    requires
        reachable_from(es, r, b),
        dominates_in(es, r, a, b),
        dominates_in(es, r, b, a),
    ensures
        a == b,
{
    let p = choose|p: Seq<usize>| walk_between(es, p, r, b);
    assert(p.contains(a));
    let ka = choose|k: int| 0 <= k < p.len() && p[k] == a;
    // the first occurrence of `a` on the walk
    p.index_of_first_ensures(a);
    let fa = p.index_of_first(a).unwrap();
    assert(p[fa] == a);
    lemma_walk_take(es, p, fa);
    let q = p.take(fa + 1);
    assert(walk_between(es, q, r, a));
    assert(q.contains(b));
    let kb = choose|k: int| 0 <= k < q.len() && q[k] == b;
    lemma_walk_take(es, q, kb);
    let w = q.take(kb + 1);
    assert(walk_between(es, w, r, b));
    assert(w.contains(a));
    let j = choose|j: int| 0 <= j < w.len() && w[j] == a;
    assert(p[j] == a);
    assert(j >= fa);
    assert(j <= kb);
    assert(kb <= fa);
    assert(q[fa] == a);
}

/// Any two dominators of a reachable node are ordered by dominance.
pub proof fn lemma_dominators_ordered(es: Seq<CfgEdge>, r: usize, a: usize, d: usize, b: usize)
    requires
        reachable_from(es, r, b),
        dominates_in(es, r, a, b),
        dominates_in(es, r, d, b),
    ensures
        dominates_in(es, r, a, d) || dominates_in(es, r, d, a),
{
    if !dominates_in(es, r, a, d) && !dominates_in(es, r, d, a) {
        let wd = choose|p: Seq<usize>| walk_between(es, p, r, d) && !p.contains(a);
        let wa = choose|p: Seq<usize>| walk_between(es, p, r, a) && !p.contains(d);
        let w = choose|p: Seq<usize>| walk_between(es, p, r, b);
        assert(w.contains(a));
        assert(w.contains(d));
        w.index_of_last_ensures(a);
        w.index_of_last_ensures(d);
        let ia = w.index_of_last(a).unwrap();
        let id = w.index_of_last(d).unwrap();
        assert(ia != id);
        if ia < id {
            lemma_walk_skip(es, w, id);
            let s = w.skip(id);
            lemma_walk_join(es, wd, s);
            let t = wd + s.skip(1);
            assert(walk_between(es, t, r, b));
            assert(t.contains(a));
            assert(s.skip(1).contains(a));
            let j = choose|j: int| 0 <= j < s.skip(1).len() && s.skip(1)[j] == a;
            assert(w[id + 1 + j] == a);
        } else {
            lemma_walk_skip(es, w, ia);
            let s = w.skip(ia);
            lemma_walk_join(es, wa, s);
            let t = wa + s.skip(1);
            assert(walk_between(es, t, r, b));
            assert(t.contains(d));
            assert(s.skip(1).contains(d));
            let j = choose|j: int| 0 <= j < s.skip(1).len() && s.skip(1)[j] == d;
            assert(w[ia + 1 + j] == d);
        }
    }
}

/// The strict dominators of `b`, as integers below `n`.
pub open spec fn strict_dominator_set(es: Seq<CfgEdge>, r: usize, n: nat, b: usize) -> Set<int> {
    Set::new(|x: int| 0 <= x < n && strictly_dominates_in(es, r, x as usize, b))
}

/// A reachable non-root node has a recorded immediate dominator, which
/// strictly dominates it and is reachable.
pub proof fn lemma_valid_idom(es: Seq<CfgEdge>, r: usize, n: nat, idoms: Seq<Option<usize>>, b: usize)
    requires
        valid_idoms(es, r, n, idoms),
        b < n,
        reachable_from(es, r, b),
        b != r,
    ensures
        idom_of(idoms, b) is Some,
        idom_of(idoms, b).unwrap() < n,
        strictly_dominates_in(es, r, idom_of(idoms, b).unwrap(), b),
        is_immediate_dominator(es, r, idom_of(idoms, b).unwrap(), b),
        reachable_from(es, r, idom_of(idoms, b).unwrap()),
{
    assert(idom_answer(es, r, n, b, idoms[b as int]));
    let d = idom_of(idoms, b).unwrap();
    lemma_dominator_reachable(es, r, d, b);
}

/// Each step up the chain strictly lowers the number of strict dominators.
pub proof fn lemma_strict_dominator_set_shrinks(es: Seq<CfgEdge>, r: usize, n: nat, d: usize, b: usize)
    requires
        reachable_from(es, r, b),
        strictly_dominates_in(es, r, d, b),
        d < n,
        b < n,
        n <= usize::MAX + 1,
    ensures
        strict_dominator_set(es, r, n, d).finite(),
        strict_dominator_set(es, r, n, b).finite(),
        strict_dominator_set(es, r, n, d).len() < strict_dominator_set(es, r, n, b).len(),
        strict_dominator_set(es, r, n, b).len() < n,
{
    let sd = strict_dominator_set(es, r, n, d);
    let sb = strict_dominator_set(es, r, n, b);
    let range = set_int_range(0, n as int);
    lemma_int_range(0, n as int);
    assert(sb.subset_of(range.remove(b as int)));
    lemma_len_subset(sb, range.remove(b as int));
    assert forall|x: int| sd.contains(x) implies sb.remove(d as int).contains(x) by {
        let xu = x as usize;
        assert(xu as int == x);
        assert(strictly_dominates_in(es, r, xu, d));
        lemma_dominates_trans(es, r, xu, d, b);
        if x == b as int {
            lemma_dominates_antisym(es, r, d, b);
        }
        assert(strictly_dominates_in(es, r, xu, b));
        assert(x != d as int);
    }
    assert(sb.contains(d as int));
    lemma_len_subset(sd, sb.remove(d as int));
}

/// A dominator chain from a reachable node has no more elements than the
/// node has dominators, and every element dominates the node.
pub proof fn lemma_chain_dominates(es: Seq<CfgEdge>, r: usize, n: nat, idoms: Seq<Option<usize>>, b: usize, f: nat)
    requires
        valid_idoms(es, r, n, idoms),
        b < n,
        reachable_from(es, r, b),
    ensures
        strict_dominator_set(es, r, n, b).finite(),
        dom_chain(idoms, b, f).len() <= strict_dominator_set(es, r, n, b).len() + 1,
        forall|k: int| 0 <= k < dom_chain(idoms, b, f).len() ==>
            dominates_in(es, r, #[trigger] dom_chain(idoms, b, f)[k], b)
            && dom_chain(idoms, b, f)[k] < n
            && reachable_from(es, r, dom_chain(idoms, b, f)[k]),
    decreases f,
{
    let ch = dom_chain(idoms, b, f);
    lemma_dominates_refl(es, r, b);
    let range = set_int_range(0, n as int);
    lemma_int_range(0, n as int);
    assert(strict_dominator_set(es, r, n, b).subset_of(range));
    lemma_len_subset(strict_dominator_set(es, r, n, b), range);
    if b == r {
        assert(idoms[b as int] is None) by {
            assert(idom_answer(es, r, n, b, idoms[b as int]));
        }
        assert(ch =~= seq![b]);
    } else if f > 0 {
        lemma_valid_idom(es, r, n, idoms, b);
        let d = idom_of(idoms, b).unwrap();
        lemma_chain_dominates(es, r, n, idoms, d, (f - 1) as nat);
        lemma_strict_dominator_set_shrinks(es, r, n, d, b);
        let rest = dom_chain(idoms, d, (f - 1) as nat);
        assert(ch == seq![b] + rest);
        assert forall|k: int| 0 <= k < ch.len() implies
            dominates_in(es, r, #[trigger] ch[k], b) && ch[k] < n && reachable_from(es, r, ch[k]) by {
            if k > 0 {
                assert(ch[k] == rest[k - 1]);
                lemma_dominates_trans(es, r, ch[k], d, b);
            }
        }
    } else {
        assert(ch =~= seq![b]);
    }
}

/// With enough fuel the chain from a reachable node ends at the root: it
/// stops because the root has no immediate dominator.
pub proof fn lemma_chain_complete(es: Seq<CfgEdge>, r: usize, n: nat, idoms: Seq<Option<usize>>, b: usize)
    requires
        valid_idoms(es, r, n, idoms),
        b < n,
        reachable_from(es, r, b),
    ensures
        dom_chain(idoms, b, n).len() <= n,
{
    lemma_chain_dominates(es, r, n, idoms, b, n);
    lemma_strict_dominator_set_shrinks_bound(es, r, n, b);
}

/// A reachable node has fewer than `n` strict dominators.
proof fn lemma_strict_dominator_set_shrinks_bound(es: Seq<CfgEdge>, r: usize, n: nat, b: usize)
    requires
        b < n,
    ensures
        strict_dominator_set(es, r, n, b).finite(),
        strict_dominator_set(es, r, n, b).len() < n,
{
    let sb = strict_dominator_set(es, r, n, b);
    let range = set_int_range(0, n as int);
    lemma_int_range(0, n as int);
    assert(sb.subset_of(range.remove(b as int)));
    lemma_len_subset(sb, range.remove(b as int));
}

/// Along a chain that has not run out of fuel, every dominator of the
/// start node occurs.
proof fn lemma_dominator_in_chain(es: Seq<CfgEdge>, r: usize, n: nat, idoms: Seq<Option<usize>>, a: usize, b: usize, f: nat)
    requires
        valid_idoms(es, r, n, idoms),
        b < n,
        reachable_from(es, r, b),
        dominates_in(es, r, a, b),
        dom_chain(idoms, b, f).len() <= f,
    ensures
        dom_chain(idoms, b, f).contains(a),
    decreases f,
{
    let ch = dom_chain(idoms, b, f);
    if a == b {
        assert(ch[0] == b);
    } else {
        if b == r {
            lemma_dominates_root(es, r, a);
        }
        lemma_valid_idom(es, r, n, idoms, b);
        let d = idom_of(idoms, b).unwrap();
        assert(f > 0);
        let rest = dom_chain(idoms, d, (f - 1) as nat);
        assert(ch == seq![b] + rest);
        if a != d {
            lemma_dominators_ordered(es, r, a, d, b);
            if !dominates_in(es, r, a, d) {
                assert(strictly_dominates_in(es, r, d, a));
                assert(strictly_dominates_in(es, r, a, b));
                assert(!(strictly_dominates_in(es, r, d, a) && strictly_dominates_in(es, r, a, b)));
            }
        } else {
            lemma_dominates_refl(es, r, d);
        }
        lemma_dominator_in_chain(es, r, n, idoms, a, d, (f - 1) as nat);
        let k = choose|k: int| 0 <= k < rest.len() && rest[k] == a;
        assert(ch[k + 1] == a);
    }
}

/// For a right table of immediate dominators and a node the root reaches,
/// the nodes on its dominator chain are exactly the nodes that dominate it.
pub proof fn lemma_chain_is_dominators(es: Seq<CfgEdge>, r: usize, n: nat, idoms: Seq<Option<usize>>, a: usize, b: usize)
    requires
        valid_idoms(es, r, n, idoms),
        b < n,
        reachable_from(es, r, b),
    ensures
        dom_chain(idoms, b, n).contains(a) <==> dominates_in(es, r, a, b),
{
    lemma_chain_complete(es, r, n, idoms, b);
    lemma_chain_dominates(es, r, n, idoms, b, n);
    if dominates_in(es, r, a, b) {
        lemma_dominator_in_chain(es, r, n, idoms, a, b, n);
    }
}

/// The dominator chain of a reachable node lists the node and each of its
/// strict dominators once: its length is one more than the number of strict
/// dominators (the node's depth in the dominator tree).
pub proof fn lemma_chain_len_is_depth(es: Seq<CfgEdge>, r: usize, n: nat, idoms: Seq<Option<usize>>, b: usize)
    requires
        valid_idoms(es, r, n, idoms),
        b < n,
        reachable_from(es, r, b),
    ensures
        strict_dominator_set(es, r, n, b).finite(),
        dom_chain(idoms, b, n).len() == strict_dominator_set(es, r, n, b).len() + 1,
{
    let ch = dom_chain(idoms, b, n);
    lemma_chain_dominates(es, r, n, idoms, b, n);
    let sb = strict_dominator_set(es, r, n, b);
    let all = sb.insert(b as int);
    let cs = ch.map_values(|x: usize| x as int).to_set();
    assert forall|x: int| all.contains(x) implies cs.contains(x) by {
        let xu = x as usize;
        if x == b as int {
            lemma_dominates_refl(es, r, b);
        }
        assert(dominates_in(es, r, xu, b));
        lemma_chain_is_dominators(es, r, n, idoms, xu, b);
        let k = choose|k: int| 0 <= k < ch.len() && ch[k] == xu;
        assert(ch.map_values(|x: usize| x as int)[k] == x);
    }
    vstd::seq_lib::seq_to_set_is_finite(ch.map_values(|x: usize| x as int));
    ch.map_values(|x: usize| x as int).lemma_cardinality_of_set();
    lemma_len_subset(all, cs);
    assert(!sb.contains(b as int));
}

} // verus!
