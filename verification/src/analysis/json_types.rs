//! Plain report types for the call-graph analyses: symbols, dead symbols,
//! slices, execution paths and condensations.

use vstd::prelude::*;

verus! {

/// A function no entry point calls, and why.
#[derive(Debug, Clone)]
pub struct DeadSymbolJson {
    pub fqn: Option<String>,
    pub file_path: String,
    pub kind: String,
    pub reason: String,
}

/// A symbol of the call graph.
#[derive(Debug, Clone)]
pub struct SymbolInfoJson {
    pub symbol_id: Option<String>,
    pub fqn: Option<String>,
    pub file_path: String,
    pub kind: String,
}

/// A program slice around a target symbol.
#[derive(Debug, Clone)]
pub struct SliceWrapper {
    pub target: SymbolInfoJson,
    pub direction: String,
    pub included_symbols: Vec<SymbolInfoJson>,
    pub symbol_count: usize,
    pub statistics: SliceStats,
}

/// Counts of a program slice.
#[derive(Debug, Clone, Copy, PartialEq, Eq, Structural)]
pub struct SliceStats {
    pub total_symbols: usize,
    pub data_dependencies: usize,
    pub control_dependencies: usize,
}

/// A call-graph execution path.
#[derive(Debug, Clone)]
pub struct ExecutionPathJson {
    pub symbols: Vec<SymbolInfoJson>,
    pub length: usize,
}

/// One strongly connected component of the call graph.
#[derive(Debug, Clone)]
pub struct SupernodeJson {
    pub id: String,
    pub member_count: usize,
    pub members: Vec<String>,
}

/// The names among `fqns` that are known, in order.
pub open spec fn known_names(fqns: Seq<Option<String>>) -> Seq<Seq<char>>
    decreases fqns.len(),
{
    if fqns.len() == 0 {
        Seq::empty()
    } else {
        let prev = known_names(fqns.drop_last());
        match fqns.last() {
            Some(f) => prev.push(f@),
            None => prev,
        }
    }
}

/// The texts of a list of strings.
pub open spec fn texts(s: Seq<String>) -> Seq<Seq<char>> {
    Seq::new(s.len(), |i: int| s[i]@)
}

impl SupernodeJson {
    /// The report of a component: every member counts, the members with a
    /// known qualified name are listed.
    pub fn from_members(id: String, member_fqns: &Vec<Option<String>>) -> (r: SupernodeJson)
        ensures
            r.id == id,
            r.member_count == member_fqns@.len(),
            texts(r.members@) == known_names(member_fqns@),
    {
        let mut members: Vec<String> = Vec::new();
        let mut i: usize = 0;
        while i < member_fqns.len()
            invariant
                i <= member_fqns.len(),
                texts(members@) == known_names(member_fqns@.take(i as int)),
            decreases member_fqns.len() - i,
        {
            proof {
                assert(member_fqns@.take(i + 1).drop_last() =~= member_fqns@.take(i as int));
            }
            match &member_fqns[i] {
                Some(f) => {
                    members.push(f.clone());
                    proof {
                        assert(texts(members@) =~= known_names(member_fqns@.take(i + 1)));
                    }
                },
                None => {},
            }
            i = i + 1;
        }
        proof {
            assert(member_fqns@.take(member_fqns@.len() as int) =~= member_fqns@);
        }
        SupernodeJson { id, member_count: member_fqns.len(), members }
    }
}

/// The largest member count among the first `k` components (0 for none).
pub open spec fn largest_count(s: Seq<SupernodeJson>, k: nat) -> nat
    decreases k,
{
    if k == 0 {
        0
    } else {
        let prev = largest_count(s, (k - 1) as nat);
        if s[k - 1].member_count > prev { s[k - 1].member_count as nat } else { prev }
    }
}

/// The condensation of the call graph into its components.
#[derive(Debug, Clone)]
pub struct CondensationJson {
    pub supernode_count: usize,
    pub edge_count: usize,
    pub supernodes: Vec<SupernodeJson>,
    pub largest_scc_size: usize,
}

impl CondensationJson {
    /// The report of a condensation with the given components and number of
    /// edges between them.
    pub fn from_supernodes(supernodes: Vec<SupernodeJson>, edge_count: usize) -> (r: CondensationJson)
        ensures
            r.supernodes@ == supernodes@,
            r.supernode_count == supernodes@.len(),
            r.edge_count == edge_count,
            r.largest_scc_size == largest_count(supernodes@, supernodes@.len()),
    {
        let mut largest: usize = 0;
        let mut i: usize = 0;
        while i < supernodes.len()
            invariant
                i <= supernodes.len(),
                largest == largest_count(supernodes@, i as nat),
            decreases supernodes.len() - i,
        {
            if supernodes[i].member_count > largest {
                largest = supernodes[i].member_count;
            }
            i = i + 1;
        }
        let supernode_count = supernodes.len();
        CondensationJson { supernode_count, edge_count, supernodes, largest_scc_size: largest }
    }
}

} // verus!
