//! Incremental analysis: which functions of the code graph lie in files
//! that changed since a git revision. Reading the repository's diff and the
//! graph's entities happens outside; this module decides the match.

use vstd::prelude::*;
use crate::text::same_text;

verus! {

/// What the matching reads of a code-graph entity.
#[derive(Debug, Clone)]
pub struct GraphEntityInfo {
    /// Entity id in the code graph
    pub id: i64,
    /// Entity kind ("Symbol" for symbols)
    pub kind: String,
    /// The symbol's own kind ("Function", ...), when recorded
    pub symbol_kind: Option<String>,
    /// The file the entity was found in, when recorded
    pub file: Option<String>,
}

/// `needle` occurs in `hay` as a contiguous run of characters.
pub open spec fn text_contains(hay: Seq<char>, needle: Seq<char>) -> bool {
    exists|i: int| 0 <= i && i + needle.len() <= hay.len() && #[trigger] hay.subrange(i, i + needle.len()) == needle
}

/// The entity is a function symbol.
pub open spec fn is_function_entity(e: GraphEntityInfo) -> bool {
    &&& e.kind@ == "Symbol"@
    &&& e.symbol_kind matches Some(k) && k@ == "Function"@
}

/// The file path names a changed file: one of the two contains the other
/// (relative and absolute spellings of one path both match).
pub open spec fn file_matches(file: Seq<char>, changed: Seq<String>) -> bool {
    exists|j: int| 0 <= j < changed.len()
        && (text_contains(file, #[trigger] changed[j]@) || text_contains(changed[j]@, file))
}

/// The entity is a function whose file changed.
pub open spec fn changed_function(e: GraphEntityInfo, changed: Seq<String>) -> bool {
    &&& is_function_entity(e)
    &&& e.file matches Some(f) && file_matches(f@, changed)
}

/// Whether `needle` occurs in `hay`.
pub fn text_contains_exec(hay: &str, needle: &str) -> (r: bool)
    ensures
        r == text_contains(hay@, needle@),
{
    let h = crate::text::chars_of(hay);
    let n = crate::text::chars_of(needle);
    if n.len() > h.len() {
        proof {
            assert forall|i: int| 0 <= i && i + n@.len() <= h@.len() implies
                #[trigger] h@.subrange(i, i + n@.len()) != n@ by {}
        }
        return false;
    }
    let last = h.len() - n.len();
    let mut i: usize = 0;
    let mut found = false;
    while i <= last && !found
        invariant
            h@ == hay@,
            n@ == needle@,
            last == h.len() - n.len(),
            n.len() <= h.len(),
            i <= last + 1,
            found ==> text_contains(hay@, needle@),
            !found ==> forall|k: int| 0 <= k < i ==> #[trigger] h@.subrange(k, k + n@.len()) != n@,
        decreases last + 1 - i, if found { 0int } else { 1int },
    {
        let mut j: usize = 0;
        let mut same = true;
        while j < n.len() && same
            invariant
                i <= last,
                last == h.len() - n.len(),
                n.len() <= h.len(),
                j <= n.len(),
                same ==> forall|q: int| 0 <= q < j ==> h@[i + q] == n@[q],
                !same ==> exists|q: int| 0 <= q < n@.len() && h@[i + q] != n@[q],
            decreases n.len() - j, if same { 1int } else { 0int },
        {
            if h[i + j] != n[j] {
                same = false;
            } else {
                j = j + 1;
            }
        }
        if same {
            proof {
                assert(h@.subrange(i as int, i + n@.len()) =~= n@);
                assert(h@ == hay@);
            }
            found = true;
        } else {
            proof {
                let q = choose|q: int| 0 <= q < n@.len() && h@[i + q] != n@[q];
                assert(h@.subrange(i as int, i + n@.len())[q] == h@[i + q]);
            }
            i = i + 1;
        }
    }
    if !found {
        proof {
            assert forall|k: int| 0 <= k && k + n@.len() <= h@.len() implies
                #[trigger] h@.subrange(k, k + n@.len()) != n@ by {
                assert(k < i);
            }
        }
    }
    found
}

/// Whether the file path names one of the changed files.
fn matches_changed_file(file: &str, changed: &Vec<String>) -> (r: bool)
    ensures
        r == file_matches(file@, changed@),
{
    let mut j: usize = 0;
    let mut hit = false;
    while j < changed.len() && !hit
        invariant
            j <= changed.len(),
            hit ==> file_matches(file@, changed@),
            !hit ==> forall|q: int| 0 <= q < j ==>
                !(text_contains(file@, #[trigger] changed@[q]@) || text_contains(changed@[q]@, file@)),
        decreases changed.len() - j, if hit { 0int } else { 1int },
    {
        let c = changed[j].as_str();
        if text_contains_exec(file, c) || text_contains_exec(c, file) {
            hit = true;
        } else {
            j = j + 1;
        }
    }
    hit
}

/// Whether the entity is a function whose file changed.
fn is_changed_function(e: &GraphEntityInfo, changed: &Vec<String>) -> (r: bool)
    ensures
        r == changed_function(*e, changed@),
{
    if !same_text(e.kind.as_str(), "Symbol") {
        return false;
    }
    let is_fn = match &e.symbol_kind {
        Some(k) => same_text(k.as_str(), "Function"),
        None => false,
    };
    if !is_fn {
        return false;
    }
    match &e.file {
        Some(f) => matches_changed_file(f.as_str(), changed),
        None => false,
    }
}

/// `v` is in strictly increasing order (so holds no value twice).
pub open spec fn strictly_sorted(v: Seq<i64>) -> bool {
    forall|a: int, b: int| 0 <= a < b < v.len() ==> v[a] < v[b]
}

/// Insert `x` into a strictly sorted vector unless it is there already.
fn insert_sorted_unique(v: &mut Vec<i64>, x: i64)
    requires
        strictly_sorted(old(v)@),
    ensures
        strictly_sorted(final(v)@),
        forall|y: i64| final(v)@.contains(y) <==> (old(v)@.contains(y) || y == x),
{
    let mut p: usize = 0;
    while p < v.len() && v[p] < x
        invariant
            p <= v.len(),
            forall|q: int| 0 <= q < p ==> v@[q] < x,
        decreases v.len() - p,
    {
        p = p + 1;
    }
    if p < v.len() && v[p] == x {
        assert(v@[p as int] == x);
        assert(v@.contains(x));
        return;
    }
    let ghost before = v@;
    assert(before == old(v)@);
    v.insert(p, x);
    proof {
        assert(v@ =~= before.subrange(0, p as int).push(x) + before.subrange(p as int, before.len() as int));
        assert forall|a: int, b: int| 0 <= a < b < v@.len() implies v@[a] < v@[b] by {
            if a < p && b == p {
            } else if a == p && b > p {
                assert(v@[b] == before[b - 1]);
            } else if a < p && b > p {
                assert(v@[b] == before[b - 1]);
            } else if b < p {
            } else {
                assert(v@[a] == before[a - 1]);
                assert(v@[b] == before[b - 1]);
            }
        }
        assert forall|y: i64| v@.contains(y) <==> (before.contains(y) || y == x) by {
            if v@.contains(y) {
                let k = choose|k: int| 0 <= k < v@.len() && v@[k] == y;
                if k < p {
                    assert(before[k] == y);
                } else if k > p {
                    assert(before[k - 1] == y);
                }
            }
            if before.contains(y) {
                let k = choose|k: int| 0 <= k < before.len() && before[k] == y;
                if k < p {
                    assert(v@[k] == y);
                } else {
                    assert(v@[k + 1] == y);
                }
            }
            if y == x {
                assert(v@[p as int] == x);
            }
        }
    }
    assert(forall|y: i64| v@.contains(y) <==> (old(v)@.contains(y) || y == x));
}

/// The ids of the function entities whose file is among the changed files
/// (matching either way round by containment), ascending, each once.
pub fn match_changed_functions(entities: &Vec<GraphEntityInfo>, changed_files: &Vec<String>) -> (r: Vec<i64>)
    ensures
        strictly_sorted(r@),
        forall|x: i64| r@.contains(x) <==> exists|i: int| 0 <= i < entities@.len()
            && (#[trigger] entities@[i]).id == x && changed_function(entities@[i], changed_files@),
{
    let mut ids: Vec<i64> = Vec::new();
    let mut i: usize = 0;
    while i < entities.len()
        invariant
            i <= entities.len(),
            strictly_sorted(ids@),
            forall|x: i64| ids@.contains(x) <==> exists|k: int| 0 <= k < i
                && (#[trigger] entities@[k]).id == x && changed_function(entities@[k], changed_files@),
        decreases entities.len() - i,
    {
        let e = &entities[i];
        if is_changed_function(e, changed_files) {
            insert_sorted_unique(&mut ids, e.id);
        }
        proof {
            assert forall|x: i64| ids@.contains(x) <==> exists|k: int| 0 <= k < i + 1
                && (#[trigger] entities@[k]).id == x && changed_function(entities@[k], changed_files@) by {
                if exists|k: int| 0 <= k < i + 1 && (#[trigger] entities@[k]).id == x
                    && changed_function(entities@[k], changed_files@) {
                    let k = choose|k: int| 0 <= k < i + 1 && (#[trigger] entities@[k]).id == x
                        && changed_function(entities@[k], changed_files@);
                    if k < i {
                    }
                }
            }
        }
        i = i + 1;
    }
    ids
}

/// Whether the entity is a function symbol (see `is_function_entity`).
fn is_function_entity_exec(e: &GraphEntityInfo) -> (r: bool)
    ensures
        r == is_function_entity(*e),
{
    if !same_text(e.kind.as_str(), "Symbol") {
        return false;
    }
    match &e.symbol_kind {
        Some(k) => same_text(k.as_str(), "Function"),
        None => false,
    }
}

/// The ids of all function entities, ascending, each once: the functions
/// an incremental run over every function considers.
pub fn function_entity_ids(entities: &Vec<GraphEntityInfo>) -> (r: Vec<i64>)
    ensures
        strictly_sorted(r@),
        forall|x: i64| r@.contains(x) <==> exists|i: int| 0 <= i < entities@.len()
            && (#[trigger] entities@[i]).id == x && is_function_entity(entities@[i]),
{
    let mut ids: Vec<i64> = Vec::new();
    let mut i: usize = 0;
    while i < entities.len()
        invariant
            i <= entities.len(),
            strictly_sorted(ids@),
            forall|x: i64| ids@.contains(x) <==> exists|k: int| 0 <= k < i
                && (#[trigger] entities@[k]).id == x && is_function_entity(entities@[k]),
        decreases entities.len() - i,
    {
        let e = &entities[i];
        if is_function_entity_exec(e) {
            insert_sorted_unique(&mut ids, e.id);
        }
        proof {
            assert forall|x: i64| ids@.contains(x) <==> exists|k: int| 0 <= k < i + 1
                && (#[trigger] entities@[k]).id == x && is_function_entity(entities@[k]) by {
                if exists|k: int| 0 <= k < i + 1 && (#[trigger] entities@[k]).id == x
                    && is_function_entity(entities@[k]) {
                    let k = choose|k: int| 0 <= k < i + 1 && (#[trigger] entities@[k]).id == x
                        && is_function_entity(entities@[k]);
                    if k < i {
                    }
                }
            }
        }
        i = i + 1;
    }
    ids
}

} // verus!
