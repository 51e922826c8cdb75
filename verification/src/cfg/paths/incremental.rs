//! Incremental path enumeration over the functions of changed files.
//!
//! Loading the functions' CFGs and finding the changed ones is done by the
//! caller; this module decides which functions a request covers and
//! enumerates the loaded CFGs.

use vstd::prelude::*;
use crate::cfg::graph::{Cfg, cfg_blocks, cfg_edges};
use crate::cfg::paths::Path;
use crate::cfg::paths::limits::{PathLimits, reachable_ids};
use crate::cfg::paths::enumeration::{enumerate_paths, is_search_outcome, sorted_search, PathEnumeration,
    search_outcome_is_unique};
use crate::cfg::paths::search::{has_exit, same_path_lists};
use crate::text::{chars_of, same_text, push_text, string_from_chars};

verus! {

/// Result of an incremental enumeration.
#[derive(Debug, Clone)]
pub struct IncrementalPathsResult {
    /// Number of functions that were analyzed
    pub analyzed_functions: usize,
    /// Number of functions that were skipped (not changed)
    pub skipped_functions: usize,
    /// All enumerated paths from analyzed functions
    pub paths: Vec<Path>,
}

/// The functions a request covers.
#[derive(Debug, Clone, Copy, PartialEq, Eq, Structural)]
pub enum FunctionSelector {
    /// Every function in a changed file
    All,
    /// One function, by identifier
    Single(i64),
}

/// Value of a sequence of decimal digit characters.
pub open spec fn digits_value(ds: Seq<char>) -> int
    decreases ds.len(),
{
    if ds.len() == 0 { 0 } else { digits_value(ds.drop_last()) * 10 + (ds.last() as int - '0' as int) }
}

/// Every character is an ASCII decimal digit.
pub open spec fn all_digits(ds: Seq<char>) -> bool {
    forall|i: int| 0 <= i < ds.len() ==> '0' <= #[trigger] ds[i] <= '9'
}

/// The value of a decimal integer literal as `i64` parsing reads it: an
/// optional `+` or `-` sign, then one or more digits; `None` when the text
/// is not of that form or the value is out of the `i64` range.
pub open spec fn decimal_i64(s: Seq<char>) -> Option<i64> {
    let neg = s.len() > 0 && s[0] == '-';
    let signed = s.len() > 0 && (s[0] == '-' || s[0] == '+');
    let ds = if signed { s.drop_first() } else { s };
    let v = if neg { -digits_value(ds) } else { digits_value(ds) };
    if ds.len() > 0 && all_digits(ds) && i64::MIN <= v <= i64::MAX { Some(v as i64) } else { None }
}

/// The request `function_id`: "all", or a decimal function identifier;
/// `None` for anything else.
pub open spec fn selector_of(s: Seq<char>) -> Option<FunctionSelector> {
    if s == seq!['a', 'l', 'l'] {
        Some(FunctionSelector::All)
    } else {
        match decimal_i64(s) {
            Some(v) => Some(FunctionSelector::Single(v)),
            None => None,
        }
    }
}

proof fn lemma_digits_value_nonneg(ds: Seq<char>)
    requires
        all_digits(ds),
    ensures
        digits_value(ds) >= 0,
    decreases ds.len(),
{
    if ds.len() > 0 {
        assert(all_digits(ds.drop_last())) by {
            assert forall|i: int| 0 <= i < ds.drop_last().len() implies '0' <= #[trigger] ds.drop_last()[i] <= '9' by {
                assert(ds.drop_last()[i] == ds[i]);
            }
        }
        lemma_digits_value_nonneg(ds.drop_last());
        assert('0' <= ds[ds.len() - 1] <= '9');
    }
}

/// Extending a digit string never lowers its value.
proof fn lemma_digits_grow(ds: Seq<char>, k: int)
    requires
        all_digits(ds),
        0 <= k <= ds.len(),
    ensures
        digits_value(ds) >= digits_value(ds.take(k)),
    decreases ds.len(),
{
    if k < ds.len() {
        let p = ds.drop_last();
        assert(all_digits(p)) by {
            assert forall|i: int| 0 <= i < p.len() implies '0' <= #[trigger] p[i] <= '9' by {
                assert(p[i] == ds[i]);
            }
        }
        lemma_digits_grow(p, k);
        lemma_digits_value_nonneg(p);
        assert(p.take(k) =~= ds.take(k));
        assert('0' <= ds[ds.len() - 1] <= '9');
        assert(digits_value(p) * 10 >= digits_value(p)) by (nonlinear_arith)
            requires digits_value(p) >= 0;
    } else {
        assert(ds.take(k) =~= ds);
    }
}

/// Parse a decimal `i64` (see `decimal_i64`).
pub fn parse_i64(s: &str) -> (r: Option<i64>)
    ensures
        r == decimal_i64(s@),
{
    let cs = chars_of(s);
    let n = cs.len();
    if n == 0 {
        return None;
    }
    let neg = cs[0] == '-';
    let start: usize = if cs[0] == '-' || cs[0] == '+' { 1 } else { 0 };
    let ghost ds = if start == 1 { s@.drop_first() } else { s@ };
    proof {
        assert(ds =~= s@.skip(start as int));
    }
    if start == n {
        return None;
    }
    // The magnitude limit: 2^63 for negative values, 2^63 - 1 otherwise.
    let limit: u64 = if neg { 9223372036854775808 } else { 9223372036854775807 };
    let mut acc: u64 = 0;
    let mut i: usize = start;
    while i < n
        invariant
            cs@ == s@,
            n == s@.len(),
            n > 0,
            neg == (s@[0] == '-'),
            start == (if s@[0] == '-' || s@[0] == '+' { 1usize } else { 0usize }),
            start < n,
            ds == (if start == 1 { s@.drop_first() } else { s@ }),
            limit == (if neg { 9223372036854775808u64 } else { 9223372036854775807u64 }),
            start <= i <= n,
            ds == s@.skip(start as int),
            all_digits(ds.take(i - start)),
            acc as int == digits_value(ds.take(i - start)),
            acc <= limit,
        decreases n - i,
    {
        let c = cs[i];
        if c < '0' || c > '9' {
            proof {
                assert(ds[i - start] == c);
                assert(!('0' <= ds[i - start] <= '9'));
                assert(!all_digits(ds));
            }
            return None;
        }
        let d = (c as u64) - ('0' as u64);
        assert(d <= 9);
        proof {
            assert(ds.take(i - start + 1).drop_last() =~= ds.take(i - start));
            assert(ds.take(i - start + 1).last() == c);
            assert(all_digits(ds.take(i - start + 1))) by {
                assert forall|k: int| 0 <= k < ds.take(i - start + 1).len() implies '0' <= #[trigger] ds.take(i - start + 1)[k] <= '9' by {
                    if k < i - start {
                        assert(ds.take(i - start + 1)[k] == ds.take(i - start)[k]);
                    }
                }
            }
        }
        if acc > (limit - d) / 10 {
            proof {
                assert(acc * 10 + d > limit) by (nonlinear_arith)
                    requires acc > (limit - d) / 10, d <= 9, limit >= 9;
                assert(digits_value(ds.take(i - start + 1)) == acc * 10 + d);
                if all_digits(ds) {
                    lemma_digits_grow(ds, i - start + 1);
                }
            }
            return None;
        }
        acc = acc * 10 + d;
        i = i + 1;
    }
    proof {
        assert(ds.take(n - start) =~= ds);
    }
    if neg {
        if acc == 9223372036854775808 {
            Some(i64::MIN)
        } else {
            Some(-(acc as i64))
        }
    } else {
        Some(acc as i64)
    }
}

/// Read a request (see `selector_of`).
pub fn parse_function_selector(function_id: &str) -> (r: Option<FunctionSelector>)
    ensures
        r == selector_of(function_id@),
{
    let all = same_text(function_id, "all");
    proof {
        reveal_strlit("all");
        assert("all"@ =~= seq!['a', 'l', 'l']);
    }
    if all {
        return Some(FunctionSelector::All);
    }
    match parse_i64(function_id) {
        Some(v) => Some(FunctionSelector::Single(v)),
        None => None,
    }
}

/// The limits of an incremental run: the default limits, with the given
/// maximum length (1000 when none is given).
pub open spec fn incremental_limits(max_length: Option<usize>) -> PathLimits {
    PathLimits {
        max_length: match max_length { Some(m) => m, None => 1000 },
        max_paths: 10000,
        loop_unroll_limit: 3,
        max_visits: 1_000_000,
    }
}

/// `ps` is a path list that enumerating `cfg` with `limits` returns.
pub open spec fn enumerated(cfg: Cfg, limits: PathLimits, ps: Seq<Path>) -> bool {
    exists|o: PathEnumeration| #[trigger] is_search_outcome(o, sorted_search(cfg, limits), cfg_blocks(cfg).len(),
        cfg_blocks(cfg), reachable_ids(cfg_blocks(cfg), cfg_edges(cfg)), limits, true, has_exit(sorted_search(cfg, limits)))
        && o.paths@ == ps
}

/// Number of loaded CFGs among the first `k`.
pub open spec fn loaded_count(cfgs: Seq<Option<Cfg>>, k: nat) -> nat
    decreases k,
{
    if k == 0 { 0 } else { loaded_count(cfgs, (k - 1) as nat) + if cfgs[k - 1] is Some { 1nat } else { 0nat } }
}

/// Enumerate the paths of every loaded CFG of the changed functions
/// (entries that failed to load are left out), concatenating them in order,
/// with the given maximum path length. `cfgs` holds one entry per changed
/// function; `candidates` is the number of functions known in all, and the
/// ones not changed count as skipped.
pub fn enumerate_paths_incremental(cfgs: &Vec<Option<Cfg>>, max_length: Option<usize>, candidates: usize)
    -> (r: IncrementalPathsResult)
    ensures
        r.skipped_functions == (if candidates > cfgs@.len() { candidates - cfgs@.len() } else { 0 }),
        r.analyzed_functions == loaded_count(cfgs@, cfgs@.len()),
        exists|parts: Seq<Seq<Path>>| {
            &&& parts.len() == cfgs@.len()
            &&& r.paths@ == parts.flatten_alt()
            &&& forall|i: int| 0 <= i < parts.len() ==> match #[trigger] cfgs@[i] {
                None => parts[i].len() == 0,
                Some(c) => enumerated(c, incremental_limits(max_length), parts[i]),
            }
        },
{
    let limits = PathLimits {
        max_length: match max_length { Some(m) => m, None => 1000 },
        ..PathLimits::default()
    };
    let mut all: Vec<Path> = Vec::new();
    let mut analyzed: usize = 0;
    let ghost mut parts: Seq<Seq<Path>> = Seq::empty();
    let mut i: usize = 0;
    while i < cfgs.len()
        invariant
            i <= cfgs@.len(),
            limits == incremental_limits(max_length),
            analyzed == loaded_count(cfgs@, i as nat),
            analyzed <= i,
            parts.len() == i,
            all@ == parts.flatten_alt(),
            forall|k: int| 0 <= k < i ==> match #[trigger] cfgs@[k] {
                None => parts[k].len() == 0,
                Some(c) => enumerated(c, incremental_limits(max_length), parts[k]),
            },
        decreases cfgs@.len() - i,
    {
        let ghost old_parts = parts;
        match &cfgs[i] {
            Some(cfg) => {
                let mut ps = enumerate_paths(cfg, &limits);
                let ghost part = ps@;
                all.append(&mut ps);
                analyzed = analyzed + 1;
                proof {
                    parts = parts.push(part);
                }
            },
            None => {
                proof {
                    parts = parts.push(Seq::empty());
                }
            },
        }
        proof {
            assert(parts.drop_last() == old_parts);
            assert(parts.flatten_alt() == old_parts.flatten_alt() + parts.last());
            assert forall|k: int| 0 <= k < i + 1 implies match #[trigger] cfgs@[k] {
                None => parts[k].len() == 0,
                Some(c) => enumerated(c, incremental_limits(max_length), parts[k]),
            } by {
                if k < i {
                    assert(parts[k] == old_parts[k]);
                }
            }
        }
        i = i + 1;
    }
    let skipped = if candidates > cfgs.len() { candidates - cfgs.len() } else { 0 };
    IncrementalPathsResult { analyzed_functions: analyzed, skipped_functions: skipped, paths: all }
}

/// Read a request, as the incremental enumeration does: "all", a decimal
/// function identifier, or else the error "Invalid function ID: " followed
/// by the request.
pub fn read_function_request(function_id: &str) -> (r: Result<FunctionSelector, String>)
    ensures
        match selector_of(function_id@) {
            Some(sel) => r == Ok::<FunctionSelector, String>(sel),
            None => r is Err && r->Err_0@ == "Invalid function ID: "@ + function_id@,
        },
{
    match parse_function_selector(function_id) {
        Some(sel) => Ok(sel),
        None => {
            let mut msg: Vec<char> = Vec::new();
            push_text(&mut msg, "Invalid function ID: ");
            push_text(&mut msg, function_id);
            Err(string_from_chars(&msg))
        },
    }
}

/// Enumerate the paths of one requested function's CFG with the given
/// maximum path length: one function analysed, none skipped.
pub fn enumerate_single_function(cfg: &Cfg, max_length: Option<usize>) -> (r: IncrementalPathsResult)
    ensures
        r.analyzed_functions == 1,
        r.skipped_functions == 0,
        enumerated(*cfg, incremental_limits(max_length), r.paths@),
{
    let limits = PathLimits {
        max_length: match max_length { Some(m) => m, None => 1000 },
        ..PathLimits::default()
    };
    let paths = enumerate_paths(cfg, &limits);
    IncrementalPathsResult { analyzed_functions: 1, skipped_functions: 0, paths }
}

/// The paths of a single-function request are the paths `enumerate_paths`
/// gives for that CFG with the same limits: any two path lists that
/// enumeration allows for one CFG and limits agree path by path.
pub proof fn single_function_matches_enumeration(cfg: Cfg, max_length: Option<usize>, ps: Seq<Path>, qs: Seq<Path>)
    requires
        enumerated(cfg, incremental_limits(max_length), ps),
        enumerated(cfg, incremental_limits(max_length), qs),
    ensures
        same_path_lists(ps, qs),
{
    let limits = incremental_limits(max_length);
    let o1 = choose|o: PathEnumeration| #[trigger] is_search_outcome(o, sorted_search(cfg, limits), cfg_blocks(cfg).len(),
        cfg_blocks(cfg), reachable_ids(cfg_blocks(cfg), cfg_edges(cfg)), limits, true, has_exit(sorted_search(cfg, limits)))
        && o.paths@ == ps;
    let o2 = choose|o: PathEnumeration| #[trigger] is_search_outcome(o, sorted_search(cfg, limits), cfg_blocks(cfg).len(),
        cfg_blocks(cfg), reachable_ids(cfg_blocks(cfg), cfg_edges(cfg)), limits, true, has_exit(sorted_search(cfg, limits)))
        && o.paths@ == qs;
    search_outcome_is_unique(o1, o2, sorted_search(cfg, limits), cfg_blocks(cfg).len(), cfg_blocks(cfg),
        reachable_ids(cfg_blocks(cfg), cfg_edges(cfg)), limits, true, has_exit(sorted_search(cfg, limits)));
}

} // verus!
