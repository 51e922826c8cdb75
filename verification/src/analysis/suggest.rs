//! Refactoring suggestions from a function's CFG factors: split complex
//! functions, flatten deep loop nesting, simplify branching when paths
//! explode, extract sub-functions from large ones, remove dead code.
//!
//! The thresholds are the shared ones of `severity`, so the suggestions and
//! the risk report judge a function alike.

use vstd::prelude::*;
use crate::analysis::risk::CfgFactors;
use crate::analysis::severity::{BLOCK_COUNT_NOTABLE, CC_SPLIT_HIGH, CC_SPLIT_MEDIUM, NESTING_HIGH, PATH_COUNT_NOTABLE};
use crate::text::{nat_text, push_nat, push_text, string_from_chars};

verus! {

/// One refactoring suggestion.
#[derive(Debug, Clone)]
pub struct Suggestion {
    pub kind: String,
    pub severity: String,
    pub message: String,
    pub detail: Option<String>,
}

/// A suggestion as text: kind, severity, message and optional detail.
pub type SuggestionText = (Seq<char>, Seq<char>, Seq<char>, Option<Seq<char>>);

/// The text of a suggestion.
pub open spec fn suggestion_view(s: Suggestion) -> SuggestionText {
    (s.kind@, s.severity@, s.message@, match s.detail {
        Some(d) => Some(d@),
        None => None,
    })
}

/// High complexity: split the function.
pub open spec fn split_high_text(cc: nat) -> SuggestionText {
    ("split-function"@, "high"@,
        "Cyclomatic complexity is "@ + nat_text(cc) + " (threshold: "@ + nat_text(CC_SPLIT_HIGH as nat)
            + "). Consider splitting this function."@,
        Some("High complexity makes testing and reasoning difficult. Extract distinct logical branches into helper functions."@))
}

/// Complexity approaching the threshold: simplify control flow.
pub open spec fn split_medium_text(cc: nat) -> SuggestionText {
    ("split-function"@, "medium"@,
        "Cyclomatic complexity is "@ + nat_text(cc) + " (approaching threshold: "@ + nat_text(CC_SPLIT_HIGH as nat)
            + "). Consider simplifying control flow."@,
        None)
}

/// Deep loop nesting: flatten it.
pub open spec fn flatten_text(depth: nat) -> SuggestionText {
    ("flatten-nesting"@, "high"@,
        "Maximum loop nesting depth is "@ + nat_text(depth) + " (threshold: "@ + nat_text(NESTING_HIGH as nat)
            + "). Flatten deeply nested loops."@,
        Some("Deep nesting increases cognitive load and error-proneness. Use early returns, extract methods, or restructure data."@))
}

/// The estimated path count as shown: `~n`, or a note that it saturated.
pub open spec fn estimate_text(est: Option<usize>) -> Seq<char> {
    match est {
        Some(e) => "~"@ + nat_text(e as nat),
        None => "astronomical (exceeds 2^64)"@,
    }
}

/// Why the path count matters, and how far it can be trusted.
pub open spec fn paths_detail_text(f: CfgFactors, max_paths: nat) -> Seq<char> {
    let head = "Excessive path count makes exhaustive testing infeasible. "@;
    if f.path_count_budget_exhausted {
        head + nat_text(f.error_path_count as nat) + " of the "@ + nat_text(f.path_count as nat)
            + " enumerated paths are error paths. Enumeration exhausted its work budget before completing; the CFG is too dense/loopy for exact enumeration. Estimated true path count: "@
            + estimate_text(f.path_count_estimated) + ". The score above uses the enumerated sample of "@
            + nat_text(f.path_count as nat) + " paths."@
    } else if f.path_count_truncated {
        head + nat_text(f.error_path_count as nat) + " of the "@ + nat_text(f.path_count as nat)
            + " enumerated paths are error paths. Enumeration was truncated at the "@ + nat_text(max_paths)
            + "-path cap; estimated true path count: "@ + estimate_text(f.path_count_estimated)
            + ". The score above uses the capped count."@
    } else {
        head + nat_text(f.error_path_count as nat) + " of "@ + nat_text(f.path_count as nat) + " paths are error paths."@
    }
}

/// Many paths: reduce branching.
pub open spec fn simplify_text(f: CfgFactors, max_paths: nat) -> SuggestionText {
    ("simplify-paths"@, "medium"@,
        if f.path_count_truncated {
            "Function path count exceeds exact enumeration (sampled "@ + nat_text(f.path_count as nat) + " paths; threshold: "@
                + nat_text(PATH_COUNT_NOTABLE as nat) + "). Consider reducing branching."@
        } else {
            "Function has "@ + nat_text(f.path_count as nat) + " execution paths (threshold: "@
                + nat_text(PATH_COUNT_NOTABLE as nat) + "). Consider reducing branching."@
        },
        Some(paths_detail_text(f, max_paths)))
}

/// Many blocks: extract sub-functions.
pub open spec fn extract_text(blocks: nat) -> SuggestionText {
    ("extract-method"@, "medium"@,
        "Function has "@ + nat_text(blocks) + " basic blocks (threshold: "@ + nat_text(BLOCK_COUNT_NOTABLE as nat)
            + "). Consider extracting sub-functions."@,
        None)
}

/// Unreachable blocks: remove them.
pub open spec fn dead_code_text(unreachable: nat, blocks: nat) -> SuggestionText {
    ("remove-dead-code"@, "low"@,
        "Function has "@ + nat_text(unreachable) + " unreachable basic blocks out of "@ + nat_text(blocks) + "."@,
        Some("Unreachable code increases maintenance burden without adding value."@))
}

/// Nothing to suggest.
pub open spec fn ok_text() -> SuggestionText {
    ("ok"@, "info"@, "No significant issues detected."@, None)
}

/// The suggestions for a function's factors, in this order: split-function
/// (high above `CC_SPLIT_HIGH`, else medium above `CC_SPLIT_MEDIUM`),
/// flatten-nesting, simplify-paths (also whenever enumeration was
/// truncated), extract-method, remove-dead-code; a single "ok" when none
/// applies. `max_paths` is the path cap enumeration ran with.
pub open spec fn suggestion_list(f: CfgFactors, max_paths: nat) -> Seq<SuggestionText> {
    let s1 = if f.cyclomatic_complexity > CC_SPLIT_HIGH {
        seq![split_high_text(f.cyclomatic_complexity as nat)]
    } else if f.cyclomatic_complexity > CC_SPLIT_MEDIUM {
        seq![split_medium_text(f.cyclomatic_complexity as nat)]
    } else {
        Seq::empty()
    };
    let s2 = if f.max_nesting_depth > NESTING_HIGH { seq![flatten_text(f.max_nesting_depth as nat)] } else { Seq::empty() };
    let s3 = if f.path_count > PATH_COUNT_NOTABLE || f.path_count_truncated {
        seq![simplify_text(f, max_paths)]
    } else {
        Seq::empty()
    };
    let s4 = if f.block_count > BLOCK_COUNT_NOTABLE { seq![extract_text(f.block_count as nat)] } else { Seq::empty() };
    let s5 = if f.unreachable_count > 0 {
        seq![dead_code_text(f.unreachable_count as nat, f.block_count as nat)]
    } else {
        Seq::empty()
    };
    let all = s1 + s2 + s3 + s4 + s5;
    if all.len() == 0 { seq![ok_text()] } else { all }
}

fn text_of(cs: &Vec<char>) -> (r: String)
    ensures
        r@ == cs@,
{
    string_from_chars(cs)
}

fn make(kind: &str, severity: &str, message: String, detail: Option<String>) -> (r: Suggestion)
    ensures
        r.kind@ == kind@,
        r.severity@ == severity@,
        r.message == message,
        r.detail == detail,
{
    Suggestion { kind: kind.to_owned(), severity: severity.to_owned(), message, detail }
}

fn split_high(cc: usize) -> (r: Suggestion)
    ensures
        suggestion_view(r) == split_high_text(cc as nat),
{
    let mut m: Vec<char> = Vec::new();
    push_text(&mut m, "Cyclomatic complexity is ");
    push_nat(&mut m, cc as u64);
    push_text(&mut m, " (threshold: ");
    push_nat(&mut m, CC_SPLIT_HIGH as u64);
    push_text(&mut m, "). Consider splitting this function.");
    let detail = "High complexity makes testing and reasoning difficult. Extract distinct logical branches into helper functions.".to_owned();
    let r = make("split-function", "high", text_of(&m), Some(detail));
    proof {
        assert(r.message@ =~= split_high_text(cc as nat).2);
    }
    r
}

fn split_medium(cc: usize) -> (r: Suggestion)
    ensures
        suggestion_view(r) == split_medium_text(cc as nat),
{
    let mut m: Vec<char> = Vec::new();
    push_text(&mut m, "Cyclomatic complexity is ");
    push_nat(&mut m, cc as u64);
    push_text(&mut m, " (approaching threshold: ");
    push_nat(&mut m, CC_SPLIT_HIGH as u64);
    push_text(&mut m, "). Consider simplifying control flow.");
    let r = make("split-function", "medium", text_of(&m), None);
    proof {
        assert(r.message@ =~= split_medium_text(cc as nat).2);
    }
    r
}

fn flatten(depth: usize) -> (r: Suggestion)
    ensures
        suggestion_view(r) == flatten_text(depth as nat),
{
    let mut m: Vec<char> = Vec::new();
    push_text(&mut m, "Maximum loop nesting depth is ");
    push_nat(&mut m, depth as u64);
    push_text(&mut m, " (threshold: ");
    push_nat(&mut m, NESTING_HIGH as u64);
    push_text(&mut m, "). Flatten deeply nested loops.");
    let detail = "Deep nesting increases cognitive load and error-proneness. Use early returns, extract methods, or restructure data.".to_owned();
    let r = make("flatten-nesting", "high", text_of(&m), Some(detail));
    proof {
        assert(r.message@ =~= flatten_text(depth as nat).2);
    }
    r
}

fn push_estimate(out: &mut Vec<char>, est: Option<usize>)
    ensures
        final(out)@ == old(out)@ + estimate_text(est),
{
    match est {
        Some(e) => {
            push_text(out, "~");
            push_nat(out, e as u64);
            proof {
                assert(out@ =~= old(out)@ + estimate_text(est));
            }
        },
        None => push_text(out, "astronomical (exceeds 2^64)"),
    }
}

fn paths_detail(f: &CfgFactors, max_paths: usize) -> (r: String)
    ensures
        r@ == paths_detail_text(*f, max_paths as nat),
{
    let mut d: Vec<char> = Vec::new();
    push_text(&mut d, "Excessive path count makes exhaustive testing infeasible. ");
    push_nat(&mut d, f.error_path_count as u64);
    if f.path_count_budget_exhausted {
        push_text(&mut d, " of the ");
        push_nat(&mut d, f.path_count as u64);
        push_text(&mut d, " enumerated paths are error paths. Enumeration exhausted its work budget before completing; the CFG is too dense/loopy for exact enumeration. Estimated true path count: ");
        push_estimate(&mut d, f.path_count_estimated);
        push_text(&mut d, ". The score above uses the enumerated sample of ");
        push_nat(&mut d, f.path_count as u64);
        push_text(&mut d, " paths.");
    } else if f.path_count_truncated {
        push_text(&mut d, " of the ");
        push_nat(&mut d, f.path_count as u64);
        push_text(&mut d, " enumerated paths are error paths. Enumeration was truncated at the ");
        push_nat(&mut d, max_paths as u64);
        push_text(&mut d, "-path cap; estimated true path count: ");
        push_estimate(&mut d, f.path_count_estimated);
        push_text(&mut d, ". The score above uses the capped count.");
    } else {
        push_text(&mut d, " of ");
        push_nat(&mut d, f.path_count as u64);
        push_text(&mut d, " paths are error paths.");
    }
    proof {
        assert(d@ =~= paths_detail_text(*f, max_paths as nat));
    }
    text_of(&d)
}

fn simplify(f: &CfgFactors, max_paths: usize) -> (r: Suggestion)
    ensures
        suggestion_view(r) == simplify_text(*f, max_paths as nat),
{
    let mut m: Vec<char> = Vec::new();
    if f.path_count_truncated {
        push_text(&mut m, "Function path count exceeds exact enumeration (sampled ");
        push_nat(&mut m, f.path_count as u64);
        push_text(&mut m, " paths; threshold: ");
        push_nat(&mut m, PATH_COUNT_NOTABLE as u64);
        push_text(&mut m, "). Consider reducing branching.");
    } else {
        push_text(&mut m, "Function has ");
        push_nat(&mut m, f.path_count as u64);
        push_text(&mut m, " execution paths (threshold: ");
        push_nat(&mut m, PATH_COUNT_NOTABLE as u64);
        push_text(&mut m, "). Consider reducing branching.");
    }
    let r = make("simplify-paths", "medium", text_of(&m), Some(paths_detail(f, max_paths)));
    proof {
        assert(r.message@ =~= simplify_text(*f, max_paths as nat).2);
    }
    r
}

fn extract(blocks: usize) -> (r: Suggestion)
    ensures
        suggestion_view(r) == extract_text(blocks as nat),
{
    let mut m: Vec<char> = Vec::new();
    push_text(&mut m, "Function has ");
    push_nat(&mut m, blocks as u64);
    push_text(&mut m, " basic blocks (threshold: ");
    push_nat(&mut m, BLOCK_COUNT_NOTABLE as u64);
    push_text(&mut m, "). Consider extracting sub-functions.");
    let r = make("extract-method", "medium", text_of(&m), None);
    proof {
        assert(r.message@ =~= extract_text(blocks as nat).2);
    }
    r
}

fn dead_code(unreachable: usize, blocks: usize) -> (r: Suggestion)
    ensures
        suggestion_view(r) == dead_code_text(unreachable as nat, blocks as nat),
{
    let mut m: Vec<char> = Vec::new();
    push_text(&mut m, "Function has ");
    push_nat(&mut m, unreachable as u64);
    push_text(&mut m, " unreachable basic blocks out of ");
    push_nat(&mut m, blocks as u64);
    push_text(&mut m, ".");
    let detail = "Unreachable code increases maintenance burden without adding value.".to_owned();
    let r = make("remove-dead-code", "low", text_of(&m), Some(detail));
    proof {
        assert(r.message@ =~= dead_code_text(unreachable as nat, blocks as nat).2);
    }
    r
}

/// The suggestions for a function's factors (see `suggestion_list`).
pub fn suggestions_for(f: &CfgFactors, max_paths: usize) -> (r: Vec<Suggestion>)
    ensures
        r@.len() == suggestion_list(*f, max_paths as nat).len(),
        forall|i: int| 0 <= i < r@.len() ==> suggestion_view(#[trigger] r@[i]) == suggestion_list(*f, max_paths as nat)[i],
{
    let ghost f0 = *f;
    let mut r: Vec<Suggestion> = Vec::new();
    let ghost mut expected: Seq<SuggestionText> = Seq::empty();
    if f.cyclomatic_complexity > CC_SPLIT_HIGH {
        r.push(split_high(f.cyclomatic_complexity));
        proof { expected = expected.push(split_high_text(f.cyclomatic_complexity as nat)); }
    } else if f.cyclomatic_complexity > CC_SPLIT_MEDIUM {
        r.push(split_medium(f.cyclomatic_complexity));
        proof { expected = expected.push(split_medium_text(f.cyclomatic_complexity as nat)); }
    }
    let ghost e1 = expected;
    if f.max_nesting_depth > NESTING_HIGH {
        r.push(flatten(f.max_nesting_depth));
        proof { expected = expected.push(flatten_text(f.max_nesting_depth as nat)); }
    }
    let ghost e2 = expected;
    if f.path_count > PATH_COUNT_NOTABLE || f.path_count_truncated {
        r.push(simplify(f, max_paths));
        proof { expected = expected.push(simplify_text(*f, max_paths as nat)); }
    }
    let ghost e3 = expected;
    if f.block_count > BLOCK_COUNT_NOTABLE {
        r.push(extract(f.block_count));
        proof { expected = expected.push(extract_text(f.block_count as nat)); }
    }
    let ghost e4 = expected;
    if f.unreachable_count > 0 {
        r.push(dead_code(f.unreachable_count, f.block_count));
        proof { expected = expected.push(dead_code_text(f.unreachable_count as nat, f.block_count as nat)); }
    }
    proof {
        let s1 = if f0.cyclomatic_complexity > CC_SPLIT_HIGH {
            seq![split_high_text(f0.cyclomatic_complexity as nat)]
        } else if f0.cyclomatic_complexity > CC_SPLIT_MEDIUM {
            seq![split_medium_text(f0.cyclomatic_complexity as nat)]
        } else {
            Seq::<SuggestionText>::empty()
        };
        assert(e1 =~= s1);
        let s2 = if f0.max_nesting_depth > NESTING_HIGH { seq![flatten_text(f0.max_nesting_depth as nat)] } else { Seq::<SuggestionText>::empty() };
        assert(e2 =~= s1 + s2);
        let s3 = if f0.path_count > PATH_COUNT_NOTABLE || f0.path_count_truncated {
            seq![simplify_text(f0, max_paths as nat)]
        } else {
            Seq::<SuggestionText>::empty()
        };
        assert(e3 =~= s1 + s2 + s3);
        let s4 = if f0.block_count > BLOCK_COUNT_NOTABLE { seq![extract_text(f0.block_count as nat)] } else { Seq::<SuggestionText>::empty() };
        assert(e4 =~= s1 + s2 + s3 + s4);
        let s5 = if f0.unreachable_count > 0 {
            seq![dead_code_text(f0.unreachable_count as nat, f0.block_count as nat)]
        } else {
            Seq::<SuggestionText>::empty()
        };
        assert(expected =~= s1 + s2 + s3 + s4 + s5);
    }
    if r.len() == 0 {
        r.push(make("ok", "info", "No significant issues detected.".to_owned(), None));
        proof { expected = seq![ok_text()]; }
    }
    proof {
        assert(expected == suggestion_list(f0, max_paths as nat));
    }
    r
}

} // verus!
