//! Copying sets of node indices.

use vstd::prelude::*;
use std::collections::HashSet;

verus! {

/// A copy of a node set (`HashSet::clone`): std documents that the clone
/// holds the same elements.
#[verifier::external_body]
pub(crate) fn clone_node_set(s: &HashSet<usize>) -> (r: HashSet<usize>)
    ensures
        r@ == s@,
{
    s.clone()
}

} // verus!
