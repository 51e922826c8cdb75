//! Thresholds shared by the risk and suggestion reports, so that both judge
//! the same function the same way.

use vstd::prelude::*;

verus! {

/// Cyclomatic complexity above which a high split-function suggestion is made.
pub const CC_SPLIT_HIGH: usize = 15;
/// Cyclomatic complexity above which a medium split-function suggestion is made.
pub const CC_SPLIT_MEDIUM: usize = 10;
/// Loop nesting depth above which a high flatten-nesting suggestion is made.
pub const NESTING_HIGH: usize = 3;
/// Enumerated path count above which a medium simplify-paths suggestion is made.
pub const PATH_COUNT_NOTABLE: usize = 50;
/// Block count above which a medium extract-method suggestion is made.
pub const BLOCK_COUNT_NOTABLE: usize = 40;

} // verus!
