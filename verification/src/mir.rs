//! ULLBC (unstructured low-level borrow calculus) bodies: the MIR-level
//! input from which CFGs are built.

use vstd::prelude::*;

verus! {

/// A function body: its basic blocks, block `i` at position `i`.
#[derive(Debug, Clone)]
pub struct UllbcBody {
    pub blocks: Vec<UllbcBlock>,
}

/// One basic block of a body.
#[derive(Debug, Clone)]
pub struct UllbcBlock {
    pub id: usize,
    pub statements: Vec<String>,
    pub terminator: UllbcTerminator,
}

/// How a block ends.
#[derive(Debug, Clone)]
pub enum UllbcTerminator {
    Goto { target: usize },
    SwitchInt { targets: Vec<usize>, otherwise: usize },
    Return,
    Unreachable,
    Call { target: Option<usize>, unwind: Option<usize> },
    Abort { message: String },
}

} // verus!
