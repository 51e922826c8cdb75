//! Edge types for CFG edges.

use vstd::prelude::*;
use crate::cfg::{BlockId, Terminator};

verus! {

/// Kind of a control-flow edge.
#[derive(Debug, Clone, Copy, PartialEq, Eq, Hash, Structural)]
pub enum EdgeType {
    TrueBranch,
    FalseBranch,
    Fallthrough,
    LoopBack,
    LoopExit,
    Exception,
    Call,
    Return,
}

/// Graphviz colour used to draw an edge of the given kind.
pub open spec fn dot_color_text(e: EdgeType) -> Seq<char> {
    match e {
        EdgeType::TrueBranch => "green"@,
        EdgeType::FalseBranch => "red"@,
        EdgeType::Fallthrough => "black"@,
        EdgeType::LoopBack => "blue"@,
        EdgeType::LoopExit => "orange"@,
        EdgeType::Exception => "purple"@,
        EdgeType::Call => "gray"@,
        EdgeType::Return => "darkgray"@,
    }
}

/// Graphviz label used to draw an edge of the given kind.
pub open spec fn dot_label_text(e: EdgeType) -> Seq<char> {
    match e {
        EdgeType::TrueBranch => "T"@,
        EdgeType::FalseBranch => "F"@,
        EdgeType::Fallthrough => ""@,
        EdgeType::LoopBack => "loop"@,
        EdgeType::LoopExit => "exit"@,
        EdgeType::Exception => "unwind"@,
        EdgeType::Call => "call"@,
        EdgeType::Return => "ret"@,
    }
}

impl EdgeType {
    /// Colour for DOT export.
    pub fn dot_color(&self) -> (r: &'static str)
        ensures
            r@ == dot_color_text(*self),
    {
        match self {
            EdgeType::TrueBranch => "green",
            EdgeType::FalseBranch => "red",
            EdgeType::Fallthrough => "black",
            EdgeType::LoopBack => "blue",
            EdgeType::LoopExit => "orange",
            EdgeType::Exception => "purple",
            EdgeType::Call => "gray",
            EdgeType::Return => "darkgray",
        }
    }

    /// Label for DOT export.
    pub fn dot_label(&self) -> (r: &'static str)
        ensures
            r@ == dot_label_text(*self),
    {
        match self {
            EdgeType::TrueBranch => "T",
            EdgeType::FalseBranch => "F",
            EdgeType::Fallthrough => "",
            EdgeType::LoopBack => "loop",
            EdgeType::LoopExit => "exit",
            EdgeType::Exception => "unwind",
            EdgeType::Call => "call",
            EdgeType::Return => "ret",
        }
    }
}

/// The successor edges a terminator implies, in order: every switch target
/// as a true branch followed by the otherwise target as a false branch; a
/// call's return target followed by its unwind target; a goto's target.
pub open spec fn terminator_edges(t: Terminator) -> Seq<(BlockId, EdgeType)> {
    match t {
        Terminator::Goto { target } => seq![(target, EdgeType::Fallthrough)],
        Terminator::SwitchInt { targets, otherwise } =>
            targets@.map_values(|x: BlockId| (x, EdgeType::TrueBranch)).push(
                (otherwise, EdgeType::FalseBranch),
            ),
        Terminator::Call { target, unwind } => {
            let first: Seq<(BlockId, EdgeType)> = match target {
                Some(x) => seq![(x, EdgeType::Call)],
                None => Seq::empty(),
            };
            match unwind {
                Some(u) => first.push((u, EdgeType::Exception)),
                None => first,
            }
        },
        _ => Seq::empty(),
    }
}

/// Derive the typed successor edges of a terminator.
pub fn classify_terminator(terminator: &Terminator) -> (edges: Vec<(usize, EdgeType)>)
    ensures
        edges@ == terminator_edges(*terminator),
{
    match terminator {
        Terminator::Goto { target } => vec![(*target, EdgeType::Fallthrough)],
        Terminator::SwitchInt { targets, otherwise } => {
            let mut edges: Vec<(usize, EdgeType)> = Vec::new();
            let mut i: usize = 0;
            while i < targets.len()
                invariant
                    i <= targets.len(),
                    edges@ == targets@.take(i as int).map_values(
                        |x: BlockId| (x, EdgeType::TrueBranch),
                    ),
                decreases targets.len() - i,
            {
                edges.push((targets[i], EdgeType::TrueBranch));
                i = i + 1;
                assert(targets@.take(i as int) == targets@.take(i - 1).push(targets@[i - 1]));
            }
            assert(targets@.take(targets.len() as int) == targets@);
            edges.push((*otherwise, EdgeType::FalseBranch));
            edges
        },
        Terminator::Return => vec![],
        Terminator::Unreachable => vec![],
        Terminator::Call { target: Some(t), unwind } => {
            let mut edges = vec![(*t, EdgeType::Call)];
            if let Some(uw) = unwind {
                edges.push((*uw, EdgeType::Exception));
            }
            edges
        },
        Terminator::Call { target: None, unwind: Some(uw) } => vec![(*uw, EdgeType::Exception)],
        Terminator::Call { target: None, unwind: None } => vec![],
        Terminator::Abort(_) => vec![],
    }
}

} // verus!
