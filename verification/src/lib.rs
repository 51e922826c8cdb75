//! Path-aware control-flow analysis over basic-block graphs: path
//! enumeration, dominance, post-dominance, natural loops and branch patterns.

pub mod analysis;
pub mod cfg;
pub mod mir;
pub mod text;
