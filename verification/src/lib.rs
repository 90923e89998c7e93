//! Marginalization of pangenome alignment graphs.
//!
//! A graph holds aligned sequence blocks and, per strain, a path: an ordered
//! (possibly circular) traversal of blocks with strand orientation that
//! reconstructs that strain's genome exactly. Marginalizing restricts the
//! graph to a chosen subset of strains and merges consecutive blocks that no
//! retained strain distinguishes, without ever changing what any retained
//! path reconstructs.

pub mod adjacency;
pub mod consistency;
pub mod marginal;
pub mod merge;
pub mod model;
pub mod project;
pub mod seqs;
pub mod validate;
