//! A breadth-first solver for the bishop-swap puzzle.
//!
//! On an R x C board, one bishop of side A starts in column 0 of every row
//! and one bishop of side B in the last column of every row.  The goal is to
//! reach the mirrored position (every piece replaced by a piece of the other
//! side) through legal bishop moves: diagonal, over empty cells only, and
//! never onto a cell attacked by the other side.  The solver searches the
//! state space level by level, deduplicates positions through a compact
//! injective board hash, and reconstructs a shortest move sequence by
//! walking parent links of the winning search node.
#![verifier::loop_isolation(false)]

pub mod geometry;
pub mod board;
pub mod node;
pub mod search;
