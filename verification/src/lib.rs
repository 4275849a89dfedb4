//! Nearest-neighbour classification over tabular data: the voting rule, the
//! sweep over neighbour counts, the stratified split and the greedy forward
//! selection of feature columns.

pub mod classify;
pub mod columns;
pub mod distance;
pub mod fraction;
pub mod kvalue;
pub mod number;
pub mod predict;
pub mod ranking;
pub mod record;
pub mod search;
pub mod split;
pub mod tally;
pub mod text;
