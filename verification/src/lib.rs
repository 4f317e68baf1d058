//! A greedy knight on a grid of fixed width and unbounded height.
//!
//! The knight starts on a cell and keeps jumping: at each cell it takes the
//! first of eight fixed jumps that lands on a cell it has not visited yet.
//! A run ends when no jump is possible (the knight halts) or when the knight
//! climbs above the row [`config::TOP`], which is taken as a sign that it
//! would go on for ever.

pub mod config;
pub mod jumps;
pub mod board;
pub mod run;
pub mod simulate;
pub mod pattern;
pub mod explore;
pub mod report;
