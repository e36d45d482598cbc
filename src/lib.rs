//! A sliding-tile puzzle solver: grid states with move application and
//! heuristics, and a best-first search agent over them.
pub mod agent;
pub mod puzzle;
pub mod queue;
pub mod vector;
