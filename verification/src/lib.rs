//! Decision engine for an agent moving on a 2D occupancy grid.
//!
//! Given the agent's position (which encodes its heading as the vector from
//! the previously occupied cell), a read-only snapshot of occupied cells, and
//! a depth bound, the engine runs a level-by-level look-ahead search over the
//! three heading-relative moves and reports, once per depth level, the
//! root-level move that currently opens up the most survivable space.

pub mod position;
pub mod grid;
pub mod search;
