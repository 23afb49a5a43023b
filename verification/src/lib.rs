//! A nonogram ("picross") solving engine: candidate enumeration for a single
//! line, line reduction, propagation to a fixed point, and a depth-first
//! search over what propagation leaves open.

pub mod blocks;
pub mod cell;
pub mod consistency;
pub mod display;
pub mod grid;
pub mod propagate;
pub mod reduce;
pub mod rows;
pub mod search;
pub mod series;
