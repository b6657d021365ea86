//! A hashlife engine for Conway's Game of Life: a canonical quadtree of
//! deduplicated nodes, advanced by a memoized recursive generation step.
use vstd::prelude::*;

pub mod life;
pub mod rendering;

