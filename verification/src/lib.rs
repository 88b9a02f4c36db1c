//! A Hashlife engine: two-state outer-totalistic cellular automata on an
//! unbounded grid, advanced by memoized evaluation of a hash-consed quadtree.
//!
//! # Limits
//!
//! Populations are counted in 128 bits and coordinates are 64-bit
//! integers, so a node has at most level 63: a root spans the columns and
//! rows from `-2^62` to `2^62 - 1`. A live cell beyond that, and a tick
//! whose root would have to grow beyond level 63 (which a step above 61
//! always asks for), are refused with `LifeError::DepthLimit` and change
//! nothing. The generation counter holds 128 bits and stays at its largest
//! value once it has reached it.

pub mod grid;
pub mod tree;
pub mod powers;
pub mod node;
pub mod interner;
pub mod universe;
pub mod engine;
pub mod advance;
pub mod cells;
pub mod bounds;
pub mod field;
pub mod draw;
pub mod collect;
pub mod laws;
