//! Verified core of a grid-puzzle game suite.
//!
//! The centrepiece is a maze engine: a wall model over an `n x n` grid of
//! cells, a randomized spanning-tree generator, a breadth-first distance
//! analyzer that places the start, key and door markers, and a movement
//! engine that validates player moves against the walls and the key/door
//! rules.  Around it stand the smaller verified pieces of the suite: the
//! tile-rotation puzzle and the arithmetic-ordering level bookkeeping.
//!
//! Rendering, input devices, timers and persistence are collaborator
//! concerns and are kept outside this crate's core.  Randomness is
//! injected as a seedable generator so that everything here is
//! deterministic and testable.

pub mod counting;
pub mod grid;
pub mod kruskal;
pub mod level_generator;
pub mod numeracy;
pub mod rotation;
pub mod tile;
pub mod tile_generator;
pub mod distance;
pub mod maze;
pub mod puzzle;
pub mod reach;
pub mod session;
pub mod union_find;
pub mod rng;
pub mod wall_model;
