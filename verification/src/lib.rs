//! Procedural generation and solving of perfect mazes over several cell
//! topologies: a rectangular grid, a radial ring-and-spoke grid, and a
//! room-augmented dungeon grid.
//!
//! All three topologies share one verified engine: a common grid model
//! (`model`, `grid`), the randomized depth-first carving search (`engine`),
//! the path search with predecessor reconstruction (`solver`), and the room
//! carving of the dungeon variant (`rooms`). Each topology module holds its
//! own cell storage and converts to and from the engine grid. Randomness
//! comes through thin wrappers over the process random source (`random`);
//! everything stated about the maze holds whatever the draws were.

pub mod errors;
pub mod model;
pub mod model_lemmas;
pub mod grid;
pub mod random;
pub mod engine;
pub mod solver;
pub mod rooms;

pub mod utils;
pub mod maze;
pub mod rect_maze;
pub mod circ_maze;
pub mod dungeon;
