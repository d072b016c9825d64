//! Procedural generation of modular spacecraft on a square grid: a seeded
//! cellular automaton carves a connected silhouette, catalog parts are
//! assigned to its cells, and aggregate metrics are folded from the result.

pub mod automata;
pub mod navigation;
pub mod parts;
pub mod rng;
pub mod ship;

