//! A verified Minesweeper engine: board generation with random mine
//! placement, per-tile adjacency counts, a cursor-driven input state
//! machine, the flood-fill reveal of zero regions, and the turn
//! dispatcher that ties them together. Every public operation carries
//! a contract over a row-major model of the board, and the session
//! invariant keeps the cached progress counters consistent with it.

pub mod cursor;
pub mod gamedata;
pub mod gameplay;
pub mod grid_store;
pub mod rng;
