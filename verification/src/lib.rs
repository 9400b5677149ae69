//! Verified simulation core of a turn-based dungeon crawler.
//!
//! The crate carves a cave-like map with random walks, repairs connectivity
//! with A*-guided tunnels, computes field of view by recursive shadowcasting,
//! and resolves alternating player/enemy turns against grid passability and
//! agent occupancy. Rendering and input belong to outside collaborators that
//! only read the data model exposed here.

pub mod position;
pub mod grid;
pub mod rng;
pub mod pathfinding;
pub mod generation;
pub mod fov;
pub mod turn;
