//! Grid agents that find their way over a tile map and walk it tick by tick.
//!
//! The crate works on integers throughout: a position counts thousandths of a
//! world unit, a velocity thousandths of a unit vector, a time step
//! microseconds. Every function carries a contract that Verus proves.
//!
//! - [`map`] holds the grid of tiles, and what shapes it: lakes, trees, chunks.
//! - [`search`] defines the A* search as a function on values, and
//!   [`search_proofs`] shows that it finds a way exactly where one exists.
//! - [`pathfinder`] is the search as it runs, on a grid of its own.
//! - [`animal_behaviour`] moves an agent along its path: velocity, position,
//!   facing and state; [`arrival`] shows that the agent gets to the end.
//! - [`components`], [`graphics`] and [`vegetation`] hold what else an entity
//!   is made of and the arithmetic of drawing it.

pub mod geometry;
pub mod map;
pub mod search;
pub mod search_proofs;
pub mod pathfinder;
pub mod components;
pub mod animal_behaviour;
pub mod arrival;
pub mod graphics;
pub mod vegetation;
