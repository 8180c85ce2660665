//! Procedural generation of sewer levels: a grid of floor, wall, pool,
//! bridge and door cells with a start, a goal and lights, connected and
//! checked, from a seeded random stream; plus the card decks and data types
//! of the game that plays on those levels.

pub mod assemble;
pub mod blink;
pub mod candidates;
pub mod carve;
pub mod data;
pub mod flood;
pub mod grid;
pub mod level;
pub mod outside;
pub mod player;
pub mod regions;
pub mod select;
pub mod sewer;
