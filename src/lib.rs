//! Core of a turn-based grid roguelike: level generation, field of view with
//! distance shading, the ledger of explored cells, and bump combat.

pub mod actors;
pub mod components;
pub mod enemies;
pub mod fov;
pub mod health;
pub mod map;
pub mod player;
pub mod tiles;
