//! Seeded generation of tile-map layouts: rectangular rooms placed on a
//! board either by recursive binary space partition or by random scatter
//! with collision rejection.

pub mod board;
pub mod bsp;
pub mod bsp_level;
pub mod dice;
pub mod error;
pub mod journal;
pub mod number;
pub mod room;
pub mod scatter;
