//! A hexagonal settlement-growth simulation: a tile map that grows ring by
//! ring, a breadth-first path finder over it, and the lifecycle of the
//! workers that walk between offices and break shops.

pub mod hex;
pub mod tile;
pub mod map;
pub mod economy;
pub mod daytime;
pub mod timer;
pub mod path;
pub mod workers;
pub mod sim;
