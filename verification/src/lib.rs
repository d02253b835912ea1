//! Verified core of a tile-based multiplayer station game: grid and chunk
//! arithmetic, wall neighbour masks, icon smoothing, occupancy, movement,
//! the debug console's line protocol, and map, prototype and sprite
//! bookkeeping.
pub mod console;
pub mod grid;
pub mod mapgen;
pub mod occupancy;
pub mod prototypes;
pub mod render;
pub mod rsi;
pub mod session;
pub mod smoothing;
pub mod text;
pub mod tiles;
pub mod walls;

pub use session::LocalPlayer;
