//! nobonk: the integer core of a detection-only 2D collision engine.
//!
//! The library holds what the engine decides on whole numbers: layer-mask
//! consent, the tile grids of attached tilemaps, the per-frame broadphase
//! grid with its deduplicated candidate pairs, the frame's user-key index,
//! and the event pipeline's per-pair plan and capped event buffer.
pub mod events;
pub mod grid;
pub mod keys;
pub mod tiles;
pub mod types;

pub use crate::events::{motion_plan, pair_plan, EventBuffer, PairPlan};
pub use crate::grid::CellGrid;
pub use crate::keys::KeyIndex;
pub use crate::tiles::TileGrid;
pub use crate::types::{
    allows_pair, BodyRef, ColKey, EventKind, FrameId, LayerMask, TileMapRef, TileRef, WorldStats,
};
