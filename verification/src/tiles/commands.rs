//! The commands on the tiles of a map.
pub use crate::cells::commands::cell_single::{MoveCell, SpawnCell};
pub use crate::cells::commands::map::DespawnMap;
