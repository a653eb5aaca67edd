//! The names that most users of the library need.
pub use crate::cells::cell_query::{CellItem, CellQuery, CellQueryIter, CellQueryIterMut};
pub use crate::cells::chunk_query::{ChunkItem, ChunkQuery, ChunkQueryIter, ChunkQueryIterMut};
pub use crate::cells::commands::cell_batch::{
    DespawnCellBatch, MoveCellBatch, SpawnCellBatch, SwapCellBatch,
};
pub use crate::cells::commands::cell_single::{DespawnCell, MoveCell, SpawnCell, SwapCell};
pub use crate::cells::commands::chunk_single::{DespawnChunk, SpawnChunk};
pub use crate::cells::commands::map::DespawnMap;
pub use crate::cells::commands::queue::{CellCommand, CellCommands};
pub use crate::cells::commands::{insert_cell, insert_cell_batch, take_cell, take_cells};
pub use crate::cells::coords::{
    calculate_cell_coordinate, calculate_cell_index, calculate_chunk_coordinate,
    calculate_chunk_relative_cell_coordinate, max_cell_index, CoordIterator,
};
pub use crate::cells::world::Entity;
pub use crate::cells::{
    CellCoord, CellIndex, CellMap, CellMapLabel, CellStorage, Chunk, ChunkCoord, InChunk, InMap,
};
