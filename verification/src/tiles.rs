//! The cell map under the names by which maps of tiles know it.
pub mod cellquery;
pub mod commands;

pub use crate::cells::coords::{
    calculate_cell_coordinate, calculate_cell_index, calculate_chunk_coordinate,
    calculate_chunk_relative_cell_coordinate,
};
pub use crate::cells::{CellMap, CellMapLabel, Chunk, InChunk};
