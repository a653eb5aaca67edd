//! Looking up the tiles of a map.
pub use crate::cells::cell_query::{CellQuery, CellQueryIter, CellQueryIterMut};
pub use crate::cells::coords::CoordIterator;
