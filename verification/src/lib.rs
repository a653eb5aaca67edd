//! A chunked spatial index for the entities of a `bevy` world.
//!
//! A cell map places entities at integer coordinates of any dimension. It
//! keeps them in chunks, hypercubes of a fixed edge length, which it creates
//! as cells are spawned into them. Commands spawn, despawn, move and swap
//! cells, one at a time or in batches; queries look cells up by coordinate
//! or walk the cells of a box.
pub mod cells;
pub mod prelude;
pub mod tiles;
