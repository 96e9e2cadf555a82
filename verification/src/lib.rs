//! Wang-tile machines: a tile-set data model, a row evolver that lays down
//! successive rows of tiles, and a compiler from a small tape language to
//! tile sets.

pub mod compiler;
pub mod constraint;
pub mod io_buffer;
pub mod mosaic;
pub mod tessera;
pub mod text;
pub mod tiling;
pub mod wmach;
