//! An endless world of tiles, kept in chunks and saved in region files.
//!
//! The world is a grid of chunks, and a save is a grid of regions, each of them one file that
//! holds the chunks of a square of the world. [`world::World`] keeps the chunks around an
//! observer in memory: it loads them from the region files, has them made where the save has
//! none, and writes them back when the observer has gone away. [`region::Region`] reads
//! and writes the records of one region file, and [`region_manager::RegionManager`] keeps
//! the regions of a save. [`format`] says what a region file is, and [`laws`] what holds of
//! chunks that are saved and loaded again.
//!
//! The library works on the bytes of region files and leaves it to its user to read them from
//! a disk and to write them there. How a chunk is turned into bytes, and how a new chunk is
//! made, the user says with a [`codec::ChunkCodec`] and a [`codec::ChunkGenerator`].

pub mod bincode_codec;
pub mod cell;
pub mod chunk;
pub mod codec;
pub mod crowd;
pub mod direction;
pub mod dude;
pub mod filename;
pub mod format;
pub mod laws;
pub mod point;
pub mod point_map;
pub mod point_set;
pub mod region;
pub mod region_manager;
pub mod window;
pub mod world;
