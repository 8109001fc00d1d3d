//! Persistence core of a hex-grid map editor: the live object graph held as an
//! arena, tilesets with their ordered tiles, stable identifiers for durable
//! cross-references, and the versioned map and tileset documents.

pub mod editor;
pub mod map;
pub mod map_format;
pub mod persistence;
pub mod tasks;
pub mod tileset;
pub mod world;
