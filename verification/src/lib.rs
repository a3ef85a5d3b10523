//! Filkoll: find the package that owns a file, with fuzzy matching.
//!
//! The library holds the logic: the string interner and its byte layout,
//! the cache file header, the search over a cache, the parsers for the
//! package description and pacman configuration formats, and the building
//! of the index from a files database.
pub mod interner;
pub mod types;
pub mod lookup;
pub mod arch;
pub mod update;
