//! Lookup of freedesktop icon themes: parsing of `index.theme` files, the
//! choice of theme directories for a requested size, the order in which icon
//! files are probed, the collection of installed themes, and a lookup cache.
pub mod bytes;
pub mod theme;
pub mod paths;
pub mod probe;
pub mod cache;
