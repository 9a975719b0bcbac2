//! The grid backends: a dense, linearly scanned store of named items and an
//! anchor-indexed store addressed by exact location.

pub mod dense_pack;
pub mod map_pack;

pub use dense_pack::DensePack;
pub use map_pack::MapPack;
