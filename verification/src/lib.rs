//! Bidirectional hash maps.
//!
//! A [`BiMap`] stores a one-to-one relation between two types, and looks keys of either type up in
//! it. Its tables are hopscotch hash tables: a key lies in the neighbourhood of the bucket it hashes
//! to, and keys make room for each other where a neighbourhood is taken.
pub mod bitfield;
pub mod bucket;
pub mod builder;
pub mod hashing;
pub mod laws;
pub mod layout;
pub mod listing;
pub mod lookup;
pub mod map;
pub mod pairing;
pub mod placement;
pub mod relation;
pub mod ring;
pub mod spill;
pub mod table;

pub use builder::BiMapBuilder;
pub use map::BiMap;
