//! Order-based selection logic of the zoom focus interpolator: which cursor
//! samples bracket an instant, which zoom segment is active, which click
//! cluster is in force, where the raw focus comes from, and how recorded
//! cursor moves are grouped into clusters. Instants and coordinates are
//! carried as order keys (`keys`): none for a NaN, which compares with
//! nothing, and otherwise the sign-magnitude reading of the bit pattern.
pub mod search;
pub mod sample;
pub mod cluster;
pub mod focus;
pub mod keys;
