//! A wave-collapse tile-map solver.
//!
//! Every cell of a bounded 2-D grid starts with the full alphabet of tile
//! labels as its possibility set.  A session repeatedly fixes the cell with
//! the fewest remaining possibilities to one of its labels (chosen by a
//! seedable generator) and then narrows the neighbouring possibility sets to
//! a fixpoint, until every cell is fixed or a contradiction is found.

pub mod cell;
pub mod domain;
pub mod engine;
pub mod grid;
pub mod laws;
pub mod masks;
pub mod model;
pub mod rng;
pub mod tiles;
