//! Cell-grid spatial index with visibility tracking for a 2-D unit
//! simulation: units move continuously on a map partitioned into fixed-size
//! square cells, and the map maintains, for every unit with a view range,
//! the exact set of other units currently within that range.

use vstd::prelude::*;

pub mod bullet;
pub mod config;
pub mod geom;
pub mod grid;
pub mod map;
pub mod position;
pub mod seqs;
pub mod tank;
pub mod unit;
pub mod view;

verus! {

} // verus!
