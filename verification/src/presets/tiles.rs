//! The ids of the fragments of XYYY.
use vstd::prelude::*;

verus! {

pub const SPACE: usize = 0;
pub const X: usize = 1;
pub const Y: usize = 2;
pub const FLIP_FLOP: usize = 3;
pub const SPINNER: usize = 4;
pub const ROTOR: usize = 5;
pub const GROWER: usize = 6;
pub const SUCKER: usize = 7;
pub const WIRE: usize = 8;

pub const LEAF_COUNT: usize = 8;
pub const TILE_COUNT: usize = LEAF_COUNT + 1;

} // verus!
