pub mod connectivity;
pub mod geom;
pub mod partition;
pub mod polygons;
pub mod reach;
pub mod sampler;
pub mod schedule;

use vstd::prelude::*;

verus! {

/// The reserved region identifier meaning "no cell".
pub const BACKGROUND_CELL: u32 = 0xffff_ffff;

} // verus!
