//! Content-deduplicating sprite dicer: chops sprite textures into units and packs the
//! distinct units into atlas textures.

use vstd::prelude::*;

pub mod dicer;
pub mod models;
pub mod packer;

verus! {

} // verus!
