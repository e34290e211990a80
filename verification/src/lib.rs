//! A verified codec and geometry engine for a sprite-icon container format:
//! chunked raster containers, the textual animation-state grammar embedded in
//! them, spritesheet grid layout, and the pixel transforms that keep the two
//! consistent.
pub mod bytes;
pub mod cache;
pub mod chunk;
pub mod clipboard;
pub mod document;
pub mod errors;
pub mod grammar;
pub mod pixels;
pub mod transform;
pub mod update;

use vstd::prelude::*;

verus! {

} // verus!
