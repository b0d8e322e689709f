//! Bookkeeping core of a Vulkan renderer: a free-list allocator over one
//! mapped device buffer, the tables of meshes and textures that live in it,
//! and the timeline values that order the stages of successive frames.
use vstd::prelude::*;

pub mod accounting;
pub mod buffer;
pub mod frame;
pub mod renderer;

verus! {

} // verus!
