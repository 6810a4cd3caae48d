//! Conversion of meshes, collision meshes and textures into the binary
//! formats read by a PlayStation 1 engine: `.msh` (visual meshes), `.col`
//! (collision meshes with a bounding volume hierarchy and a navigation graph)
//! and `.txc` (texture collections).
use vstd::prelude::*;

pub mod bytes;
pub mod collision;
pub mod grid_counts;
pub mod grouping;
pub mod helpers;
pub mod materials;
pub mod psx_structs;
pub mod quantize;
pub mod texture_page;
pub mod visual;

use crate::psx_structs::VertexPSX;

verus! {

/// The polygons of one mesh (or one region of a mesh): triangles as three
/// vertices each, quads as four vertices each.
pub struct MeshGridEntry {
    pub triangles: Vec<VertexPSX>,
    pub quads: Vec<VertexPSX>,
}

} // verus!
