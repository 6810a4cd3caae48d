//! The records written to the `.msh`, `.col` and `.txc` files, and their
//! binary encodings.
use vstd::prelude::*;
use vstd::utf8::encode_utf8;

use crate::bytes::{
    concat_map, extend_bytes, le_i16, le_i32, le_u16, le_u32, lemma_concat_map_record, lemma_concat_map_step, pad4,
    pad_to_4, push_i16, push_i32, push_u16, push_u32, push_u8, push_zeros, string_bytes,
    zeros,
};
use crate::collision::{BvhNode, CollTrianglePSX, IVec3};

verus! {

/// A vertex of a visual mesh, in the fixed-point units of the target.
#[derive(Clone, Copy)]
pub struct VertexPSX {
    pub pos_x: i16,
    pub pos_y: i16,
    pub pos_z: i16,
    pub color_r: u8,
    pub color_g: u8,
    pub color_b: u8,
    pub tex_u: u8,
    pub tex_v: u8,
    pub texture_id: u8,
    pub normal_x: i8,
    pub normal_y: i8,
    pub normal_z: i8,
}

/// A vertex of a collision mesh.
#[derive(Clone, Copy)]
pub struct CollVertexPSX {
    pub pos_x: i16,
    pub pos_y: i16,
    pub pos_z: i16,
    pub terrain_id: u16,
}

/// A node of the navigation graph: a position and up to four neighbours
/// (`0xFFFF` marks an unused slot).
pub struct NavGraphNode {
    pub pos_x: i16,
    pub pos_y: i16,
    pub pos_z: i16,
    pub neighbors: [u16; 4],
}

/// A collision mesh: triangles, the hierarchy over them and the navigation graph.
pub struct CollModelPSX {
    pub triangles: Vec<CollTrianglePSX>,
    pub nodes: Vec<BvhNode>,
    pub indices: Vec<u16>,
    pub nav_graph_nodes: Vec<NavGraphNode>,
}

/// A named visual mesh: its vertices are `n_triangles` triangles (three
/// vertices each) followed by `n_quads` quads (four vertices each).
pub struct MeshPSX {
    pub verts: Vec<VertexPSX>,
    pub n_triangles: usize,
    pub n_quads: usize,
    pub name: String,
}

/// A model: a list of meshes.
pub struct ModelPSX {
    pub meshes: Vec<MeshPSX>,
}

/// The header of a mesh in the `.msh` file: where its vertices start, its
/// polygon counts and its bounding box.
#[derive(Clone, Copy)]
pub struct MeshDesc {
    pub vertex_start: u16,
    pub n_triangles: u16,
    pub n_quads: u16,
    pub x_min: i16,
    pub x_max: i16,
    pub y_min: i16,
    pub y_max: i16,
    pub z_min: i16,
    pub z_max: i16,
    pub pad: i16,
}

/// A list of textures with their names.
pub struct TextureCollectionPSX {
    pub texture_cells: Vec<TextureCellPSX>,
    pub texture_names: Vec<String>,
}

/// One texture: palette indices, its palette of 15-bit colours, its size
/// and its average colour.
pub struct TextureCellPSX {
    pub texture_data: Vec<u8>,
    pub palette: Vec<u16>,
    pub texture_width: u8,
    pub texture_height: u8,
    pub avg_color: u32,
}

/// The descriptor of a texture as it is laid out in the `.txc` file.
#[derive(Clone, Copy)]
pub struct TextureCellBinary {
    pub sector_offset_texture: u8,
    pub palette_index: u8,
    pub texture_width: u8,
    pub texture_height: u8,
    pub avg_color: u32,
}

impl VertexPSX {
    /// The 12 bytes of a vertex in the vertex section of a `.msh` file.
    pub open spec fn encoded(self) -> Seq<u8> {
        le_i16(self.pos_x) + le_i16(self.pos_y) + le_i16(self.pos_z) + seq![
            self.color_r,
            self.color_g,
            self.color_b,
            self.tex_u,
            self.tex_v,
            self.texture_id,
        ]
    }

    /// The little-endian bytes of position, colour, texture coordinates and
    /// texture id.
    pub fn get_bytes(&self) -> (bytes: Vec<u8>)
        ensures
            bytes@ == self.encoded(),
            bytes@.len() == 12,
            bytes@.subrange(0, 2) == le_i16(self.pos_x),
            bytes@.subrange(2, 4) == le_i16(self.pos_y),
            bytes@.subrange(4, 6) == le_i16(self.pos_z),
            bytes@[6] == self.color_r,
            bytes@[7] == self.color_g,
            bytes@[8] == self.color_b,
            bytes@[9] == self.tex_u,
            bytes@[10] == self.tex_v,
            bytes@[11] == self.texture_id,
    {
        proof {
            lemma_vertex_fields(*self);
        }
        let mut bytes = Vec::new();
        push_i16(&mut bytes, self.pos_x);
        push_i16(&mut bytes, self.pos_y);
        push_i16(&mut bytes, self.pos_z);
        push_u8(&mut bytes, self.color_r);
        push_u8(&mut bytes, self.color_g);
        push_u8(&mut bytes, self.color_b);
        push_u8(&mut bytes, self.tex_u);
        push_u8(&mut bytes, self.tex_v);
        push_u8(&mut bytes, self.texture_id);
        assert(bytes@ =~= self.encoded());
        bytes
    }
}

impl CollVertexPSX {
    /// The 8 bytes of a collision vertex.
    pub open spec fn encoded(self) -> Seq<u8> {
        le_i16(self.pos_x) + le_i16(self.pos_y) + le_i16(self.pos_z) + le_u16(self.terrain_id)
    }

    /// The little-endian bytes of position and terrain id.
    pub fn get_bytes(&self) -> (bytes: Vec<u8>)
        ensures
            bytes@ == self.encoded(),
            bytes@.len() == 8,
            bytes@.subrange(0, 2) == le_i16(self.pos_x),
            bytes@.subrange(2, 4) == le_i16(self.pos_y),
            bytes@.subrange(4, 6) == le_i16(self.pos_z),
            bytes@.subrange(6, 8) == le_u16(self.terrain_id),
    {
        let mut bytes = Vec::new();
        push_i16(&mut bytes, self.pos_x);
        push_i16(&mut bytes, self.pos_y);
        push_i16(&mut bytes, self.pos_z);
        push_u16(&mut bytes, self.terrain_id);
        assert(bytes@ =~= self.encoded());
        assert(bytes@.subrange(0, 2) =~= le_i16(self.pos_x));
        assert(bytes@.subrange(2, 4) =~= le_i16(self.pos_y));
        assert(bytes@.subrange(4, 6) =~= le_i16(self.pos_z));
        assert(bytes@.subrange(6, 8) =~= le_u16(self.terrain_id));
        bytes
    }
}

/// The fields of a vertex record at their offsets.
pub proof fn lemma_vertex_fields(v: VertexPSX)
    ensures
        v.encoded().len() == 12,
        v.encoded().subrange(0, 2) == le_i16(v.pos_x),
        v.encoded().subrange(2, 4) == le_i16(v.pos_y),
        v.encoded().subrange(4, 6) == le_i16(v.pos_z),
        v.encoded()[6] == v.color_r,
        v.encoded()[7] == v.color_g,
        v.encoded()[8] == v.color_b,
        v.encoded()[9] == v.tex_u,
        v.encoded()[10] == v.tex_v,
        v.encoded()[11] == v.texture_id,
{
    let r = v.encoded();
    assert(r.subrange(0, 2) =~= le_i16(v.pos_x));
    assert(r.subrange(2, 4) =~= le_i16(v.pos_y));
    assert(r.subrange(4, 6) =~= le_i16(v.pos_z));
}

/// A coordinate of a vertex: x for axis 0, y for axis 1, z otherwise.
pub open spec fn axis_pos(v: VertexPSX, axis: int) -> i16 {
    if axis == 0 {
        v.pos_x
    } else if axis == 1 {
        v.pos_y
    } else {
        v.pos_z
    }
}

/// The smallest coordinate along `axis`, or `32767` for no vertices.
pub open spec fn min_pos(vs: Seq<VertexPSX>, axis: int) -> i16
    decreases vs.len(),
{
    if vs.len() == 0 {
        32767
    } else {
        let m = min_pos(vs.drop_last(), axis);
        let p = axis_pos(vs.last(), axis);
        if m <= p {
            m
        } else {
            p
        }
    }
}

/// The largest coordinate along `axis`, or `-32768` for no vertices.
pub open spec fn max_pos(vs: Seq<VertexPSX>, axis: int) -> i16
    decreases vs.len(),
{
    if vs.len() == 0 {
        -32768i16
    } else {
        let m = max_pos(vs.drop_last(), axis);
        let p = axis_pos(vs.last(), axis);
        if m >= p {
            m
        } else {
            p
        }
    }
}

/// The descriptor of a mesh whose vertices start at `vertex_start`.
pub open spec fn mesh_desc_of(m: MeshPSX, vertex_start: int) -> MeshDesc {
    MeshDesc {
        vertex_start: vertex_start as u16,
        n_triangles: m.n_triangles as u16,
        n_quads: m.n_quads as u16,
        x_min: min_pos(m.verts@, 0),
        x_max: max_pos(m.verts@, 0),
        y_min: min_pos(m.verts@, 1),
        y_max: max_pos(m.verts@, 1),
        z_min: min_pos(m.verts@, 2),
        z_max: max_pos(m.verts@, 2),
        pad: 0,
    }
}

/// The vertices of all meshes, one mesh after the other.
pub open spec fn all_verts(meshes: Seq<MeshPSX>) -> Seq<VertexPSX>
    decreases meshes.len(),
{
    if meshes.len() == 0 {
        seq![]
    } else {
        all_verts(meshes.drop_last()) + meshes.last().verts@
    }
}

/// The descriptors of all meshes.
pub open spec fn mesh_descs(meshes: Seq<MeshPSX>) -> Seq<MeshDesc>
    decreases meshes.len(),
{
    if meshes.len() == 0 {
        seq![]
    } else {
        mesh_descs(meshes.drop_last()).push(
            mesh_desc_of(meshes.last(), all_verts(meshes.drop_last()).len() as int),
        )
    }
}

impl MeshDesc {
    /// The 20 bytes of a mesh descriptor (the padding field is written as 0).
    pub open spec fn encoded(self) -> Seq<u8> {
        le_u16(self.vertex_start) + le_u16(self.n_triangles) + le_u16(self.n_quads) + le_i16(
            self.x_min,
        ) + le_i16(self.x_max) + le_i16(self.y_min) + le_i16(self.y_max) + le_i16(self.z_min)
            + le_i16(self.z_max) + le_u16(0)
    }

    fn write_to(&self, out: &mut Vec<u8>)
        ensures
            final(out)@ == old(out)@ + self.encoded(),
    {
        push_u16(out, self.vertex_start);
        push_u16(out, self.n_triangles);
        push_u16(out, self.n_quads);
        push_i16(out, self.x_min);
        push_i16(out, self.x_max);
        push_i16(out, self.y_min);
        push_i16(out, self.y_max);
        push_i16(out, self.z_min);
        push_i16(out, self.z_max);
        push_u16(out, 0u16);
        assert(out@ =~= old(out)@ + self.encoded());
    }
}

pub open spec fn descs_bytes(ds: Seq<MeshDesc>) -> Seq<u8> {
    concat_map(ds, |d: MeshDesc| d.encoded())
}

pub open spec fn verts_bytes(vs: Seq<VertexPSX>) -> Seq<u8> {
    concat_map(vs, |v: VertexPSX| v.encoded())
}

/// The 4 bytes of a vertex normal: three components and a zero.
pub open spec fn normal_bytes(v: VertexPSX) -> Seq<u8> {
    seq![v.normal_x as u8, v.normal_y as u8, v.normal_z as u8, 0u8]
}

pub open spec fn normals_bytes(vs: Seq<VertexPSX>) -> Seq<u8> {
    concat_map(vs, |v: VertexPSX| normal_bytes(v))
}

/// The byte length of a mesh name followed by its UTF-8 bytes.
pub open spec fn name_bytes(m: MeshPSX) -> Seq<u8> {
    le_u32(encode_utf8(m.name@).len() as u32) + encode_utf8(m.name@)
}

pub open spec fn names_bytes(ms: Seq<MeshPSX>) -> Seq<u8> {
    concat_map(ms, |m: MeshPSX| name_bytes(m))
}

/// `s` followed by zeros up to a multiple of four bytes.
pub open spec fn padded(s: Seq<u8>) -> Seq<u8> {
    s + zeros(pad4(s.len()))
}

/// The data section of a `.msh` file up to the end of the (padded) descriptors.
pub open spec fn msh_upto_descs(ms: Seq<MeshPSX>) -> Seq<u8> {
    padded(descs_bytes(mesh_descs(ms)))
}

/// ... up to the end of the (padded) vertices.
pub open spec fn msh_upto_verts(ms: Seq<MeshPSX>) -> Seq<u8> {
    padded(msh_upto_descs(ms) + verts_bytes(all_verts(ms)))
}

/// ... up to the end of the (padded) normals.
pub open spec fn msh_upto_normals(ms: Seq<MeshPSX>) -> Seq<u8> {
    padded(msh_upto_verts(ms) + normals_bytes(all_verts(ms)))
}

/// The whole data section of a `.msh` file: descriptors, vertices, normals, names.
pub open spec fn msh_data(ms: Seq<MeshPSX>) -> Seq<u8> {
    msh_upto_normals(ms) + names_bytes(ms)
}

/// The contents of a `.msh` file: the magic `FMSH`, the mesh count, the
/// offsets (within the data section) of descriptors, vertices, names and
/// normals, two unset light-map offsets, then the data section.
pub open spec fn msh_file(ms: Seq<MeshPSX>) -> Seq<u8> {
    seq![70u8, 77u8, 83u8, 72u8] + le_u32(ms.len() as u32) + le_u32(0) + le_u32(
        msh_upto_descs(ms).len() as u32,
    ) + le_u32(msh_upto_normals(ms).len() as u32) + le_u32(msh_upto_verts(ms).len() as u32)
        + le_u32(0xFFFF_FFFF) + le_u32(0xFFFF_FFFF) + msh_data(ms)
}

impl ModelPSX {
    /// A model without meshes.
    pub fn new() -> (model: ModelPSX)
        ensures
            model.meshes@.len() == 0,
    {
        ModelPSX { meshes: Vec::new() }
    }

    /// The contents of the `.msh` file for this model.
    #[verifier::spinoff_prover]
    #[verifier::rlimit(40)]
    pub fn file_bytes(&self) -> (bytes: Vec<u8>)
        ensures
            bytes@ == msh_file(self.meshes@),
            forall|i: int|
                0 <= i < self.meshes@.len() ==> #[trigger] desc_record_exact(bytes@, self.meshes@, i),
    {
        let ghost ms = self.meshes@;
        // Create binary array of data
        let mut raw_vertex_data = Vec::<VertexPSX>::new();
        let mut mesh_descs_vec = Vec::<MeshDesc>::new();

        // For each submesh, add the vertices to the array, and store the start of each of them
        let mut mi: usize = 0;
        while mi < self.meshes.len()
            invariant
                ms == self.meshes@,
                mi <= ms.len(),
                raw_vertex_data@ == all_verts(ms.take(mi as int)),
                mesh_descs_vec@ == mesh_descs(ms.take(mi as int)),
            decreases ms.len() - mi,
        {
            let mesh = &self.meshes[mi];
            // Find AABB extremes
            let mut x_max: i16 = -32768;
            let mut x_min: i16 = 32767;
            let mut y_max: i16 = -32768;
            let mut y_min: i16 = 32767;
            let mut z_max: i16 = -32768;
            let mut z_min: i16 = 32767;
            let mut k: usize = 0;
            while k < mesh.verts.len()
                invariant
                    k <= mesh.verts.len(),
                    x_min == min_pos(mesh.verts@.take(k as int), 0),
                    x_max == max_pos(mesh.verts@.take(k as int), 0),
                    y_min == min_pos(mesh.verts@.take(k as int), 1),
                    y_max == max_pos(mesh.verts@.take(k as int), 1),
                    z_min == min_pos(mesh.verts@.take(k as int), 2),
                    z_max == max_pos(mesh.verts@.take(k as int), 2),
                decreases mesh.verts.len() - k,
            {
                let vertex = mesh.verts[k];
                assert(mesh.verts@.take(k + 1).drop_last() =~= mesh.verts@.take(k as int));
                if vertex.pos_x > x_max {
                    x_max = vertex.pos_x;
                }
                if vertex.pos_x < x_min {
                    x_min = vertex.pos_x;
                }
                if vertex.pos_y > y_max {
                    y_max = vertex.pos_y;
                }
                if vertex.pos_y < y_min {
                    y_min = vertex.pos_y;
                }
                if vertex.pos_z > z_max {
                    z_max = vertex.pos_z;
                }
                if vertex.pos_z < z_min {
                    z_min = vertex.pos_z;
                }
                k += 1;
            }
            assert(mesh.verts@.take(mesh.verts.len() as int) =~= mesh.verts@);

            mesh_descs_vec.push(
                MeshDesc {
                    vertex_start: raw_vertex_data.len() as u16,
                    n_triangles: mesh.n_triangles as u16,
                    n_quads: mesh.n_quads as u16,
                    x_min,
                    x_max,
                    y_min,
                    y_max,
                    z_min,
                    z_max,
                    pad: 0,
                },
            );
            let ghost before = raw_vertex_data@;
            let mut k: usize = 0;
            while k < mesh.verts.len()
                invariant
                    k <= mesh.verts.len(),
                    raw_vertex_data@ == before + mesh.verts@.take(k as int),
                decreases mesh.verts.len() - k,
            {
                raw_vertex_data.push(mesh.verts[k]);
                assert(mesh.verts@.take(k + 1) =~= mesh.verts@.take(k as int).push(
                    mesh.verts@[k as int],
                ));
                k += 1;
            }
            proof {
                assert(ms.take(mi + 1).drop_last() =~= ms.take(mi as int));
                assert(mesh.verts@.take(mesh.verts.len() as int) =~= mesh.verts@);
            }
            mi += 1;
        }
        proof {
            assert(ms.take(ms.len() as int) =~= ms);
        }

        let mut raw_data = Vec::<u8>::new();

        // Mesh descs
        let mut di: usize = 0;
        while di < mesh_descs_vec.len()
            invariant
                di <= mesh_descs_vec.len(),
                raw_data@ == descs_bytes(mesh_descs_vec@.take(di as int)),
            decreases mesh_descs_vec.len() - di,
        {
            mesh_descs_vec[di].write_to(&mut raw_data);
            proof {
                lemma_concat_map_step(mesh_descs_vec@, |d: MeshDesc| d.encoded(), di as int);
            }
            di += 1;
        }
        assert(mesh_descs_vec@.take(mesh_descs_vec.len() as int) =~= mesh_descs_vec@);

        // Align to word
        pad_to_4(&mut raw_data);

        // Vertex data
        let offset_vertex_data = raw_data.len();
        let ghost before = raw_data@;
        let mut vi: usize = 0;
        while vi < raw_vertex_data.len()
            invariant
                vi <= raw_vertex_data.len(),
                raw_data@ == before + verts_bytes(raw_vertex_data@.take(vi as int)),
            decreases raw_vertex_data.len() - vi,
        {
            let b = raw_vertex_data[vi].get_bytes();
            extend_bytes(&mut raw_data, &b);
            proof {
                lemma_concat_map_step(raw_vertex_data@, |v: VertexPSX| v.encoded(), vi as int);
            }
            vi += 1;
        }
        assert(raw_vertex_data@.take(raw_vertex_data.len() as int) =~= raw_vertex_data@);

        // Align to word
        pad_to_4(&mut raw_data);

        // Normal data
        let offset_vertex_normals = raw_data.len();
        let ghost before = raw_data@;
        let mut vi: usize = 0;
        while vi < raw_vertex_data.len()
            invariant
                vi <= raw_vertex_data.len(),
                raw_data@ == before + normals_bytes(raw_vertex_data@.take(vi as int)),
            decreases raw_vertex_data.len() - vi,
        {
            let vertex = raw_vertex_data[vi];
            push_u8(&mut raw_data, vertex.normal_x as u8);
            push_u8(&mut raw_data, vertex.normal_y as u8);
            push_u8(&mut raw_data, vertex.normal_z as u8);
            push_u8(&mut raw_data, 0u8);
            proof {
                lemma_concat_map_step(raw_vertex_data@, |v: VertexPSX| normal_bytes(v), vi as int);
            }
            vi += 1;
        }
        assert(raw_vertex_data@.take(raw_vertex_data.len() as int) =~= raw_vertex_data@);

        // Align to word
        pad_to_4(&mut raw_data);

        // Mesh names
        let offset_mesh_names = raw_data.len();
        let ghost before = raw_data@;
        let mut mi: usize = 0;
        while mi < self.meshes.len()
            invariant
                ms == self.meshes@,
                mi <= ms.len(),
                raw_data@ == before + names_bytes(ms.take(mi as int)),
            decreases ms.len() - mi,
        {
            let name = string_bytes(&self.meshes[mi].name);
            push_u32(&mut raw_data, name.len() as u32);
            extend_bytes(&mut raw_data, &name);
            proof {
                lemma_concat_map_step(ms, |m: MeshPSX| name_bytes(m), mi as int);
            }
            mi += 1;
        }
        assert(ms.take(ms.len() as int) =~= ms);

        // Write everything
        let mut file = Vec::<u8>::new();
        push_u8(&mut file, 70u8);  // file magic "FMSH"
        push_u8(&mut file, 77u8);
        push_u8(&mut file, 83u8);
        push_u8(&mut file, 72u8);
        push_u32(&mut file, self.meshes.len() as u32);  // n_submeshes
        push_u32(&mut file, 0u32);  // offset_mesh_desc
        push_u32(&mut file, offset_vertex_data as u32);
        push_u32(&mut file, offset_mesh_names as u32);
        push_u32(&mut file, offset_vertex_normals as u32);
        push_u32(&mut file, 0xFFFFFFFFu32);  // offset_lightmap_uv, will be filled by another tool
        push_u32(&mut file, 0xFFFFFFFFu32);  // offset_lightmap_tex
        extend_bytes(&mut file, &raw_data);
        assert(file@ =~= msh_file(ms));
        proof {
            lemma_msh_descs_exact(ms);
        }
        file
    }
}

/// The sections of a `.msh` file start at multiples of four bytes: the
/// offsets written in the header (descriptors, vertices, normals, names) are
/// all aligned, and the 32-byte header keeps them aligned in the file.
pub proof fn lemma_msh_sections_aligned(ms: Seq<MeshPSX>)
    ensures
        msh_upto_descs(ms).len() % 4 == 0,
        msh_upto_verts(ms).len() % 4 == 0,
        msh_upto_normals(ms).len() % 4 == 0,
        msh_file(ms).len() == 32 + msh_data(ms).len(),
{
    lemma_padded(descs_bytes(mesh_descs(ms)));
    lemma_padded(msh_upto_descs(ms) + verts_bytes(all_verts(ms)));
    lemma_padded(msh_upto_verts(ms) + normals_bytes(all_verts(ms)));
    let h = seq![70u8, 77u8, 83u8, 72u8] + le_u32(ms.len() as u32) + le_u32(0) + le_u32(
        msh_upto_descs(ms).len() as u32,
    ) + le_u32(msh_upto_normals(ms).len() as u32) + le_u32(msh_upto_verts(ms).len() as u32)
        + le_u32(0xFFFF_FFFF) + le_u32(0xFFFF_FFFF);
    assert(h.len() == 32);
    assert(msh_file(ms) == h + msh_data(ms));
}

pub(crate) proof fn lemma_min_max_pos(vs: Seq<VertexPSX>, axis: int, j: int)
    requires
        0 <= j < vs.len(),
    ensures
        min_pos(vs, axis) <= axis_pos(vs[j], axis) <= max_pos(vs, axis),
    decreases vs.len(),
{
    if j < vs.len() - 1 {
        lemma_min_max_pos(vs.drop_last(), axis, j);
    }
}

/// The smallest and the largest coordinate along an axis are those of some vertex.
pub(crate) proof fn lemma_min_max_attained(vs: Seq<VertexPSX>, axis: int)
    requires
        vs.len() > 0,
    ensures
        exists|j: int| 0 <= j < vs.len() && axis_pos(#[trigger] vs[j], axis) == min_pos(vs, axis),
        exists|j: int| 0 <= j < vs.len() && axis_pos(#[trigger] vs[j], axis) == max_pos(vs, axis),
    decreases vs.len(),
{
    let n = vs.len() - 1;
    if n == 0 {
        assert(vs.drop_last().len() == 0);
        assert(min_pos(vs.drop_last(), axis) == 32767);
        assert(max_pos(vs.drop_last(), axis) == -32768);
        assert(vs.last() == vs[0]);
        assert(axis_pos(vs[0], axis) == min_pos(vs, axis));
        assert(axis_pos(vs[0], axis) == max_pos(vs, axis));
    } else {
        let pre = vs.drop_last();
        lemma_min_max_attained(pre, axis);
        if min_pos(pre, axis) <= axis_pos(vs[n], axis) {
            let j = choose|j: int| 0 <= j < pre.len() && axis_pos(#[trigger] pre[j], axis) == min_pos(pre, axis);
            assert(vs[j] == pre[j]);
        } else {
            assert(axis_pos(vs[n], axis) == min_pos(vs, axis));
        }
        if max_pos(pre, axis) >= axis_pos(vs[n], axis) {
            let j = choose|j: int| 0 <= j < pre.len() && axis_pos(#[trigger] pre[j], axis) == max_pos(pre, axis);
            assert(vs[j] == pre[j]);
        } else {
            assert(axis_pos(vs[n], axis) == max_pos(vs, axis));
        }
    }
}

/// A descriptor's box is the exact extent of `vs`: it holds every vertex,
/// and when there are vertices each of its six bounds is a coordinate of one.
pub open spec fn desc_box_is_extent(d: MeshDesc, vs: Seq<VertexPSX>) -> bool {
    &&& forall|j: int|
        0 <= j < vs.len() ==> d.x_min <= #[trigger] vs[j].pos_x <= d.x_max && d.y_min
            <= vs[j].pos_y <= d.y_max && d.z_min <= vs[j].pos_z <= d.z_max
    &&& vs.len() > 0 ==> {
        &&& exists|j: int| 0 <= j < vs.len() && #[trigger] vs[j].pos_x == d.x_min
        &&& exists|j: int| 0 <= j < vs.len() && #[trigger] vs[j].pos_x == d.x_max
        &&& exists|j: int| 0 <= j < vs.len() && #[trigger] vs[j].pos_y == d.y_min
        &&& exists|j: int| 0 <= j < vs.len() && #[trigger] vs[j].pos_y == d.y_max
        &&& exists|j: int| 0 <= j < vs.len() && #[trigger] vs[j].pos_z == d.z_min
        &&& exists|j: int| 0 <= j < vs.len() && #[trigger] vs[j].pos_z == d.z_max
    }
}

proof fn lemma_all_verts_take(ms: Seq<MeshPSX>, i: int)
    requires
        0 <= i < ms.len(),
    ensures
        all_verts(ms.take(i + 1)) == all_verts(ms.take(i)) + ms[i].verts@,
        mesh_descs(ms.take(i + 1)) == mesh_descs(ms.take(i)).push(
            mesh_desc_of(ms[i], all_verts(ms.take(i)).len() as int),
        ),
{
    assert(ms.take(i + 1).drop_last() =~= ms.take(i));
}

proof fn lemma_all_verts_prefix(ms: Seq<MeshPSX>, i: int)
    requires
        0 <= i <= ms.len(),
    ensures
        all_verts(ms).len() >= all_verts(ms.take(i)).len(),
        all_verts(ms).subrange(0, all_verts(ms.take(i)).len() as int) == all_verts(ms.take(i)),
        mesh_descs(ms).len() == ms.len(),
        mesh_descs(ms.take(i)) == mesh_descs(ms).take(i),
    decreases ms.len() - i,
{
    if i < ms.len() {
        lemma_all_verts_prefix(ms, i + 1);
        lemma_all_verts_take(ms, i);
        let a = all_verts(ms.take(i));
        let b = all_verts(ms.take(i + 1));
        assert(b.subrange(0, a.len() as int) =~= a);
        assert(all_verts(ms).subrange(0, a.len() as int) =~= b.subrange(0, a.len() as int));
        assert(mesh_descs(ms).take(i) =~= mesh_descs(ms).take(i + 1).take(i));
        lemma_descs_len(ms.take(i));
        assert(mesh_descs(ms.take(i + 1)).take(i) =~= mesh_descs(ms.take(i)));
    } else {
        assert(ms.take(i) =~= ms);
        lemma_descs_len(ms);
        assert(mesh_descs(ms).take(i) =~= mesh_descs(ms));
    }
}

proof fn lemma_descs_len(ms: Seq<MeshPSX>)
    ensures
        mesh_descs(ms).len() == ms.len(),
    decreases ms.len(),
{
    if ms.len() > 0 {
        lemma_descs_len(ms.drop_last());
    }
}

/// Mesh `i` of a model: its descriptor records where its vertices start in
/// the vertex section (the number of vertices before it, modulo 2^16), and
/// its vertices lie there in order; its descriptor's box holds each of them,
/// and each bound of the box is a coordinate of one of them.
pub proof fn lemma_mesh_desc(ms: Seq<MeshPSX>, i: int)
    requires
        0 <= i < ms.len(),
    ensures
        ({
            let start = all_verts(ms.take(i)).len() as int;
            let d = mesh_descs(ms)[i];
            &&& d.vertex_start == start as u16
            &&& d.n_triangles == ms[i].n_triangles as u16
            &&& d.n_quads == ms[i].n_quads as u16
            &&& all_verts(ms).subrange(start, start + ms[i].verts@.len()) == ms[i].verts@
            &&& forall|j: int|
                0 <= j < ms[i].verts@.len() ==> d.x_min <= #[trigger] ms[i].verts@[j].pos_x
                    <= d.x_max && d.y_min <= ms[i].verts@[j].pos_y <= d.y_max && d.z_min
                    <= ms[i].verts@[j].pos_z <= d.z_max
            &&& desc_box_is_extent(d, ms[i].verts@)
        }),
{
    lemma_all_verts_take(ms, i);
    lemma_all_verts_prefix(ms, i + 1);
    lemma_descs_len(ms.take(i));
    let start = all_verts(ms.take(i)).len() as int;
    let b = all_verts(ms.take(i + 1));
    assert(mesh_descs(ms)[i] == mesh_descs(ms.take(i + 1))[i]);
    assert(all_verts(ms).subrange(start, start + ms[i].verts@.len()) =~= b.subrange(
        start,
        start + ms[i].verts@.len(),
    ));
    assert(b.subrange(start, start + ms[i].verts@.len()) =~= ms[i].verts@);
    assert forall|j: int| 0 <= j < ms[i].verts@.len() implies {
        let d = mesh_descs(ms)[i];
        d.x_min <= #[trigger] ms[i].verts@[j].pos_x <= d.x_max && d.y_min <= ms[i].verts@[j].pos_y
            <= d.y_max && d.z_min <= ms[i].verts@[j].pos_z <= d.z_max
    } by {
        lemma_min_max_pos(ms[i].verts@, 0, j);
        lemma_min_max_pos(ms[i].verts@, 1, j);
        lemma_min_max_pos(ms[i].verts@, 2, j);
    }
    let vs = ms[i].verts@;
    let d = mesh_descs(ms)[i];
    if vs.len() > 0 {
        lemma_min_max_attained(vs, 0);
        lemma_min_max_attained(vs, 1);
        lemma_min_max_attained(vs, 2);
        let a = choose|j: int| 0 <= j < vs.len() && axis_pos(#[trigger] vs[j], 0) == min_pos(vs, 0);
        assert(vs[a].pos_x == d.x_min);
        let a = choose|j: int| 0 <= j < vs.len() && axis_pos(#[trigger] vs[j], 0) == max_pos(vs, 0);
        assert(vs[a].pos_x == d.x_max);
        let a = choose|j: int| 0 <= j < vs.len() && axis_pos(#[trigger] vs[j], 1) == min_pos(vs, 1);
        assert(vs[a].pos_y == d.y_min);
        let a = choose|j: int| 0 <= j < vs.len() && axis_pos(#[trigger] vs[j], 1) == max_pos(vs, 1);
        assert(vs[a].pos_y == d.y_max);
        let a = choose|j: int| 0 <= j < vs.len() && axis_pos(#[trigger] vs[j], 2) == min_pos(vs, 2);
        assert(vs[a].pos_z == d.z_min);
        let a = choose|j: int| 0 <= j < vs.len() && axis_pos(#[trigger] vs[j], 2) == max_pos(vs, 2);
        assert(vs[a].pos_z == d.z_max);
    }
}

/// Descriptor `i` of a `.msh` file is the 20-byte record at 20i bytes past
/// the 32-byte header.
pub proof fn lemma_msh_desc_record(ms: Seq<MeshPSX>, i: int)
    requires
        0 <= i < ms.len(),
    ensures
        32 + 20 * i + 20 <= msh_file(ms).len(),
        msh_file(ms).subrange(32 + 20 * i, 32 + 20 * i + 20) == mesh_descs(ms)[i].encoded(),
{
    let g = |d: MeshDesc| d.encoded();
    assert forall|d: MeshDesc| #[trigger] g(d).len() == 20 by {}
    lemma_descs_len(ms);
    lemma_concat_map_record(mesh_descs(ms), g, 20, i);
    lemma_msh_sections_aligned(ms);
    let c = descs_bytes(mesh_descs(ms));
    let f = msh_file(ms);
    let d = msh_data(ms);
    assert(c.len() <= msh_upto_descs(ms).len() <= msh_upto_verts(ms).len() <= msh_upto_normals(ms).len());
    assert forall|j: int| 0 <= j < c.len() implies f[32 + j] == #[trigger] c[j] by {
        assert(msh_upto_descs(ms)[j] == c[j]);
        assert(msh_upto_verts(ms)[j] == c[j]);
        assert(msh_upto_normals(ms)[j] == c[j]);
        assert(d[j] == c[j]);
        lemma_msh_file_data(ms, j);
    }
    assert(f.subrange(32 + 20 * i, 32 + 20 * i + 20) =~= c.subrange(20 * i, 20 * i + 20));
}

/// A descriptor record of a `.msh` file that gives mesh `i`'s first vertex,
/// its counts, and the exact extent of its vertices.
pub open spec fn desc_record_exact(f: Seq<u8>, ms: Seq<MeshPSX>, i: int) -> bool {
    &&& 32 + 20 * i + 20 <= f.len()
    &&& exists|d: MeshDesc|
        #![trigger d.encoded()]
        f.subrange(32 + 20 * i, 32 + 20 * i + 20) == d.encoded() && d.vertex_start == all_verts(
            ms.take(i),
        ).len() as u16 && d.n_triangles == ms[i].n_triangles as u16 && d.n_quads
            == ms[i].n_quads as u16 && desc_box_is_extent(d, ms[i].verts@)
}

/// Each descriptor record of a `.msh` file gives its mesh's first vertex,
/// its counts, and the exact extent of its vertices.
pub proof fn lemma_msh_descs_exact(ms: Seq<MeshPSX>)
    ensures
        forall|i: int| 0 <= i < ms.len() ==> #[trigger] desc_record_exact(msh_file(ms), ms, i),
{
    assert forall|i: int| 0 <= i < ms.len() implies #[trigger] desc_record_exact(msh_file(ms), ms, i) by {
        lemma_msh_desc_exact(ms, i);
    }
}

proof fn lemma_msh_desc_exact(ms: Seq<MeshPSX>, i: int)
    requires
        0 <= i < ms.len(),
    ensures
        desc_record_exact(msh_file(ms), ms, i),
{
    lemma_msh_desc_record(ms, i);
    lemma_mesh_desc(ms, i);
    let d = mesh_descs(ms)[i];
    assert(msh_file(ms).subrange(32 + 20 * i, 32 + 20 * i + 20) == d.encoded());
}

/// Reading the vertex and normal sections of a `.msh` file gives back the
/// vertices of all meshes in order: vertex `j` is the 12-byte record at 12j
/// bytes into the vertex section (position x, y, z in two bytes each, then
/// colour, texture coordinates and texture id, a byte each), and its normal
/// is the 4-byte record at 4j bytes into the normal section (x, y, z, 0).
#[verifier::rlimit(40)]
pub proof fn lemma_msh_vertex_records(ms: Seq<MeshPSX>, j: int)
    requires
        0 <= j < all_verts(ms).len(),
    ensures
        ({
            let f = msh_file(ms);
            let v = all_verts(ms)[j];
            let b = 32 + msh_upto_descs(ms).len() + 12 * j;
            let bn = 32 + msh_upto_verts(ms).len() + 4 * j;
            &&& b + 12 <= f.len()
            &&& f.subrange(b, b + 2) == le_i16(v.pos_x)
            &&& f.subrange(b + 2, b + 4) == le_i16(v.pos_y)
            &&& f.subrange(b + 4, b + 6) == le_i16(v.pos_z)
            &&& f[b + 6] == v.color_r
            &&& f[b + 7] == v.color_g
            &&& f[b + 8] == v.color_b
            &&& f[b + 9] == v.tex_u
            &&& f[b + 10] == v.tex_v
            &&& f[b + 11] == v.texture_id
            &&& bn + 4 <= f.len()
            &&& f[bn] == v.normal_x as u8
            &&& f[bn + 1] == v.normal_y as u8
            &&& f[bn + 2] == v.normal_z as u8
            &&& f[bn + 3] == 0
        }),
{
    let vs = all_verts(ms);
    let v = vs[j];
    let f = msh_file(ms);
    let d = msh_data(ms);
    let a = msh_upto_descs(ms);
    let w = msh_upto_verts(ms);
    let o = msh_upto_normals(ms);
    lemma_msh_sections_aligned(ms);
    let g = |x: VertexPSX| x.encoded();
    assert forall|x: VertexPSX| #[trigger] g(x).len() == 12 by {}
    lemma_concat_map_record(vs, g, 12, j);
    let h = |x: VertexPSX| normal_bytes(x);
    assert forall|x: VertexPSX| #[trigger] h(x).len() == 4 by {}
    lemma_concat_map_record(vs, h, 4, j);
    let cv = verts_bytes(vs);
    let cn = normals_bytes(vs);
    let rec = v.encoded();
    let b = 32 + a.len() + 12 * j;
    let bn = 32 + w.len() + 4 * j;
    assert forall|k: int| 0 <= k < 12 implies f[b + k] == #[trigger] rec[k] by {
        assert(cv.subrange(12 * j, 12 * j + 12)[k] == cv[12 * j + k]);
        assert(w[a.len() + 12 * j + k] == cv[12 * j + k]);
        assert(o[a.len() + 12 * j + k] == cv[12 * j + k]);
        assert(d[a.len() + 12 * j + k] == cv[12 * j + k]);
        lemma_msh_file_data(ms, a.len() + 12 * j + k);
    }
    assert forall|k: int| 0 <= k < 4 implies f[bn + k] == #[trigger] normal_bytes(v)[k] by {
        assert(cn.subrange(4 * j, 4 * j + 4)[k] == cn[4 * j + k]);
        assert(o[w.len() + 4 * j + k] == cn[4 * j + k]);
        assert(d[w.len() + 4 * j + k] == cn[4 * j + k]);
        lemma_msh_file_data(ms, w.len() + 4 * j + k);
    }
    lemma_vertex_record_at(f, b, v);
    lemma_vertex_fields(v);
    assert(f[bn] == normal_bytes(v)[0]);
    assert(f[bn + 1] == normal_bytes(v)[1]);
    assert(f[bn + 2] == normal_bytes(v)[2]);
    assert(f[bn + 3] == normal_bytes(v)[3]);
}

proof fn lemma_msh_file_data(ms: Seq<MeshPSX>, j: int)
    requires
        0 <= j < msh_data(ms).len(),
    ensures
        msh_file(ms)[32 + j] == msh_data(ms)[j],
{
    lemma_msh_sections_aligned(ms);
    let h = seq![70u8, 77u8, 83u8, 72u8] + le_u32(ms.len() as u32) + le_u32(0) + le_u32(
        msh_upto_descs(ms).len() as u32,
    ) + le_u32(msh_upto_normals(ms).len() as u32) + le_u32(msh_upto_verts(ms).len() as u32)
        + le_u32(0xFFFF_FFFF) + le_u32(0xFFFF_FFFF);
    assert(h.len() == 32);
    assert(msh_file(ms) == h + msh_data(ms));
}

/// A record of 12 bytes found at offset `b` of `f`, read field by field.
proof fn lemma_vertex_record_at(f: Seq<u8>, b: int, v: VertexPSX)
    requires
        0 <= b,
        b + 12 <= f.len(),
        forall|j: int| 0 <= j < 12 ==> f[b + j] == #[trigger] v.encoded()[j],
    ensures
        f.subrange(b, b + 2) == v.encoded().subrange(0, 2),
        f.subrange(b + 2, b + 4) == v.encoded().subrange(2, 4),
        f.subrange(b + 4, b + 6) == v.encoded().subrange(4, 6),
        f[b + 6] == v.encoded()[6],
        f[b + 7] == v.encoded()[7],
        f[b + 8] == v.encoded()[8],
        f[b + 9] == v.encoded()[9],
        f[b + 10] == v.encoded()[10],
        f[b + 11] == v.encoded()[11],
{
    lemma_vertex_fields(v);
    assert(f.subrange(b, b + 2) =~= v.encoded().subrange(0, 2));
    assert(f.subrange(b + 2, b + 4) =~= v.encoded().subrange(2, 4));
    assert(f.subrange(b + 4, b + 6) =~= v.encoded().subrange(4, 6));
}

/// A record of 28 bytes found at offset `b` of `f`, read field by field.
proof fn lemma_node_record_at(f: Seq<u8>, b: int, n: BvhNode)
    requires
        0 <= b,
        b + 28 <= f.len(),
        forall|j: int| 0 <= j < 28 ==> f[b + j] == #[trigger] bvh_node_bytes(n)[j],
    ensures
        f.subrange(b, b + 4) == bvh_node_bytes(n).subrange(0, 4),
        f.subrange(b + 4, b + 8) == bvh_node_bytes(n).subrange(4, 8),
        f.subrange(b + 8, b + 12) == bvh_node_bytes(n).subrange(8, 12),
        f.subrange(b + 12, b + 16) == bvh_node_bytes(n).subrange(12, 16),
        f.subrange(b + 16, b + 20) == bvh_node_bytes(n).subrange(16, 20),
        f.subrange(b + 20, b + 24) == bvh_node_bytes(n).subrange(20, 24),
        f.subrange(b + 24, b + 26) == bvh_node_bytes(n).subrange(24, 26),
        f.subrange(b + 26, b + 28) == bvh_node_bytes(n).subrange(26, 28),
{
    lemma_bvh_node_fields(n);
    assert(f.subrange(b, b + 4) =~= bvh_node_bytes(n).subrange(0, 4));
    assert(f.subrange(b + 4, b + 8) =~= bvh_node_bytes(n).subrange(4, 8));
    assert(f.subrange(b + 8, b + 12) =~= bvh_node_bytes(n).subrange(8, 12));
    assert(f.subrange(b + 12, b + 16) =~= bvh_node_bytes(n).subrange(12, 16));
    assert(f.subrange(b + 16, b + 20) =~= bvh_node_bytes(n).subrange(16, 20));
    assert(f.subrange(b + 20, b + 24) =~= bvh_node_bytes(n).subrange(20, 24));
    assert(f.subrange(b + 24, b + 26) =~= bvh_node_bytes(n).subrange(24, 26));
    assert(f.subrange(b + 26, b + 28) =~= bvh_node_bytes(n).subrange(26, 28));
}

/// A record of 48 bytes found at offset `b` of `f`, read field by field.
proof fn lemma_tri_record_at(f: Seq<u8>, b: int, t: CollTrianglePSX)
    requires
        0 <= b,
        b + 48 <= f.len(),
        forall|j: int| 0 <= j < 48 ==> f[b + j] == #[trigger] coll_tri_bytes(t)[j],
    ensures
        f.subrange(b, b + 4) == coll_tri_bytes(t).subrange(0, 4),
        f.subrange(b + 4, b + 8) == coll_tri_bytes(t).subrange(4, 8),
        f.subrange(b + 8, b + 12) == coll_tri_bytes(t).subrange(8, 12),
        f.subrange(b + 12, b + 16) == coll_tri_bytes(t).subrange(12, 16),
        f.subrange(b + 16, b + 20) == coll_tri_bytes(t).subrange(16, 20),
        f.subrange(b + 20, b + 24) == coll_tri_bytes(t).subrange(20, 24),
        f.subrange(b + 24, b + 28) == coll_tri_bytes(t).subrange(24, 28),
        f.subrange(b + 28, b + 32) == coll_tri_bytes(t).subrange(28, 32),
        f.subrange(b + 32, b + 36) == coll_tri_bytes(t).subrange(32, 36),
        f.subrange(b + 36, b + 40) == coll_tri_bytes(t).subrange(36, 40),
        f.subrange(b + 40, b + 44) == coll_tri_bytes(t).subrange(40, 44),
        f.subrange(b + 44, b + 48) == coll_tri_bytes(t).subrange(44, 48),
{
    lemma_coll_tri_fields(t);
    assert(f.subrange(b, b + 4) =~= coll_tri_bytes(t).subrange(0, 4));
    assert(f.subrange(b + 4, b + 8) =~= coll_tri_bytes(t).subrange(4, 8));
    assert(f.subrange(b + 8, b + 12) =~= coll_tri_bytes(t).subrange(8, 12));
    assert(f.subrange(b + 12, b + 16) =~= coll_tri_bytes(t).subrange(12, 16));
    assert(f.subrange(b + 16, b + 20) =~= coll_tri_bytes(t).subrange(16, 20));
    assert(f.subrange(b + 20, b + 24) =~= coll_tri_bytes(t).subrange(20, 24));
    assert(f.subrange(b + 24, b + 28) =~= coll_tri_bytes(t).subrange(24, 28));
    assert(f.subrange(b + 28, b + 32) =~= coll_tri_bytes(t).subrange(28, 32));
    assert(f.subrange(b + 32, b + 36) =~= coll_tri_bytes(t).subrange(32, 36));
    assert(f.subrange(b + 36, b + 40) =~= coll_tri_bytes(t).subrange(36, 40));
    assert(f.subrange(b + 40, b + 44) =~= coll_tri_bytes(t).subrange(40, 44));
    assert(f.subrange(b + 44, b + 48) =~= coll_tri_bytes(t).subrange(44, 48));
}

/// A record of 14 bytes found at offset `b` of `f`, read field by field.
proof fn lemma_nav_record_at(f: Seq<u8>, b: int, n: NavGraphNode)
    requires
        0 <= b,
        b + 14 <= f.len(),
        forall|j: int| 0 <= j < 14 ==> f[b + j] == #[trigger] nav_node_bytes(n)[j],
    ensures
        f.subrange(b, b + 2) == nav_node_bytes(n).subrange(0, 2),
        f.subrange(b + 2, b + 4) == nav_node_bytes(n).subrange(2, 4),
        f.subrange(b + 4, b + 6) == nav_node_bytes(n).subrange(4, 6),
        f.subrange(b + 6, b + 8) == nav_node_bytes(n).subrange(6, 8),
        f.subrange(b + 8, b + 10) == nav_node_bytes(n).subrange(8, 10),
        f.subrange(b + 10, b + 12) == nav_node_bytes(n).subrange(10, 12),
        f.subrange(b + 12, b + 14) == nav_node_bytes(n).subrange(12, 14),
{
    lemma_nav_node_fields(n);
    assert(f.subrange(b, b + 2) =~= nav_node_bytes(n).subrange(0, 2));
    assert(f.subrange(b + 2, b + 4) =~= nav_node_bytes(n).subrange(2, 4));
    assert(f.subrange(b + 4, b + 6) =~= nav_node_bytes(n).subrange(4, 6));
    assert(f.subrange(b + 6, b + 8) =~= nav_node_bytes(n).subrange(6, 8));
    assert(f.subrange(b + 8, b + 10) =~= nav_node_bytes(n).subrange(8, 10));
    assert(f.subrange(b + 10, b + 12) =~= nav_node_bytes(n).subrange(10, 12));
    assert(f.subrange(b + 12, b + 14) =~= nav_node_bytes(n).subrange(12, 14));
}

/// `x` rounded up to a multiple of 2048 (one CD sector).
pub open spec fn round_up_2048(x: int) -> int {
    ((x + 2047) / 2048) * 2048
}

/// The texture section of a `.txc` file: each texture's data starts at the
/// next multiple of 2048 bytes, the gap filled with zeros.
pub open spec fn tex_blob(cells: Seq<TextureCellPSX>) -> Seq<u8>
    decreases cells.len(),
{
    if cells.len() == 0 {
        seq![]
    } else {
        let prev = tex_blob(cells.drop_last());
        prev + zeros((round_up_2048(prev.len() as int) - prev.len()) as nat)
            + cells.last().texture_data@
    }
}

/// The 8-byte descriptor of texture `i`: its sector within the texture
/// section, its palette index, width, height and average colour.
pub open spec fn cell_desc_bytes(cells: Seq<TextureCellPSX>, i: int) -> Seq<u8> {
    let start = round_up_2048(tex_blob(cells.take(i)).len() as int);
    seq![
        (start / 2048) as u8,
        i as u8,
        cells[i].texture_width,
        cells[i].texture_height,
    ] + le_u32(cells[i].avg_color)
}

/// The descriptors of textures `0..n`.
pub open spec fn cell_descs(cells: Seq<TextureCellPSX>, n: int) -> Seq<u8>
    decreases n,
{
    if n <= 0 {
        seq![]
    } else {
        cell_descs(cells, n - 1) + cell_desc_bytes(cells, n - 1)
    }
}

pub open spec fn palette_bytes(p: Seq<u16>) -> Seq<u8> {
    concat_map(p, |c: u16| le_u16(c))
}

pub open spec fn palettes_bytes(cells: Seq<TextureCellPSX>) -> Seq<u8> {
    concat_map(cells, |c: TextureCellPSX| palette_bytes(c.palette@))
}

/// The zeros between the palettes and the texture section, so that the
/// texture section starts on a multiple of 2048 bytes from the file start
/// (the header is 24 bytes long).
pub open spec fn txc_gap(cells: Seq<TextureCellPSX>) -> int {
    let end = (24 + cell_descs(cells, cells.len() as int).len() + palettes_bytes(cells).len()) as int;
    round_up_2048(end) - end
}

/// The contents of a `.txc` file: the magic `FTXC`, the texture count, the
/// offsets (after the header) of descriptors, palettes and texture section,
/// an unset name-table offset, then the sections themselves.
pub open spec fn txc_file(cells: Seq<TextureCellPSX>) -> Seq<u8> {
    let d = cell_descs(cells, cells.len() as int);
    let p = palettes_bytes(cells);
    seq![70u8, 84u8, 88u8, 67u8] + le_u32(cells.len() as u32) + le_u32(0) + le_u32(d.len() as u32)
        + le_u32((d.len() + p.len() + txc_gap(cells)) as u32) + le_u32(0) + d + p + zeros(
        txc_gap(cells) as nat,
    ) + tex_blob(cells)
}

/// The space the file needs, per texture: descriptor, palette, data and
/// alignment.
pub open spec fn txc_size_bound(cells: Seq<TextureCellPSX>) -> int
    decreases cells.len(),
{
    if cells.len() == 0 {
        0
    } else {
        txc_size_bound(cells.drop_last()) + 8 + 2 * cells.last().palette@.len()
            + cells.last().texture_data@.len() + 2048
    }
}

proof fn lemma_round_up(x: int)
    requires
        x >= 0,
    ensures
        x <= round_up_2048(x) <= x + 2047,
        round_up_2048(x) % 2048 == 0,
{
    assert(((x + 2047) / 2048) * 2048 <= x + 2047) by (nonlinear_arith)
        requires
            x >= 0,
    ;
    assert(((x + 2047) / 2048) * 2048 >= x) by (nonlinear_arith)
        requires
            x >= 0,
    ;
    assert((((x + 2047) / 2048) * 2048) % 2048 == 0) by (nonlinear_arith);
}

proof fn lemma_txc_sizes(cells: Seq<TextureCellPSX>, n: int)
    requires
        0 <= n <= cells.len(),
    ensures
        cell_descs(cells, n).len() == 8 * n,
        palettes_bytes(cells.take(n)).len() + tex_blob(cells.take(n)).len() + 8 * n
            <= txc_size_bound(cells.take(n)),
    decreases n,
{
    if n > 0 {
        lemma_txc_sizes(cells, n - 1);
        assert(cells.take(n).drop_last() =~= cells.take(n - 1));
        lemma_palette_len(cells[n - 1].palette@);
        lemma_concat_map_step(cells, |c: TextureCellPSX| palette_bytes(c.palette@), n - 1);
        lemma_round_up(tex_blob(cells.take(n - 1)).len() as int);
    }
}

proof fn lemma_palette_len(p: Seq<u16>)
    ensures
        palette_bytes(p).len() == 2 * p.len(),
    decreases p.len(),
{
    if p.len() > 0 {
        lemma_palette_len(p.drop_last());
    }
}

impl TextureCollectionPSX {
    /// A collection without textures.
    pub fn new() -> (txc: Self)
        ensures
            txc.texture_cells@.len() == 0,
            txc.texture_names@.len() == 0,
    {
        TextureCollectionPSX { texture_cells: Vec::new(), texture_names: Vec::new() }
    }

    /// Appends descriptor, palette and (sector-aligned) data of texture `i`.
    fn write_cell(
        cells: &Vec<TextureCellPSX>,
        i: usize,
        bin_texture_cell_descs: &mut Vec<u8>,
        bin_palettes: &mut Vec<u8>,
        bin_texture_data: &mut Vec<u8>,
    )
        requires
            i < cells.len(),
            txc_size_bound(cells@) <= 0xFFFF_0000,
            old(bin_texture_cell_descs)@ == cell_descs(cells@, i as int),
            old(bin_palettes)@ == palettes_bytes(cells@.take(i as int)),
            old(bin_texture_data)@ == tex_blob(cells@.take(i as int)),
        ensures
            final(bin_texture_cell_descs)@ == cell_descs(cells@, i + 1),
            final(bin_palettes)@ == palettes_bytes(cells@.take(i + 1)),
            final(bin_texture_data)@ == tex_blob(cells@.take(i + 1)),
    {
        let ghost cs = cells@;
        let cell = &cells[i];
        proof {
            lemma_txc_sizes(cs, i as int);
            lemma_size_bound_mono(cs, i as int);
            assert(cs.take(i + 1).drop_last() =~= cs.take(i as int));
        }
        // Palettes
        let ghost pal_before = bin_palettes@;
        let mut k: usize = 0;
        while k < cell.palette.len()
            invariant
                k <= cell.palette.len(),
                bin_palettes@ == pal_before + palette_bytes(cell.palette@.take(k as int)),
            decreases cell.palette.len() - k,
        {
            push_u16(bin_palettes, cell.palette[k]);
            proof {
                lemma_concat_map_step(cell.palette@, |c: u16| le_u16(c), k as int);
            }
            k += 1;
        }
        proof {
            assert(cell.palette@.take(cell.palette.len() as int) =~= cell.palette@);
            lemma_concat_map_step(cs, |c: TextureCellPSX| palette_bytes(c.palette@), i as int);
        }

        // Texture data
        // It's aligned in such a way that >=64x64 textures are aligned to CD sectors,
        // and anything lower will align to a subdivision of the CD sector
        let grid_align: u32 = 2048;

        // Determine the number of bytes to add to align the texture data
        let curr_position = bin_texture_data.len() as u32;
        proof {
            lemma_round_up(curr_position as int);
            lemma_align_mask(curr_position);
        }
        let n_bytes_to_add = ((curr_position + (grid_align - 1)) & !(grid_align - 1))
            - curr_position;

        // Pad to this align
        push_zeros(bin_texture_data, n_bytes_to_add as usize);

        // Add the texture data to the binary array
        extend_bytes(bin_texture_data, &cell.texture_data);

        let ghost desc_before = bin_texture_cell_descs@;
        // Write texture offset
        push_u8(bin_texture_cell_descs, ((curr_position + n_bytes_to_add) / 2048) as u8);
        // Write palette index
        push_u8(bin_texture_cell_descs, i as u8);
        // Write texture dimensions
        push_u8(bin_texture_cell_descs, cell.texture_width);
        push_u8(bin_texture_cell_descs, cell.texture_height);
        // Write average color
        push_u32(bin_texture_cell_descs, cell.avg_color);
        proof {
            assert(bin_texture_cell_descs@ =~= desc_before + cell_desc_bytes(cs, i as int));
            assert(bin_texture_data@ =~= tex_blob(cs.take(i + 1)));
        }
    }

    /// The contents of the `.txc` file for this collection.
    #[verifier::spinoff_prover]
    #[verifier::rlimit(40)]
    pub fn file_bytes(&self) -> (bytes: Vec<u8>)
        requires
            txc_size_bound(self.texture_cells@) <= 0xFFFF_0000,
        ensures
            bytes@ == txc_file(self.texture_cells@),
    {
        let ghost cells = self.texture_cells@;
        // Create binary data buffers for each part
        let mut bin_texture_cell_descs: Vec<u8> = Vec::new();
        let mut bin_palettes: Vec<u8> = Vec::new();
        let mut bin_texture_data: Vec<u8> = Vec::new();

        // Populate these buffers
        let mut i: usize = 0;
        while i < self.texture_cells.len()
            invariant
                cells == self.texture_cells@,
                txc_size_bound(cells) <= 0xFFFF_0000,
                i <= cells.len(),
                bin_texture_cell_descs@ == cell_descs(cells, i as int),
                bin_palettes@ == palettes_bytes(cells.take(i as int)),
                bin_texture_data@ == tex_blob(cells.take(i as int)),
            decreases cells.len() - i,
        {
            Self::write_cell(
                &self.texture_cells,
                i,
                &mut bin_texture_cell_descs,
                &mut bin_palettes,
                &mut bin_texture_data,
            );
            i += 1;
        }
        proof {
            assert(cells.take(cells.len() as int) =~= cells);
            lemma_txc_sizes(cells, cells.len() as int);
        }

        // The offsets are stored in the main header, so the parts may come in any order
        let mut cursor: u32 = 0;
        let mut file = Vec::<u8>::new();
        // Write file magic "FTXC"
        push_u8(&mut file, 70u8);
        push_u8(&mut file, 84u8);
        push_u8(&mut file, 88u8);
        push_u8(&mut file, 67u8);
        // Write number of texture cells and palettes
        push_u32(&mut file, self.texture_cells.len() as u32);

        // Write offset to texture cell descs
        push_u32(&mut file, cursor);
        cursor += bin_texture_cell_descs.len() as u32;

        // Write offset to palettes
        push_u32(&mut file, cursor);
        cursor += bin_palettes.len() as u32;

        // Align the texture data to a CD sector. This allows for some neat optimizations
        let real_cursor = cursor + 24;
        proof {
            lemma_round_up(real_cursor as int);
            lemma_align_mask(real_cursor);
        }
        let bytes_to_pad = ((real_cursor + 2047) & !2047u32) - real_cursor;
        cursor += bytes_to_pad;

        // Write offset to textures
        push_u32(&mut file, cursor);

        // No name table
        push_u32(&mut file, 0u32);

        // Write the raw buffers now, in the right order
        extend_bytes(&mut file, &bin_texture_cell_descs);
        extend_bytes(&mut file, &bin_palettes);

        // Pad with zeroes
        push_zeros(&mut file, bytes_to_pad as usize);

        extend_bytes(&mut file, &bin_texture_data);
        assert(file@ =~= txc_file(cells));
        file
    }
}

proof fn lemma_tex_blob_prefix(cells: Seq<TextureCellPSX>, i: int)
    requires
        0 <= i <= cells.len(),
    ensures
        tex_blob(cells).len() >= tex_blob(cells.take(i)).len(),
        tex_blob(cells).subrange(0, tex_blob(cells.take(i)).len() as int) == tex_blob(
            cells.take(i),
        ),
    decreases cells.len() - i,
{
    if i < cells.len() {
        lemma_tex_blob_prefix(cells, i + 1);
        assert(cells.take(i + 1).drop_last() =~= cells.take(i));
        let a = tex_blob(cells.take(i));
        let b = tex_blob(cells.take(i + 1));
        lemma_round_up(a.len() as int);
        assert(b.subrange(0, a.len() as int) =~= a);
        assert(tex_blob(cells).subrange(0, a.len() as int) =~= b.subrange(0, a.len() as int));
    } else {
        assert(cells.take(i) =~= cells);
    }
}

/// Where texture `i` lies in a `.txc` file: its data starts on a 2048-byte
/// boundary of the texture section, which itself starts on a 2048-byte
/// boundary of the file, and its descriptor records that boundary's sector
/// (modulo 256).
pub proof fn lemma_txc_texture_located(cells: Seq<TextureCellPSX>, i: int)
    requires
        0 <= i < cells.len(),
    ensures
        ({
            let start = round_up_2048(tex_blob(cells.take(i)).len() as int);
            let data = cells[i].texture_data@;
            let section = 24 + cell_descs(cells, cells.len() as int).len() + palettes_bytes(
                cells,
            ).len() + txc_gap(cells);
            &&& start % 2048 == 0
            &&& tex_blob(cells).subrange(start, start + data.len()) == data
            &&& cell_desc_bytes(cells, i)[0] == (start / 2048) as u8
            &&& section % 2048 == 0
            &&& txc_file(cells).subrange(section, txc_file(cells).len() as int) == tex_blob(cells)
        }),
{
    lemma_tex_blob_prefix(cells, i + 1);
    assert(cells.take(i + 1).drop_last() =~= cells.take(i));
    let a = tex_blob(cells.take(i));
    lemma_round_up(a.len() as int);
    let start = round_up_2048(a.len() as int);
    let data = cells[i].texture_data@;
    let b = tex_blob(cells.take(i + 1));
    assert(b.subrange(start, start + data.len()) =~= data);
    assert(tex_blob(cells).subrange(start, start + data.len()) =~= b.subrange(
        start,
        start + data.len(),
    ));
    let end = (24 + cell_descs(cells, cells.len() as int).len() + palettes_bytes(cells).len()) as int;
    lemma_round_up(end);
    let f = txc_file(cells);
    let section = end + txc_gap(cells);
    assert(f.subrange(section, f.len() as int) =~= tex_blob(cells));
}

proof fn lemma_size_bound_mono(cells: Seq<TextureCellPSX>, n: int)
    requires
        0 <= n <= cells.len(),
    ensures
        txc_size_bound(cells.take(n)) <= txc_size_bound(cells),
    decreases cells.len() - n,
{
    if n < cells.len() {
        lemma_size_bound_mono(cells, n + 1);
        assert(cells.take(n + 1).drop_last() =~= cells.take(n));
    } else {
        assert(cells.take(n) =~= cells);
    }
}

/// Masking off the low 11 bits after adding 2047 rounds up to a multiple of 2048.
proof fn lemma_align_mask(x: u32)
    requires
        x <= 0xFFFF_F000,
    ensures
        (((x + 2047) as u32) & !2047u32) as int == round_up_2048(x as int),
{
    let y: u32 = (x + 2047) as u32;
    assert(y & !2047u32 == (y / 2048) * 2048) by (bit_vector);
}

/// The 12 bytes of an integer vector.
pub open spec fn ivec3_bytes(v: IVec3) -> Seq<u8> {
    le_i32(v.x) + le_i32(v.y) + le_i32(v.z)
}

/// The 48 bytes of a collision triangle: vertices, then normal.
pub open spec fn coll_tri_bytes(t: CollTrianglePSX) -> Seq<u8> {
    ivec3_bytes(t.v0) + ivec3_bytes(t.v1) + ivec3_bytes(t.v2) + ivec3_bytes(t.normal)
}

/// The 28 bytes of a hierarchy node: box, `left_first`, `primitive_count`.
pub open spec fn bvh_node_bytes(n: BvhNode) -> Seq<u8> {
    ivec3_bytes(n.bounds.min) + ivec3_bytes(n.bounds.max) + le_u16(n.left_first) + le_u16(
        n.primitive_count,
    )
}

/// The 14 bytes of a navigation node: position and four neighbours.
pub open spec fn nav_node_bytes(n: NavGraphNode) -> Seq<u8> {
    le_i16(n.pos_x) + le_i16(n.pos_y) + le_i16(n.pos_z) + le_u16(n.neighbors@[0]) + le_u16(
        n.neighbors@[1],
    ) + le_u16(n.neighbors@[2]) + le_u16(n.neighbors@[3])
}

/// The sections of a `.col` file start at multiples of four bytes: the
/// offsets written in the header (terrain ids, nodes, indices, navigation
/// graph) are all aligned, and the 32-byte header keeps them aligned.
pub proof fn lemma_col_sections_aligned(m: CollModelPSX)
    ensures
        col_upto_tris(m).len() % 4 == 0,
        col_upto_terrain(m).len() % 4 == 0,
        col_upto_nodes(m).len() % 4 == 0,
        col_upto_indices(m).len() % 4 == 0,
        col_file(m).len() == 32 + col_data(m).len(),
{
    lemma_padded(concat_map(m.triangles@, |t: CollTrianglePSX| coll_tri_bytes(t)));
    lemma_padded(col_upto_tris(m) + concat_map(m.triangles@, |t: CollTrianglePSX| seq![t.terrain_id]));
    lemma_padded(col_upto_terrain(m) + concat_map(m.nodes@, |n: BvhNode| bvh_node_bytes(n)));
    lemma_padded(col_upto_nodes(m) + concat_map(m.indices@, |i: u16| le_u16(i)));
}

/// Reading the node section of a `.col` file gives back the nodes: node `k`
/// is the 28-byte record at 28k bytes past the start of the node section,
/// holding in little-endian order the box minimum x, y, z, the box maximum
/// x, y, z (four bytes each), then `left_first` and `primitive_count` (two
/// bytes each).
#[verifier::rlimit(40)]
pub proof fn lemma_col_node_records(m: CollModelPSX, k: int)
    requires
        0 <= k < m.nodes@.len(),
    ensures
        ({
            let f = col_file(m);
            let b = 32 + col_upto_terrain(m).len() + 28 * k;
            let n = m.nodes@[k];
            &&& b + 28 <= f.len()
            &&& f.subrange(b, b + 4) == le_i32(n.bounds.min.x)
            &&& f.subrange(b + 4, b + 8) == le_i32(n.bounds.min.y)
            &&& f.subrange(b + 8, b + 12) == le_i32(n.bounds.min.z)
            &&& f.subrange(b + 12, b + 16) == le_i32(n.bounds.max.x)
            &&& f.subrange(b + 16, b + 20) == le_i32(n.bounds.max.y)
            &&& f.subrange(b + 20, b + 24) == le_i32(n.bounds.max.z)
            &&& f.subrange(b + 24, b + 26) == le_u16(n.left_first)
            &&& f.subrange(b + 26, b + 28) == le_u16(n.primitive_count)
        }),
{
    let g = |n: BvhNode| bvh_node_bytes(n);
    assert forall|n: BvhNode| #[trigger] g(n).len() == 28 by {}
    lemma_concat_map_record(m.nodes@, g, 28, k);
    let c = concat_map(m.nodes@, g);
    let t = col_upto_terrain(m);
    let f = col_file(m);
    let n = m.nodes@[k];
    let rec = bvh_node_bytes(n);
    let b = 32 + t.len() + 28 * k;
    lemma_col_node_section(m);
    assert forall|j: int| 0 <= j < 28 implies f[b + j] == #[trigger] rec[j] by {
        assert(f[32 + t.len() + (28 * k + j)] == c[28 * k + j]);
        assert(c.subrange(28 * k, 28 * k + 28)[j] == c[28 * k + j]);
    }
    lemma_node_record_at(f, b, n);
    lemma_bvh_node_fields(n);
}

/// Reading the triangle section of a `.col` file gives back the triangles:
/// triangle `k` is the 48-byte record at 48k bytes into the data section,
/// holding its three vertices and then its normal, twelve bytes each, and
/// its terrain id is byte `k` of the terrain section.
#[verifier::rlimit(40)]
pub proof fn lemma_col_triangle_records(m: CollModelPSX, k: int)
    requires
        0 <= k < m.triangles@.len(),
    ensures
        ({
            let f = col_file(m);
            let b = 32 + 48 * k;
            let t = m.triangles@[k];
            &&& b + 48 <= f.len()
            &&& f.subrange(b, b + 4) == le_i32(t.v0.x)
            &&& f.subrange(b + 4, b + 8) == le_i32(t.v0.y)
            &&& f.subrange(b + 8, b + 12) == le_i32(t.v0.z)
            &&& f.subrange(b + 12, b + 16) == le_i32(t.v1.x)
            &&& f.subrange(b + 16, b + 20) == le_i32(t.v1.y)
            &&& f.subrange(b + 20, b + 24) == le_i32(t.v1.z)
            &&& f.subrange(b + 24, b + 28) == le_i32(t.v2.x)
            &&& f.subrange(b + 28, b + 32) == le_i32(t.v2.y)
            &&& f.subrange(b + 32, b + 36) == le_i32(t.v2.z)
            &&& f.subrange(b + 36, b + 40) == le_i32(t.normal.x)
            &&& f.subrange(b + 40, b + 44) == le_i32(t.normal.y)
            &&& f.subrange(b + 44, b + 48) == le_i32(t.normal.z)
            &&& 32 + col_upto_tris(m).len() + k < f.len()
            &&& f[32 + col_upto_tris(m).len() + k] == t.terrain_id
        }),
{
    let g = |t: CollTrianglePSX| coll_tri_bytes(t);
    assert forall|t: CollTrianglePSX| #[trigger] g(t).len() == 48 by {}
    lemma_concat_map_record(m.triangles@, g, 48, k);
    let h = |t: CollTrianglePSX| seq![t.terrain_id];
    assert forall|t: CollTrianglePSX| #[trigger] h(t).len() == 1 by {}
    lemma_concat_map_record(m.triangles@, h, 1, k);
    let c = concat_map(m.triangles@, g);
    let ci = concat_map(m.triangles@, h);
    let f = col_file(m);
    let t = m.triangles@[k];
    let rec = coll_tri_bytes(t);
    let b = 32 + 48 * k;
    lemma_col_tri_sections(m);
    assert forall|j: int| 0 <= j < 48 implies f[b + j] == #[trigger] rec[j] by {
        assert(c.subrange(48 * k, 48 * k + 48)[j] == c[48 * k + j]);
        assert(f[32 + (48 * k + j)] == c[48 * k + j]);
    }
    assert(ci.subrange(k, k + 1)[0] == ci[k]);
    lemma_tri_record_at(f, b, t);
    lemma_coll_tri_fields(t);
}

/// The triangle section of a `.col` file starts the data section, and the
/// terrain ids follow it.
proof fn lemma_col_tri_sections(m: CollModelPSX)
    ensures
        ({
            let c = concat_map(m.triangles@, |t: CollTrianglePSX| coll_tri_bytes(t));
            let ci = concat_map(m.triangles@, |t: CollTrianglePSX| seq![t.terrain_id]);
            let u = col_upto_tris(m).len();
            &&& 32 + c.len() <= col_file(m).len()
            &&& 32 + u + ci.len() <= col_file(m).len()
            &&& forall|i: int| 0 <= i < c.len() ==> col_file(m)[32 + i] == #[trigger] c[i]
            &&& forall|i: int| 0 <= i < ci.len() ==> col_file(m)[32 + u + i] == #[trigger] ci[i]
        }),
{
    let c = concat_map(m.triangles@, |t: CollTrianglePSX| coll_tri_bytes(t));
    let ci = concat_map(m.triangles@, |t: CollTrianglePSX| seq![t.terrain_id]);
    let u = col_upto_tris(m);
    let d = col_data(m);
    lemma_col_file_data(m);
    assert(u.len() <= col_upto_terrain(m).len() <= col_upto_nodes(m).len() <= col_upto_indices(m).len());
    assert forall|i: int| 0 <= i < c.len() implies col_file(m)[32 + i] == #[trigger] c[i] by {
        assert(u[i] == c[i]);
        assert(col_upto_terrain(m)[i] == c[i]);
        assert(col_upto_nodes(m)[i] == c[i]);
        assert(col_upto_indices(m)[i] == c[i]);
        assert(d[i] == c[i]);
    }
    assert forall|i: int| 0 <= i < ci.len() implies col_file(m)[32 + u.len() + i] == #[trigger] ci[i] by {
        assert(col_upto_terrain(m)[u.len() + i] == ci[i]);
        assert(col_upto_nodes(m)[u.len() + i] == ci[i]);
        assert(col_upto_indices(m)[u.len() + i] == ci[i]);
        assert(d[u.len() + i] == ci[i]);
    }
}

/// The fields of a triangle record at their offsets.
proof fn lemma_coll_tri_fields(t: CollTrianglePSX)
    ensures
        coll_tri_bytes(t).len() == 48,
        coll_tri_bytes(t).subrange(0, 4) == le_i32(t.v0.x),
        coll_tri_bytes(t).subrange(4, 8) == le_i32(t.v0.y),
        coll_tri_bytes(t).subrange(8, 12) == le_i32(t.v0.z),
        coll_tri_bytes(t).subrange(12, 16) == le_i32(t.v1.x),
        coll_tri_bytes(t).subrange(16, 20) == le_i32(t.v1.y),
        coll_tri_bytes(t).subrange(20, 24) == le_i32(t.v1.z),
        coll_tri_bytes(t).subrange(24, 28) == le_i32(t.v2.x),
        coll_tri_bytes(t).subrange(28, 32) == le_i32(t.v2.y),
        coll_tri_bytes(t).subrange(32, 36) == le_i32(t.v2.z),
        coll_tri_bytes(t).subrange(36, 40) == le_i32(t.normal.x),
        coll_tri_bytes(t).subrange(40, 44) == le_i32(t.normal.y),
        coll_tri_bytes(t).subrange(44, 48) == le_i32(t.normal.z),
{
    let r = coll_tri_bytes(t);
    let a = ivec3_bytes(t.v0);
    let b = ivec3_bytes(t.v1);
    let c = ivec3_bytes(t.v2);
    let d = ivec3_bytes(t.normal);
    lemma_ivec3_fields(t.v0);
    lemma_ivec3_fields(t.v1);
    lemma_ivec3_fields(t.v2);
    lemma_ivec3_fields(t.normal);
    assert(r.subrange(0, 4) =~= a.subrange(0, 4));
    assert(r.subrange(4, 8) =~= a.subrange(4, 8));
    assert(r.subrange(8, 12) =~= a.subrange(8, 12));
    assert(r.subrange(12, 16) =~= b.subrange(0, 4));
    assert(r.subrange(16, 20) =~= b.subrange(4, 8));
    assert(r.subrange(20, 24) =~= b.subrange(8, 12));
    assert(r.subrange(24, 28) =~= c.subrange(0, 4));
    assert(r.subrange(28, 32) =~= c.subrange(4, 8));
    assert(r.subrange(32, 36) =~= c.subrange(8, 12));
    assert(r.subrange(36, 40) =~= d.subrange(0, 4));
    assert(r.subrange(40, 44) =~= d.subrange(4, 8));
    assert(r.subrange(44, 48) =~= d.subrange(8, 12));
}

/// Reading the index section of a `.col` file gives back the hierarchy's
/// primitive indices, two bytes each.
#[verifier::rlimit(40)]
pub proof fn lemma_col_index_records(m: CollModelPSX, i: int)
    requires
        0 <= i < m.indices@.len(),
    ensures
        ({
            let f = col_file(m);
            let bi = 32 + col_upto_nodes(m).len() + 2 * i;
            &&& bi + 2 <= f.len()
            &&& f.subrange(bi, bi + 2) == le_u16(m.indices@[i])
        }),
{
    let f = col_file(m);
    let d = col_data(m);
    let u = col_upto_indices(m);
    let w = col_upto_nodes(m);
    lemma_col_file_data(m);
    let ci = concat_map(m.indices@, |x: u16| le_u16(x));
    let g = |x: u16| le_u16(x);
    assert forall|x: u16| #[trigger] g(x).len() == 2 by {}
    lemma_concat_map_record(m.indices@, g, 2, i);
    let bi = 32 + w.len() + 2 * i;
    assert(u.len() <= d.len());
    assert forall|j: int| 0 <= j < 2 implies f[bi + j] == #[trigger] ci[2 * i + j] by {
        assert(u[w.len() + 2 * i + j] == ci[2 * i + j]);
        assert(f[32 + (w.len() + 2 * i + j)] == d[w.len() + 2 * i + j]);
    }
    assert(f.subrange(bi, bi + 2) =~= ci.subrange(2 * i, 2 * i + 2));
}

/// Reading the navigation section of a `.col` file gives back the number of
/// navigation nodes, then each node as a 14-byte record: its position x, y,
/// z, then its four neighbours, two bytes each.
#[verifier::rlimit(60)]
pub proof fn lemma_col_nav_records(m: CollModelPSX, k: int)
    requires
        0 <= k < m.nav_graph_nodes@.len(),
    ensures
        ({
            let f = col_file(m);
            let bn = 32 + col_upto_indices(m).len() as int;
            let b = bn + 2 + 14 * k;
            let n = m.nav_graph_nodes@[k];
            &&& b + 14 <= f.len()
            &&& f.subrange(bn, bn + 2) == le_u16(m.nav_graph_nodes@.len() as u16)
            &&& f.subrange(b, b + 2) == le_i16(n.pos_x)
            &&& f.subrange(b + 2, b + 4) == le_i16(n.pos_y)
            &&& f.subrange(b + 4, b + 6) == le_i16(n.pos_z)
            &&& f.subrange(b + 6, b + 8) == le_u16(n.neighbors@[0])
            &&& f.subrange(b + 8, b + 10) == le_u16(n.neighbors@[1])
            &&& f.subrange(b + 10, b + 12) == le_u16(n.neighbors@[2])
            &&& f.subrange(b + 12, b + 14) == le_u16(n.neighbors@[3])
        }),
{
    let f = col_file(m);
    let d = col_data(m);
    let u = col_upto_indices(m);
    lemma_col_file_data(m);
    let cn = concat_map(m.nav_graph_nodes@, |n: NavGraphNode| nav_node_bytes(n));
    let cnt = le_u16(m.nav_graph_nodes@.len() as u16);
    assert(d == u + cnt + cn);
    let bn = 32 + u.len() as int;
    assert forall|j: int| 0 <= j < 2 implies f[bn + j] == #[trigger] cnt[j] by {
        assert(f[32 + (u.len() + j)] == d[u.len() + j]);
    }
    assert(f.subrange(bn, bn + 2) =~= cnt);
    let g = |n: NavGraphNode| nav_node_bytes(n);
    assert forall|n: NavGraphNode| #[trigger] g(n).len() == 14 by {}
    lemma_concat_map_record(m.nav_graph_nodes@, g, 14, k);
    let n = m.nav_graph_nodes@[k];
    let rec = nav_node_bytes(n);
    let b = bn + 2 + 14 * k;
    assert forall|j: int| 0 <= j < 14 implies f[b + j] == #[trigger] rec[j] by {
        assert(cn.subrange(14 * k, 14 * k + 14)[j] == cn[14 * k + j]);
        assert(f[32 + (u.len() + 2 + 14 * k + j)] == d[u.len() + 2 + 14 * k + j]);
    }
    lemma_nav_record_at(f, b, n);
    lemma_nav_node_fields(n);
}

/// The fields of a navigation node record at their offsets.
proof fn lemma_nav_node_fields(n: NavGraphNode)
    ensures
        nav_node_bytes(n).len() == 14,
        nav_node_bytes(n).subrange(0, 2) == le_i16(n.pos_x),
        nav_node_bytes(n).subrange(2, 4) == le_i16(n.pos_y),
        nav_node_bytes(n).subrange(4, 6) == le_i16(n.pos_z),
        nav_node_bytes(n).subrange(6, 8) == le_u16(n.neighbors@[0]),
        nav_node_bytes(n).subrange(8, 10) == le_u16(n.neighbors@[1]),
        nav_node_bytes(n).subrange(10, 12) == le_u16(n.neighbors@[2]),
        nav_node_bytes(n).subrange(12, 14) == le_u16(n.neighbors@[3]),
{
    let rec = nav_node_bytes(n);
    assert(rec.subrange(0, 2) =~= le_i16(n.pos_x));
    assert(rec.subrange(2, 4) =~= le_i16(n.pos_y));
    assert(rec.subrange(4, 6) =~= le_i16(n.pos_z));
    assert(rec.subrange(6, 8) =~= le_u16(n.neighbors@[0]));
    assert(rec.subrange(8, 10) =~= le_u16(n.neighbors@[1]));
    assert(rec.subrange(10, 12) =~= le_u16(n.neighbors@[2]));
    assert(rec.subrange(12, 14) =~= le_u16(n.neighbors@[3]));
}

/// The node section of a `.col` file sits right after the terrain ids.
proof fn lemma_col_node_section(m: CollModelPSX)
    ensures
        ({
            let c = concat_map(m.nodes@, |n: BvhNode| bvh_node_bytes(n));
            let t = col_upto_terrain(m).len();
            &&& 32 + t + c.len() <= col_file(m).len()
            &&& forall|i: int| 0 <= i < c.len() ==> col_file(m)[32 + t + i] == #[trigger] c[i]
        }),
{
    let c = concat_map(m.nodes@, |n: BvhNode| bvh_node_bytes(n));
    let t = col_upto_terrain(m);
    let d = col_data(m);
    lemma_col_file_data(m);
    assert(col_upto_nodes(m).len() <= col_upto_indices(m).len());
    assert forall|i: int| 0 <= i < c.len() implies col_file(m)[32 + t.len() + i] == #[trigger] c[i] by {
        assert(col_upto_nodes(m)[t.len() + i] == c[i]);
        assert(col_upto_indices(m)[t.len() + i] == c[i]);
        assert(d[t.len() + i] == c[i]);
    }
}

/// The data section of a `.col` file follows its 32-byte header.
proof fn lemma_col_file_data(m: CollModelPSX)
    ensures
        col_file(m).len() == 32 + col_data(m).len(),
        forall|i: int| 0 <= i < col_data(m).len() ==> col_file(m)[32 + i] == #[trigger] col_data(m)[i],
{
    let h = seq![70u8, 67u8, 79u8, 76u8] + le_u32((m.triangles@.len() as u32 * 3) as u32) + le_u32(
        (m.nodes@.len() as u32 * 3) as u32,
    ) + le_u32(0) + le_u32(col_upto_tris(m).len() as u32) + le_u32(
        col_upto_terrain(m).len() as u32,
    ) + le_u32(col_upto_nodes(m).len() as u32) + le_u32(col_upto_indices(m).len() as u32);
    assert(h.len() == 32);
    assert(col_file(m) == h + col_data(m));
}

/// The fields of a node record at their offsets.
proof fn lemma_bvh_node_fields(n: BvhNode)
    ensures
        bvh_node_bytes(n).len() == 28,
        bvh_node_bytes(n).subrange(0, 4) == le_i32(n.bounds.min.x),
        bvh_node_bytes(n).subrange(4, 8) == le_i32(n.bounds.min.y),
        bvh_node_bytes(n).subrange(8, 12) == le_i32(n.bounds.min.z),
        bvh_node_bytes(n).subrange(12, 16) == le_i32(n.bounds.max.x),
        bvh_node_bytes(n).subrange(16, 20) == le_i32(n.bounds.max.y),
        bvh_node_bytes(n).subrange(20, 24) == le_i32(n.bounds.max.z),
        bvh_node_bytes(n).subrange(24, 26) == le_u16(n.left_first),
        bvh_node_bytes(n).subrange(26, 28) == le_u16(n.primitive_count),
{
    let r = bvh_node_bytes(n);
    let a = ivec3_bytes(n.bounds.min);
    let b = ivec3_bytes(n.bounds.max);
    let l = le_u16(n.left_first);
    let c = le_u16(n.primitive_count);
    lemma_ivec3_fields(n.bounds.min);
    lemma_ivec3_fields(n.bounds.max);
    assert(r == a + b + l + c);
    assert(r.subrange(0, 4) =~= a.subrange(0, 4));
    assert(r.subrange(4, 8) =~= a.subrange(4, 8));
    assert(r.subrange(8, 12) =~= a.subrange(8, 12));
    assert(r.subrange(12, 16) =~= b.subrange(0, 4));
    assert(r.subrange(16, 20) =~= b.subrange(4, 8));
    assert(r.subrange(20, 24) =~= b.subrange(8, 12));
    assert(r.subrange(24, 26) =~= l);
    assert(r.subrange(26, 28) =~= c);
}

proof fn lemma_ivec3_fields(v: IVec3)
    ensures
        ivec3_bytes(v).len() == 12,
        ivec3_bytes(v).subrange(0, 4) == le_i32(v.x),
        ivec3_bytes(v).subrange(4, 8) == le_i32(v.y),
        ivec3_bytes(v).subrange(8, 12) == le_i32(v.z),
{
    let r = ivec3_bytes(v);
    assert(r.subrange(0, 4) =~= le_i32(v.x));
    assert(r.subrange(4, 8) =~= le_i32(v.y));
    assert(r.subrange(8, 12) =~= le_i32(v.z));
}

proof fn lemma_padded(s: Seq<u8>)
    ensures
        padded(s).len() % 4 == 0,
        padded(s).len() == s.len() + pad4(s.len()),
{
}

/// The data section of a `.col` file up to the end of the (padded) triangles.
pub open spec fn col_upto_tris(m: CollModelPSX) -> Seq<u8> {
    padded(concat_map(m.triangles@, |t: CollTrianglePSX| coll_tri_bytes(t)))
}

/// ... up to the end of the (padded) terrain ids, one byte per triangle.
pub open spec fn col_upto_terrain(m: CollModelPSX) -> Seq<u8> {
    padded(col_upto_tris(m) + concat_map(m.triangles@, |t: CollTrianglePSX| seq![t.terrain_id]))
}

/// ... up to the end of the (padded) hierarchy nodes.
pub open spec fn col_upto_nodes(m: CollModelPSX) -> Seq<u8> {
    padded(col_upto_terrain(m) + concat_map(m.nodes@, |n: BvhNode| bvh_node_bytes(n)))
}

/// ... up to the end of the (padded) hierarchy indices.
pub open spec fn col_upto_indices(m: CollModelPSX) -> Seq<u8> {
    padded(col_upto_nodes(m) + concat_map(m.indices@, |i: u16| le_u16(i)))
}

/// The whole data section of a `.col` file, ending with the navigation graph
/// (its node count, then its nodes).
pub open spec fn col_data(m: CollModelPSX) -> Seq<u8> {
    col_upto_indices(m) + le_u16(m.nav_graph_nodes@.len() as u16) + concat_map(
        m.nav_graph_nodes@,
        |n: NavGraphNode| nav_node_bytes(n),
    )
}

/// The contents of a `.col` file: the magic `FCOL`, three times the triangle
/// count, three times the node count, the offsets (within the data section)
/// of triangles, terrain ids, nodes, indices and navigation graph, then the
/// data section.
pub open spec fn col_file(m: CollModelPSX) -> Seq<u8> {
    seq![70u8, 67u8, 79u8, 76u8] + le_u32((m.triangles@.len() as u32 * 3) as u32) + le_u32(
        (m.nodes@.len() as u32 * 3) as u32,
    ) + le_u32(0) + le_u32(col_upto_tris(m).len() as u32) + le_u32(
        col_upto_terrain(m).len() as u32,
    ) + le_u32(col_upto_nodes(m).len() as u32) + le_u32(col_upto_indices(m).len() as u32)
        + col_data(m)
}

fn write_ivec3(out: &mut Vec<u8>, v: IVec3)
    ensures
        final(out)@ == old(out)@ + ivec3_bytes(v),
{
    push_i32(out, v.x);
    push_i32(out, v.y);
    push_i32(out, v.z);
    assert(out@ =~= old(out)@ + ivec3_bytes(v));
}

fn write_coll_triangles(out: &mut Vec<u8>, tris: &Vec<CollTrianglePSX>)
    ensures
        final(out)@ == old(out)@ + concat_map(tris@, |t: CollTrianglePSX| coll_tri_bytes(t)),
{
    let ghost start = out@;
    let mut i: usize = 0;
    while i < tris.len()
        invariant
            i <= tris.len(),
            out@ == start + concat_map(tris@.take(i as int), |t: CollTrianglePSX| coll_tri_bytes(t)),
        decreases tris.len() - i,
    {
        let triangle = tris[i];
        let ghost before = out@;
        write_ivec3(out, triangle.v0);
        write_ivec3(out, triangle.v1);
        write_ivec3(out, triangle.v2);
        write_ivec3(out, triangle.normal);
        proof {
            assert(out@ =~= before + coll_tri_bytes(triangle));
            lemma_concat_map_step(tris@, |t: CollTrianglePSX| coll_tri_bytes(t), i as int);
        }
        i += 1;
    }
    assert(tris@.take(tris.len() as int) =~= tris@);
}

fn write_terrain_ids(out: &mut Vec<u8>, tris: &Vec<CollTrianglePSX>)
    ensures
        final(out)@ == old(out)@ + concat_map(tris@, |t: CollTrianglePSX| seq![t.terrain_id]),
{
    let ghost start = out@;
    let mut i: usize = 0;
    while i < tris.len()
        invariant
            i <= tris.len(),
            out@ == start + concat_map(tris@.take(i as int), |t: CollTrianglePSX| seq![t.terrain_id]),
        decreases tris.len() - i,
    {
        push_u8(out, tris[i].terrain_id);
        proof {
            lemma_concat_map_step(tris@, |t: CollTrianglePSX| seq![t.terrain_id], i as int);
        }
        i += 1;
    }
    assert(tris@.take(tris.len() as int) =~= tris@);
}

fn write_bvh_nodes(out: &mut Vec<u8>, nodes: &Vec<BvhNode>)
    ensures
        final(out)@ == old(out)@ + concat_map(nodes@, |n: BvhNode| bvh_node_bytes(n)),
{
    let ghost start = out@;
    let mut i: usize = 0;
    while i < nodes.len()
        invariant
            i <= nodes.len(),
            out@ == start + concat_map(nodes@.take(i as int), |n: BvhNode| bvh_node_bytes(n)),
        decreases nodes.len() - i,
    {
        let node = nodes[i];
        let ghost before = out@;
        write_ivec3(out, node.bounds.min);
        write_ivec3(out, node.bounds.max);
        push_u16(out, node.left_first);
        push_u16(out, node.primitive_count);
        proof {
            assert(out@ =~= before + bvh_node_bytes(node));
            lemma_concat_map_step(nodes@, |n: BvhNode| bvh_node_bytes(n), i as int);
        }
        i += 1;
    }
    assert(nodes@.take(nodes.len() as int) =~= nodes@);
}

fn write_u16s(out: &mut Vec<u8>, values: &Vec<u16>)
    ensures
        final(out)@ == old(out)@ + concat_map(values@, |x: u16| le_u16(x)),
{
    let ghost start = out@;
    let mut i: usize = 0;
    while i < values.len()
        invariant
            i <= values.len(),
            out@ == start + concat_map(values@.take(i as int), |x: u16| le_u16(x)),
        decreases values.len() - i,
    {
        push_u16(out, values[i]);
        proof {
            lemma_concat_map_step(values@, |x: u16| le_u16(x), i as int);
        }
        i += 1;
    }
    assert(values@.take(values.len() as int) =~= values@);
}

fn write_nav_nodes(out: &mut Vec<u8>, nodes: &Vec<NavGraphNode>)
    ensures
        final(out)@ == old(out)@ + concat_map(nodes@, |n: NavGraphNode| nav_node_bytes(n)),
{
    let ghost start = out@;
    let mut i: usize = 0;
    while i < nodes.len()
        invariant
            i <= nodes.len(),
            out@ == start + concat_map(nodes@.take(i as int), |n: NavGraphNode| nav_node_bytes(n)),
        decreases nodes.len() - i,
    {
        let node = &nodes[i];
        let ghost before = out@;
        push_i16(out, node.pos_x);
        push_i16(out, node.pos_y);
        push_i16(out, node.pos_z);
        push_u16(out, node.neighbors[0]);
        push_u16(out, node.neighbors[1]);
        push_u16(out, node.neighbors[2]);
        push_u16(out, node.neighbors[3]);
        proof {
            assert(out@ =~= before + nav_node_bytes(*node));
            lemma_concat_map_step(nodes@, |n: NavGraphNode| nav_node_bytes(n), i as int);
        }
        i += 1;
    }
    assert(nodes@.take(nodes.len() as int) =~= nodes@);
}

impl CollModelPSX {
    /// The contents of the `.col` file for this collision model.
    #[verifier::spinoff_prover]
    #[verifier::rlimit(40)]
    pub fn file_bytes(&self) -> (bytes: Vec<u8>)
        requires
            self.triangles.len() as u32 * 3 <= u32::MAX,
            self.nodes.len() as u32 * 3 <= u32::MAX,
        ensures
            bytes@ == col_file(*self),
            forall|k: int|
                #![trigger self.nodes@[k]]
                0 <= k < self.nodes@.len() ==> {
                    let b = 32 + col_upto_terrain(*self).len() + 28 * k;
                    let n = self.nodes@[k];
                    &&& b + 28 <= bytes@.len()
                    &&& bytes@.subrange(b, b + 4) == le_i32(n.bounds.min.x)
                    &&& bytes@.subrange(b + 4, b + 8) == le_i32(n.bounds.min.y)
                    &&& bytes@.subrange(b + 8, b + 12) == le_i32(n.bounds.min.z)
                    &&& bytes@.subrange(b + 12, b + 16) == le_i32(n.bounds.max.x)
                    &&& bytes@.subrange(b + 16, b + 20) == le_i32(n.bounds.max.y)
                    &&& bytes@.subrange(b + 20, b + 24) == le_i32(n.bounds.max.z)
                    &&& bytes@.subrange(b + 24, b + 26) == le_u16(n.left_first)
                    &&& bytes@.subrange(b + 26, b + 28) == le_u16(n.primitive_count)
                },
    {
        // Populate binary section and fill in offsets
        let mut binary_section = Vec::<u8>::new();

        // Triangle data
        write_coll_triangles(&mut binary_section, &self.triangles);

        // Terrain ID
        pad_to_4(&mut binary_section);
        assert(binary_section@ =~= col_upto_tris(*self));
        let terrain_id_offset = binary_section.len() as u32;
        write_terrain_ids(&mut binary_section, &self.triangles);

        // BVH nodes
        pad_to_4(&mut binary_section);
        assert(binary_section@ =~= col_upto_terrain(*self));
        let bvh_nodes_offset = binary_section.len() as u32;
        write_bvh_nodes(&mut binary_section, &self.nodes);

        // BVH indices
        pad_to_4(&mut binary_section);
        assert(binary_section@ =~= col_upto_nodes(*self));
        let bvh_indices_offset = binary_section.len() as u32;
        write_u16s(&mut binary_section, &self.indices);

        // Navigation graph
        pad_to_4(&mut binary_section);
        assert(binary_section@ =~= col_upto_indices(*self));
        let nav_graph_offset = binary_section.len() as u32;
        push_u16(&mut binary_section, self.nav_graph_nodes.len() as u16);
        write_nav_nodes(&mut binary_section, &self.nav_graph_nodes);
        assert(binary_section@ =~= col_data(*self));

        let mut file = Vec::<u8>::new();
        // Write file magic "FCOL"
        push_u8(&mut file, 70u8);
        push_u8(&mut file, 67u8);
        push_u8(&mut file, 79u8);
        push_u8(&mut file, 76u8);

        // Write header
        let n_verts = self.triangles.len() as u32 * 3;
        let n_nodes = self.nodes.len() as u32 * 3;
        push_u32(&mut file, n_verts);
        push_u32(&mut file, n_nodes);
        push_u32(&mut file, 0u32);  // triangle data offset
        push_u32(&mut file, terrain_id_offset);
        push_u32(&mut file, bvh_nodes_offset);
        push_u32(&mut file, bvh_indices_offset);
        push_u32(&mut file, nav_graph_offset);

        // Write binary section
        extend_bytes(&mut file, &binary_section);
        assert(file@ =~= col_file(*self));
        proof {
            assert forall|k: int|
                #![trigger self.nodes@[k]]
                0 <= k < self.nodes@.len() implies {
                    let b = 32 + col_upto_terrain(*self).len() + 28 * k;
                    let n = self.nodes@[k];
                    &&& b + 28 <= file@.len()
                    &&& file@.subrange(b, b + 4) == le_i32(n.bounds.min.x)
                    &&& file@.subrange(b + 4, b + 8) == le_i32(n.bounds.min.y)
                    &&& file@.subrange(b + 8, b + 12) == le_i32(n.bounds.min.z)
                    &&& file@.subrange(b + 12, b + 16) == le_i32(n.bounds.max.x)
                    &&& file@.subrange(b + 16, b + 20) == le_i32(n.bounds.max.y)
                    &&& file@.subrange(b + 20, b + 24) == le_i32(n.bounds.max.z)
                    &&& file@.subrange(b + 24, b + 26) == le_u16(n.left_first)
                    &&& file@.subrange(b + 26, b + 28) == le_u16(n.primitive_count)
                } by {
                lemma_col_node_records(*self, k);
            }
        }
        file
    }
}

} // verus!
