use psx_converter::collision::{Aabb, BvhNode, CollTrianglePSX, IVec3};
use psx_converter::helpers::validate;
use psx_converter::psx_structs::{
    CollModelPSX, CollVertexPSX, MeshPSX, ModelPSX, NavGraphNode, TextureCellPSX,
    TextureCollectionPSX, VertexPSX,
};

fn vertex(x: i16, y: i16, z: i16) -> VertexPSX {
    VertexPSX {
        pos_x: x,
        pos_y: y,
        pos_z: z,
        color_r: 10,
        color_g: 20,
        color_b: 30,
        tex_u: 40,
        tex_v: 50,
        texture_id: 60,
        normal_x: -1,
        normal_y: 2,
        normal_z: -127,
    }
}

fn u32_at(bytes: &[u8], at: usize) -> u32 {
    u32::from_le_bytes([bytes[at], bytes[at + 1], bytes[at + 2], bytes[at + 3]])
}

fn u16_at(bytes: &[u8], at: usize) -> u16 {
    u16::from_le_bytes([bytes[at], bytes[at + 1]])
}

fn i16_at(bytes: &[u8], at: usize) -> i16 {
    i16::from_le_bytes([bytes[at], bytes[at + 1]])
}

#[test]
fn vertex_bytes_are_little_endian() {
    let v = vertex(-2, 300, 32767);
    let mut expected = Vec::new();
    expected.extend((-2i16).to_le_bytes());
    expected.extend(300i16.to_le_bytes());
    expected.extend(32767i16.to_le_bytes());
    expected.extend([10, 20, 30, 40, 50, 60]);
    assert_eq!(v.get_bytes(), expected);
    assert_eq!(v.get_bytes().len(), 12);
}

#[test]
fn coll_vertex_bytes_are_little_endian() {
    let v = CollVertexPSX { pos_x: -32768, pos_y: 1, pos_z: -1, terrain_id: 0xBEEF };
    assert_eq!(v.get_bytes(), vec![0x00, 0x80, 0x01, 0x00, 0xFF, 0xFF, 0xEF, 0xBE]);
}

#[test]
fn new_model_and_collection_are_empty() {
    assert_eq!(ModelPSX::new().meshes.len(), 0);
    let txc = TextureCollectionPSX::new();
    assert_eq!(txc.texture_cells.len(), 0);
    assert_eq!(txc.texture_names.len(), 0);
}

#[test]
fn validate_accepts_a_successful_write() {
    validate(Ok(4));
}

#[test]
fn empty_model_file() {
    let bytes = ModelPSX::new().file_bytes();
    assert_eq!(&bytes[0..4], b"FMSH");
    assert_eq!(u32_at(&bytes, 4), 0);
    for k in 0..4 {
        assert_eq!(u32_at(&bytes, 8 + 4 * k), 0);
    }
    assert_eq!(u32_at(&bytes, 24), 0xFFFF_FFFF);
    assert_eq!(u32_at(&bytes, 28), 0xFFFF_FFFF);
    assert_eq!(bytes.len(), 32);
}

#[test]
fn model_file_layout() {
    let mesh_a = MeshPSX {
        verts: vec![vertex(1, 2, 3), vertex(-4, 5, 0), vertex(7, -8, 9)],
        n_triangles: 1,
        n_quads: 0,
        name: "ab".to_string(),
    };
    let mesh_b = MeshPSX {
        verts: vec![vertex(0, 0, 0), vertex(1, 1, 1), vertex(2, 2, 2), vertex(3, 3, 3)],
        n_triangles: 0,
        n_quads: 1,
        name: "é".to_string(),
    };
    let model = ModelPSX { meshes: vec![mesh_a, mesh_b] };
    let bytes = model.file_bytes();
    assert_eq!(&bytes[0..4], b"FMSH");
    assert_eq!(u32_at(&bytes, 4), 2);
    let data = &bytes[32..];
    let off_desc = u32_at(&bytes, 8) as usize;
    let off_verts = u32_at(&bytes, 12) as usize;
    let off_names = u32_at(&bytes, 16) as usize;
    let off_normals = u32_at(&bytes, 20) as usize;
    assert_eq!(off_desc, 0);
    assert_eq!(off_verts, 40);
    assert_eq!(off_normals, 40 + 7 * 12);
    assert_eq!(off_names, off_normals + 7 * 4);
    for off in [off_desc, off_verts, off_names, off_normals] {
        assert_eq!(off % 4, 0);
    }
    // descriptor of mesh a: start, counts, box
    assert_eq!(u16_at(data, 0), 0);
    assert_eq!(u16_at(data, 2), 1);
    assert_eq!(u16_at(data, 4), 0);
    assert_eq!(i16_at(data, 6), -4);
    assert_eq!(i16_at(data, 8), 7);
    assert_eq!(i16_at(data, 10), -8);
    assert_eq!(i16_at(data, 12), 5);
    assert_eq!(i16_at(data, 14), 0);
    assert_eq!(i16_at(data, 16), 9);
    assert_eq!(u16_at(data, 18), 0);
    // descriptor of mesh b starts after the 3 vertices of mesh a
    assert_eq!(u16_at(data, 20), 3);
    assert_eq!(u16_at(data, 24), 1);
    // vertices
    assert_eq!(&data[off_verts..off_verts + 12], &vertex(1, 2, 3).get_bytes()[..]);
    // normals
    assert_eq!(&data[off_normals..off_normals + 4], &[0xFF, 2, 0x81, 0]);
    // names: byte length then UTF-8 bytes
    assert_eq!(u32_at(data, off_names), 2);
    assert_eq!(&data[off_names + 4..off_names + 6], b"ab");
    assert_eq!(u32_at(data, off_names + 6), 2);
    assert_eq!(&data[off_names + 10..off_names + 12], "é".as_bytes());
    assert_eq!(data.len(), off_names + 12);
}

#[test]
fn texture_collection_file_layout() {
    let cell_a = TextureCellPSX {
        texture_data: vec![1, 2, 3],
        palette: vec![0x1234, 0xABCD],
        texture_width: 64,
        texture_height: 32,
        avg_color: 0x11223344,
    };
    let cell_b = TextureCellPSX {
        texture_data: vec![9; 5000],
        palette: vec![7],
        texture_width: 8,
        texture_height: 8,
        avg_color: 5,
    };
    let cell_c = TextureCellPSX {
        texture_data: vec![4, 4],
        palette: vec![],
        texture_width: 1,
        texture_height: 2,
        avg_color: 0,
    };
    let txc = TextureCollectionPSX {
        texture_cells: vec![cell_a, cell_b, cell_c],
        texture_names: vec!["a".into(), "b".into(), "c".into()],
    };
    let bytes = txc.file_bytes();
    assert_eq!(&bytes[0..4], b"FTXC");
    assert_eq!(u32_at(&bytes, 4), 3);
    assert_eq!(u32_at(&bytes, 8), 0);
    let descs_len = 3 * 8;
    let palettes_len = 2 * 3;
    assert_eq!(u32_at(&bytes, 12) as usize, descs_len);
    let tex_offset = u32_at(&bytes, 16) as usize;
    assert_eq!(u32_at(&bytes, 20), 0);
    // the texture section starts on a CD sector of the file
    assert_eq!((24 + tex_offset) % 2048, 0);
    assert_eq!(tex_offset, 2048 - 24);
    // descriptors: sector, palette index, size, average colour
    let descs = &bytes[24..24 + descs_len];
    assert_eq!(&descs[0..8], &[0, 0, 64, 32, 0x44, 0x33, 0x22, 0x11]);
    assert_eq!(&descs[8..12], &[1, 1, 8, 8]);
    assert_eq!(&descs[16..20], &[4, 2, 1, 2]);
    // palettes
    let pals = &bytes[24 + descs_len..24 + descs_len + palettes_len];
    assert_eq!(pals, &[0x34, 0x12, 0xCD, 0xAB, 7, 0]);
    // textures, each on a 2048-byte boundary of the texture section
    let tex = &bytes[24 + tex_offset..];
    assert_eq!(&tex[0..3], &[1, 2, 3]);
    assert!(tex[3..2048].iter().all(|b| *b == 0));
    assert!(tex[2048..2048 + 5000].iter().all(|b| *b == 9));
    assert_eq!(&tex[8192..8194], &[4, 4]);
    assert_eq!(tex.len(), 8194);
}

#[test]
fn collision_model_file_layout() {
    let v = |x: i32, y: i32, z: i32| IVec3 { x, y, z };
    let triangle = CollTrianglePSX {
        v0: v(1, 2, 3),
        v1: v(-1, -2, -3),
        v2: v(0, 0, 0),
        normal: v(0, 4096, 0),
        terrain_id: 7,
    };
    let node = BvhNode {
        bounds: Aabb { min: v(-1, -2, -3), max: v(1, 2, 3) },
        left_first: 0,
        primitive_count: 1,
    };
    let model = CollModelPSX {
        triangles: vec![triangle],
        nodes: vec![node, node],
        indices: vec![0],
        nav_graph_nodes: vec![NavGraphNode {
            pos_x: 1,
            pos_y: -1,
            pos_z: 2,
            neighbors: [0xFFFF, 3, 0xFFFF, 0xFFFF],
        }],
    };
    let bytes = model.file_bytes();
    assert_eq!(&bytes[0..4], b"FCOL");
    assert_eq!(u32_at(&bytes, 4), 3);
    assert_eq!(u32_at(&bytes, 8), 6);
    assert_eq!(u32_at(&bytes, 12), 0);
    let terrain = u32_at(&bytes, 16) as usize;
    let nodes = u32_at(&bytes, 20) as usize;
    let indices = u32_at(&bytes, 24) as usize;
    let nav = u32_at(&bytes, 28) as usize;
    assert_eq!(terrain, 48);
    assert_eq!(nodes, 52);
    assert_eq!(indices, 52 + 2 * 28);
    assert_eq!(nav, indices + 4);
    let data = &bytes[32..];
    assert_eq!(data[terrain], 7);
    assert_eq!(&data[0..4], &1i32.to_le_bytes());
    assert_eq!(&data[4..8], &2i32.to_le_bytes());
    assert_eq!(&data[12..16], &(-1i32).to_le_bytes());
    assert_eq!(&data[40..44], &4096i32.to_le_bytes());
    assert_eq!(&data[nodes..nodes + 4], &(-1i32).to_le_bytes());
    assert_eq!(u16_at(data, nodes + 24), 0);
    assert_eq!(u16_at(data, nodes + 26), 1);
    assert_eq!(u16_at(data, indices), 0);
    assert_eq!(u16_at(data, nav), 1);
    assert_eq!(i16_at(data, nav + 2), 1);
    assert_eq!(i16_at(data, nav + 4), -1);
    assert_eq!(u16_at(data, nav + 10), 3);
    assert_eq!(data.len(), nav + 2 + 14);
}
