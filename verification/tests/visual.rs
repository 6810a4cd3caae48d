use psx_converter::psx_structs::{MeshPSX, VertexPSX};
use psx_converter::visual::{
    assemble_polygons, grid_coordinates, integer_sqrt, mesh_from_entry, split_equal_based_on_aabb,
    split_mesh_evenly,
};
use psx_converter::MeshGridEntry;

fn vertex(x: i16, y: i16, z: i16) -> VertexPSX {
    VertexPSX {
        pos_x: x,
        pos_y: y,
        pos_z: z,
        color_r: 0,
        color_g: 0,
        color_b: 0,
        tex_u: 0,
        tex_v: 0,
        texture_id: 7,
        normal_x: 0,
        normal_y: 0,
        normal_z: 0,
    }
}

/// The size class as computed with floating point.
fn float_size_id(face: &[VertexPSX]) -> u8 {
    let ext = |f: fn(&VertexPSX) -> i16| {
        let max = face.iter().map(f).max().unwrap() as i32;
        let min = face.iter().map(f).min().unwrap() as i32;
        max - min
    };
    let (x, y, z) = (ext(|v| v.pos_x), ext(|v| v.pos_y), ext(|v| v.pos_z));
    let size = ((x * x + y * y + z * z) as f64).sqrt();
    (size / 16.0).clamp(0.0, 255.0) as u8
}

#[test]
fn integer_sqrt_matches_floating_point() {
    for n in (0u32..200_000).chain((0..2000).map(|k| k * 1_000_003 % (i32::MAX as u32))) {
        let r = integer_sqrt(n);
        assert_eq!(r as u64 * r as u64 <= n as u64, true);
        assert!((r as u64 + 1) * (r as u64 + 1) > n as u64);
        assert_eq!(r / 16, ((n as f64).sqrt() / 16.0) as u32);
    }
    assert_eq!(integer_sqrt(i32::MAX as u32), 46340);
    for k in 1u32..2897 {
        let n = (16 * k) * (16 * k) - 1;
        assert_eq!(integer_sqrt(n) / 16, ((n as f64).sqrt() / 16.0) as u32);
    }
}

#[test]
fn triangles_and_quads_are_reordered_with_size() {
    let tri = vec![vertex(0, 0, 0), vertex(100, 0, 0), vertex(0, 50, 20)];
    let quad = vec![vertex(0, 0, 0), vertex(4000, 0, 0), vertex(4000, 3000, 0), vertex(0, 3000, 0)];
    let penta = vec![vertex(0, 0, 0); 5];
    let faces = vec![tri.clone(), quad.clone(), penta];
    let mut tris = vec![vertex(9, 9, 9)];
    let mut quads = Vec::new();
    assemble_polygons(&faces, &mut tris, &mut quads);
    assert_eq!(tris.len(), 4);
    assert_eq!(tris[0].pos_x, 9);
    assert_eq!((tris[1].pos_x, tris[2].pos_y, tris[3].pos_x), (0, 50, 100));
    // sqrt(100^2 + 50^2 + 20^2) = 113.5.. -> 7
    assert_eq!(tris[2].texture_id, 7);
    assert_eq!(tris[2].texture_id, float_size_id(&tri));
    assert_eq!(tris[1].texture_id, 7);
    assert_eq!(quads.len(), 4);
    assert_eq!((quads[0].pos_x, quads[1].pos_x, quads[2].pos_x, quads[3].pos_x), (0, 0, 4000, 4000));
    assert_eq!((quads[1].pos_y, quads[3].pos_y), (3000, 3000));
    // sqrt(4000^2 + 3000^2) / 16 = 312.5 -> 255
    assert_eq!(quads[1].texture_id, 255);
    assert_eq!(quads[1].texture_id, float_size_id(&quad));
}

#[test]
fn size_class_matches_floating_point() {
    for k in 0..3000i16 {
        let a = (k * 37) % 30000;
        let b = (k * 53) % 20000;
        let face = vec![vertex(0, 0, 0), vertex(a, 0, 0), vertex(0, b, k)];
        let mut tris = Vec::new();
        let mut quads = Vec::new();
        assemble_polygons(&vec![face.clone()], &mut tris, &mut quads);
        assert_eq!(tris[1].texture_id, float_size_id(&face));
    }
}

#[test]
fn mesh_from_entry_concatenates() {
    let entry = MeshGridEntry {
        triangles: vec![vertex(1, 0, 0), vertex(2, 0, 0), vertex(3, 0, 0)],
        quads: vec![vertex(4, 0, 0); 8],
    };
    let mesh = mesh_from_entry("m".to_string(), &entry);
    assert_eq!(mesh.verts.len(), 11);
    assert_eq!(mesh.n_triangles, 1);
    assert_eq!(mesh.n_quads, 2);
    assert_eq!(mesh.name, "m");
    assert_eq!(mesh.verts[3].pos_x, 4);
}

#[test]
fn grid_coordinates_match_floating_point() {
    for size in 0..=32767i16 {
        for splits in 1..=5i16 {
            let min = -100i16.min(32767 - size);
            let coords = grid_coordinates(min, size, splits);
            let mut expected = vec![i16::MIN];
            for x in 0..(splits + 1) {
                expected.push(min + ((size as f64 / splits as f64) * x as f64).ceil() as i16);
            }
            expected[1] -= 1;
            expected.push(i16::MAX);
            assert_eq!(coords, expected);
        }
    }
}

fn grid_mesh() -> MeshGridEntry {
    // a 10 x 10 floor of triangles between x, z in 0..1000
    let mut triangles = Vec::new();
    for i in 0..10 {
        for j in 0..10 {
            triangles.push(vertex(i * 100, 0, j * 100));
            triangles.push(vertex(i * 100 + 90, 0, j * 100));
            triangles.push(vertex(i * 100, 0, j * 100 + 90));
        }
    }
    let quads = vec![vertex(500, 0, 500), vertex(510, 0, 500), vertex(510, 0, 510), vertex(500, 0, 510)];
    MeshGridEntry { triangles, quads }
}

#[test]
fn split_equal_keeps_every_polygon_once() {
    let mesh = grid_mesh();
    let mut out: Vec<MeshPSX> = Vec::new();
    let (cz, cy, cx) =
        (grid_coordinates(0, 1000, 1), grid_coordinates(0, 0, 1), grid_coordinates(0, 990, 2));
    split_equal_based_on_aabb(&"floor".to_string(), &cz, &cy, &cx, &mesh, &mut out);
    let tris: usize = out.iter().map(|m| m.n_triangles).sum();
    let quads: usize = out.iter().map(|m| m.n_quads).sum();
    assert_eq!(tris, 100);
    assert_eq!(quads, 1);
    assert_eq!(out.len(), 2);
    assert_eq!(out[0].name, "floor (-1, -1, -1)");
    assert_eq!(out[1].name, "floor (495, -1, -1)");
    for m in &out {
        assert_eq!(m.verts.len(), 3 * m.n_triangles + 4 * m.n_quads);
    }
}

#[test]
fn small_meshes_are_not_split() {
    let mesh = MeshGridEntry {
        triangles: vec![vertex(0, 0, 0), vertex(1, 0, 0), vertex(0, 1, 0)],
        quads: vec![],
    };
    let out = split_mesh_evenly("small".to_string(), &mesh);
    assert_eq!(out.len(), 1);
    assert_eq!(out[0].name, "small");
    assert_eq!(out[0].n_triangles, 1);
}

#[test]
fn large_meshes_are_split_near_the_target() {
    let mesh = grid_mesh();
    let out = split_mesh_evenly("floor".to_string(), &mesh);
    let tris: usize = out.iter().map(|m| m.n_triangles).sum();
    let quads: usize = out.iter().map(|m| m.n_quads).sum();
    assert_eq!(tris, 100);
    assert_eq!(quads, 1);
    assert!(out.len() >= 1);
    assert!(out.iter().all(|m| m.name.starts_with("floor (")));
}

/// The grid lines of a bounding box split into `splits` equal parts, as
/// computed with floating point.
fn float_lines(min: i16, size: i16, splits: i16) -> Vec<i16> {
    let mut coords = vec![i16::MIN];
    for x in 0..(splits + 1) {
        coords.push(min + ((size as f64 / splits as f64) * x as f64).ceil() as i16);
    }
    coords[1] -= 1;
    coords.push(i16::MAX);
    coords
}

#[test]
fn split_equal_with_many_parts_keeps_every_polygon_once() {
    let mesh = grid_mesh();
    let mut out: Vec<MeshPSX> = vec![];
    let (cz, cy, cx) = (float_lines(0, 990, 7), float_lines(0, 0, 1), float_lines(0, 990, 9));
    split_equal_based_on_aabb(&"floor".to_string(), &cz, &cy, &cx, &mesh, &mut out);
    let tris: usize = out.iter().map(|m| m.n_triangles).sum();
    let quads: usize = out.iter().map(|m| m.n_quads).sum();
    assert_eq!(tris, 100);
    assert_eq!(quads, 1);
    assert!(out.len() <= (cz.len() - 1) * (cy.len() - 1) * (cx.len() - 1));
    assert!(out.iter().all(|m| m.n_triangles + m.n_quads >= 1));
}
