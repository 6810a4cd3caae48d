use psx_converter::collision::{
    collision_triangles, nav_graph_nodes, scaled_vertex, CollBvh, CollTrianglePSX, IVec3,
};
use psx_converter::psx_structs::CollVertexPSX;

fn cv(x: i16, y: i16, z: i16) -> CollVertexPSX {
    CollVertexPSX { pos_x: x, pos_y: y, pos_z: z, terrain_id: 0 }
}

fn up() -> IVec3 {
    IVec3 { x: 0, y: 4096, z: 0 }
}

/// A row of `n` small triangles spread along x.
fn triangle_row(n: i16) -> Vec<CollVertexPSX> {
    let mut vs = Vec::new();
    for i in 0..n {
        vs.push(cv(i * 10, 0, 0));
        vs.push(cv(i * 10 + 1, 0, 1));
        vs.push(cv(i * 10, 1, 0));
    }
    vs
}

fn contains(b: &psx_converter::collision::Aabb, t: &CollTrianglePSX) -> bool {
    [t.v0, t.v1, t.v2].iter().all(|v| {
        b.min.x <= v.x && v.x <= b.max.x && b.min.y <= v.y && v.y <= b.max.y && b.min.z <= v.z
            && v.z <= b.max.z
    })
}

/// Collects the primitive ranges of the leaves under `k`.
fn leaves(bvh: &CollBvh, k: usize, out: &mut Vec<(usize, usize)>) {
    let node = &bvh.nodes[k];
    if node.primitive_count > 0 {
        out.push((node.left_first as usize, node.primitive_count as usize));
    } else if bvh.primitives.is_empty() {
        // the root of an empty hierarchy
    } else {
        let c = node.left_first as usize;
        assert!(c > k && c % 2 == 0);
        leaves(bvh, c, out);
        leaves(bvh, c + 1, out);
    }
}

fn check_bvh(bvh: &CollBvh) {
    let n = bvh.primitives.len();
    assert_eq!(bvh.nodes.len() % 2, 0);
    // indices are a permutation of 0..n
    let mut seen = vec![false; n];
    for &i in &bvh.indices {
        assert!(!seen[i as usize]);
        seen[i as usize] = true;
    }
    assert!(seen.iter().all(|s| *s));
    // leaves cover every primitive exactly once, their boxes hold them
    let mut ranges = Vec::new();
    leaves(bvh, 0, &mut ranges);
    let mut covered = vec![0; n];
    for (first, count) in ranges {
        for p in first..first + count {
            covered[p] += 1;
        }
    }
    assert!(covered.iter().all(|c| *c == 1));
    // every node but the padding node holds the primitives of its leaves
    fn check_node(bvh: &CollBvh, k: usize) -> Vec<usize> {
        let node = &bvh.nodes[k];
        let prims: Vec<usize> = if node.primitive_count > 0 {
            (node.left_first..node.left_first + node.primitive_count)
                .map(|p| bvh.indices[p as usize] as usize)
                .collect()
        } else if bvh.primitives.is_empty() {
            vec![]
        } else {
            let mut v = check_node(bvh, node.left_first as usize);
            v.extend(check_node(bvh, node.left_first as usize + 1));
            v
        };
        for &p in &prims {
            assert!(contains(&node.bounds, &bvh.primitives[p]));
        }
        if !prims.is_empty() {
            // the box is exactly the extent of its primitives
            let vs: Vec<IVec3> =
                prims.iter().flat_map(|&p| [bvh.primitives[p].v0, bvh.primitives[p].v1, bvh.primitives[p].v2]).collect();
            assert_eq!(node.bounds.min.x, vs.iter().map(|v| v.x).min().unwrap());
            assert_eq!(node.bounds.min.y, vs.iter().map(|v| v.y).min().unwrap());
            assert_eq!(node.bounds.min.z, vs.iter().map(|v| v.z).min().unwrap());
            assert_eq!(node.bounds.max.x, vs.iter().map(|v| v.x).max().unwrap());
            assert_eq!(node.bounds.max.y, vs.iter().map(|v| v.y).max().unwrap());
            assert_eq!(node.bounds.max.z, vs.iter().map(|v| v.z).max().unwrap());
        }
        prims
    }
    check_node(bvh, 0);
}

#[test]
fn scaled_vertex_negates_and_scales() {
    let v = scaled_vertex(&cv(-32768, 1, 32767));
    assert_eq!(v, IVec3 { x: 16777216, y: -512, z: -16776704 });
}

#[test]
fn ivec3_min_max() {
    let a = IVec3 { x: 1, y: -5, z: 3 };
    let b = IVec3 { x: 0, y: 2, z: 3 };
    assert_eq!(a.min(b), IVec3 { x: 0, y: -5, z: 3 });
    assert_eq!(a.max(b), IVec3 { x: 1, y: 2, z: 3 });
}

#[test]
fn construct_empty() {
    let bvh = CollBvh::construct(&vec![], &vec![]);
    assert_eq!(bvh.primitives.len(), 0);
    assert_eq!(bvh.indices.len(), 0);
    assert_eq!(bvh.nodes.len(), 2);
    assert_eq!(bvh.nodes[0].primitive_count, 0);
    assert_eq!(bvh.nodes[0].bounds.min.x, i32::MAX);
    assert_eq!(bvh.nodes[0].bounds.max.x, i32::MIN);
}

#[test]
fn construct_single_triangle() {
    let vs = vec![cv(1, 2, 3), cv(4, 5, 6), cv(7, 8, 10)];
    let bvh = CollBvh::construct(&vs, &vec![up()]);
    assert_eq!(bvh.primitives.len(), 1);
    let t = bvh.primitives[0];
    assert_eq!(t.v0, IVec3 { x: -512, y: -1024, z: -1536 });
    assert_eq!(t.v2, IVec3 { x: -3584, y: -4096, z: -5120 });
    assert_eq!(t.normal, up());
    assert_eq!(t.terrain_id, 0);
    // centre rounds toward zero: (-512 - 2048 - 3584) / 3 = -2048
    assert_eq!(bvh.centers[0], IVec3 { x: -2048, y: -2560, z: (-1536 - 3072 - 5120) / 3 });
    assert_eq!(bvh.nodes.len(), 2);
    assert_eq!(bvh.nodes[0].primitive_count, 1);
    assert_eq!(bvh.nodes[0].bounds.min, IVec3 { x: -3584, y: -4096, z: -5120 });
    assert_eq!(bvh.nodes[0].bounds.max, IVec3 { x: -512, y: -1024, z: -1536 });
    check_bvh(&bvh);
}

#[test]
fn construct_splits_a_row() {
    let vs = triangle_row(40);
    let normals = vec![up(); 40];
    let bvh = CollBvh::construct(&vs, &normals);
    assert_eq!(bvh.primitives.len(), 40);
    assert!(bvh.nodes.len() > 2);
    assert_eq!(bvh.nodes[0].primitive_count, 0);
    check_bvh(&bvh);
}

#[test]
fn construct_on_a_grid_of_triangles() {
    let mut vs = Vec::new();
    for i in 0..12i16 {
        for j in 0..9i16 {
            vs.push(cv(i * 7, j * 3, (i * j) % 5));
            vs.push(cv(i * 7 + 2, j * 3, (i + j) % 4));
            vs.push(cv(i * 7, j * 3 + 2, 1));
        }
    }
    let normals = vec![up(); vs.len() / 3];
    let bvh = CollBvh::construct(&vs, &normals);
    check_bvh(&bvh);
}

#[test]
fn nav_nodes_from_walkable_triangles() {
    let vs = triangle_row(3);
    let normals = vec![up(), IVec3 { x: 4096, y: 2047, z: 0 }, IVec3 { x: 0, y: 2048, z: 0 }];
    let bvh = CollBvh::construct(&vs, &normals);
    let nodes = nav_graph_nodes(&bvh);
    assert_eq!(nodes.len(), 2);
    assert_eq!(nodes[0].pos_x as i32, bvh.centers[0].x / 4096);
    assert_eq!(nodes[1].pos_x as i32, bvh.centers[2].x / 4096);
    assert_eq!(nodes[1].pos_y as i32, bvh.centers[2].y / 4096);
    assert_eq!(nodes[0].neighbors, [0, 0, 0, 0]);
}

#[test]
fn collision_triangles_reorder_and_skip() {
    let faces = vec![
        vec![cv(1, 0, 0), cv(2, 0, 0), cv(3, 0, 0)],
        vec![cv(4, 0, 0), cv(5, 0, 0), cv(6, 0, 0), cv(7, 0, 0)],
        vec![cv(8, 0, 0), cv(9, 0, 0), cv(10, 0, 0)],
    ];
    let tris = collision_triangles(&faces);
    let xs: Vec<i16> = tris.iter().map(|v| v.pos_x).collect();
    assert_eq!(xs, vec![1, 3, 2, 8, 10, 9]);
}

#[test]
fn construct_follows_the_partition_exactly() {
    // Triangle i spans x in [-5120 i - 512, -5120 i] after scaling.
    let vs = triangle_row(4);
    let bvh = CollBvh::construct(&vs, &vec![up(); 4]);
    // The root splits along x at the mean -94208 / 12 = -7850; the first
    // triangle beyond the pivot stays in place without being counted, so
    // only triangle 1 goes to the left child.
    assert_eq!(bvh.indices, vec![1, 0, 2, 3]);
    assert_eq!(bvh.nodes.len(), 4);
    let root = bvh.nodes[0];
    assert_eq!((root.left_first, root.primitive_count), (2, 0));
    assert_eq!(root.bounds.min, IVec3 { x: -15872, y: -512, z: -512 });
    assert_eq!(root.bounds.max, IVec3 { x: 0, y: 0, z: 0 });
    let pad = bvh.nodes[1];
    assert_eq!((pad.left_first, pad.primitive_count), (0, 4));
    assert_eq!(pad.bounds.min, IVec3 { x: 0, y: 0, z: 0 });
    let left = bvh.nodes[2];
    assert_eq!((left.left_first, left.primitive_count), (0, 1));
    assert_eq!(left.bounds.min, IVec3 { x: -5632, y: -512, z: -512 });
    assert_eq!(left.bounds.max, IVec3 { x: -5120, y: 0, z: 0 });
    // The right child cannot be split: again only the first triangle lies
    // beyond its pivot, and it stays in place.
    let right = bvh.nodes[3];
    assert_eq!((right.left_first, right.primitive_count), (1, 3));
    assert_eq!(right.bounds.min, IVec3 { x: -15872, y: -512, z: -512 });
    assert_eq!(right.bounds.max, IVec3 { x: 0, y: 0, z: 0 });
    check_bvh(&bvh);
}
