use psx_converter::grouping::group_by_name;
use psx_converter::psx_structs::VertexPSX;
use psx_converter::MeshGridEntry;

fn vertex(x: i16) -> VertexPSX {
    VertexPSX {
        pos_x: x,
        pos_y: 0,
        pos_z: 0,
        color_r: 0,
        color_g: 0,
        color_b: 0,
        tex_u: 0,
        tex_v: 0,
        texture_id: 0,
        normal_x: 0,
        normal_y: 0,
        normal_z: 0,
    }
}

fn entry(tri_x: i16, quad_x: Option<i16>) -> MeshGridEntry {
    MeshGridEntry {
        triangles: vec![vertex(tri_x), vertex(tri_x + 1), vertex(tri_x + 2)],
        quads: match quad_x {
            Some(x) => vec![vertex(x), vertex(x + 1), vertex(x + 2), vertex(x + 3)],
            None => vec![],
        },
    }
}

fn xs(vs: &[VertexPSX]) -> Vec<i16> {
    vs.iter().map(|v| v.pos_x).collect()
}

#[test]
fn meshes_of_one_name_are_merged_in_order() {
    let meshes = vec![
        ("wall".to_string(), entry(0, None)),
        ("floor".to_string(), entry(10, Some(100))),
        ("wall".to_string(), entry(20, Some(200))),
    ];
    let groups = group_by_name(&meshes);
    assert_eq!(groups.len(), 2);
    assert_eq!(groups[0].0, "floor");
    assert_eq!(xs(&groups[0].1.triangles), vec![10, 11, 12]);
    assert_eq!(xs(&groups[0].1.quads), vec![100, 101, 102, 103]);
    assert_eq!(groups[1].0, "wall");
    assert_eq!(xs(&groups[1].1.triangles), vec![0, 1, 2, 20, 21, 22]);
    assert_eq!(xs(&groups[1].1.quads), vec![200, 201, 202, 203]);
}

#[test]
fn groups_are_in_string_order() {
    let names = ["b", "a", "ab", "B", "", "é", "z", "a"];
    let meshes: Vec<(String, MeshGridEntry)> =
        names.iter().enumerate().map(|(i, n)| (n.to_string(), entry(i as i16 * 10, None))).collect();
    let groups = group_by_name(&meshes);
    let got: Vec<&str> = groups.iter().map(|g| g.0.as_str()).collect();
    let mut expected: Vec<&str> = names.to_vec();
    expected.sort();
    expected.dedup();
    assert_eq!(got, expected);
    assert_eq!(got, vec!["", "B", "a", "ab", "b", "z", "é"]);
    // both "a" meshes, first then last
    assert_eq!(xs(&groups[2].1.triangles), vec![10, 11, 12, 70, 71, 72]);
}

#[test]
fn no_meshes_no_groups() {
    assert!(group_by_name(&Vec::new()).is_empty());
}
