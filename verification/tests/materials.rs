use psx_converter::materials::{material_mapping, MaterialInfo, NO_TEXTURE_ID, OCCLUDER_TEXTURE_ID};

fn material(name: &str, texture: Option<&str>) -> MaterialInfo {
    MaterialInfo { name: name.to_string(), diffuse_texture: texture.map(|t| t.to_string()) }
}

#[test]
fn material_mapping_shares_textures_and_marks_specials() {
    let mats = vec![
        material("wall", Some("brick.png")),
        material("floor", Some("tiles.png")),
        material("wall_occluder", Some("brick.png")),
        material("plain", None),
        material("wall2", Some("brick.png")),
        material("roof", Some("slate.png")),
    ];
    let (ids, textures) = material_mapping(&mats);
    assert_eq!(ids, vec![0, 1, OCCLUDER_TEXTURE_ID, NO_TEXTURE_ID, 0, 2]);
    assert_eq!(textures, vec!["brick.png".to_string(), "tiles.png".to_string(), "slate.png".to_string()]);
}

#[test]
fn material_mapping_occluder_marker_anywhere_in_name() {
    let mats = vec![
        material("occlude", None),
        material("my_occluder_2", Some("a.png")),
        material("occlud", Some("a.png")),
        material("Occlude", Some("b.png")),
    ];
    let (ids, textures) = material_mapping(&mats);
    // Matching is case sensitive and needs the whole word.
    assert_eq!(ids, vec![254, 254, 0, 1]);
    assert_eq!(textures, vec!["a.png".to_string(), "b.png".to_string()]);
}

#[test]
fn material_mapping_empty() {
    let (ids, textures) = material_mapping(&Vec::new());
    assert!(ids.is_empty());
    assert!(textures.is_empty());
}
