use psx_converter::quantize::{
    make_histogram_input, move_transparent_first, pixels_to_colors, quantize, Rgba,
};
use psx_converter::texture_page::{page_collection, txc_from_image};
use psx_converter::visual::{texture_cell_from_pixels, texture_cell_from_quantized};

fn rgba(r: u8, g: u8, b: u8, a: u8) -> Rgba {
    Rgba { r, g, b, a }
}

#[test]
fn pixels_to_colors_rgba_and_rgb() {
    let data = vec![1, 2, 3, 0, 4, 5, 6, 7];
    let (colors, transparent) = pixels_to_colors(&data, 4);
    assert_eq!(colors, vec![rgba(0, 0, 0, 0), rgba(4, 5, 6, 255)]);
    assert!(transparent);
    let (colors, transparent) = pixels_to_colors(&vec![9, 8, 7, 0, 0, 0], 3);
    assert_eq!(colors, vec![rgba(9, 8, 7, 255), rgba(0, 0, 0, 255)]);
    assert!(!transparent);
}

#[test]
fn histogram_doubles_with_transparency() {
    let colors = vec![rgba(1, 1, 1, 255), rgba(0, 0, 0, 0)];
    let h = make_histogram_input(&colors, true);
    assert_eq!(h.len(), 4);
    assert_eq!(h[2], rgba(0, 0, 0, 0));
    assert_eq!(make_histogram_input(&colors, false), colors);
}

#[test]
fn transparent_entry_moves_to_front() {
    let mut palette =
        vec![rgba(10, 10, 10, 255), rgba(20, 20, 20, 255), rgba(30, 30, 30, 0), rgba(40, 0, 0, 255)];
    let palette_before = palette.clone();
    let mut pixels = vec![0, 1, 2, 3, 2, 0];
    let before = pixels.clone();
    move_transparent_first(&mut palette, &mut pixels);
    assert_eq!(palette[0], rgba(0, 0, 0, 0));
    assert_eq!(palette[2], rgba(10, 10, 10, 255));
    assert_eq!(pixels, vec![2, 1, 0, 3, 0, 2]);
    for (old, new) in before.iter().zip(&pixels) {
        let shown = palette_before[*old as usize];
        let expected = if shown.a == 0 { rgba(0, 0, 0, 0) } else { shown };
        assert_eq!(palette[*new as usize], expected);
    }
}

#[test]
fn opaque_palette_is_left_alone() {
    let mut palette = vec![rgba(1, 2, 3, 255), rgba(4, 5, 6, 128)];
    let mut pixels = vec![1, 0, 1];
    move_transparent_first(&mut palette, &mut pixels);
    assert_eq!(palette, vec![rgba(1, 2, 3, 255), rgba(4, 5, 6, 128)]);
    assert_eq!(pixels, vec![1, 0, 1]);
}

fn test_image(w: usize, h: usize, transparent: bool) -> Vec<u8> {
    let mut data = Vec::new();
    for y in 0..h {
        for x in 0..w {
            let a = if transparent && x < 2 { 0 } else { 255 };
            data.extend([(x * 4) as u8, (y * 4) as u8, ((x + y) * 2) as u8, a]);
        }
    }
    data
}

#[test]
fn quantize_gives_requested_palette() {
    let data = test_image(16, 16, true);
    let (colors, transparent) = pixels_to_colors(&data, 4);
    let (palette, indices) = quantize(&colors, transparent, 16, 16);
    assert_eq!(palette.len(), 16);
    assert_eq!(indices.len(), 256);
    assert!(indices.iter().all(|i| *i < 16));
    assert_eq!(palette[0].a, 0);
    assert!(palette.iter().filter(|c| c.a == 0).all(|c| *c == rgba(0, 0, 0, 0)));
}

#[test]
fn texture_page_collection() {
    let data = test_image(8, 4, false);
    let txc = txc_from_image("page.png".to_string(), &data, 4, 8, 4);
    assert_eq!(txc.texture_names, vec!["page.png".to_string()]);
    assert_eq!(txc.texture_cells.len(), 1);
    let cell = &txc.texture_cells[0];
    assert_eq!(cell.texture_data.len(), 32);
    assert_eq!(cell.palette.len(), 256);
    assert_eq!((cell.texture_width, cell.texture_height, cell.avg_color), (8, 4, 0));
}

#[test]
fn page_palette_conversion() {
    let palette = vec![rgba(0xFF, 0x08, 0x10, 255), rgba(1, 2, 3, 0)];
    let txc = page_collection("x".to_string(), &palette, vec![1, 0], 300, 256);
    let cell = &txc.texture_cells[0];
    assert_eq!(cell.palette.len(), 256);
    assert_eq!(cell.palette[0], 0x1F | (1 << 5) | (2 << 10) | 0x8000);
    assert_eq!(cell.palette[1], 0);
    assert!(cell.palette[2..].iter().all(|c| *c == 0));
    assert_eq!(cell.texture_data, vec![1, 0]);
    assert_eq!((cell.texture_width, cell.texture_height), (44, 0));
}

#[test]
fn texture_cell_packs_two_pixels_per_byte() {
    let palette = vec![rgba(255, 0, 0, 255), rgba(0, 0, 0, 0)];
    let target = rgba(0, 255, 0, 255);
    let cell = texture_cell_from_quantized(&palette, &vec![1, 2, 3, 4, 5], 0xABCD, target, 3, 2, false);
    // pairs (1,2), (3,4), then (5, -) and nothing else for 6 pixels
    assert_eq!(cell.texture_data, vec![0x21, 0x43, 0, 0, 0, 0]);
    assert_eq!(cell.palette.len(), 32);
    // fade level 0: the colour itself; level 15: the target
    assert_eq!(cell.palette[0], 0x8000 | 31);
    assert_eq!(cell.palette[1], 0);
    assert_eq!(cell.palette[30], 0x8000 | (31 << 5));
    assert_eq!((cell.texture_width, cell.texture_height, cell.avg_color), (64, 64, 0xABCD));
    let page = texture_cell_from_quantized(&palette, &vec![7, 8], 0, target, 2, 2, true);
    assert_eq!(page.texture_data, vec![7, 8, 0, 0, 0, 0, 0, 0, 0, 0]);
}

#[test]
fn texture_cell_average_colour() {
    // a 64x64 opaque image of one colour
    let mut data = Vec::new();
    for _ in 0..64 * 64 {
        data.extend([200u8, 100, 50]);
    }
    let cell = texture_cell_from_pixels(&data, 3, 64, 64, false);
    // alpha is counted twice: 510 per pixel
    let expected: u32 = 200 | (50 << 8) | (100 << 16) | (510u32 << 24);
    assert_eq!(cell.avg_color, expected);
    assert_eq!(cell.palette.len(), 16 * 16);
    assert_eq!(cell.texture_data.len(), 64 * 64 / 2);
}

#[test]
fn transparent_texture_cell_keeps_transparency_first_at_every_fade_level() {
    let data = test_image(16, 16, true);
    let cell = texture_cell_from_pixels(&data, 4, 16, 16, false);
    assert_eq!(cell.palette.len(), 16 * 16);
    for level in 0..16 {
        assert_eq!(cell.palette[16 * level], 0);
    }
    for (i, c) in cell.palette.iter().enumerate() {
        assert!(*c == 0 || *c >= 0x8000, "entry {i} is {c:#x}");
    }
}

#[test]
fn transparent_texture_page_has_transparency_first() {
    let data = test_image(16, 8, true);
    let txc = txc_from_image("page.png".to_string(), &data, 4, 16, 8);
    let cell = &txc.texture_cells[0];
    assert_eq!(cell.palette[0], 0);
    assert!(cell.palette.iter().all(|c| *c == 0 || *c >= 0x8000));
    assert_eq!(cell.texture_data.len(), 16 * 8);
}
