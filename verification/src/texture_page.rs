//! `.txc` collections made from a single texture page of up to 256 colours.
use vstd::prelude::*;

use crate::psx_structs::{TextureCellPSX, TextureCollectionPSX};
use crate::quantize::{
    clear, pixels_to_colors, quantize, transparent_first_indices, transparent_first_palette, Rgba,
};

verus! {

/// A palette colour in the target's 15-bit format (5 bits per channel, high
/// bit set) for an opaque or partly transparent colour, 0 for a transparent one.
pub open spec fn color15(c: Rgba) -> u16 {
    if c.a > 0 {
        ((c.r as u16 & 0xF8u16) >> 3u16) | ((c.g as u16 & 0xF8u16) << 2u16) | ((c.b as u16
            & 0xF8u16) << 7u16) | (1u16 << 15u16)
    } else {
        0
    }
}

/// Each colour of a palette in 15-bit form.
pub open spec fn palette15(p: Seq<Rgba>) -> Seq<u16> {
    Seq::new(p.len(), |i: int| color15(p[i]))
}

/// The 15-bit palette, padded with zeros to 256 entries.
pub open spec fn page_palette(p: Seq<Rgba>) -> Seq<u16> {
    let converted = palette15(p);
    if converted.len() < 256 {
        converted + Seq::new((256 - converted.len()) as nat, |i: int| 0u16)
    } else {
        converted
    }
}

/// An opaque (or partly transparent) colour has the high bit set in 15-bit
/// form; a fully transparent one is 0.
pub proof fn lemma_color15_transparency(c: Rgba)
    ensures
        c.a > 0 ==> color15(c) >= 0x8000,
        c.a == 0 ==> color15(c) == 0,
{
    let r = c.r as u16;
    let g = c.g as u16;
    let b = c.b as u16;
    assert((((r & 0xF8u16) >> 3u16) | ((g & 0xF8u16) << 2u16) | ((b & 0xF8u16) << 7u16) | (1u16
        << 15u16)) >= 0x8000u16) by (bit_vector);
}

/// A page palette holds 0 exactly for the transparent colours; so when a
/// palette keeps a transparent colour first if it has any (as `quantize`
/// does), the page's palette entry 0 is 0 whenever any entry is.
pub proof fn lemma_page_palette_transparent_first(p: Seq<Rgba>)
    requires
        p.len() == 256,
        (exists|i: int| 0 <= i < 256 && #[trigger] p[i].a == 0) ==> p[0].a == 0,
    ensures
        forall|i: int| 0 <= i < 256 ==> (#[trigger] page_palette(p)[i] == 0 <==> p[i].a == 0),
        (exists|i: int| 0 <= i < 256 && #[trigger] page_palette(p)[i] == 0) ==> page_palette(p)[0]
            == 0,
{
    assert forall|i: int| 0 <= i < 256 implies (#[trigger] page_palette(p)[i] == 0 <==> p[i].a
        == 0) by {
        lemma_color15_transparency(p[i]);
    }
    if exists|i: int| 0 <= i < 256 && #[trigger] page_palette(p)[i] == 0 {
        let i = choose|i: int| 0 <= i < 256 && #[trigger] page_palette(p)[i] == 0;
        assert(p[i].a == 0);
        lemma_color15_transparency(p[0]);
    }
}

/// The collection holding one texture page: its name, its pixels' palette
/// indices, its palette in 15-bit form and its size (modulo 256).
pub fn page_collection(
    name: String,
    palette: &Vec<Rgba>,
    indexed_data: Vec<u8>,
    width: usize,
    height: usize,
) -> (txc: TextureCollectionPSX)
    ensures
        txc.texture_names.len() == 1,
        txc.texture_names@[0]@ == name@,
        txc.texture_cells.len() == 1,
        txc.texture_cells@[0].texture_data@ == indexed_data@,
        txc.texture_cells@[0].palette@ == page_palette(palette@),
        txc.texture_cells@[0].texture_width == (width % 256) as u8,
        txc.texture_cells@[0].texture_height == (height % 256) as u8,
        txc.texture_cells@[0].avg_color == 0,
{
    // Convert palette to 16 bit
    let mut tex_palette = Vec::<u16>::new();
    let mut i: usize = 0;
    while i < palette.len()
        invariant
            i <= palette.len(),
            tex_palette@ == palette15(palette@.take(i as int)),
        decreases palette.len() - i,
    {
        let color = palette[i];
        if color.a > 0 {
            tex_palette.push(
                (color.r as u16 & 0b11111000) >> 3 | (color.g as u16 & 0b11111000) << 2 | (
                color.b as u16 & 0b11111000) << 7 | 1u16 << 15u16,
            );
        } else {
            tex_palette.push(0);
        }
        assert(palette15(palette@.take(i + 1)) =~= palette15(palette@.take(i as int)).push(
            color15(color),
        ));
        i += 1;
    }
    assert(palette@.take(palette.len() as int) =~= palette@);
    let ghost converted = tex_palette@;

    while tex_palette.len() < 256
        invariant
            converted == palette15(palette@),
            tex_palette.len() >= converted.len(),
            tex_palette@ == converted + Seq::new(
                (tex_palette.len() - converted.len()) as nat,
                |i: int| 0u16,
            ),
            converted.len() < 256 ==> tex_palette.len() <= 256,
            converted.len() >= 256 ==> tex_palette.len() == converted.len(),
        decreases 256 - tex_palette.len(),
    {
        let ghost k = (tex_palette.len() - converted.len()) as nat;
        tex_palette.push(0);
        assert(Seq::new(k + 1, |i: int| 0u16) =~= Seq::new(k, |i: int| 0u16).push(0u16));
    }
    proof {
        if converted.len() < 256 {
            assert(tex_palette.len() == 256);
        } else {
            assert(tex_palette@ =~= converted);
        }
        assert(tex_palette@ =~= page_palette(palette@));
    }

    let mut txc_psx = TextureCollectionPSX::new();
    txc_psx.texture_names.push(name);
    txc_psx.texture_cells.push(
        TextureCellPSX {
            texture_data: indexed_data,
            palette: tex_palette,
            texture_width: (width % 256) as u8,
            texture_height: (height % 256) as u8,
            avg_color: 0,
        },
    );
    txc_psx
}

/// The collection for a texture page image of `width` x `height` pixels with
/// 3 (RGB) or 4 (RGBA) bytes per pixel: a 256-colour palette (transparent
/// entry first, if any) and one palette index per pixel.
pub fn txc_from_image(
    name: String,
    data: &Vec<u8>,
    depth: usize,
    width: usize,
    height: usize,
) -> (txc: TextureCollectionPSX)
    requires
        depth == 3 || depth == 4,
        data.len() % depth == 0,
        width > 0 || data.len() == 0,
    ensures
        txc.texture_names.len() == 1,
        txc.texture_names@[0]@ == name@,
        txc.texture_cells.len() == 1,
        txc.texture_cells@[0].texture_data.len() == data.len() / depth,
        forall|i: int|
            0 <= i < txc.texture_cells@[0].texture_data.len()
                ==> #[trigger] txc.texture_cells@[0].texture_data@[i]
                < txc.texture_cells@[0].palette.len(),
        txc.texture_cells@[0].palette.len() == 256,
        exists|p: Seq<Rgba>, r: Seq<u8>|
            #![trigger transparent_first_palette(p), transparent_first_indices(p, r)]
            {
                let q = transparent_first_palette(p);
                &&& p.len() == 256
                &&& r.len() == data.len() / depth
                &&& forall|i: int| 0 <= i < r.len() ==> #[trigger] r[i] < 256
                &&& txc.texture_cells@[0].palette@ == page_palette(q)
                &&& txc.texture_cells@[0].texture_data@ == transparent_first_indices(p, r)
                &&& forall|i: int| 0 <= i < 256 && #[trigger] q[i].a == 0 ==> q[i] == clear()
                &&& (exists|i: int| 0 <= i < 256 && #[trigger] q[i].a == 0) ==> q[0].a == 0
            },
        txc.texture_cells@[0].texture_width == (width % 256) as u8,
        txc.texture_cells@[0].texture_height == (height % 256) as u8,
        txc.texture_cells@[0].avg_color == 0,
{
    let (colors, has_transparent_pixels) = pixels_to_colors(data, depth);
    let (palette, indexed_data) = quantize(&colors, has_transparent_pixels, 256, width);
    let ghost q = palette@;
    let txc = page_collection(name, &palette, indexed_data, width, height);
    proof {
        let (p, r) = choose|p: Seq<Rgba>, r: Seq<u8>|
            {
                &&& p.len() == 256
                &&& r.len() == colors.len()
                &&& forall|i: int| 0 <= i < r.len() ==> #[trigger] r[i] < 256
                &&& q == transparent_first_palette(p)
                &&& txc.texture_cells@[0].texture_data@ == transparent_first_indices(p, r)
            };
        assert(transparent_first_palette(p) == q);
        assert(transparent_first_indices(p, r) == txc.texture_cells@[0].texture_data@);
    }
    txc
}

} // verus!
