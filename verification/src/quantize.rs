//! Colour quantization of texture images: the conversion of pixels to the
//! colours handed to the quantizer (`exoquant`), the calls into it, and the
//! relabelling that moves a transparent palette entry to index 0.
use vstd::prelude::*;

use exoquant::optimizer::Optimizer;
use vstd::multiset::Multiset;

verus! {

/// An 8-bit RGBA colour.
#[derive(Clone, Copy, Debug, PartialEq, Eq, Structural)]
pub struct Rgba {
    pub r: u8,
    pub g: u8,
    pub b: u8,
    pub a: u8,
}

#[verifier::external_type_specification]
#[verifier::external_body]
pub struct ExHistogram(exoquant::Histogram);

/// The colours counted by a histogram, with their multiplicities.
pub uninterp spec fn histogram_colors(h: exoquant::Histogram) -> Multiset<Rgba>;

/// Counts the colours (`Histogram::from_iter`, through `collect`).
///
/// Trusted: the histogram's map counts each colour once per occurrence.
#[verifier::external_body]
fn histogram_of(colors: &Vec<Rgba>) -> (hist: exoquant::Histogram)
    ensures
        histogram_colors(hist) == colors@.to_multiset(),
{
    colors.iter().map(|c| exoquant::Color::new(c.r, c.g, c.b, c.a)).collect()
}

/// A palette of `num_colors` colours for the histogram
/// (`exoquant::generate_palette` with the default colour space and the
/// weighted K-means optimizer).
///
/// Trusted: the quantizer starts from one colour and adds one per step until
/// it has `num_colors`; its K-means passes keep the count. Which colours come
/// out is left unsaid: the histogram is a hash map whose walking order varies
/// between processes, and the result depends on it.
#[verifier::external_body]
fn generate_palette(hist: &exoquant::Histogram, num_colors: usize) -> (palette: Vec<Rgba>)
    requires
        num_colors >= 1,
    ensures
        palette.len() == num_colors,
{
    exoquant::generate_palette(
        hist,
        &exoquant::SimpleColorSpace::default(),
        &exoquant::optimizer::WeightedKMeans,
        num_colors,
    ).iter().map(|c| Rgba { r: c.r, g: c.g, b: c.b, a: c.a }).collect()
}

/// Eight weighted K-means passes over a palette
/// (`WeightedKMeans::optimize_palette`).
///
/// Trusted: each pass moves every colour and keeps the count. The colours
/// themselves are left unsaid, for the reason given at `generate_palette`.
/// An empty palette makes the nearest-colour map panic, hence the `requires`.
#[verifier::external_body]
fn optimize_palette(palette: &Vec<Rgba>, hist: &exoquant::Histogram) -> (res: Vec<Rgba>)
    requires
        palette.len() >= 1,
    ensures
        res.len() == palette.len(),
{
    let palette: Vec<exoquant::Color> = palette.iter().map(
        |c| exoquant::Color::new(c.r, c.g, c.b, c.a),
    ).collect();
    exoquant::optimizer::WeightedKMeans.optimize_palette(
        &exoquant::SimpleColorSpace::default(),
        &palette,
        hist,
        8,
    ).iter().map(|c| Rgba { r: c.r, g: c.g, b: c.b, a: c.a }).collect()
}

/// The palette index of each pixel, with 2x2 ordered dithering
/// (`Remapper::new(..).remap` with `ditherer::Ordered`).
///
/// Trusted: one index per pixel, each naming a palette entry (the nearest
/// colour after dithering, or 0 where none is found). Which entry is left
/// unsaid: the nearest-colour search compares colours converted with
/// `f64::powf`, whose precision Rust leaves unspecified, so near ties may
/// come out differently between platforms or runs. The remapper asserts at
/// most 256 colours, its colour map panics on none, and the ditherer divides
/// by the width.
#[verifier::external_body]
fn remap_ordered(palette: &Vec<Rgba>, pixels: &Vec<Rgba>, width: usize) -> (indices: Vec<u8>)
    requires
        1 <= palette.len() <= 256,
        width > 0 || pixels.len() == 0,
    ensures
        indices.len() == pixels.len(),
        forall|i: int| 0 <= i < indices.len() ==> #[trigger] indices@[i] < palette.len(),
{
    let palette: Vec<exoquant::Color> = palette.iter().map(
        |c| exoquant::Color::new(c.r, c.g, c.b, c.a),
    ).collect();
    let pixels: Vec<exoquant::Color> = pixels.iter().map(
        |c| exoquant::Color::new(c.r, c.g, c.b, c.a),
    ).collect();
    exoquant::Remapper::new(
        &palette,
        &exoquant::SimpleColorSpace::default(),
        &exoquant::ditherer::Ordered,
    ).remap(&pixels, width)
}

/// The fully transparent colour.
pub open spec fn clear() -> Rgba {
    Rgba { r: 0, g: 0, b: 0, a: 0 }
}

/// The colour of pixel `i` of an image with `depth` bytes per pixel: with an
/// alpha channel, a zero alpha gives the transparent colour and any other
/// alpha an opaque one; without, the pixel is opaque.
pub open spec fn pixel_color(data: Seq<u8>, depth: int, i: int) -> Rgba {
    if depth == 4 {
        if data[4 * i + 3] == 0 {
            clear()
        } else {
            Rgba { r: data[4 * i], g: data[4 * i + 1], b: data[4 * i + 2], a: 255 }
        }
    } else {
        Rgba { r: data[3 * i], g: data[3 * i + 1], b: data[3 * i + 2], a: 255 }
    }
}

/// The colours of all pixels of an image with `depth` bytes per pixel.
pub open spec fn pixel_colors(data: Seq<u8>, depth: int) -> Seq<Rgba> {
    Seq::new((data.len() as int / depth) as nat, |i: int| pixel_color(data, depth, i))
}

/// Some pixel of the image is transparent.
pub open spec fn has_transparent_pixel(data: Seq<u8>, depth: int) -> bool {
    depth == 4 && exists|i: int| 0 <= i < data.len() / 4 && #[trigger] data[4 * i + 3] == 0
}

/// The colours of the pixels of an image with 3 (RGB) or 4 (RGBA) bytes per
/// pixel, and whether any pixel is transparent.
pub fn pixels_to_colors(data: &Vec<u8>, depth: usize) -> (res: (Vec<Rgba>, bool))
    requires
        depth == 3 || depth == 4,
        data.len() % depth == 0,
    ensures
        res.0.len() == data.len() / depth,
        forall|i: int|
            0 <= i < res.0.len() ==> #[trigger] res.0@[i] == pixel_color(data@, depth as int, i),
        res.1 == has_transparent_pixel(data@, depth as int),
        res.0@ == pixel_colors(data@, depth as int),
{
    let n = data.len() / depth;
    let mut colors: Vec<Rgba> = Vec::new();
    let mut has_transparent_pixels = false;
    let mut p: usize = 0;
    let mut o: usize = 0;
    while p < n
        invariant
            depth == 3 || depth == 4,
            data.len() % depth == 0,
            n == data.len() / depth,
            p <= n,
            o == (if depth == 4 {
                4 * p
            } else {
                3 * p
            }),
            colors.len() == p,
            forall|i: int| 0 <= i < p ==> #[trigger] colors@[i] == pixel_color(data@, depth as int, i),
            has_transparent_pixels == (depth == 4 && exists|i: int|
                0 <= i < p && #[trigger] data@[4 * i + 3] == 0),
        decreases n - p,
    {
        proof {
            if depth == 4 {
                assert(o + 4 <= data.len());
            } else {
                assert(o + 3 <= data.len());
            }
        }
        if depth == 4 {
            if data[o + 3] == 0 {
                has_transparent_pixels = true;
                colors.push(Rgba { r: 0, g: 0, b: 0, a: 0 });
            } else {
                colors.push(Rgba { r: data[o], g: data[o + 1], b: data[o + 2], a: 255 });
            }
            o = o + 4;
        } else {
            colors.push(Rgba { r: data[o], g: data[o + 1], b: data[o + 2], a: 255 });
            o = o + 3;
        }
        p += 1;
    }
    assert(colors@ =~= pixel_colors(data@, depth as int));
    (colors, has_transparent_pixels)
}

/// The colours counted for the palette: the pixels' colours, and where some
/// are transparent as many transparent ones again, so that the palette keeps
/// a transparent entry.
pub open spec fn histogram_input(colors: Seq<Rgba>, has_transparent: bool) -> Seq<Rgba> {
    if has_transparent {
        colors + Seq::new(colors.len(), |i: int| clear())
    } else {
        colors
    }
}

/// Builds the colours counted for the palette (see `histogram_input`).
pub fn make_histogram_input(colors: &Vec<Rgba>, has_transparent: bool) -> (res: Vec<Rgba>)
    ensures
        res@ == histogram_input(colors@, has_transparent),
{
    let mut histogram_data = colors.clone();
    assert(histogram_data@ == colors@);
    if has_transparent {
        let n = colors.len();
        let mut k: usize = 0;
        while k < n
            invariant
                n == colors.len(),
                k <= n,
                histogram_data@ == colors@ + Seq::new(k as nat, |i: int| clear()),
            decreases n - k,
        {
            histogram_data.push(Rgba { r: 0, g: 0, b: 0, a: 0 });
            assert(Seq::new((k + 1) as nat, |i: int| clear()) =~= Seq::new(
                k as nat,
                |i: int| clear(),
            ).push(clear()));
            k += 1;
        }
    }
    histogram_data
}

/// Transparent colours made black (they stay transparent).
pub open spec fn blackened(c: Rgba) -> Rgba {
    if c.a == 0 {
        Rgba { r: 0, g: 0, b: 0, a: c.a }
    } else {
        c
    }
}

/// The index of the last transparent palette entry, or -1 for none.
pub open spec fn last_transparent(p: Seq<Rgba>) -> int
    decreases p.len(),
{
    if p.len() == 0 {
        -1
    } else if p.last().a == 0 {
        p.len() - 1
    } else {
        last_transparent(p.drop_last())
    }
}

/// A pixel's index after swapping palette entries `0` and `t`.
pub open spec fn swap_label(x: u8, t: int) -> u8 {
    if x == t {
        0
    } else if x == 0 {
        t as u8
    } else {
        x
    }
}

proof fn lemma_last_transparent(p: Seq<Rgba>)
    ensures
        -1 <= last_transparent(p) < p.len(),
        last_transparent(p) >= 0 ==> p[last_transparent(p)].a == 0,
        last_transparent(p) < 0 ==> forall|i: int| 0 <= i < p.len() ==> #[trigger] p[i].a != 0,
    decreases p.len(),
{
    if p.len() > 0 {
        lemma_last_transparent(p.drop_last());
        if last_transparent(p) < 0 {
            assert forall|i: int| 0 <= i < p.len() implies #[trigger] p[i].a != 0 by {
                if i < p.len() - 1 {
                    assert(p.drop_last()[i] == p[i]);
                }
            }
        }
    }
}

/// The palette with its transparent colours made black and, if it has any,
/// the last transparent entry swapped into index 0.
pub open spec fn transparent_first_palette(p: Seq<Rgba>) -> Seq<Rgba> {
    let t = last_transparent(p);
    if t < 0 {
        p
    } else {
        let bl = p.map_values(|c: Rgba| blackened(c));
        bl.update(0, bl[t]).update(t, bl[0])
    }
}

/// Palette indices relabelled to match `transparent_first_palette(p)`.
pub open spec fn transparent_first_indices(p: Seq<Rgba>, idx: Seq<u8>) -> Seq<u8> {
    let t = last_transparent(p);
    if t < 0 {
        idx
    } else {
        Seq::new(idx.len(), |i: int| swap_label(idx[i], t))
    }
}

/// Makes every transparent palette colour black and, if there is one, swaps
/// the last transparent entry into index 0 and relabels the pixels to match:
/// every pixel keeps showing the (blackened) colour it showed.
pub fn move_transparent_first(palette: &mut Vec<Rgba>, indexed_data: &mut Vec<u8>)
    requires
        old(palette).len() <= 256,
    ensures
        final(palette).len() == old(palette).len(),
        final(indexed_data).len() == old(indexed_data).len(),
        final(palette)@ == transparent_first_palette(old(palette)@),
        final(indexed_data)@ == transparent_first_indices(old(palette)@, old(indexed_data)@),
        last_transparent(old(palette)@) < 0 ==> final(palette)@ == old(palette)@
            && final(indexed_data)@ == old(indexed_data)@,
        last_transparent(old(palette)@) >= 0 ==> ({
            let t = last_transparent(old(palette)@);
            let bl = old(palette)@.map_values(|c: Rgba| blackened(c));
            &&& final(palette)@ == bl.update(0, bl[t]).update(t, bl[0])
            &&& forall|i: int|
                0 <= i < old(indexed_data).len() ==> #[trigger] final(indexed_data)@[i]
                    == swap_label(old(indexed_data)@[i], t)
            &&& final(palette)@[0].a == 0
        }),
        forall|i: int|
            0 <= i < old(indexed_data).len() && old(indexed_data)@[i] < old(palette).len()
                ==> final(indexed_data)@[i] < final(palette).len() && final(palette)@[#[trigger] final(indexed_data)@[i] as int] == blackened(old(palette)@[old(indexed_data)@[i] as int]),
{
    let ghost p0 = palette@;
    let ghost d0 = indexed_data@;
    proof {
        lemma_last_transparent(p0);
    }
    let mut n_transparent_colors: usize = 0;
    let mut transparent_index: usize = 0;
    let mut index: usize = 0;
    while index < palette.len()
        invariant
            palette.len() == p0.len(),
            p0.len() <= 256,
            index <= p0.len(),
            forall|i: int| 0 <= i < index ==> #[trigger] palette@[i] == blackened(p0[i]),
            forall|i: int| index <= i < p0.len() ==> #[trigger] palette@[i] == p0[i],
            n_transparent_colors <= index,
            n_transparent_colors == 0 <==> last_transparent(p0.take(index as int)) < 0,
            n_transparent_colors > 0 ==> transparent_index == last_transparent(
                p0.take(index as int),
            ),
        decreases p0.len() - index,
    {
        proof {
            assert(p0.take(index + 1).drop_last() =~= p0.take(index as int));
        }
        if palette[index].a == 0 {
            transparent_index = index;
            n_transparent_colors += 1;
            let mut color = palette[index];
            color.r = 0;
            color.g = 0;
            color.b = 0;
            palette.set(index, color);
        }
        index += 1;
    }
    proof {
        assert(p0.take(p0.len() as int) =~= p0);
        assert(palette@ =~= p0.map_values(|c: Rgba| blackened(c)));
    }
    if n_transparent_colors > 0 {
        // Swap the transparent and first colors
        let temp = palette[0];
        let moved = palette[transparent_index];
        palette.set(0, moved);
        palette.set(transparent_index, temp);

        // Then remap the indices in the texture
        let mut k: usize = 0;
        while k < indexed_data.len()
            invariant
                indexed_data.len() == d0.len(),
                transparent_index < 256,
                k <= d0.len(),
                forall|i: int|
                    0 <= i < k ==> #[trigger] indexed_data@[i] == swap_label(
                        d0[i],
                        transparent_index as int,
                    ),
                forall|i: int| k <= i < d0.len() ==> #[trigger] indexed_data@[i] == d0[i],
            decreases d0.len() - k,
        {
            let pixel = indexed_data[k];
            if pixel == transparent_index as u8 {
                indexed_data.set(k, 0);
            } else if pixel == 0 {
                indexed_data.set(k, transparent_index as u8);
            }
            k += 1;
        }
        proof {
            let bl = p0.map_values(|c: Rgba| blackened(c));
            assert(palette@ =~= bl.update(0, bl[transparent_index as int]).update(
                transparent_index as int,
                bl[0],
            ));
            assert(indexed_data@ =~= transparent_first_indices(p0, d0));
        }
    } else {
        proof {
            assert forall|i: int| 0 <= i < p0.len() implies blackened(p0[i]) == p0[i] by {
                assert(p0[i].a != 0);
            }
            assert(palette@ =~= p0);
        }
    }
}

/// Quantizes the pixel colours to a palette of `num_colors` colours and maps
/// each pixel to a palette index (with ordered dithering). The palette is
/// built from `histogram_input` and tuned by K-means passes; then
/// transparent entries are made black and one of them is moved to index 0
/// (see `move_transparent_first`).
///
/// The contract states the last step exactly, over the quantizer's palette
/// and indices, but not which palette comes out: that depends on the order
/// in which the histogram's hash map is walked, so neither the palette nor
/// the colours counted for it (`histogram_input`) appear in the `ensures`;
/// nor which index each pixel gets, which depends on floating point
/// precision (see `remap_ordered`).
pub fn quantize(colors: &Vec<Rgba>, has_transparent: bool, num_colors: usize, width: usize) -> (res:
    (Vec<Rgba>, Vec<u8>))
    requires
        1 <= num_colors <= 256,
        width > 0 || colors.len() == 0,
    ensures
        res.0.len() == num_colors,
        res.1.len() == colors.len(),
        forall|i: int| 0 <= i < res.1.len() ==> #[trigger] res.1@[i] < num_colors,
        forall|i: int| 0 <= i < res.0.len() && #[trigger] res.0@[i].a == 0 ==> res.0@[i] == clear(),
        (exists|i: int| 0 <= i < res.0.len() && #[trigger] res.0@[i].a == 0) ==> res.0@[0].a == 0,
        exists|p: Seq<Rgba>, idx: Seq<u8>|
            #![trigger transparent_first_palette(p), transparent_first_indices(p, idx)]
            {
                &&& p.len() == num_colors
                &&& idx.len() == colors.len()
                &&& forall|i: int| 0 <= i < idx.len() ==> #[trigger] idx[i] < num_colors
                &&& res.0@ == transparent_first_palette(p)
                &&& res.1@ == transparent_first_indices(p, idx)
            },
{
    // Make half the histogram transparent pixels so that the quantizer actually generates a palette that contains one of those
    let histogram_data = make_histogram_input(colors, has_transparent);
    let histogram = histogram_of(&histogram_data);
    let palette = generate_palette(&histogram, num_colors);
    let mut palette = optimize_palette(&palette, &histogram);
    let mut indexed_data = remap_ordered(&palette, colors, width);
    let ghost p0 = palette@;
    let ghost d0 = indexed_data@;

    // If the palette has a transparent pixel color, move it to index 0
    // Additionally, make the color full black. This way the PS1 knows it's transparent too
    move_transparent_first(&mut palette, &mut indexed_data);
    proof {
        lemma_last_transparent(p0);
        let t = last_transparent(p0);
        let bl = p0.map_values(|c: Rgba| blackened(c));
        assert forall|i: int| 0 <= i < indexed_data.len() implies #[trigger] indexed_data@[i]
            < num_colors by {
            assert(d0[i] < p0.len());
        }
        assert forall|i: int| 0 <= i < palette.len() && #[trigger] palette@[i].a == 0 implies palette@[i]
            == clear() by {
            if t >= 0 {
                if i == 0 {
                    assert(palette@[i] == bl[t]);
                } else if i == t {
                    assert(palette@[i] == bl[0]);
                } else {
                    assert(palette@[i] == bl[i]);
                }
            } else {
                assert(palette@[i] == p0[i]);
            }
        }
        if exists|i: int| 0 <= i < palette.len() && #[trigger] palette@[i].a == 0 {
            if t < 0 {
                let i = choose|i: int| 0 <= i < palette.len() && #[trigger] palette@[i].a == 0;
                assert(palette@[i] == p0[i]);
            }
        }
        assert(p0.len() == num_colors && palette@ == transparent_first_palette(p0)
            && indexed_data@ == transparent_first_indices(p0, d0));
        assert(d0.len() == colors.len());
        assert(forall|i: int| 0 <= i < d0.len() ==> #[trigger] d0[i] < num_colors);
    }
    (palette, indexed_data)
}

} // verus!
