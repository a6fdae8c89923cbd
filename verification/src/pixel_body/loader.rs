//! Image to pixel body conversion.
//!
//! Turns RGBA image data into pixel body contents: opaque pixels become the
//! chosen material, colored by the closest entry of that material's eight
//! palette colors; transparent pixels stay empty.
use vstd::prelude::*;

use super::{
    cell_index, half_toward_zero, lemma_cell_index_bounds, lemma_cell_index_injective, wrap_i32,
    PixelBody,
};
use crate::coords::{ColorIndex, MaterialId};
use crate::material::ids as material_ids;
use crate::palette::GlobalPalette;
use crate::pixel::Pixel;
use crate::render::Rgba;

verus! {

/// Squared RGB distance between a color and a palette entry.
pub open spec fn color_dist(r: u8, g: u8, b: u8, c: Rgba) -> int {
    (r - c.red) * (r - c.red) + (g - c.green) * (g - c.green) + (b - c.blue) * (b - c.blue)
}

/// Whether `o` is the offset, within material `m`'s eight palette colors, of
/// the color closest to `(r, g, b)`, the first one on ties. A material past
/// the end of the palette has offset 0.
pub open spec fn is_best_offset(colors: Seq<Rgba>, m: u8, r: u8, g: u8, b: u8, o: int) -> bool {
    if 8 * m >= 256 {
        o == 0
    } else {
        &&& 0 <= o < 8
        &&& forall|k: int|
            0 <= k < 8 ==> color_dist(r, g, b, colors[8 * m + o]) <= color_dist(
                r,
                g,
                b,
                #[trigger] colors[8 * m + k],
            )
        &&& forall|k: int|
            0 <= k < o ==> color_dist(r, g, b, colors[8 * m + o]) < color_dist(
                r,
                g,
                b,
                #[trigger] colors[8 * m + k],
            )
    }
}

/// The color index a shader maps back to palette offset `o`, taking
/// `index * 7 / 255`: the middle of each offset's range.
pub open spec fn offset_color_index(o: int) -> u8 {
    if o == 0 {
        18
    } else if o == 1 {
        54
    } else if o == 2 {
        91
    } else if o == 3 {
        127
    } else if o == 4 {
        163
    } else if o == 5 {
        200
    } else if o == 6 {
        236
    } else {
        255
    }
}

/// The color index that best renders `(r, g, b)` in material `m`.
pub open spec fn best_color(colors: Seq<Rgba>, m: u8, r: u8, g: u8, b: u8) -> u8 {
    offset_color_index(choose|o: int| is_best_offset(colors, m, r, g, b, o))
}

/// There is only one best offset.
proof fn lemma_best_offset_unique(colors: Seq<Rgba>, m: u8, r: u8, g: u8, b: u8, o1: int, o2: int)
    requires
        is_best_offset(colors, m, r, g, b, o1),
        is_best_offset(colors, m, r, g, b, o2),
    ensures
        o1 == o2,
{
    if 8 * m < 256 {
        if o1 < o2 {
            assert(color_dist(r, g, b, colors[8 * m + o2]) < color_dist(r, g, b, colors[8 * m + o1]));
            assert(color_dist(r, g, b, colors[8 * m + o1]) <= color_dist(r, g, b, colors[8 * m + o2]));
        } else if o2 < o1 {
            assert(color_dist(r, g, b, colors[8 * m + o1]) < color_dist(r, g, b, colors[8 * m + o2]));
            assert(color_dist(r, g, b, colors[8 * m + o2]) <= color_dist(r, g, b, colors[8 * m + o1]));
        }
    }
}

/// The shader reads palette offset `index * 7 / 255` from a color index; the
/// index chosen for each offset reads back as that offset.
pub proof fn lemma_offset_color_index_round_trip(o: int)
    requires
        0 <= o < 8,
    ensures
        (offset_color_index(o) as int) * 7 / 255 == o,
{
}

/// The first of material `m`'s first `n` shades that is closest to
/// `(r, g, b)`.
spec fn first_closest(colors: Seq<Rgba>, m: u8, r: u8, g: u8, b: u8, n: int) -> int
    decreases n,
{
    if n <= 1 {
        0
    } else {
        let p = first_closest(colors, m, r, g, b, n - 1);
        if color_dist(r, g, b, colors[8 * m + n - 1]) < color_dist(r, g, b, colors[8 * m + p]) {
            n - 1
        } else {
            p
        }
    }
}

proof fn lemma_first_closest(colors: Seq<Rgba>, m: u8, r: u8, g: u8, b: u8, n: int)
    requires
        1 <= n <= 8,
    ensures
        0 <= first_closest(colors, m, r, g, b, n) < n,
        forall|k: int|
            0 <= k < n ==> color_dist(r, g, b, colors[8 * m + first_closest(colors, m, r, g, b, n)])
                <= color_dist(r, g, b, #[trigger] colors[8 * m + k]),
        forall|k: int|
            0 <= k < first_closest(colors, m, r, g, b, n) ==> color_dist(
                r,
                g,
                b,
                colors[8 * m + first_closest(colors, m, r, g, b, n)],
            ) < color_dist(r, g, b, #[trigger] colors[8 * m + k]),
    decreases n,
{
    if n > 1 {
        lemma_first_closest(colors, m, r, g, b, n - 1);
    }
}

/// Every material whose shades lie in the palette has a closest shade.
proof fn lemma_best_offset_exists(colors: Seq<Rgba>, m: u8, r: u8, g: u8, b: u8)
    requires
        8 * m < 256,
    ensures
        is_best_offset(colors, m, r, g, b, first_closest(colors, m, r, g, b, 8)),
{
    lemma_first_closest(colors, m, r, g, b, 8);
}

/// The color index chosen for `(r, g, b)` in material `m` makes the shader,
/// which reads offset `index * 7 / 255`, render the material's shade closest
/// to `(r, g, b)` (the first one on ties): no other shade is nearer.
pub proof fn lemma_best_color_renders_closest(colors: Seq<Rgba>, m: u8, r: u8, g: u8, b: u8)
    requires
        8 * m < 256,
    ensures
        ({
            let o = (best_color(colors, m, r, g, b) as int) * 7 / 255;
            &&& 0 <= o < 8
            &&& forall|k: int|
                0 <= k < 8 ==> color_dist(r, g, b, colors[8 * m + o]) <= color_dist(
                    r,
                    g,
                    b,
                    #[trigger] colors[8 * m + k],
                )
            &&& forall|k: int|
                0 <= k < o ==> color_dist(r, g, b, colors[8 * m + o]) < color_dist(
                    r,
                    g,
                    b,
                    #[trigger] colors[8 * m + k],
                )
        }),
{
    lemma_best_offset_exists(colors, m, r, g, b);
    let w = first_closest(colors, m, r, g, b, 8);
    let c = choose|c: int| is_best_offset(colors, m, r, g, b, c);
    assert(is_best_offset(colors, m, r, g, b, c));
    lemma_best_offset_unique(colors, m, r, g, b, c, w);
    lemma_offset_color_index_round_trip(c);
}

/// Squared distance of two color channels, as the `u32` it fits in.
fn channel_dist(a: u8, c: u8) -> (d: u32)
    ensures
        d == (a - c) * (a - c),
        d <= 255 * 255,
{
    let diff: u32 = if a >= c {
        (a - c) as u32
    } else {
        (c - a) as u32
    };
    proof {
        assert(diff * diff <= 255 * 255) by (nonlinear_arith)
            requires
                diff <= 255,
        ;
        assert(diff * diff == (a - c) * (a - c)) by (nonlinear_arith)
            requires
                diff == a - c || diff == c - a,
        ;
    }
    diff * diff
}

/// Finds the best matching color within a material's 8-color palette.
///
/// Returns a ColorIndex that will map to the best palette offset when
/// the shader computes `material_id * 8 + (color_index * 7 / 255)`.
fn find_best_material_color(r: u8, g: u8, b: u8, material: MaterialId, palette: &GlobalPalette) -> (c:
    ColorIndex)
    requires
        palette.wf(),
    ensures
        c.0 == best_color(palette.palette_colors(), material.0, r, g, b),
{
    let ghost colors = palette.palette_colors();
    let ghost m = material.0;
    proof {
        palette.lemma_wf_colors();
    }
    let base_idx = (material.0 as usize) * 8;
    let mut best_offset: u8 = 0;
    let mut best_dist: u32 = u32::MAX;
    let mut offset: usize = 0;
    while offset < 8
        invariant
            palette.wf(),
            colors == palette.palette_colors(),
            colors.len() == 256,
            m == material.0,
            base_idx == 8 * m,
            offset <= 8,
            base_idx >= 256 ==> offset == 0 && best_offset == 0,
            base_idx < 256 ==> {
                &&& offset == 0 ==> best_dist == u32::MAX && best_offset == 0
                &&& offset > 0 ==> {
                    &&& best_offset < offset
                    &&& best_dist == color_dist(r, g, b, colors[8 * m + best_offset])
                    &&& forall|k: int|
                        0 <= k < offset ==> best_dist <= color_dist(
                            r,
                            g,
                            b,
                            #[trigger] colors[8 * m + k],
                        )
                    &&& forall|k: int|
                        0 <= k < best_offset ==> best_dist < color_dist(
                            r,
                            g,
                            b,
                            #[trigger] colors[8 * m + k],
                        )
                }
            },
        ensures
            base_idx < 256 ==> offset == 8,
            base_idx >= 256 ==> offset == 0 && best_offset == 0,
            base_idx < 256 ==> {
                &&& best_offset < 8
                &&& best_dist == color_dist(r, g, b, colors[8 * m + best_offset])
                &&& forall|k: int|
                    0 <= k < 8 ==> best_dist <= color_dist(r, g, b, #[trigger] colors[8 * m + k])
                &&& forall|k: int|
                    0 <= k < best_offset ==> best_dist < color_dist(
                        r,
                        g,
                        b,
                        #[trigger] colors[8 * m + k],
                    )
            },
        decreases 8 - offset,
    {
        let palette_idx = base_idx + offset;
        if palette_idx >= 256 {
            break;
        }
        let pc = palette.color(palette_idx as u8);
        let dist = channel_dist(r, pc.red) + channel_dist(g, pc.green) + channel_dist(b, pc.blue);
        proof {
            assert(colors[8 * m + offset] == pc);
        }
        if dist < best_dist {
            best_dist = dist;
            best_offset = offset as u8;
        }
        offset = offset + 1;
    }
    proof {
        assert(is_best_offset(colors, m, r, g, b, best_offset as int));
        let o = choose|o: int| is_best_offset(colors, m, r, g, b, o);
        lemma_best_offset_unique(colors, m, r, g, b, o, best_offset as int);
    }
    let color_index: u8 = if best_offset == 0 {
        18
    } else if best_offset == 1 {
        54
    } else if best_offset == 2 {
        91
    } else if best_offset == 3 {
        127
    } else if best_offset == 4 {
        163
    } else if best_offset == 5 {
        200
    } else if best_offset == 6 {
        236
    } else {
        255
    };
    ColorIndex(color_index)
}

/// `body` with every cell set to `pixel`, solid unless the pixel is air.
#[verifier::spinoff_prover]
fn fill(b0: PixelBody, pixel: Pixel) -> (r: PixelBody)
    requires
        b0.wf(),
    ensures
        r.wf(),
        r.width == b0.width,
        r.height == b0.height,
        r.origin == b0.origin,
        forall|x: int, y: int|
            0 <= x < r.width && 0 <= y < r.height ==> #[trigger] r.surface@[cell_index(r.width as int, x, y)]
                == pixel,
        forall|x: int, y: int|
            0 <= x < r.width && 0 <= y < r.height ==> #[trigger] r.shape_mask@[cell_index(r.width as int, x, y)]
                == (pixel.material.0 != 0),
{
    let mut body = b0;
    let width = body.width;
    let height = body.height;
    let ghost w = width as int;
    let ghost h = height as int;
    let ghost origin = body.origin;
    let mut y: u32 = 0;
    while y < height
        invariant
            body.wf(),
            body.width == width,
            body.height == height,
            body.origin == origin,
            w == width,
            h == height,
            y <= height,
            forall|i: int| 0 <= i < y * w ==> #[trigger] body.surface@[i] == pixel,
            forall|i: int| 0 <= i < y * w ==> #[trigger] body.shape_mask@[i] == (pixel.material.0 != 0),
        decreases height - y,
    {
        let mut x: u32 = 0;
        while x < width
            invariant
                body.wf(),
                body.width == width,
                body.height == height,
                body.origin == origin,
                w == width,
                h == height,
                y < height,
                x <= width,
                forall|i: int| 0 <= i < y * w + x ==> #[trigger] body.surface@[i] == pixel,
                forall|i: int|
                    0 <= i < y * w + x ==> #[trigger] body.shape_mask@[i] == (pixel.material.0 != 0),
            decreases width - x,
        {
            proof {
                lemma_cell_index_bounds(w, h, x as int, y as int);
            }
            let ghost before = body;
            body.set_pixel(x, y, pixel);
            proof {
                let k = y * w + x;
                assert(body.surface@ == before.surface@.update(k, pixel));
                assert(body.shape_mask@ == before.shape_mask@.update(k, pixel.material.0 != 0));
                assert forall|i: int| 0 <= i < k + 1 implies #[trigger] body.surface@[i] == pixel by {
                    if i != k {
                        assert(body.surface@[i] == before.surface@[i]);
                    }
                }
                assert forall|i: int| 0 <= i < k + 1 implies #[trigger] body.shape_mask@[i] == (
                pixel.material.0 != 0) by {
                    if i != k {
                        assert(body.shape_mask@[i] == before.shape_mask@[i]);
                    }
                }
            }
            x = x + 1;
        }
        proof {
            assert(y * w + w == (y + 1) * w) by (nonlinear_arith);
        }
        y = y + 1;
    }
    proof {
        assert(h * w == w * h) by (nonlinear_arith);
        assert forall|x: int, y: int| 0 <= x < w && 0 <= y < h implies #[trigger] body.surface@[cell_index(w, x, y)] == pixel by {
            lemma_cell_index_bounds(w, h, x, y);
        }
        assert forall|x: int, y: int| 0 <= x < w && 0 <= y < h implies #[trigger] body.shape_mask@[cell_index(w, x, y)] == (pixel.material.0 != 0) by {
            lemma_cell_index_bounds(w, h, x, y);
        }
    }
    body
}

/// The pixel that image data gives cell `(x, y)` of a body, `y` counting
/// rows upward while image rows run top to bottom: with no data, air; with
/// fewer than four bytes per pixel, the material at color index 128;
/// otherwise air where alpha is below 128, else the material in its best
/// matching palette color.
pub open spec fn image_pixel(
    width: u32,
    height: u32,
    data: Option<Seq<u8>>,
    material: MaterialId,
    colors: Seq<Rgba>,
    x: int,
    y: int,
) -> Pixel {
    match data {
        None => Pixel::spec_air(),
        Some(d) => {
            let bpp = d.len() as int / (width * height);
            if bpp < 4 {
                Pixel { material, color: ColorIndex(128), damage: 0, flags: 0 }
            } else {
                let idx = ((height - 1 - y) * width + x) * bpp;
                if d[idx + 3] < 128 {
                    Pixel::spec_air()
                } else {
                    Pixel {
                        material,
                        color: ColorIndex(best_color(colors, material.0, d[idx], d[idx + 1], d[idx + 2])),
                        damage: 0,
                        flags: 0,
                    }
                }
            }
        },
    }
}

/// What cell index `i` holds while image rows are scanned top to bottom,
/// the current body row starting at index `lo`: its image pixel in the rows
/// above (from `lo + width` on) and in `lo..hi`, air elsewhere.
pub open spec fn scan_pixel(
    width: u32,
    height: u32,
    d: Seq<u8>,
    material: MaterialId,
    colors: Seq<Rgba>,
    lo: int,
    hi: int,
    i: int,
) -> Pixel {
    if i >= lo + width || (lo <= i < hi) {
        image_pixel(width, height, Some(d), material, colors, i % (width as int), i / (width as int))
    } else {
        Pixel::spec_air()
    }
}

/// The body that image data of the given size makes: each cell holds its
/// image pixel and is solid unless that pixel is air.
pub open spec fn is_image_body(
    b: PixelBody,
    width: u32,
    height: u32,
    data: Option<Seq<u8>>,
    material: MaterialId,
    colors: Seq<Rgba>,
) -> bool {
    &&& b.wf()
    &&& b.width == width
    &&& b.height == height
    &&& b.origin.0 == half_toward_zero(-wrap_i32(width))
    &&& b.origin.1 == half_toward_zero(-wrap_i32(height))
    &&& forall|x: int, y: int|
        0 <= x < width && 0 <= y < height ==> #[trigger] b.surface@[cell_index(width as int, x, y)]
            == image_pixel(width, height, data, material, colors, x, y)
    &&& forall|x: int, y: int|
        0 <= x < width && 0 <= y < height ==> #[trigger] b.shape_mask@[cell_index(width as int, x, y)]
            == (image_pixel(width, height, data, material, colors, x, y).material.0 != 0)
}

/// Loader for converting images to pixel bodies.
pub struct PixelBodyLoader;

impl PixelBodyLoader {
    /// Creates a PixelBody from RGBA image data using the global palette.
    ///
    /// Converts RGBA pixels to material + color:
    /// - Alpha < 128: void (not in shape mask)
    /// - Alpha >= 128: solid material with color index from palette LUT
    ///
    /// The material defaults to STONE for solid pixels.
    pub fn from_image(width: u32, height: u32, data: Option<&[u8]>, palette: &GlobalPalette) -> (r:
        Option<PixelBody>)
        requires
            palette.wf(),
            width * height <= u32::MAX,
            width != 0x8000_0000,
            height != 0x8000_0000,
        ensures
            r is None <==> (width == 0 || height == 0),
            r matches Some(b) ==> is_image_body(
                b,
                width,
                height,
                match data {
                    Some(d) => Some(d@),
                    None => None,
                },
                MaterialId(material_ids::STONE),
                palette.palette_colors(),
            ),
    {
        Self::from_image_with_material(width, height, data, MaterialId(material_ids::STONE), palette)
    }

    /// Creates a PixelBody from RGBA image data with a specific material.
    ///
    /// Converts RGBA pixels to the specified material + color:
    /// - Alpha < 128: void (not in shape mask)
    /// - Alpha >= 128: specified material with color index from palette LUT
    #[verifier::spinoff_prover]
    pub fn from_image_with_material(
        width: u32,
        height: u32,
        data: Option<&[u8]>,
        material: MaterialId,
        palette: &GlobalPalette,
    ) -> (r: Option<PixelBody>)
        requires
            palette.wf(),
            width * height <= u32::MAX,
            width != 0x8000_0000,
            height != 0x8000_0000,
        ensures
            r is None <==> (width == 0 || height == 0),
            r matches Some(b) ==> is_image_body(
                b,
                width,
                height,
                match data {
                    Some(d) => Some(d@),
                    None => None,
                },
                material,
                palette.palette_colors(),
            ),
    {
        if width == 0 || height == 0 {
            return None;
        }
        let mut body = PixelBody::new(width, height);
        let ghost colors = palette.palette_colors();
        let ghost w = width as int;
        let ghost h = height as int;
        proof {
            assert forall|x2: int, y2: int| 0 <= x2 < w && 0 <= y2 < h implies #[trigger] body.surface@[cell_index(w, x2, y2)] == Pixel::spec_air() by {
                lemma_cell_index_bounds(w, h, x2, y2);
            }
            assert forall|x2: int, y2: int| 0 <= x2 < w && 0 <= y2 < h implies !#[trigger] body.shape_mask@[cell_index(w, x2, y2)] by {
                lemma_cell_index_bounds(w, h, x2, y2);
            }
        }
        let data = match data {
            Some(d) => d,
            None => {
                return Some(body);
            },
        };
        let cells = (width as usize) * (height as usize);
        proof {
            assert(cells > 0) by (nonlinear_arith)
                requires
                    cells == w * h,
                    w > 0,
                    h > 0,
            ;
        }
        let bytes_per_pixel = data.len() / cells;
        if bytes_per_pixel < 4 {
            return Some(fill(body, Pixel::new(material, ColorIndex(128))));
        }
        proof {
            assert(cells * bytes_per_pixel <= data@.len()) by (nonlinear_arith)
                requires
                    cells > 0,
                    bytes_per_pixel == data@.len() as int / cells as int,
            ;
        }
        let ghost origin = body.origin;
        let ghost d = data@;
        proof {
            assert((h - 0 - 1) * w + w == w * h) by (nonlinear_arith);
        }
        let mut img_y: u32 = 0;
        while img_y < height
            invariant
                body.wf(),
                body.width == width,
                body.height == height,
                body.origin == origin,
                w == width,
                h == height,
                w > 0,
                h > 0,
                w * h <= u32::MAX,
                cells == w * h,
                d == data@,
                bytes_per_pixel == d.len() as int / cells as int,
                bytes_per_pixel >= 4,
                cells * bytes_per_pixel <= d.len(),
                d.len() <= usize::MAX,
                palette.wf(),
                colors == palette.palette_colors(),
                img_y <= height,
                forall|i: int|
                    0 <= i < w * h ==> #[trigger] body.surface@[i] == scan_pixel(
                        width,
                        height,
                        d,
                        material,
                        colors,
                        (h - img_y - 1) * w,
                        (h - img_y - 1) * w,
                        i,
                    ),
                forall|i: int|
                    0 <= i < w * h ==> #[trigger] body.shape_mask@[i] == (scan_pixel(
                        width,
                        height,
                        d,
                        material,
                        colors,
                        (h - img_y - 1) * w,
                        (h - img_y - 1) * w,
                        i,
                    ).material.0 != 0),
            decreases height - img_y,
        {
            let surface_y = height - 1 - img_y;
            let mut x: u32 = 0;
            while x < width
                invariant
                    body.wf(),
                    body.width == width,
                    body.height == height,
                    body.origin == origin,
                    w == width,
                    h == height,
                    w > 0,
                    h > 0,
                    w * h <= u32::MAX,
                    cells == w * h,
                    d == data@,
                    bytes_per_pixel == d.len() as int / cells as int,
                    bytes_per_pixel >= 4,
                    cells * bytes_per_pixel <= d.len(),
                    d.len() <= usize::MAX,
                    palette.wf(),
                    colors == palette.palette_colors(),
                    img_y < height,
                    surface_y == h - 1 - img_y,
                    x <= width,
                    forall|i: int|
                        0 <= i < w * h ==> #[trigger] body.surface@[i] == scan_pixel(
                            width,
                            height,
                            d,
                            material,
                            colors,
                            surface_y * w,
                            surface_y * w + x,
                            i,
                        ),
                    forall|i: int|
                        0 <= i < w * h ==> #[trigger] body.shape_mask@[i] == (scan_pixel(
                            width,
                            height,
                            d,
                            material,
                            colors,
                            surface_y * w,
                            surface_y * w + x,
                            i,
                        ).material.0 != 0),
                decreases width - x,
            {
                proof {
                    lemma_cell_index_bounds(w, h, x as int, img_y as int);
                    lemma_cell_index_bounds(w, h, x as int, surface_y as int);
                }
                let cell = img_y * width + x;
                proof {
                    assert((cell + 1) * bytes_per_pixel <= cells * bytes_per_pixel) by (nonlinear_arith)
                        requires
                            cell < cells,
                    ;
                    assert((cell + 1) * bytes_per_pixel == cell * bytes_per_pixel + bytes_per_pixel) by (nonlinear_arith);
                }
                let idx = (cell as usize) * bytes_per_pixel;
                let red = data[idx];
                let green = data[idx + 1];
                let blue = data[idx + 2];
                let alpha = data[idx + 3];
                let ghost k = surface_y * w + x;
                proof {
                    vstd::arithmetic::div_mod::lemma_fundamental_div_mod_converse(k, w, surface_y as int, x as int);
                    assert(h - 1 - k / w == img_y);
                }
                let ghost before = body;
                let ghost q = image_pixel(width, height, Some(d), material, colors, k % w, k / w);
                proof {
                    assert(((h - 1 - k / w) * w + k % w) * bytes_per_pixel == idx);
                    assert(d[idx + 3] == alpha);
                }
                if alpha >= 128 {
                    let color = find_best_material_color(red, green, blue, material, palette);
                    body.set_pixel(x, surface_y, Pixel::new(material, color));
                    proof {
                        assert(body.surface@ == before.surface@.update(k, q));
                    }
                } else {
                    proof {
                        assert(q == Pixel::spec_air());
                    }
                }
                proof {
                    assert forall|i: int| 0 <= i < w * h implies #[trigger] body.surface@[i] == scan_pixel(
                        width,
                        height,
                        d,
                        material,
                        colors,
                        surface_y * w,
                        surface_y * w + x + 1,
                        i,
                    ) by {
                        if i != k {
                            assert(body.surface@[i] == before.surface@[i]);
                        }
                    }
                    assert forall|i: int| 0 <= i < w * h implies #[trigger] body.shape_mask@[i] == (scan_pixel(
                        width,
                        height,
                        d,
                        material,
                        colors,
                        surface_y * w,
                        surface_y * w + x + 1,
                        i,
                    ).material.0 != 0) by {
                        if i != k {
                            assert(body.shape_mask@[i] == before.shape_mask@[i]);
                        }
                    }
                }
                x = x + 1;
            }
            proof {
                assert((surface_y - 1) * w + w == surface_y * w) by (nonlinear_arith);
                assert((h - (img_y + 1) - 1) * w == (surface_y - 1) * w);
            }
            img_y = img_y + 1;
        }
        proof {
            assert(img_y == height);
            assert((h - img_y - 1) * w + w == 0) by (nonlinear_arith)
                requires
                    img_y == h,
            ;
            assert forall|x2: int, y2: int|
                0 <= x2 < w && 0 <= y2 < h implies #[trigger] body.surface@[cell_index(w, x2, y2)]
                    == image_pixel(width, height, Some(d), material, colors, x2, y2) by {
                lemma_cell_index_bounds(w, h, x2, y2);
                vstd::arithmetic::div_mod::lemma_fundamental_div_mod_converse(y2 * w + x2, w, y2, x2);
            }
            assert forall|x2: int, y2: int|
                0 <= x2 < w && 0 <= y2 < h implies #[trigger] body.shape_mask@[cell_index(w, x2, y2)]
                    == (image_pixel(width, height, Some(d), material, colors, x2, y2).material.0 != 0) by {
                lemma_cell_index_bounds(w, h, x2, y2);
                vstd::arithmetic::div_mod::lemma_fundamental_div_mod_converse(y2 * w + x2, w, y2, x2);
            }
        }
        Some(body)
    }

    /// Creates a simple rectangular pixel body for testing.
    ///
    /// Fills the entire surface with the specified material.
    pub fn rectangle(width: u32, height: u32, material: MaterialId) -> (b: PixelBody)
        requires
            width * height <= usize::MAX,
            width != 0x8000_0000,
            height != 0x8000_0000,
        ensures
            b.wf(),
            b.width == width,
            b.height == height,
            b.origin.0 == half_toward_zero(-wrap_i32(width)),
            b.origin.1 == half_toward_zero(-wrap_i32(height)),
            forall|x: int, y: int|
                0 <= x < width && 0 <= y < height ==> #[trigger] b.surface@[cell_index(width as int, x, y)]
                    == (Pixel { material, color: ColorIndex(128), damage: 0, flags: 0 }),
            forall|x: int, y: int|
                0 <= x < width && 0 <= y < height ==> #[trigger] b.shape_mask@[cell_index(width as int, x, y)]
                    == (material.0 != 0),
    {
        let body = PixelBody::new(width, height);
        fill(body, Pixel::new(material, ColorIndex(128)))
    }
}

} // verus!
