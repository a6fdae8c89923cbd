//! Global 256-color palette.
//!
//! Provides a global palette that maps ColorIndex (0-255) directly to colors,
//! the 16MB lookup table (LUT) that maps any RGB color to a palette index,
//! and the LZ4-compressed cache format of that table.
use std::collections::hash_map::DefaultHasher;
use std::hash::Hasher;
use vstd::prelude::*;
use vstd::std_specs::hash::DefaultHasherAdditionalSpecFns;
use vstd::string::StrSliceExecFns;
use vstd::utf8::is_ascii_chars;

use crate::coords::MaterialId;
use crate::material::{Material, Materials};
use crate::persistence::compression::{compress_lz4, decompress_lz4, lz4_compressed, lz4_decompressed};
use crate::persistence::bytes::{le_bytes, le_value, lemma_le_bytes_len, lemma_le_round_trip, lemma_pow256_values, push_le, read_le};
use crate::render::Rgba;

verus! {

/// Number of entries in the RGB lookup table: one per 24-bit color.
pub const LUT_SIZE: usize = 16_777_216;

/// LUT cache file path (relative to assets directory).
pub const LUT_CACHE_PATH: &'static str = "lut.bin.lz4";

/// Distance function used for RGB→palette mapping.
#[derive(Clone, Copy, Debug, PartialEq, Eq, Structural)]
pub enum DistanceFunction {
    /// Euclidean distance in RGB space. Fast but perceptually inaccurate.
    Rgb,
    /// Distance in HSL space. Better for hue preservation.
    Hsl,
    /// Distance in OkLab space. Perceptually uniform, best quality.
    Oklab,
}

impl Default for DistanceFunction {
    fn default() -> (d: Self)
        ensures
            d == DistanceFunction::Oklab,
    {
        DistanceFunction::Oklab
    }
}

/// Dithering mode for RGB→palette mapping.
#[derive(Clone, Copy, Debug, PartialEq, Eq, Structural)]
pub enum DitherMode {
    /// Map each pixel to the single nearest palette color.
    Nearest,
    /// Use 2x2 Bayer dithering to pick from candidates.
    Dither,
}

impl Default for DitherMode {
    fn default() -> (d: Self)
        ensures
            d == DitherMode::Nearest,
    {
        DitherMode::Nearest
    }
}

/// LUT generation configuration.
#[derive(Clone, Copy, Debug, PartialEq, Eq, Structural)]
pub struct LutConfig {
    /// Distance function for color matching.
    pub distance: DistanceFunction,
    /// Dithering mode.
    pub mode: DitherMode,
}

impl Default for LutConfig {
    fn default() -> (c: Self)
        ensures
            c == (LutConfig { distance: DistanceFunction::Oklab, mode: DitherMode::Nearest }),
    {
        LutConfig { distance: DistanceFunction::Oklab, mode: DitherMode::Nearest }
    }
}

/// Source for palette colors.
pub enum PaletteSource {
    /// Inline hex color array.
    Colors { colors: Vec<String> },
    /// Reference to an image file (reads first 256 pixels row-major).
    Image { image: String },
}

/// Configuration for the global palette.
pub struct PaletteConfig {
    /// Palette color source.
    pub palette: PaletteSource,
    /// LUT generation options.
    pub lut: LutConfig,
}

// ---------------------------------------------------------------------------
// Hex color parsing
// ---------------------------------------------------------------------------

/// The value of a hexadecimal digit, if `c` is one.
pub open spec fn hex_digit(c: char) -> Option<u8> {
    if '0' <= c && c <= '9' {
        Some((c as int - '0' as int) as u8)
    } else if 'a' <= c && c <= 'f' {
        Some((c as int - 'a' as int + 10) as u8)
    } else if 'A' <= c && c <= 'F' {
        Some((c as int - 'A' as int + 10) as u8)
    } else {
        None
    }
}

/// The byte that a two-character hexadecimal field denotes: both characters
/// must be hex digits, high digit first.
pub open spec fn hex_pair(c1: char, c2: char) -> Option<u8> {
    match (hex_digit(c1), hex_digit(c2)) {
        (Some(h), Some(l)) => Some((16 * h + l) as u8),
        _ => None,
    }
}

/// The position of the first character from `i` on that is not `#`.
pub open spec fn skip_hashes(s: Seq<char>, i: int) -> int
    decreases s.len() - i,
{
    if 0 <= i < s.len() && s[i] == '#' {
        skip_hashes(s, i + 1)
    } else {
        i
    }
}

/// The color that a hex string denotes: leading `#`s removed, then six
/// (RRGGBB, opaque) or eight (RRGGBBAA) characters of hexadecimal byte fields.
pub open spec fn parse_hex_spec(s: Seq<char>) -> Option<Rgba> {
    let t = s.subrange(skip_hashes(s, 0), s.len() as int);
    if t.len() != 6 && t.len() != 8 {
        None
    } else {
        match (hex_pair(t[0], t[1]), hex_pair(t[2], t[3]), hex_pair(t[4], t[5])) {
            (Some(r), Some(g), Some(b)) => if t.len() == 8 {
                match hex_pair(t[6], t[7]) {
                    Some(a) => Some(Rgba { red: r, green: g, blue: b, alpha: a }),
                    None => None,
                }
            } else {
                Some(Rgba { red: r, green: g, blue: b, alpha: 255 })
            },
            _ => None,
        }
    }
}

proof fn lemma_skip_hashes_bounds(s: Seq<char>, i: int)
    requires
        0 <= i <= s.len(),
    ensures
        i <= skip_hashes(s, i) <= s.len(),
    decreases s.len() - i,
{
    if i < s.len() && s[i] == '#' {
        lemma_skip_hashes_bounds(s, i + 1);
    }
}

fn hex_digit_value(c: char) -> (d: Option<u8>)
    ensures
        d == hex_digit(c),
{
    if '0' <= c && c <= '9' {
        Some((c as u32 - '0' as u32) as u8)
    } else if 'a' <= c && c <= 'f' {
        Some((c as u32 - 'a' as u32 + 10) as u8)
    } else if 'A' <= c && c <= 'F' {
        Some((c as u32 - 'A' as u32 + 10) as u8)
    } else {
        None
    }
}

fn parse_hex_pair(c1: char, c2: char) -> (b: Option<u8>)
    ensures
        b == hex_pair(c1, c2),
{
    match (hex_digit_value(c1), hex_digit_value(c2)) {
        (Some(h), Some(l)) => Some(16 * h + l),
        _ => None,
    }
}

/// Parses a hex color string to RGBA.
///
/// Leading `#`s are ignored; the rest must be six (RRGGBB) or eight
/// (RRGGBBAA) hexadecimal characters. A string with a non-ASCII character
/// denotes no color.
pub fn parse_hex_color(hex: &str) -> (c: Option<Rgba>)
    ensures
        is_ascii_chars(hex@) ==> c == parse_hex_spec(hex@),
        !is_ascii_chars(hex@) ==> c is None,
{
    if !hex.is_ascii() {
        return None;
    }
    let n = hex.unicode_len();
    let mut start: usize = 0;
    while start < n && hex.get_char(start) == '#'
        invariant
            n == hex@.len(),
            start <= n,
            skip_hashes(hex@, start as int) == skip_hashes(hex@, 0),
        decreases n - start,
    {
        start = start + 1;
    }
    proof {
        lemma_skip_hashes_bounds(hex@, 0);
    }
    let len = n - start;
    if len != 6 && len != 8 {
        return None;
    }
    let ghost t = hex@.subrange(start as int, n as int);
    let r = parse_hex_pair(hex.get_char(start), hex.get_char(start + 1));
    let g = parse_hex_pair(hex.get_char(start + 2), hex.get_char(start + 3));
    let b = parse_hex_pair(hex.get_char(start + 4), hex.get_char(start + 5));
    proof {
        assert(t[0] == hex@[start as int]);
        assert(t[1] == hex@[start + 1]);
        assert(t[2] == hex@[start + 2]);
        assert(t[3] == hex@[start + 3]);
        assert(t[4] == hex@[start + 4]);
        assert(t[5] == hex@[start + 5]);
    }
    match (r, g, b) {
        (Some(r), Some(g), Some(b)) => {
            if len == 8 {
                let a = parse_hex_pair(hex.get_char(start + 6), hex.get_char(start + 7));
                proof {
                    assert(t[6] == hex@[start + 6]);
                    assert(t[7] == hex@[start + 7]);
                }
                match a {
                    Some(a) => Some(Rgba::new(r, g, b, a)),
                    None => None,
                }
            } else {
                Some(Rgba::new(r, g, b, 255))
            }
        },
        _ => None,
    }
}

/// The default palette color: opaque black.
pub open spec fn black() -> Rgba {
    Rgba { red: 0, green: 0, blue: 0, alpha: 255 }
}

/// Loads palette colors from hex strings.
///
/// Color `i` is the color that the `i`-th string denotes, or opaque black
/// where there is no such string or it denotes no color.
pub fn colors_from_hex(hex_colors: &[String]) -> (colors: Vec<Rgba>)
    ensures
        colors@.len() == 256,
        forall|i: int|
            0 <= i < 256 ==> #[trigger] colors@[i] == (if i < hex_colors@.len() && is_ascii_chars(hex_colors@[i]@) {
                match parse_hex_spec(hex_colors@[i]@) {
                    Some(c) => c,
                    None => black(),
                }
            } else {
                black()
            }),
{
    let mut colors: Vec<Rgba> = Vec::new();
    let mut i: usize = 0;
    while i < 256
        invariant
            i <= 256,
            colors@.len() == i,
            forall|t: int|
                0 <= t < i ==> #[trigger] colors@[t] == (if t < hex_colors@.len() && is_ascii_chars(hex_colors@[t]@) {
                    match parse_hex_spec(hex_colors@[t]@) {
                        Some(c) => c,
                        None => black(),
                    }
                } else {
                    black()
                }),
        decreases 256 - i,
    {
        let c = if i < hex_colors.len() {
            match parse_hex_color(hex_colors[i].as_str()) {
                Some(c) => c,
                None => Rgba::new(0, 0, 0, 255),
            }
        } else {
            Rgba::new(0, 0, 0, 255)
        };
        colors.push(c);
        i = i + 1;
    }
    colors
}

// ---------------------------------------------------------------------------
// LUT cache (LZ4)
// ---------------------------------------------------------------------------

/// Compresses a 16MB LUT using LZ4 (size-prepended block format).
pub fn compress_lut(lut: &[u8]) -> (r: Vec<u8>)
    requires
        lut@.len() == LUT_SIZE,
    ensures
        r@ == lz4_compressed(lut@),
{
    compress_lz4(lut)
}

/// The LUT that compressed bytes decode to: their decompression, when that
/// succeeds with exactly one entry per 24-bit color.
pub open spec fn lut_of(data: Seq<u8>) -> Option<Seq<u8>> {
    match lz4_decompressed(data) {
        Some(v) => if v.len() == LUT_SIZE {
            Some(v)
        } else {
            None
        },
        None => None,
    }
}

/// Decompresses LUT data.
///
/// Returns `None` if decompression fails or size doesn't match.
pub fn decompress_lut(data: &[u8]) -> (r: Option<Vec<u8>>)
    ensures
        match r {
            Some(v) => lut_of(data@) == Some(v@),
            None => lut_of(data@) is None,
        },
        forall|orig: Seq<u8>|
            orig.len() == LUT_SIZE && data@ == lz4_compressed(orig) ==> (r matches Some(v) && v@
                == orig),
{
    match decompress_lz4(data) {
        Ok(v) => {
            if v.len() == LUT_SIZE {
                Some(v)
            } else {
                None
            }
        },
        Err(_) => None,
    }
}

/// The cache file bytes for a LUT: the hash (8 bytes, little-endian), then the
/// compressed LUT.
pub open spec fn lut_cache_bytes(lut: Seq<u8>, hash: u64) -> Seq<u8> {
    le_bytes(hash as int, 8) + lz4_compressed(lut)
}

/// Saves a LUT to bytes for caching.
///
/// Format: `[8 bytes: hash][compressed LUT data]`
pub fn save_lut_to_bytes(lut: &[u8], hash: u64) -> (r: Vec<u8>)
    requires
        lut@.len() == LUT_SIZE,
    ensures
        r@ == lut_cache_bytes(lut@, hash),
{
    let mut compressed = compress_lut(lut);
    let mut result: Vec<u8> = Vec::new();
    push_le(&mut result, hash, 8);
    result.append(&mut compressed);
    result
}

/// Loads a cached LUT from bytes.
///
/// Format: `[8 bytes: hash][compressed LUT data]`
///
/// Returns `(lut, hash)` if successful.
pub fn load_lut_from_bytes(data: &[u8]) -> (r: Option<(Vec<u8>, u64)>)
    ensures
        data@.len() < 8 ==> r is None,
        data@.len() >= 8 ==> match r {
            Some((lut, hash)) => hash == le_value(data@.subrange(0, 8)) && lut_of(
                data@.subrange(8, data@.len() as int),
            ) == Some(lut@),
            None => lut_of(data@.subrange(8, data@.len() as int)) is None,
        },
        forall|lut: Seq<u8>, hash: u64|
            #![trigger lut_cache_bytes(lut, hash)]
            lut.len() == LUT_SIZE && data@ == lut_cache_bytes(lut, hash) ==> (r matches Some(
                (l, h),
            ) && l@ == lut && h == hash),
{
    if data.len() < 8 {
        proof {
            assert forall|l: Seq<u8>, h: u64| #[trigger]
                lut_cache_bytes(l, h).len() >= 8 by {
                lemma_le_bytes_len(h as int, 8);
            }
        }
        return None;
    }
    let hash = read_le(data, 0, 8);
    let (_, rest) = data.split_at(8);
    let lut = decompress_lut(rest);
    proof {
        assert forall|l: Seq<u8>, h: u64|
            #![trigger lut_cache_bytes(l, h)]
            l.len() == LUT_SIZE && data@ == lut_cache_bytes(l, h) implies (lut matches Some(v)
                && v@ == l) && hash == h by {
            lemma_pow256_values();
            lemma_le_round_trip(h as int, 8);
            assert(data@.subrange(0, 8) =~= le_bytes(h as int, 8));
            assert(rest@ =~= lz4_compressed(l));
        }
    }
    match lut {
        Some(v) => Some((v, hash)),
        None => None,
    }
}

// ---------------------------------------------------------------------------
// Palette hash
// ---------------------------------------------------------------------------

/// The number std hashes for an enum variant: its declaration index.
pub open spec fn distance_index(d: DistanceFunction) -> u8 {
    match d {
        DistanceFunction::Rgb => 0,
        DistanceFunction::Hsl => 1,
        DistanceFunction::Oklab => 2,
    }
}

/// The number std hashes for a dither mode: its declaration index.
pub open spec fn mode_index(m: DitherMode) -> u8 {
    match m {
        DitherMode::Nearest => 0,
        DitherMode::Dither => 1,
    }
}

/// The number of bytes of an `isize` on this machine.
pub open spec fn isize_width() -> int {
    (usize::BITS / 8) as int
}

/// A variant index hashed as an `isize`: its bytes in the machine's order,
/// least significant first when `little`, most significant first otherwise.
pub open spec fn index_bytes(i: u8, little: bool) -> Seq<u8> {
    Seq::new(
        isize_width() as nat,
        |j: int|
            if (little && j == 0) || (!little && j == isize_width() - 1) {
                i
            } else {
                0u8
            },
    )
}

/// Calls `isize::to_ne_bytes`.
///
/// Trusted: the result is the bytes of `v` in the machine's byte order, which
/// is little-endian or big-endian; which of the two it is depends on the
/// machine and is not stated. Only values that fit in one byte are described.
#[verifier::external_body]
fn isize_ne_bytes(v: isize) -> (r: Vec<u8>)
    ensures
        0 <= v < 256 ==> (r@ == index_bytes(v as u8, true) || r@ == index_bytes(v as u8, false)),
{
    v.to_ne_bytes().to_vec()
}

/// The writes that hashing the first `n` colors makes: red, green, blue and
/// alpha of each color, one byte per write.
pub open spec fn color_writes(colors: Seq<Rgba>, n: nat) -> Seq<Seq<u8>>
    decreases n,
{
    if n == 0 {
        Seq::empty()
    } else {
        let c = colors[n - 1];
        color_writes(colors, (n - 1) as nat) + seq![
            seq![c.red],
            seq![c.green],
            seq![c.blue],
            seq![c.alpha],
        ]
    }
}

/// The writes that hashing a palette and its LUT configuration makes, on a
/// machine of the given byte order.
pub open spec fn palette_hash_writes(colors: Seq<Rgba>, config: LutConfig, little: bool) -> Seq<
    Seq<u8>,
> {
    color_writes(colors, colors.len()) + seq![
        index_bytes(distance_index(config.distance), little),
        index_bytes(mode_index(config.mode), little),
    ]
}

/// The hash of a palette and its LUT configuration, on a machine of the
/// given byte order.
pub open spec fn palette_hash_of(colors: Seq<Rgba>, config: LutConfig, little: bool) -> u64 {
    DefaultHasher::spec_finish(palette_hash_writes(colors, config, little))
}

/// The machine's `isize` layout: whether it stores the least significant
/// byte first, and how many bytes it has.
fn native_isize_layout() -> (r: (bool, usize))
    ensures
        r.1 == isize_width(),
{
    let probe = isize_ne_bytes(1);
    proof {
        assert(usize::BITS == 32 || usize::BITS == 64);
    }
    (probe[0] == 1, probe.len())
}

/// The bytes of variant index `i` as an `isize` of `width` bytes, in the
/// given byte order.
fn index_bytes_of(i: u8, little: bool, width: usize) -> (v: Vec<u8>)
    requires
        width == isize_width(),
    ensures
        v@ == index_bytes(i, little),
{
    let mut v: Vec<u8> = Vec::new();
    let mut j: usize = 0;
    while j < width
        invariant
            j <= width,
            width == isize_width(),
            v@ == index_bytes(i, little).subrange(0, j as int),
        decreases width - j,
    {
        let b: u8 = if (little && j == 0) || (!little && j + 1 == width) {
            i
        } else {
            0
        };
        v.push(b);
        proof {
            assert(v@ =~= index_bytes(i, little).subrange(0, j + 1));
        }
        j = j + 1;
    }
    proof {
        assert(v@ =~= index_bytes(i, little));
    }
    v
}

/// Computes a hash of palette colors and LUT configuration.
///
/// Used to detect when the cached LUT needs rebuilding. Each color channel is
/// hashed as one byte; the distance function and dither mode are hashed as
/// their variant indices in `isize` form, in the machine's byte order.
pub fn palette_hash(colors: &[Rgba], config: &LutConfig) -> (h: u64)
    ensures
        h == palette_hash_of(colors@, *config, true) || h == palette_hash_of(colors@, *config, false),
{
    let mut hasher = DefaultHasher::new();
    let mut i: usize = 0;
    while i < colors.len()
        invariant
            i <= colors@.len(),
            hasher@ == color_writes(colors@, i as nat),
        decreases colors@.len() - i,
    {
        let c = colors[i];
        let ghost before = hasher@;
        let r = [c.red];
        let g = [c.green];
        let b = [c.blue];
        let a = [c.alpha];
        hasher.write(&r);
        hasher.write(&g);
        hasher.write(&b);
        hasher.write(&a);
        proof {
            assert(r@ =~= seq![c.red]);
            assert(g@ =~= seq![c.green]);
            assert(b@ =~= seq![c.blue]);
            assert(a@ =~= seq![c.alpha]);
            assert(hasher@ =~= color_writes(colors@, (i + 1) as nat));
        }
        i = i + 1;
    }
    let d: u8 = match config.distance {
        DistanceFunction::Rgb => 0,
        DistanceFunction::Hsl => 1,
        DistanceFunction::Oklab => 2,
    };
    let m: u8 = match config.mode {
        DitherMode::Nearest => 0,
        DitherMode::Dither => 1,
    };
    let (little, width) = native_isize_layout();
    let db = index_bytes_of(d, little, width);
    let mb = index_bytes_of(m, little, width);
    hasher.write(db.as_slice());
    hasher.write(mb.as_slice());
    proof {
        assert(hasher@ =~= palette_hash_writes(colors@, *config, little));
    }
    hasher.finish()
}

// ---------------------------------------------------------------------------
// Palette colors from an image
// ---------------------------------------------------------------------------

/// Palette color `i` read from an image's pixel bytes: the `i`-th pixel's
/// RGBA bytes, or its RGB bytes (opaque) when only three remain, or black.
pub open spec fn image_color(data: Seq<u8>, pixel_count: int, i: int) -> Rgba {
    let bpp = (data.len() as int) / (if pixel_count > 1 { pixel_count } else { 1 });
    let offset = i * bpp;
    if i < pixel_count && i < 256 {
        if offset + 4 <= data.len() {
            Rgba { red: data[offset], green: data[offset + 1], blue: data[offset + 2], alpha: data[offset + 3] }
        } else if offset + 3 <= data.len() {
            Rgba { red: data[offset], green: data[offset + 1], blue: data[offset + 2], alpha: 255 }
        } else {
            black()
        }
    } else {
        black()
    }
}

/// An image of `n` pixels stored with `bpp` bytes each (three or four)
/// gives, as palette color `i`, for each of its first 256 pixels, the color
/// channels of pixel `i` itself: with four bytes, its RGBA exactly; with
/// three, its RGB. Colors past its pixels are black.
pub proof fn lemma_image_colors_are_its_pixels(data: Seq<u8>, n: int, bpp: int, i: int)
    requires
        n >= 1,
        bpp == 3 || bpp == 4,
        data.len() == n * bpp,
        0 <= i < 256,
    ensures
        i < n ==> image_color(data, n, i).red == data[bpp * i],
        i < n ==> image_color(data, n, i).green == data[bpp * i + 1],
        i < n ==> image_color(data, n, i).blue == data[bpp * i + 2],
        i < n && bpp == 4 ==> image_color(data, n, i).alpha == data[4 * i + 3],
        i >= n ==> image_color(data, n, i) == black(),
{
    if i < n {
        assert(data.len() as int / n == bpp) by {
            assert(n * bpp == bpp * n) by (nonlinear_arith);
            vstd::arithmetic::div_mod::lemma_div_multiples_vanish(bpp, n);
        }
        assert(i * bpp + bpp <= n * bpp && i * bpp == bpp * i) by (nonlinear_arith)
            requires
                i < n,
                bpp >= 0,
        ;
    }
}

/// Loads palette colors from an image (first 256 pixels, row-major).
///
/// `data` is the image's pixel bytes, if it has any; bytes per pixel are
/// the data length over the pixel count.
pub fn colors_from_image(width: u32, height: u32, data: Option<&[u8]>) -> (colors: Vec<Rgba>)
    requires
        width * height <= u32::MAX,
    ensures
        colors@.len() == 256,
        forall|i: int|
            0 <= i < 256 ==> #[trigger] colors@[i] == match data {
                Some(d) => image_color(d@, width * height, i),
                None => black(),
            },
{
    let mut colors: Vec<Rgba> = Vec::new();
    let mut k: usize = 0;
    while k < 256
        invariant
            k <= 256,
            colors@.len() == k,
            forall|t: int| 0 <= t < k ==> #[trigger] colors@[t] == black(),
        decreases 256 - k,
    {
        colors.push(Rgba::new(0, 0, 0, 255));
        k = k + 1;
    }
    let d = match data {
        Some(d) => d,
        None => {
            return colors;
        },
    };
    let pixel_count = (width * height) as usize;
    let len = d.len();
    let bpp = len / (if pixel_count > 1 { pixel_count } else { 1 });
    let limit = if pixel_count < 256 { pixel_count } else { 256 };
    proof {
        assert(bpp * (if pixel_count > 1 { pixel_count as int } else { 1 }) <= len) by (nonlinear_arith)
            requires
                bpp == (len as int) / (if pixel_count > 1 { pixel_count as int } else { 1 }),
        ;
    }
    let mut i: usize = 0;
    while i < limit
        invariant
            i <= limit <= 256,
            limit <= pixel_count,
            pixel_count == width * height,
            len == d@.len(),
            bpp == (len as int) / (if pixel_count > 1 { pixel_count as int } else { 1 }),
            bpp * (if pixel_count > 1 { pixel_count as int } else { 1 }) <= len,
            colors@.len() == 256,
            forall|t: int| 0 <= t < i ==> #[trigger] colors@[t] == image_color(d@, pixel_count as int, t),
            forall|t: int| i <= t < 256 ==> #[trigger] colors@[t] == black(),
        decreases limit - i,
    {
        proof {
            assert(i * bpp <= len) by (nonlinear_arith)
                requires
                    i < pixel_count,
                    bpp * (if pixel_count > 1 { pixel_count as int } else { 1 }) <= len,
            ;
        }
        let offset = i * bpp;
        if len >= 4 && offset <= len - 4 {
            colors.set(i, Rgba::new(d[offset], d[offset + 1], d[offset + 2], d[offset + 3]));
        } else if len >= 3 && offset <= len - 3 {
            colors.set(i, Rgba::new(d[offset], d[offset + 1], d[offset + 2], 255));
        }
        i = i + 1;
    }
    proof {
        assert forall|t: int| 0 <= t < 256 implies #[trigger] colors@[t] == image_color(d@, pixel_count as int, t) by {
            if t >= i {
                assert(!(t < pixel_count && t < 256));
            }
        }
    }
    colors
}

// ---------------------------------------------------------------------------
// Global palette
// ---------------------------------------------------------------------------

/// Global 256-color palette.
///
/// Provides direct color lookup via ColorIndex and fast RGB→palette mapping
/// through a precomputed 16MB LUT. Until a LUT is installed, `map_rgb()`
/// returns `None`.
pub struct GlobalPalette {
    /// 256 RGBA colors indexed by ColorIndex.
    pub colors: Vec<Rgba>,
    /// RGB (24-bit) → palette index (8-bit); index = (r << 16) | (g << 8) | b.
    lut: Option<Vec<u8>>,
    /// Triggers GPU re-upload when true.
    pub dirty: bool,
    /// Current LUT configuration (for rebuilding on config change).
    pub lut_config: LutConfig,
    /// Hash of colors + config for the current LUT (for cache validation).
    lut_hash: Option<u64>,
}

/// The LUT slot of an RGB color.
pub open spec fn lut_index(r: u8, g: u8, b: u8) -> int {
    r * 65536 + g * 256 + b
}

/// The palette built from a material registry: material `m`'s eight colors
/// at indices `8m..8m+8`, for the first 32 materials; opaque black elsewhere.
pub open spec fn material_palette_color(entries: Seq<Material>, i: int) -> Rgba {
    let count = if entries.len() < 32 { entries.len() as int } else { 32 };
    if i / 8 < count {
        entries[i / 8].palette@[i % 8]
    } else {
        black()
    }
}

/// Each registered material `m` among the first 32, the last one included,
/// has its `k`-th shade at palette index `8m + k`; every index past those
/// materials' shades is black.
pub proof fn lemma_material_shades_placed(entries: Seq<Material>, m: int, k: int)
    requires
        0 <= k < 8,
        0 <= m < 32,
    ensures
        m < entries.len() ==> material_palette_color(entries, 8 * m + k) == entries[m].palette@[k],
        m >= entries.len() ==> material_palette_color(entries, 8 * m + k) == black(),
{
    vstd::arithmetic::div_mod::lemma_fundamental_div_mod_converse(8 * m + k, 8, m, k);
}

impl GlobalPalette {
    /// The installed LUT, if any.
    pub closed spec fn lut_view(&self) -> Option<Seq<u8>> {
        match self.lut {
            Some(l) => Some(l@),
            None => None,
        }
    }

    /// The palette's 256 colors.
    pub closed spec fn palette_colors(&self) -> Seq<Rgba> {
        self.colors@
    }

    /// Whether the palette awaits a GPU re-upload.
    pub closed spec fn is_dirty(&self) -> bool {
        self.dirty
    }

    /// The LUT configuration.
    pub closed spec fn config(&self) -> LutConfig {
        self.lut_config
    }

    /// The hash recorded for the installed LUT, if any.
    pub closed spec fn hash_view(&self) -> Option<u64> {
        self.lut_hash
    }

    /// 256 colors, and a LUT (if any) with one entry per 24-bit color.
    pub closed spec fn wf(&self) -> bool {
        &&& self.colors@.len() == 256
        &&& self.lut_view() matches Some(l) ==> l.len() == LUT_SIZE
    }

    /// A well-formed palette has 256 colors.
    pub proof fn lemma_wf_colors(&self)
        requires
            self.wf(),
        ensures
            self.palette_colors().len() == 256,
    {
    }

    /// Creates a palette from a color array.
    ///
    /// The LUT is not built immediately.
    pub fn from_colors(colors: Vec<Rgba>, lut_config: LutConfig) -> (p: Self)
        requires
            colors@.len() == 256,
        ensures
            p.wf(),
            p.palette_colors().len() == 256,
            p.palette_colors() == colors@,
            p.lut_view() is None,
            p.hash_view() is None,
            p.is_dirty(),
            p.config() == lut_config,
    {
        GlobalPalette { colors, lut: None, dirty: true, lut_config, lut_hash: None }
    }

    /// Creates a palette from Materials registry.
    ///
    /// Each material's 8 colors are placed at consecutive palette indices:
    /// material 0 → indices 0-7, material 1 → indices 8-15, etc.
    /// Supports up to 32 materials (256 / 8 = 32).
    pub fn from_materials(materials: &Materials, lut_config: LutConfig) -> (p: Self)
        ensures
            p.wf(),
            p.palette_colors().len() == 256,
            forall|i: int| 0 <= i < 256 ==> #[trigger] p.palette_colors()[i] == material_palette_color(materials.entries(), i),
            p.lut_view() is None,
            p.hash_view() is None,
            p.is_dirty(),
            p.config() == lut_config,
    {
        let mut colors: Vec<Rgba> = Vec::new();
        let mut k: usize = 0;
        while k < 256
            invariant
                k <= 256,
                colors@.len() == k,
                forall|t: int| 0 <= t < k ==> #[trigger] colors@[t] == black(),
            decreases 256 - k,
        {
            colors.push(Rgba::new(0, 0, 0, 255));
            k = k + 1;
        }
        let n = materials.len();
        let count = if n < 32 { n } else { 32 };
        let mut m: usize = 0;
        while m < count
            invariant
                m <= count <= 32,
                count == (if materials.entries().len() < 32 { materials.entries().len() as int } else { 32 }),
                colors@.len() == 256,
                forall|t: int| 0 <= t < 8 * m ==> #[trigger] colors@[t] == material_palette_color(materials.entries(), t),
                forall|t: int| 8 * m <= t < 256 ==> #[trigger] colors@[t] == black(),
            decreases count - m,
        {
            let material = materials.get(MaterialId(m as u8));
            let base = m * 8;
            let mut c: usize = 0;
            while c < 8
                invariant
                    c <= 8,
                    m < count <= 32,
                    base == 8 * m,
                    count == (if materials.entries().len() < 32 { materials.entries().len() as int } else { 32 }),
                    *material == materials.entries()[m as int],
                    colors@.len() == 256,
                    forall|t: int| 0 <= t < base + c ==> #[trigger] colors@[t] == material_palette_color(materials.entries(), t),
                    forall|t: int| base + c <= t < 256 ==> #[trigger] colors@[t] == black(),
                decreases 8 - c,
            {
                colors.set(base + c, material.palette[c]);
                proof {
                    let t = base + c;
                    assert(t / 8 == m && t % 8 == c);
                }
                c = c + 1;
            }
            m = m + 1;
        }
        proof {
            assert forall|t: int| 0 <= t < 256 implies #[trigger] colors@[t] == material_palette_color(materials.entries(), t) by {
                if t >= 8 * count {
                    assert(t / 8 >= count);
                }
            }
        }
        GlobalPalette { colors, lut: None, dirty: true, lut_config, lut_hash: None }
    }

    /// Maps an RGB color to its palette index using the LUT.
    ///
    /// Returns `None` if no LUT is installed yet.
    pub fn map_rgb(&self, r: u8, g: u8, b: u8) -> (i: Option<u8>)
        requires
            self.wf(),
        ensures
            match self.lut_view() {
                Some(l) => i == Some(l[lut_index(r, g, b)]),
                None => i is None,
            },
    {
        match &self.lut {
            Some(lut) => {
                let idx = (r as usize) * 65536 + (g as usize) * 256 + (b as usize);
                Some(lut[idx])
            },
            None => None,
        }
    }

    /// Returns true if the LUT is ready for use.
    pub fn lut_ready(&self) -> (b: bool)
        ensures
            b == self.lut_view() is Some,
    {
        self.lut.is_some()
    }

    /// Gets the color at a palette index.
    pub fn color(&self, index: u8) -> (c: Rgba)
        requires
            self.wf(),
        ensures
            self.palette_colors().len() == 256,
            c == self.palette_colors()[index as int],
    {
        self.colors[index as usize]
    }

    /// Computes the expected hash for the current palette and config.
    pub fn compute_hash(&self) -> (h: u64)
        ensures
            h == palette_hash_of(self.palette_colors(), self.config(), true) || h == palette_hash_of(
                self.palette_colors(),
                self.config(),
                false,
            ),
    {
        palette_hash(self.colors.as_slice(), &self.lut_config)
    }

    /// Sets the LUT directly from cached data.
    pub fn set_lut_from_cache(&mut self, lut: Vec<u8>, hash: u64)
        requires
            old(self).wf(),
            lut@.len() == LUT_SIZE,
        ensures
            final(self).wf(),
            final(self).lut_view() == Some(lut@),
            final(self).hash_view() == Some(hash),
            final(self).is_dirty(),
            final(self).palette_colors() == old(self).palette_colors(),
            final(self).config() == old(self).config(),
    {
        self.lut = Some(lut);
        self.lut_hash = Some(hash);
        self.dirty = true;
    }

    /// Installs a freshly built LUT for `lut_config`, recording the hash of
    /// the current colors and that configuration.
    pub fn install_built_lut(&mut self, lut: Vec<u8>, lut_config: LutConfig)
        requires
            old(self).wf(),
            lut@.len() == LUT_SIZE,
        ensures
            final(self).wf(),
            final(self).lut_view() == Some(lut@),
            final(self).config() == lut_config,
            final(self).hash_view() == Some(palette_hash_of(old(self).palette_colors(), lut_config, true))
                || final(self).hash_view() == Some(
                palette_hash_of(old(self).palette_colors(), lut_config, false),
            ),
            final(self).is_dirty(),
            final(self).palette_colors() == old(self).palette_colors(),
    {
        self.lut_config = lut_config;
        self.lut = Some(lut);
        self.lut_hash = Some(palette_hash(self.colors.as_slice(), &lut_config));
        self.dirty = true;
    }

    /// Returns the LUT data for caching.
    pub fn lut_data(&self) -> (d: Option<&[u8]>)
        ensures
            match self.lut_view() {
                Some(l) => d matches Some(s) && s@ == l,
                None => d is None,
            },
    {
        match &self.lut {
            Some(l) => Some(l.as_slice()),
            None => None,
        }
    }

    /// Returns the hash recorded for the installed LUT.
    pub fn lut_hash(&self) -> (h: Option<u64>)
        ensures
            h == self.hash_view(),
    {
        self.lut_hash
    }
}

/// The default palette's color at index `i`: an opaque gray of level `i`.
pub open spec fn gray(i: int) -> Rgba {
    Rgba { red: i as u8, green: i as u8, blue: i as u8, alpha: 255 }
}

impl Default for GlobalPalette {
    /// A grayscale ramp with no LUT.
    fn default() -> (p: Self)
        ensures
            p.wf(),
            p.palette_colors().len() == 256,
            forall|i: int| 0 <= i < 256 ==> #[trigger] p.palette_colors()[i] == gray(i),
            p.lut_view() is None,
            p.hash_view() is None,
            p.is_dirty(),
            p.config() == (LutConfig { distance: DistanceFunction::Oklab, mode: DitherMode::Nearest }),
    {
        let mut colors: Vec<Rgba> = Vec::new();
        let mut i: usize = 0;
        while i < 256
            invariant
                i <= 256,
                colors@.len() == i,
                forall|t: int| 0 <= t < i ==> #[trigger] colors@[t] == gray(t),
            decreases 256 - i,
        {
            colors.push(Rgba::new(i as u8, i as u8, i as u8, 255));
            i = i + 1;
        }
        GlobalPalette { colors, lut: None, dirty: true, lut_config: LutConfig::default(), lut_hash: None }
    }
}

/// Channel `k` of a color: red, green, blue, then alpha.
pub open spec fn channel(c: Rgba, k: int) -> u8 {
    if k == 0 {
        c.red
    } else if k == 1 {
        c.green
    } else if k == 2 {
        c.blue
    } else {
        c.alpha
    }
}

/// A palette texture's bytes after the upload: each of the 256 colors as
/// four RGBA bytes, where they fit; other bytes as they were.
pub open spec fn uploaded(data: Seq<u8>, colors: Seq<Rgba>) -> Seq<u8> {
    Seq::new(
        data.len(),
        |j: int|
            if j / 4 < 256 && (j / 4) * 4 + 4 <= data.len() {
                channel(colors[j / 4], j % 4)
            } else {
                data[j]
            },
    )
}

/// Uploads palette colors to a texture's pixel data.
pub fn upload_palette(palette: &GlobalPalette, data: &mut Vec<u8>)
    requires
        palette.wf(),
    ensures
        final(data)@ == uploaded(old(data)@, palette.palette_colors()),
{
    let ghost d0 = data@;
    let ghost colors = palette.palette_colors();
    proof {
        palette.lemma_wf_colors();
    }
    let mut i: usize = 0;
    while i < 256
        invariant
            i <= 256,
            palette.wf(),
            colors == palette.palette_colors(),
            colors.len() == 256,
            data@.len() == d0.len(),
            forall|j: int|
                0 <= j < d0.len() ==> #[trigger] data@[j] == if j / 4 < i && (j / 4) * 4 + 4
                    <= d0.len() {
                    channel(colors[j / 4], j % 4)
                } else {
                    d0[j]
                },
        decreases 256 - i,
    {
        let offset = i * 4;
        if offset + 4 <= data.len() {
            let color = palette.color(i as u8);
            let ghost before = data@;
            data.set(offset, color.red);
            data.set(offset + 1, color.green);
            data.set(offset + 2, color.blue);
            data.set(offset + 3, color.alpha);
            proof {
                assert forall|j: int| 0 <= j < d0.len() implies #[trigger] data@[j] == if j / 4 < i + 1
                    && (j / 4) * 4 + 4 <= d0.len() {
                    channel(colors[j / 4], j % 4)
                } else {
                    d0[j]
                } by {
                    if offset <= j < offset + 4 {
                        vstd::arithmetic::div_mod::lemma_fundamental_div_mod_converse(j, 4, i as int, j - offset);
                    } else {
                        assert(data@[j] == before[j]);
                        if j < offset {
                            assert(j / 4 < i);
                        } else {
                            assert(j / 4 > i);
                        }
                    }
                }
            }
        } else {
            proof {
                assert forall|j: int| 0 <= j < d0.len() implies #[trigger] data@[j] == if j / 4 < i + 1
                    && (j / 4) * 4 + 4 <= d0.len() {
                    channel(colors[j / 4], j % 4)
                } else {
                    d0[j]
                } by {
                    if j / 4 == i {
                        assert((j / 4) * 4 + 4 > d0.len());
                    }
                }
            }
        }
        i = i + 1;
    }
    proof {
        assert(data@ =~= uploaded(d0, colors));
    }
}

/// Image bytes with the RGB of each of the first `n` pixels (`bpp` bytes
/// each) replaced by the palette color that the LUT maps it to; alpha and
/// any other bytes as they were.
pub open spec fn palettized(data: Seq<u8>, n: int, bpp: int, colors: Seq<Rgba>, lut: Seq<u8>) -> Seq<
    u8,
> {
    Seq::new(
        data.len(),
        |j: int|
            {
                let i = j / bpp;
                let k = j % bpp;
                if i < n && k < 3 {
                    channel(
                        colors[lut[lut_index(data[i * bpp], data[i * bpp + 1], data[i * bpp + 2])] as int],
                        k,
                    )
                } else {
                    data[j]
                }
            },
    )
}

/// Converts image bytes (`width` by `height` pixels) to the nearest palette
/// colors in place.
///
/// Each pixel's RGB is remapped to the nearest palette color. Alpha is
/// preserved.
///
/// Returns `None` if the palette LUT is not yet ready, leaving the image
/// unchanged.
pub fn palettize_image_in_place(width: u32, height: u32, data: &mut Vec<u8>, palette: &GlobalPalette) -> (r:
    Option<()>)
    requires
        palette.wf(),
        width * height <= usize::MAX,
    ensures
        ({
            let n = width * height;
            let bpp = if n == 0 { 0 } else { old(data)@.len() as int / n };
            match palette.lut_view() {
                None => r is None && final(data)@ == old(data)@,
                Some(lut) => r is Some && final(data)@ == (if n == 0 || bpp < 3 {
                    old(data)@
                } else {
                    palettized(old(data)@, n, bpp, palette.palette_colors(), lut)
                }),
            }
        }),
{
    if !palette.lut_ready() {
        return None;
    }
    let pixel_count = (width as usize) * (height as usize);
    if pixel_count == 0 {
        return Some(());
    }
    let bytes_per_pixel = data.len() / pixel_count;
    if bytes_per_pixel < 3 {
        return Some(());
    }
    let ghost d0 = data@;
    let ghost colors = palette.palette_colors();
    let ghost n = pixel_count as int;
    let ghost bpp = bytes_per_pixel as int;
    proof {
        palette.lemma_wf_colors();
        assert(n * bpp <= d0.len()) by (nonlinear_arith)
            requires
                n > 0,
                bpp == d0.len() as int / n,
        ;
    }
    let mut i: usize = 0;
    while i < pixel_count
        invariant
            i <= pixel_count,
            n == pixel_count,
            bpp == bytes_per_pixel,
            bpp >= 3,
            n * bpp <= d0.len(),
            d0.len() <= usize::MAX,
            palette.wf(),
            colors == palette.palette_colors(),
            colors.len() == 256,
            palette.lut_view() is None ==> i == 0,
            d0 == old(data)@,
            n == width * height,
            bpp == d0.len() as int / n,
            data@.len() == d0.len(),
            forall|j: int|
                0 <= j < d0.len() ==> #[trigger] data@[j] == if j / bpp < i && j % bpp < 3 {
                    channel(
                        colors[palette.lut_view().unwrap()[lut_index(
                            d0[(j / bpp) * bpp],
                            d0[(j / bpp) * bpp + 1],
                            d0[(j / bpp) * bpp + 2],
                        )] as int],
                        j % bpp,
                    )
                } else {
                    d0[j]
                },
        decreases pixel_count - i,
    {
        proof {
            assert((i + 1) * bpp <= n * bpp) by (nonlinear_arith)
                requires
                    i < n,
                    bpp >= 0,
            ;
            assert((i + 1) * bpp == i * bpp + bpp) by (nonlinear_arith);
        }
        let offset = i * bytes_per_pixel;
        let red = data[offset];
        let green = data[offset + 1];
        let blue = data[offset + 2];
        proof {
            vstd::arithmetic::div_mod::lemma_fundamental_div_mod_converse(offset as int, bpp, i as int, 0);
            vstd::arithmetic::div_mod::lemma_fundamental_div_mod_converse(offset + 1, bpp, i as int, 1);
            vstd::arithmetic::div_mod::lemma_fundamental_div_mod_converse(offset + 2, bpp, i as int, 2);
            assert(red == d0[offset as int] && green == d0[offset + 1] && blue == d0[offset + 2]);
        }
        let palette_idx = match palette.map_rgb(red, green, blue) {
            Some(idx) => idx,
            None => {
                proof {
                    assert(palette.lut_view() is None);
                    assert(i == 0);
                    assert forall|j: int| 0 <= j < d0.len() implies data@[j] == d0[j] by {
                        assert(j / bpp >= 0) by (nonlinear_arith)
                            requires
                                j >= 0,
                                bpp > 0,
                        ;
                    }
                    assert(data@ =~= d0);
                    assert(d0 == old(data)@);
                }
                return None;
            },
        };
        let pc = palette.color(palette_idx);
        let ghost before = data@;
        data.set(offset, pc.red);
        data.set(offset + 1, pc.green);
        data.set(offset + 2, pc.blue);
        proof {
            assert forall|j: int| 0 <= j < d0.len() implies #[trigger] data@[j] == if j / bpp < i + 1
                && j % bpp < 3 {
                channel(
                    colors[palette.lut_view().unwrap()[lut_index(
                        d0[(j / bpp) * bpp],
                        d0[(j / bpp) * bpp + 1],
                        d0[(j / bpp) * bpp + 2],
                    )] as int],
                    j % bpp,
                )
            } else {
                d0[j]
            } by {
                if offset <= j < offset + 3 {
                    vstd::arithmetic::div_mod::lemma_fundamental_div_mod_converse(j, bpp, i as int, j - offset);
                } else {
                    assert(data@[j] == before[j]);
                    if j < offset {
                        vstd::arithmetic::div_mod::lemma_div_is_ordered(j, offset as int, bpp);
                        assert(j / bpp <= i);
                        if j / bpp == i {
                            assert(j >= (j / bpp) * bpp) by (nonlinear_arith)
                                requires
                                    bpp > 0,
                                    j >= 0,
                            ;
                            vstd::arithmetic::div_mod::lemma_fundamental_div_mod(j, bpp);
                        }
                    } else {
                        if j / bpp == i {
                            vstd::arithmetic::div_mod::lemma_fundamental_div_mod(j, bpp);
                            assert(j % bpp >= 3);
                        }
                    }
                }
            }
        }
        i = i + 1;
    }
    proof {
        let lut = palette.lut_view().unwrap();
        assert(data@ =~= palettized(d0, n, bpp, colors, lut));
    }
    Some(())
}

/// Converts image bytes (`width` by `height` pixels) to the nearest palette
/// colors, as a new buffer.
///
/// Returns `None` if the palette LUT is not yet ready.
pub fn palettize_image(width: u32, height: u32, data: &Vec<u8>, palette: &GlobalPalette) -> (r: Option<
    Vec<u8>,
>)
    requires
        palette.wf(),
        width * height <= usize::MAX,
    ensures
        ({
            let n = width * height;
            let bpp = if n == 0 { 0 } else { data@.len() as int / n };
            match palette.lut_view() {
                None => r is None,
                Some(lut) => r matches Some(v) && v@ == (if n == 0 || bpp < 3 {
                    data@
                } else {
                    palettized(data@, n, bpp, palette.palette_colors(), lut)
                }),
            }
        }),
{
    let mut result = data.clone();
    proof {
        assert(result@ == data@);
    }
    match palettize_image_in_place(width, height, &mut result, palette) {
        Some(()) => Some(result),
        None => None,
    }
}

/// The cache bytes of a LUT are its hash, eight bytes little-endian, followed
/// by its compressed form; `load_lut_from_bytes` reads both back.
pub proof fn lemma_lut_cache_layout(lut: Seq<u8>, hash: u64)
    requires
        lut.len() == LUT_SIZE,
    ensures
        lut_cache_bytes(lut, hash).len() >= 8,
        le_value(lut_cache_bytes(lut, hash).subrange(0, 8)) == hash,
        lut_cache_bytes(lut, hash).subrange(8, lut_cache_bytes(lut, hash).len() as int)
            == lz4_compressed(lut),
{
    lemma_pow256_values();
    lemma_le_round_trip(hash as int, 8);
    let b = lut_cache_bytes(lut, hash);
    assert(b.subrange(0, 8) =~= le_bytes(hash as int, 8));
    assert(b.subrange(8, b.len() as int) =~= lz4_compressed(lut));
}

} // verus!
