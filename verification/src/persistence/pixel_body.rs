//! Pixel body persistence: the binary record of a pixel body.
//!
//! A record is a 76-byte header, then the LZ4-compressed pixel data (four
//! bytes per pixel: material, color, damage, flags), then the LZ4-compressed
//! shape mask (eight cells per byte), then the extension data as is. The
//! header's `f32` fields (position, rotation, velocities) are carried as
//! their IEEE-754 bit patterns.
use vstd::prelude::*;

use super::compression::{compress_lz4, decompress_lz4, lz4_compressed, lz4_decompressed};
use super::format::{
    decode_header, encode_header, header_checksum, lemma_decode_encode_header, lemma_header_lengths,
    PixelBodyRecordHeader,
};
use crate::coords::{ColorIndex, MaterialId};
use crate::pixel::Pixel;
use crate::pixel_body::PixelBody;

verus! {

/// Whether bit `b` (0 = least significant) of `byte` is set.
pub open spec fn bit_set(byte: u8, b: u8) -> bool {
    (byte >> b) & 1u8 == 1u8
}

/// Setting bit `c` of a byte sets exactly that bit and keeps the others.
proof fn lemma_or_bit(x: u8, c: u8, b: u8)
    requires
        c < 8,
        b < 8,
    ensures
        bit_set(x | (1u8 << c), b) == (bit_set(x, b) || b == c),
{
    assert(c < 8 && b < 8 ==> ((((x | (1u8 << c)) >> b) & 1u8 == 1u8) == (((x >> b) & 1u8 == 1u8)
        || b == c))) by (bit_vector);
}

proof fn lemma_zero_bits(b: u8)
    requires
        b < 8,
    ensures
        !bit_set(0, b),
{
    assert(b < 8 ==> (0u8 >> b) & 1u8 == 0u8) by (bit_vector);
}

/// Number of bytes needed to hold `n` bits.
pub open spec fn packed_len(n: int) -> int {
    (n + 7) / 8
}

/// Whether `x` holds, in bits 0 to 7, bools `8j..8j + 8` (false past the end).
pub open spec fn holds_bits(x: u8, bools: Seq<bool>, j: int) -> bool {
    forall|b: u8| b < 8 ==> #[trigger] bit_set(x, b) == (8 * j + b < bools.len() && bools[8 * j + b])
}

/// The packed form of a bool sequence: byte `j` holds bools `8j..8j + 8`.
pub open spec fn packed(bools: Seq<bool>) -> Seq<u8> {
    Seq::new(packed_len(bools.len() as int) as nat, |j: int| choose|x: u8| holds_bits(x, bools, j))
}

/// A byte is determined by its eight bits.
proof fn lemma_bits_determine_byte(x: u8, y: u8)
    requires
        forall|b: u8| b < 8 ==> #[trigger] bit_set(x, b) == bit_set(y, b),
    ensures
        x == y,
{
    assert(bit_set(x, 0) == bit_set(y, 0));
    assert(bit_set(x, 1) == bit_set(y, 1));
    assert(bit_set(x, 2) == bit_set(y, 2));
    assert(bit_set(x, 3) == bit_set(y, 3));
    assert(bit_set(x, 4) == bit_set(y, 4));
    assert(bit_set(x, 5) == bit_set(y, 5));
    assert(bit_set(x, 6) == bit_set(y, 6));
    assert(bit_set(x, 7) == bit_set(y, 7));
    assert(x == y) by (bit_vector)
        requires
            ((x >> 0u8) & 1u8 == 1u8) == ((y >> 0u8) & 1u8 == 1u8),
            ((x >> 1u8) & 1u8 == 1u8) == ((y >> 1u8) & 1u8 == 1u8),
            ((x >> 2u8) & 1u8 == 1u8) == ((y >> 2u8) & 1u8 == 1u8),
            ((x >> 3u8) & 1u8 == 1u8) == ((y >> 3u8) & 1u8 == 1u8),
            ((x >> 4u8) & 1u8 == 1u8) == ((y >> 4u8) & 1u8 == 1u8),
            ((x >> 5u8) & 1u8 == 1u8) == ((y >> 5u8) & 1u8 == 1u8),
            ((x >> 6u8) & 1u8 == 1u8) == ((y >> 6u8) & 1u8 == 1u8),
            ((x >> 7u8) & 1u8 == 1u8) == ((y >> 7u8) & 1u8 == 1u8),
    ;
}

/// Bytes that hold the right bits are the packed form.
proof fn lemma_packed_unique(bools: Seq<bool>, bytes: Seq<u8>)
    requires
        bytes.len() == packed_len(bools.len() as int),
        forall|j: int| 0 <= j < bytes.len() ==> holds_bits(#[trigger] bytes[j], bools, j),
    ensures
        bytes == packed(bools),
{
    let p = packed(bools);
    assert forall|j: int| 0 <= j < bytes.len() implies bytes[j] == #[trigger] p[j] by {
        assert(holds_bits(bytes[j], bools, j));
        let c = choose|x: u8| holds_bits(x, bools, j);
        assert(holds_bits(c, bools, j));
        assert forall|b: u8| b < 8 implies #[trigger] bit_set(bytes[j], b) == bit_set(c, b) by {
            assert(bit_set(bytes[j], b) == (8 * j + b < bools.len() && bools[8 * j + b]));
            assert(bit_set(c, b) == (8 * j + b < bools.len() && bools[8 * j + b]));
        }
        lemma_bits_determine_byte(bytes[j], c);
    }
    assert(bytes =~= p);
}

/// Packs a slice of bools into bytes (8 bools per byte).
///
/// Bool `i` becomes bit `i % 8` of byte `i / 8`; unused high bits of the
/// last byte are zero.
pub fn pack_bools(bools: &[bool]) -> (bytes: Vec<u8>)
    ensures
        bytes@ == packed(bools@),
        bytes@.len() == packed_len(bools@.len() as int),
        forall|j: int, b: u8|
            0 <= j < bytes@.len() && b < 8 ==> #[trigger] bit_set(bytes@[j], b) == (8 * j + b
                < bools@.len() && bools@[8 * j + b]),
{
    let n = bools.len();
    let byte_count = n / 8 + if n % 8 == 0 {
        0
    } else {
        1
    };
    let mut bytes: Vec<u8> = Vec::new();
    let mut k: usize = 0;
    while k < byte_count
        invariant
            k <= byte_count,
            bytes@.len() == k,
            forall|j: int| 0 <= j < k ==> #[trigger] bytes@[j] == 0u8,
        decreases byte_count - k,
    {
        bytes.push(0u8);
        k = k + 1;
    }
    proof {
        assert forall|j: int, b: u8| 0 <= j < bytes@.len() && b < 8 implies #[trigger] bit_set(bytes@[j], b) == (8 * j + b < 0 && bools@[8 * j + b]) by {
            lemma_zero_bits(b);
        }
    }
    let mut i: usize = 0;
    while i < n
        invariant
            i <= n,
            n == bools@.len(),
            bytes@.len() == byte_count,
            byte_count == packed_len(n as int),
            forall|j: int, b: u8|
                0 <= j < bytes@.len() && b < 8 ==> #[trigger] bit_set(bytes@[j], b) == (8 * j + b
                    < i && bools@[8 * j + b]),
        decreases n - i,
    {
        if bools[i] {
            let q = i / 8;
            let c = (i % 8) as u8;
            let old_byte = bytes[q];
            bytes.set(q, old_byte | (1u8 << c));
            proof {
                assert forall|j: int, b: u8| 0 <= j < bytes@.len() && b < 8 implies #[trigger] bit_set(bytes@[j], b) == (8 * j + b < i + 1 && bools@[8 * j + b]) by {
                    if j == q {
                        lemma_or_bit(old_byte, c, b);
                    }
                }
            }
        } else {
            proof {
                assert forall|j: int, b: u8| 0 <= j < bytes@.len() && b < 8 implies #[trigger] bit_set(bytes@[j], b) == (8 * j + b < i + 1 && bools@[8 * j + b]) by {
                    if 8 * j + b == i {
                    }
                }
            }
        }
        i = i + 1;
    }
    proof {
        assert forall|j: int| 0 <= j < bytes@.len() implies holds_bits(#[trigger] bytes@[j], bools@, j) by {
            assert forall|b: u8| b < 8 implies #[trigger] bit_set(bytes@[j], b) == (8 * j + b
                < bools@.len() && bools@[8 * j + b]) by {}
        }
        lemma_packed_unique(bools@, bytes@);
    }
    bytes
}

/// The `count` bools that `bytes` hold: bool `i` is bit `i % 8` of byte
/// `i / 8`, or false past the last byte.
pub open spec fn unpacked(bytes: Seq<u8>, count: int) -> Seq<bool> {
    Seq::new(count as nat, |i: int| i / 8 < bytes.len() && bit_set(bytes[i / 8], (i % 8) as u8))
}

/// Unpacks bytes into `count` bools.
///
/// Bool `i` is bit `i % 8` of byte `i / 8`, or false past the last byte.
pub fn unpack_bools(bytes: &[u8], count: usize) -> (bools: Vec<bool>)
    ensures
        bools@ == unpacked(bytes@, count as int),
        bools@.len() == count,
        forall|i: int|
            0 <= i < count ==> #[trigger] bools@[i] == (i / 8 < bytes@.len() && bit_set(
                bytes@[i / 8],
                (i % 8) as u8,
            )),
{
    let mut bools: Vec<bool> = Vec::new();
    let mut i: usize = 0;
    while i < count
        invariant
            i <= count,
            bools@.len() == i,
            forall|t: int|
                0 <= t < i ==> #[trigger] bools@[t] == (t / 8 < bytes@.len() && bit_set(
                    bytes@[t / 8],
                    (t % 8) as u8,
                )),
        decreases count - i,
    {
        let q = i / 8;
        let b = if q < bytes.len() {
            (bytes[q] >> ((i % 8) as u8)) & 1u8 == 1u8
        } else {
            false
        };
        bools.push(b);
        i = i + 1;
    }
    proof {
        assert(bools@ =~= unpacked(bytes@, count as int));
    }
    bools
}

/// A byte holding bools `8j..8j + 8` exists.
proof fn pack_byte_witness(bools: Seq<bool>, j: int) -> (x: u8)
    ensures
        holds_bits(x, bools, j),
{
    let c0 = 8 * j + 0 < bools.len() && bools[8 * j + 0];
    let c1 = 8 * j + 1 < bools.len() && bools[8 * j + 1];
    let c2 = 8 * j + 2 < bools.len() && bools[8 * j + 2];
    let c3 = 8 * j + 3 < bools.len() && bools[8 * j + 3];
    let c4 = 8 * j + 4 < bools.len() && bools[8 * j + 4];
    let c5 = 8 * j + 5 < bools.len() && bools[8 * j + 5];
    let c6 = 8 * j + 6 < bools.len() && bools[8 * j + 6];
    let c7 = 8 * j + 7 < bools.len() && bools[8 * j + 7];
    let x: u8 = (if c0 { 1u8 } else { 0u8 }) | (if c1 { 2u8 } else { 0u8 }) | (if c2 { 4u8 } else { 0u8 })
        | (if c3 { 8u8 } else { 0u8 }) | (if c4 { 16u8 } else { 0u8 }) | (if c5 { 32u8 } else { 0u8 })
        | (if c6 { 64u8 } else { 0u8 }) | (if c7 { 128u8 } else { 0u8 });
    assert(((x >> 0u8) & 1u8 == 1u8) == c0 && ((x >> 1u8) & 1u8 == 1u8) == c1 && ((x >> 2u8) & 1u8
        == 1u8) == c2 && ((x >> 3u8) & 1u8 == 1u8) == c3 && ((x >> 4u8) & 1u8 == 1u8) == c4 && ((x
        >> 5u8) & 1u8 == 1u8) == c5 && ((x >> 6u8) & 1u8 == 1u8) == c6 && ((x >> 7u8) & 1u8 == 1u8)
        == c7) by (bit_vector)
        requires
            x == (if c0 { 1u8 } else { 0u8 }) | (if c1 { 2u8 } else { 0u8 }) | (if c2 { 4u8 } else { 0u8 })
                | (if c3 { 8u8 } else { 0u8 }) | (if c4 { 16u8 } else { 0u8 }) | (if c5 { 32u8 } else { 0u8 })
                | (if c6 { 64u8 } else { 0u8 }) | (if c7 { 128u8 } else { 0u8 }),
    ;
    assert forall|b: u8| b < 8 implies #[trigger] bit_set(x, b) == (8 * j + b < bools.len()
        && bools[8 * j + b]) by {
        if b == 0 {
        } else if b == 1 {
        } else if b == 2 {
        } else if b == 3 {
        } else if b == 4 {
        } else if b == 5 {
        } else if b == 6 {
        } else {
            assert(b == 7);
        }
    }
    x
}

/// Unpacking the packed form of a bool sequence gives the sequence back.
pub proof fn lemma_unpack_packed(bools: Seq<bool>)
    ensures
        unpacked(packed(bools), bools.len() as int) == bools,
{
    let p = packed(bools);
    let n = packed_len(bools.len() as int);
    assert forall|j: int| 0 <= j < p.len() implies holds_bits(#[trigger] p[j], bools, j) by {
        let x = pack_byte_witness(bools, j);
        assert(holds_bits(x, bools, j));
    }
    lemma_pack_unpack_round_trip(bools, p, unpacked(p, bools.len() as int));
}

/// Unpacking what was packed gives the same bools back.
pub proof fn lemma_pack_unpack_round_trip(bools: Seq<bool>, packed: Seq<u8>, unpacked: Seq<bool>)
    requires
        packed.len() == packed_len(bools.len() as int),
        forall|j: int, b: u8|
            0 <= j < packed.len() && b < 8 ==> #[trigger] bit_set(packed[j], b) == (8 * j + b
                < bools.len() && bools[8 * j + b]),
        unpacked.len() == bools.len(),
        forall|i: int|
            0 <= i < unpacked.len() ==> #[trigger] unpacked[i] == (i / 8 < packed.len() && bit_set(
                packed[i / 8],
                (i % 8) as u8,
            )),
    ensures
        unpacked == bools,
{
    assert forall|i: int| 0 <= i < bools.len() implies unpacked[i] == bools[i] by {
        let j = i / 8;
        let b = (i % 8) as u8;
        assert(8 * j + b == i);
        assert(j < packed.len());
        assert(bit_set(packed[j], b) == (8 * j + b < bools.len() && bools[8 * j + b]));
    }
    assert(unpacked =~= bools);
}

// ---------------------------------------------------------------------------
// Pixel body records
// ---------------------------------------------------------------------------

/// A pixel body record ready for serialization.
///
/// Contains all the data needed to reconstruct a pixel body entity. The
/// transform and velocity fields hold the bit patterns of `f32` values.
pub struct PixelBodyRecord {
    /// Stable ID for this pixel body.
    pub stable_id: u64,
    /// World position (`f32` bits of x and y).
    pub position: (u32, u32),
    /// Rotation in radians (`f32` bits).
    pub rotation: u32,
    /// Linear velocity (`f32` bits of x and y).
    pub linear_velocity: (u32, u32),
    /// Angular velocity (`f32` bits).
    pub angular_velocity: u32,
    /// Width of pixel grid.
    pub width: u32,
    /// Height of pixel grid.
    pub height: u32,
    /// Origin offset.
    pub origin: (i32, i32),
    /// Raw pixel data (uncompressed).
    pub pixel_data: Vec<Pixel>,
    /// Shape mask (uncompressed).
    pub shape_mask: Vec<bool>,
    /// Game-specific extension data.
    pub extension_data: Vec<u8>,
}

/// The contents of a pixel body record.
pub struct PixelBodyRecordView {
    pub stable_id: u64,
    pub position: (u32, u32),
    pub rotation: u32,
    pub linear_velocity: (u32, u32),
    pub angular_velocity: u32,
    pub width: u32,
    pub height: u32,
    pub origin: (i32, i32),
    pub pixel_data: Seq<Pixel>,
    pub shape_mask: Seq<bool>,
    pub extension_data: Seq<u8>,
}

impl View for PixelBodyRecord {
    type V = PixelBodyRecordView;

    open spec fn view(&self) -> PixelBodyRecordView {
        PixelBodyRecordView {
            stable_id: self.stable_id,
            position: self.position,
            rotation: self.rotation,
            linear_velocity: self.linear_velocity,
            angular_velocity: self.angular_velocity,
            width: self.width,
            height: self.height,
            origin: self.origin,
            pixel_data: self.pixel_data@,
            shape_mask: self.shape_mask@,
            extension_data: self.extension_data@,
        }
    }
}

/// Errors that can occur when reading a pixel body record.
#[derive(Clone, Copy, Debug, PartialEq, Eq, Structural)]
pub enum PixelBodyReadError {
    /// The input ended before the record did.
    UnexpectedEof,
    /// The header's checksum does not match its fields.
    ChecksumMismatch,
    /// A compressed block could not be decompressed.
    DecompressionFailed,
    /// The pixel data does not hold four bytes per cell.
    SizeMismatch { expected: u128, actual: usize },
}

/// Byte `k` (0 to 3) of a pixel's encoding: material, color, damage, flags.
pub open spec fn pixel_byte(p: Pixel, k: int) -> u8 {
    if k == 0 {
        p.material.0
    } else if k == 1 {
        p.color.0
    } else if k == 2 {
        p.damage
    } else {
        p.flags
    }
}

/// The pixels' encoding, four bytes each.
pub open spec fn pixel_bytes(ps: Seq<Pixel>) -> Seq<u8> {
    Seq::new(4 * ps.len(), |i: int| pixel_byte(ps[i / 4], i % 4))
}

/// The pixels that bytes encode, four bytes each.
pub open spec fn bytes_pixels(bs: Seq<u8>) -> Seq<Pixel> {
    Seq::new(
        bs.len() / 4,
        |i: int|
            Pixel {
                material: MaterialId(bs[4 * i]),
                color: ColorIndex(bs[4 * i + 1]),
                damage: bs[4 * i + 2],
                flags: bs[4 * i + 3],
            },
    )
}

/// The header written for a record: its sizes are those of the compressed
/// blocks, wrapped to 32 bits, and its checksum matches.
pub open spec fn record_header(r: PixelBodyRecordView) -> PixelBodyRecordHeader {
    let h = PixelBodyRecordHeader {
        stable_id: r.stable_id,
        position_x: r.position.0,
        position_y: r.position.1,
        rotation: r.rotation,
        linear_velocity_x: r.linear_velocity.0,
        linear_velocity_y: r.linear_velocity.1,
        angular_velocity: r.angular_velocity,
        width: r.width,
        height: r.height,
        origin_x: r.origin.0,
        origin_y: r.origin.1,
        pixel_data_size: (lz4_compressed(pixel_bytes(r.pixel_data)).len() % 0x1_0000_0000) as u32,
        shape_mask_size: (lz4_compressed(packed(r.shape_mask)).len() % 0x1_0000_0000) as u32,
        extension_data_size: (r.extension_data.len() % 0x1_0000_0000) as u32,
        checksum: 0,
    };
    PixelBodyRecordHeader { checksum: header_checksum(h), ..h }
}

/// The bytes a record is written as.
pub open spec fn encode_record(r: PixelBodyRecordView) -> Seq<u8> {
    encode_header(record_header(r)) + lz4_compressed(pixel_bytes(r.pixel_data)) + lz4_compressed(
        packed(r.shape_mask),
    ) + r.extension_data
}

/// The header and the three blocks of the record at the start of `s`, or
/// the error reading them meets: the input ending early or a bad checksum.
pub open spec fn record_blocks(s: Seq<u8>) -> Result<
    (PixelBodyRecordHeader, Seq<u8>, Seq<u8>, Seq<u8>),
    PixelBodyReadError,
> {
    if s.len() < 76 {
        Err(PixelBodyReadError::UnexpectedEof)
    } else {
        let h = decode_header(s.subrange(0, 76));
        let b = 76 + h.pixel_data_size;
        let c = b + h.shape_mask_size;
        let d = c + h.extension_data_size;
        if h.checksum != header_checksum(h) {
            Err(PixelBodyReadError::ChecksumMismatch)
        } else if s.len() < d {
            Err(PixelBodyReadError::UnexpectedEof)
        } else {
            Ok((h, s.subrange(76, b), s.subrange(b, c), s.subrange(c, d)))
        }
    }
}

/// The record that a header and its blocks describe, or the error decoding
/// them meets: a block that does not decompress, or pixel data of the wrong
/// size, in the order the reader meets them.
pub open spec fn decode_blocks(
    h: PixelBodyRecordHeader,
    cp: Seq<u8>,
    cm: Seq<u8>,
    ext: Seq<u8>,
) -> Result<PixelBodyRecordView, PixelBodyReadError> {
    match lz4_decompressed(cp) {
        None => Err(PixelBodyReadError::DecompressionFailed),
        Some(pb) => if pb.len() != 4 * (h.width * h.height) {
            Err(
                PixelBodyReadError::SizeMismatch {
                    expected: (4 * (h.width * h.height)) as u128,
                    actual: pb.len() as usize,
                },
            )
        } else {
            match lz4_decompressed(cm) {
                None => Err(PixelBodyReadError::DecompressionFailed),
                Some(pm) => Ok(
                    PixelBodyRecordView {
                        stable_id: h.stable_id,
                        position: (h.position_x, h.position_y),
                        rotation: h.rotation,
                        linear_velocity: (h.linear_velocity_x, h.linear_velocity_y),
                        angular_velocity: h.angular_velocity,
                        width: h.width,
                        height: h.height,
                        origin: (h.origin_x, h.origin_y),
                        pixel_data: bytes_pixels(pb),
                        shape_mask: unpacked(pm, h.width * h.height),
                        extension_data: ext,
                    },
                ),
            }
        },
    }
}

/// The record at the start of `s`, or the error reading it meets.
pub open spec fn decode_record(s: Seq<u8>) -> Result<PixelBodyRecordView, PixelBodyReadError> {
    match record_blocks(s) {
        Err(e) => Err(e),
        Ok((h, cp, cm, ext)) => decode_blocks(h, cp, cm, ext),
    }
}

/// A record that reads back as written: one pixel and one mask cell per
/// grid cell, and blocks small enough for their sizes to fit the header.
pub open spec fn record_fits(r: PixelBodyRecordView) -> bool {
    &&& r.pixel_data.len() == r.width * r.height
    &&& r.shape_mask.len() == r.width * r.height
    &&& 4 * (r.width * r.height) <= u32::MAX
    &&& lz4_compressed(pixel_bytes(r.pixel_data)).len() <= u32::MAX
    &&& lz4_compressed(packed(r.shape_mask)).len() <= u32::MAX
    &&& r.extension_data.len() <= u32::MAX
}


/// Whether `bytes` begin with the encoding of a record that reads back as
/// written.
pub open spec fn starts_with_record(bytes: Seq<u8>, r: PixelBodyRecordView) -> bool {
    &&& record_fits(r)
    &&& encode_record(r).len() <= bytes.len()
    &&& bytes.subrange(0, encode_record(r).len() as int) == encode_record(r)
}

/// The pixel encoding has four bytes per pixel and decodes back.
proof fn lemma_pixel_bytes_round_trip(ps: Seq<Pixel>)
    ensures
        pixel_bytes(ps).len() == 4 * ps.len(),
        bytes_pixels(pixel_bytes(ps)) == ps,
{
    let bs = pixel_bytes(ps);
    assert forall|i: int| 0 <= i < ps.len() implies #[trigger] bytes_pixels(bs)[i] == ps[i] by {
        assert(bs[4 * i] == pixel_byte(ps[i], 0));
        assert(bs[4 * i + 1] == pixel_byte(ps[i], 1));
        assert(bs[4 * i + 2] == pixel_byte(ps[i], 2));
        assert(bs[4 * i + 3] == pixel_byte(ps[i], 3));
    }
    assert(bytes_pixels(bs) =~= ps);
}

/// Bytes that begin with an encoded record hold its header and blocks.
proof fn lemma_record_parts(bytes: Seq<u8>, r: PixelBodyRecordView)
    requires
        starts_with_record(bytes, r),
    ensures
        record_blocks(bytes) == Ok::<_, PixelBodyReadError>(
            (
                record_header(r),
                lz4_compressed(pixel_bytes(r.pixel_data)),
                lz4_compressed(packed(r.shape_mask)),
                r.extension_data,
            ),
        ),
{
    let h = record_header(r);
    let cp = lz4_compressed(pixel_bytes(r.pixel_data));
    let cm = lz4_compressed(packed(r.shape_mask));
    let e = encode_record(r);
    lemma_header_lengths(h);
    let b = 76 + cp.len() as int;
    let c = b + cm.len() as int;
    assert(bytes.subrange(0, 76) =~= e.subrange(0, 76));
    assert(e.subrange(0, 76) =~= encode_header(h));
    lemma_decode_encode_header(h, Seq::empty());
    assert(encode_header(h) + Seq::<u8>::empty() =~= encode_header(h));
    assert(bytes.subrange(76, b) =~= e.subrange(76, b));
    assert(e.subrange(76, b) =~= cp);
    assert(bytes.subrange(b, c) =~= e.subrange(b, c));
    assert(e.subrange(b, c) =~= cm);
    assert(bytes.subrange(c, e.len() as int) =~= e.subrange(c, e.len() as int));
    assert(e.subrange(c, e.len() as int) =~= r.extension_data);
}

/// The encoding of a pixel's bytes, appended.
fn push_pixel_bytes(pixels: &Vec<Pixel>, out: &mut Vec<u8>)
    ensures
        final(out)@ == old(out)@ + pixel_bytes(pixels@),
{
    let ghost start = out@;
    let mut i: usize = 0;
    while i < pixels.len()
        invariant
            i <= pixels@.len(),
            out@ == start + pixel_bytes(pixels@.subrange(0, i as int)),
        decreases pixels@.len() - i,
    {
        let p = pixels[i];
        out.push(p.material.0);
        out.push(p.color.0);
        out.push(p.damage);
        out.push(p.flags);
        proof {
            assert(pixel_bytes(pixels@.subrange(0, i + 1)) =~= pixel_bytes(pixels@.subrange(0, i as int)) + seq![p.material.0, p.color.0, p.damage, p.flags]);
        }
        i = i + 1;
    }
    proof {
        assert(pixels@.subrange(0, pixels@.len() as int) =~= pixels@);
    }
}

/// The pixels encoded by `bytes`, four bytes each.
fn pixels_from_bytes(bytes: &Vec<u8>) -> (pixels: Vec<Pixel>)
    ensures
        pixels@ == bytes_pixels(bytes@),
{
    let n = bytes.len() / 4;
    let mut pixels: Vec<Pixel> = Vec::new();
    let mut i: usize = 0;
    while i < n
        invariant
            i <= n,
            n == bytes@.len() / 4,
            bytes@.len() <= usize::MAX,
            pixels@ == bytes_pixels(bytes@).subrange(0, i as int),
        decreases n - i,
    {
        let k = 4 * i;
        pixels.push(
            Pixel {
                material: MaterialId(bytes[k]),
                color: ColorIndex(bytes[k + 1]),
                damage: bytes[k + 2],
                flags: bytes[k + 3],
            },
        );
        proof {
            assert(pixels@ =~= bytes_pixels(bytes@).subrange(0, i + 1));
        }
        i = i + 1;
    }
    proof {
        assert(bytes_pixels(bytes@).subrange(0, n as int) =~= bytes_pixels(bytes@));
    }
    pixels
}

/// A copy of `bytes[start..end]`.
fn copy_range(bytes: &[u8], start: usize, end: usize) -> (r: Vec<u8>)
    requires
        start <= end <= bytes@.len(),
    ensures
        r@ == bytes@.subrange(start as int, end as int),
{
    let mut r: Vec<u8> = Vec::new();
    let mut i: usize = start;
    while i < end
        invariant
            start <= i <= end <= bytes@.len(),
            r@ == bytes@.subrange(start as int, i as int),
        decreases end - i,
    {
        r.push(bytes[i]);
        proof {
            assert(r@ =~= bytes@.subrange(start as int, i + 1));
        }
        i = i + 1;
    }
    r
}


/// Reads the header and the three blocks of the record at the start of
/// `bytes`.
fn read_blocks(bytes: &[u8]) -> (r: Result<
    (PixelBodyRecordHeader, Vec<u8>, Vec<u8>, Vec<u8>),
    PixelBodyReadError,
>)
    ensures
        match r {
            Ok((h, cp, cm, ext)) => record_blocks(bytes@) == Ok::<_, PixelBodyReadError>(
                (h, cp@, cm@, ext@),
            ),
            Err(e) => record_blocks(bytes@) == Err::<
                (PixelBodyRecordHeader, Seq<u8>, Seq<u8>, Seq<u8>),
                PixelBodyReadError,
            >(e),
        },
{
    let header = match PixelBodyRecordHeader::read_from(bytes, 0) {
        Ok(h) => h,
        Err(_) => {
            return Err(PixelBodyReadError::UnexpectedEof);
        },
    };
    if !header.validate_checksum() {
        return Err(PixelBodyReadError::ChecksumMismatch);
    }
    let a: u64 = 76;
    let b: u64 = a + header.pixel_data_size as u64;
    let c: u64 = b + header.shape_mask_size as u64;
    let d: u64 = c + header.extension_data_size as u64;
    if (bytes.len() as u64) < d {
        return Err(PixelBodyReadError::UnexpectedEof);
    }
    let compressed_pixels = copy_range(bytes, a as usize, b as usize);
    let compressed_mask = copy_range(bytes, b as usize, c as usize);
    let extension_data = copy_range(bytes, c as usize, d as usize);
    Ok((header, compressed_pixels, compressed_mask, extension_data))
}

/// Decompresses a record's blocks and assembles the record.
#[verifier::spinoff_prover]
fn decode_from_blocks(
    header: PixelBodyRecordHeader,
    compressed_pixels: Vec<u8>,
    compressed_mask: Vec<u8>,
    extension_data: Vec<u8>,
) -> (r: Result<PixelBodyRecord, PixelBodyReadError>)
    ensures
        r matches Ok(rec) ==> decode_blocks(header, compressed_pixels@, compressed_mask@, extension_data@)
            == Ok::<PixelBodyRecordView, PixelBodyReadError>(rec@),
        r matches Err(e) ==> decode_blocks(header, compressed_pixels@, compressed_mask@, extension_data@)
            == Err::<PixelBodyRecordView, PixelBodyReadError>(e),
        forall|rec: PixelBodyRecordView|
            #![trigger record_header(rec)]
            record_fits(rec) && header == record_header(rec) && compressed_pixels@ == lz4_compressed(
                pixel_bytes(rec.pixel_data),
            ) && compressed_mask@ == lz4_compressed(packed(rec.shape_mask)) && extension_data@
                == rec.extension_data ==> (r matches Ok(got) && got@ == rec),
{
    let raw_pixels = match decompress_lz4(compressed_pixels.as_slice()) {
        Ok(v) => v,
        Err(_) => {
            proof {
                assert forall|rec: PixelBodyRecordView|
                    #![trigger record_header(rec)]
                    record_fits(rec) && header == record_header(rec) && compressed_pixels@
                        == lz4_compressed(pixel_bytes(rec.pixel_data)) implies false by {
                    lemma_pixel_bytes_round_trip(rec.pixel_data);
                }
            }
            return Err(PixelBodyReadError::DecompressionFailed);
        },
    };
    proof {
        assert((header.width as int) * (header.height as int) <= 0xffff_ffff * 0xffff_ffff) by (nonlinear_arith)
            requires
                header.width <= 0xffff_ffff,
                header.height <= 0xffff_ffff,
        ;
    }
    let expected: u128 = 4 * ((header.width as u128) * (header.height as u128));
    if raw_pixels.len() as u128 != expected {
        proof {
            assert forall|rec: PixelBodyRecordView|
                #![trigger record_header(rec)]
                record_fits(rec) && header == record_header(rec) && compressed_pixels@
                    == lz4_compressed(pixel_bytes(rec.pixel_data)) implies false by {
                lemma_pixel_bytes_round_trip(rec.pixel_data);
            }
        }
        return Err(PixelBodyReadError::SizeMismatch { expected, actual: raw_pixels.len() });
    }
    proof {
        assert(raw_pixels@.len() == raw_pixels.len());
        assert((header.width as int) * (header.height as int) <= usize::MAX) by (nonlinear_arith)
            requires
                4 * (header.width * header.height) == raw_pixels@.len(),
                raw_pixels@.len() <= usize::MAX,
        ;
    }
    let pixel_count = (header.width as usize) * (header.height as usize);
    let pixel_data = pixels_from_bytes(&raw_pixels);
    let packed_mask = match decompress_lz4(compressed_mask.as_slice()) {
        Ok(v) => v,
        Err(_) => {
            proof {
                assert forall|rec: PixelBodyRecordView|
                    #![trigger record_header(rec)]
                    record_fits(rec) && header == record_header(rec) && compressed_mask@
                        == lz4_compressed(packed(rec.shape_mask)) implies false by {
                    assert(packed(rec.shape_mask).len() <= u32::MAX);
                }
            }
            return Err(PixelBodyReadError::DecompressionFailed);
        },
    };
    let shape_mask = unpack_bools(packed_mask.as_slice(), pixel_count);
    let rec = PixelBodyRecord {
        stable_id: header.stable_id,
        position: (header.position_x, header.position_y),
        rotation: header.rotation,
        linear_velocity: (header.linear_velocity_x, header.linear_velocity_y),
        angular_velocity: header.angular_velocity,
        width: header.width,
        height: header.height,
        origin: (header.origin_x, header.origin_y),
        pixel_data,
        shape_mask,
        extension_data,
    };
    proof {
        assert forall|r2: PixelBodyRecordView|
            #![trigger record_header(r2)]
            record_fits(r2) && header == record_header(r2) && compressed_pixels@ == lz4_compressed(
                pixel_bytes(r2.pixel_data),
            ) && compressed_mask@ == lz4_compressed(packed(r2.shape_mask)) && extension_data@
                == r2.extension_data implies rec@ == r2 by {
            lemma_pixel_bytes_round_trip(r2.pixel_data);
            lemma_unpack_packed(r2.shape_mask);
            assert(packed(r2.shape_mask).len() <= u32::MAX);
        }
    }
    Ok(rec)
}

impl PixelBodyRecord {
    /// Writes this record, with compression, to the end of `out`.
    pub fn write_to(&self, out: &mut Vec<u8>)
        ensures
            final(out)@ == old(out)@ + encode_record(self@),
            ({
                let n = self@.width * self@.height;
                self@.pixel_data.len() == n && self@.shape_mask.len() == n && 4 * n <= 0xE000_0000
                    && 4 * n * 110 <= usize::MAX && self@.extension_data.len() <= u32::MAX
                    ==> record_fits(self@)
            }),
    {
        let mut pixel_buf: Vec<u8> = Vec::new();
        push_pixel_bytes(&self.pixel_data, &mut pixel_buf);
        proof {
            assert(pixel_buf@ =~= pixel_bytes(self.pixel_data@));
        }
        let compressed_pixels = compress_lz4(pixel_buf.as_slice());
        let packed_mask = pack_bools(self.shape_mask.as_slice());
        let compressed_mask = compress_lz4(packed_mask.as_slice());
        proof {
            let n = self@.width * self@.height;
            if self@.pixel_data.len() == n && self@.shape_mask.len() == n && 4 * n <= 0xE000_0000
                && 4 * n * 110 <= usize::MAX {
                let m = packed_len(n);
                assert(packed_mask@.len() == m);
                assert(0 <= m <= 4 * n && m * 110 <= 4 * n * 110) by (nonlinear_arith)
                    requires
                        m == (n + 7) / 8,
                        n >= 0,
                ;
                assert(24 + (4 * n) * 110 / 100 <= u32::MAX) by (nonlinear_arith)
                    requires
                        0 <= 4 * n <= 0xE000_0000,
                ;
                assert(24 + m * 110 / 100 <= u32::MAX) by (nonlinear_arith)
                    requires
                        0 <= m <= 4 * n,
                        0 <= 4 * n <= 0xE000_0000,
                ;
            }
        }
        let mut header = PixelBodyRecordHeader {
            stable_id: self.stable_id,
            position_x: self.position.0,
            position_y: self.position.1,
            rotation: self.rotation,
            linear_velocity_x: self.linear_velocity.0,
            linear_velocity_y: self.linear_velocity.1,
            angular_velocity: self.angular_velocity,
            width: self.width,
            height: self.height,
            origin_x: self.origin.0,
            origin_y: self.origin.1,
            pixel_data_size: (compressed_pixels.len() as u64 % 0x1_0000_0000u64) as u32,
            shape_mask_size: (compressed_mask.len() as u64 % 0x1_0000_0000u64) as u32,
            extension_data_size: (self.extension_data.len() as u64 % 0x1_0000_0000u64) as u32,
            checksum: 0,
        };
        header.checksum = header.compute_checksum();
        let ghost start = out@;
        header.write_to(out);
        let mut i: usize = 0;
        let ghost mid = out@;
        while i < compressed_pixels.len()
            invariant
                i <= compressed_pixels@.len(),
                out@ == mid + compressed_pixels@.subrange(0, i as int),
            decreases compressed_pixels@.len() - i,
        {
            out.push(compressed_pixels[i]);
            proof {
                assert(out@ =~= mid + compressed_pixels@.subrange(0, i + 1));
            }
            i = i + 1;
        }
        let ghost mid2 = out@;
        let mut j: usize = 0;
        while j < compressed_mask.len()
            invariant
                j <= compressed_mask@.len(),
                out@ == mid2 + compressed_mask@.subrange(0, j as int),
            decreases compressed_mask@.len() - j,
        {
            out.push(compressed_mask[j]);
            proof {
                assert(out@ =~= mid2 + compressed_mask@.subrange(0, j + 1));
            }
            j = j + 1;
        }
        let ghost mid3 = out@;
        let mut k: usize = 0;
        while k < self.extension_data.len()
            invariant
                k <= self.extension_data@.len(),
                out@ == mid3 + self.extension_data@.subrange(0, k as int),
            decreases self.extension_data@.len() - k,
        {
            out.push(self.extension_data[k]);
            proof {
                assert(out@ =~= mid3 + self.extension_data@.subrange(0, k + 1));
            }
            k = k + 1;
        }
        proof {
            assert(compressed_pixels@.subrange(0, compressed_pixels@.len() as int) =~= compressed_pixels@);
            assert(compressed_mask@.subrange(0, compressed_mask@.len() as int) =~= compressed_mask@);
            assert(self.extension_data@.subrange(0, self.extension_data@.len() as int) =~= self.extension_data@);
            assert(header == record_header(self@));
            assert(out@ =~= start + encode_record(self@));
        }
    }
    /// Reconstructs a PixelBody from this record: pixels and mask cells are
    /// copied as far as both the record and the grid reach; the rest of the
    /// grid stays empty.
    pub fn to_pixel_body(&self) -> (b: PixelBody)
        requires
            self.width * self.height <= usize::MAX,
            self.width != 0x8000_0000,
            self.height != 0x8000_0000,
        ensures
            b.wf(),
            b.width == self.width,
            b.height == self.height,
            b.origin == self.origin,
            forall|i: int|
                0 <= i < self.width * self.height ==> #[trigger] b.surface@[i] == if i
                    < self.pixel_data@.len() {
                    self.pixel_data@[i]
                } else {
                    Pixel::spec_air()
                },
            forall|i: int|
                0 <= i < self.width * self.height ==> #[trigger] b.shape_mask@[i] == (i
                    < self.shape_mask@.len() && self.shape_mask@[i]),
    {
        let mut body = PixelBody::new(self.width, self.height);
        body.origin = self.origin;
        let n = body.surface.len();
        let copy_len = if n < self.pixel_data.len() {
            n
        } else {
            self.pixel_data.len()
        };
        let mut i: usize = 0;
        while i < copy_len
            invariant
                i <= copy_len,
                copy_len <= n,
                copy_len <= self.pixel_data@.len(),
                n == self.width * self.height,
                body.wf(),
                body.width == self.width,
                body.height == self.height,
                body.origin == self.origin,
                forall|t: int| 0 <= t < n ==> #[trigger] body.surface@[t] == if t < i {
                    self.pixel_data@[t]
                } else {
                    Pixel::spec_air()
                },
                forall|t: int| 0 <= t < n ==> !#[trigger] body.shape_mask@[t],
            decreases copy_len - i,
        {
            body.surface.set(i, self.pixel_data[i]);
            i = i + 1;
        }
        let mask_len = if n < self.shape_mask.len() {
            n
        } else {
            self.shape_mask.len()
        };
        let mut j: usize = 0;
        while j < mask_len
            invariant
                j <= mask_len,
                mask_len <= n,
                mask_len <= self.shape_mask@.len(),
                n == self.width * self.height,
                body.wf(),
                body.width == self.width,
                body.height == self.height,
                body.origin == self.origin,
                forall|t: int| 0 <= t < n ==> #[trigger] body.surface@[t] == if t < copy_len {
                    self.pixel_data@[t]
                } else {
                    Pixel::spec_air()
                },
                forall|t: int| 0 <= t < n ==> #[trigger] body.shape_mask@[t] == (t < j
                    && self.shape_mask@[t]),
            decreases mask_len - j,
        {
            body.shape_mask.set(j, self.shape_mask[j]);
            j = j + 1;
        }
        body
    }

    /// Reads a record from the start of `bytes`.
    ///
    /// Reads back exactly what `write_to` wrote, whatever follows it.
    pub fn read_from(bytes: &[u8]) -> (r: Result<Self, PixelBodyReadError>)
        ensures
            r matches Ok(rec) ==> decode_record(bytes@) == Ok::<PixelBodyRecordView, PixelBodyReadError>(rec@),
            r matches Err(e) ==> decode_record(bytes@) == Err::<PixelBodyRecordView, PixelBodyReadError>(e),
            forall|rec: PixelBodyRecordView|
                #[trigger] starts_with_record(bytes@, rec) ==> (r matches Ok(got) && got@ == rec),
    {
        match read_blocks(bytes) {
            Err(e) => {
                proof {
                    assert forall|rec: PixelBodyRecordView| #[trigger] starts_with_record(bytes@, rec) implies false by {
                        lemma_record_parts(bytes@, rec);
                    }
                }
                Err(e)
            },
            Ok((header, compressed_pixels, compressed_mask, extension_data)) => {
                proof {
                    assert forall|rec: PixelBodyRecordView| #[trigger] starts_with_record(bytes@, rec) implies {
                        &&& record_fits(rec)
                        &&& header == record_header(rec)
                        &&& compressed_pixels@ == lz4_compressed(pixel_bytes(rec.pixel_data))
                        &&& compressed_mask@ == lz4_compressed(packed(rec.shape_mask))
                        &&& extension_data@ == rec.extension_data
                    } by {
                        lemma_record_parts(bytes@, rec);
                    }
                }
                decode_from_blocks(header, compressed_pixels, compressed_mask, extension_data)
            },
        }
    }
}

} // verus!
