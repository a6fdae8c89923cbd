//! Binary layout of the save file's page table entries.
//!
//! A page table entry is 28 bytes, all integers little-endian:
//!
//! | bytes  | field                                  |
//! |--------|----------------------------------------|
//! | 0..4   | chunk x (`i32`)                        |
//! | 4..8   | chunk y (`i32`)                        |
//! | 8..16  | data offset (`u64`)                    |
//! | 16..20 | data size (`u32`)                      |
//! | 20     | storage type (0 empty, 1 full, 2 delta)|
//! | 21..24 | reserved, written as zero              |
//! | 24..28 | FNV-1a checksum of bytes 0..24 (`u32`) |
//!
//! A pixel body record header is 76 bytes, all integers little-endian; the
//! `f32` fields are held as their IEEE-754 bit patterns:
//!
//! | bytes  | field                                   |
//! |--------|-----------------------------------------|
//! | 0..8   | stable id (`u64`)                       |
//! | 8..16  | position x, y (`f32`)                   |
//! | 16..20 | rotation (`f32`)                        |
//! | 20..28 | linear velocity x, y (`f32`)            |
//! | 28..32 | angular velocity (`f32`)                |
//! | 32..40 | width, height (`u32`)                   |
//! | 40..48 | origin x, y (`i32`)                     |
//! | 48..60 | pixel data, shape mask and extension data sizes (`u32`) |
//! | 60..64 | FNV-1a checksum of bytes 0..60 (`u32`)  |
//! | 64..76 | reserved, written as zero               |
use vstd::prelude::*;

use super::bytes::{
    i32_bits, i32_from_bits, i32_of_bits, i32_to_bits, le_bytes, le_value, lemma_i32_bits_round_trip,
    lemma_le_bytes_len, lemma_le_round_trip, lemma_le_value_bound, lemma_pow256_values, push_le,
    read_le,
};
use crate::coords::ChunkPos;

verus! {

/// How a chunk's data is stored.
#[derive(Clone, Copy, Debug, PartialEq, Eq, Structural)]
pub enum StorageType {
    /// The chunk is empty: every pixel is void.
    Empty,
    /// The chunk's pixels are stored in full.
    Full,
    /// Only the pixels that differ from the procedurally seeded chunk are stored.
    Delta,
}

/// Error decoding a record of the save file.
#[derive(Clone, Copy, Debug, PartialEq, Eq, Structural)]
pub enum FormatError {
    /// The input ended before the record did.
    UnexpectedEof,
    /// The storage type byte is not one of the known codes.
    InvalidStorageType(u8),
}

/// The byte code of a storage type.
pub open spec fn storage_code(t: StorageType) -> u8 {
    match t {
        StorageType::Empty => 0,
        StorageType::Full => 1,
        StorageType::Delta => 2,
    }
}

/// The storage type of a byte code, if it is a known code.
pub open spec fn storage_of_code(b: u8) -> Option<StorageType> {
    if b == 0 {
        Some(StorageType::Empty)
    } else if b == 1 {
        Some(StorageType::Full)
    } else if b == 2 {
        Some(StorageType::Delta)
    } else {
        None
    }
}

/// The FNV-1a offset basis.
pub open spec fn fnv_basis() -> u32 {
    0x811C_9DC5
}

/// One FNV-1a round: xor in a byte, multiply by the FNV prime (mod 2^32).
pub open spec fn fnv_step(h: u32, b: u8) -> u32 {
    (((h ^ (b as u32)) as int * 16777619) % 0x1_0000_0000) as u32
}

/// The 32-bit FNV-1a hash of a byte string.
pub open spec fn fnv1a(s: Seq<u8>) -> u32
    decreases s.len(),
{
    if s.len() == 0 {
        fnv_basis()
    } else {
        fnv_step(fnv1a(s.drop_last()), s.last())
    }
}

/// Index entry mapping a chunk position to its data in the save file.
#[derive(Clone, Copy, Debug, PartialEq, Eq, Structural)]
pub struct PageTableEntry {
    /// Chunk x coordinate.
    pub chunk_x: i32,
    /// Chunk y coordinate.
    pub chunk_y: i32,
    /// File offset of the chunk data.
    pub data_offset: u64,
    /// Size of the chunk data in bytes.
    pub data_size: u32,
    /// How the chunk data is stored.
    pub storage_type: StorageType,
    /// Checksum of the other fields' encoding.
    pub checksum: u32,
}

/// The first 24 bytes of an entry's encoding: everything but the checksum.
pub open spec fn entry_body(e: PageTableEntry) -> Seq<u8> {
    le_bytes(i32_bits(e.chunk_x), 4) + le_bytes(i32_bits(e.chunk_y), 4) + le_bytes(
        e.data_offset as int,
        8,
    ) + le_bytes(e.data_size as int, 4) + seq![storage_code(e.storage_type), 0u8, 0u8, 0u8]
}

/// The checksum an entry with these fields should carry.
pub open spec fn entry_checksum(e: PageTableEntry) -> u32 {
    fnv1a(entry_body(e))
}

/// The 28-byte encoding of an entry.
pub open spec fn encode_entry(e: PageTableEntry) -> Seq<u8> {
    entry_body(e) + le_bytes(e.checksum as int, 4)
}

/// The entry encoded by 28 bytes, or `None` if the storage byte is unknown.
pub open spec fn decode_entry(s: Seq<u8>) -> Option<PageTableEntry> {
    match storage_of_code(s[20]) {
        Some(t) => Some(
            PageTableEntry {
                chunk_x: i32_of_bits(le_value(s.subrange(0, 4))) as i32,
                chunk_y: i32_of_bits(le_value(s.subrange(4, 8))) as i32,
                data_offset: le_value(s.subrange(8, 16)) as u64,
                data_size: le_value(s.subrange(16, 20)) as u32,
                storage_type: t,
                checksum: le_value(s.subrange(24, 28)) as u32,
            },
        ),
        None => None,
    }
}

/// The entry held at slot `i` of `bytes`, when it decodes and its checksum
/// matches.
pub open spec fn valid_slot(bytes: Seq<u8>, i: int) -> Option<PageTableEntry> {
    match decode_entry(bytes.subrange(i * 28, i * 28 + 28)) {
        Some(e) => if e.checksum == entry_checksum(e) {
            Some(e)
        } else {
            None
        },
        None => None,
    }
}

pub proof fn lemma_entry_lengths(e: PageTableEntry)
    ensures
        entry_body(e).len() == 24,
        encode_entry(e).len() == 28,
{
    lemma_le_bytes_len(i32_bits(e.chunk_x), 4);
    lemma_le_bytes_len(i32_bits(e.chunk_y), 4);
    lemma_le_bytes_len(e.data_offset as int, 8);
    lemma_le_bytes_len(e.data_size as int, 4);
    lemma_le_bytes_len(e.checksum as int, 4);
}

/// Decoding an entry's encoding gives the entry back.
pub proof fn lemma_decode_encode(e: PageTableEntry)
    ensures
        decode_entry(encode_entry(e)) == Some(e),
{
    let s = encode_entry(e);
    lemma_entry_lengths(e);
    lemma_pow256_values();
    lemma_i32_bits_round_trip(e.chunk_x);
    lemma_i32_bits_round_trip(e.chunk_y);
    lemma_le_round_trip(i32_bits(e.chunk_x), 4);
    lemma_le_round_trip(i32_bits(e.chunk_y), 4);
    lemma_le_round_trip(e.data_offset as int, 8);
    lemma_le_round_trip(e.data_size as int, 4);
    lemma_le_round_trip(e.checksum as int, 4);
    assert(s.subrange(0, 4) =~= le_bytes(i32_bits(e.chunk_x), 4));
    assert(s.subrange(4, 8) =~= le_bytes(i32_bits(e.chunk_y), 4));
    assert(s.subrange(8, 16) =~= le_bytes(e.data_offset as int, 8));
    assert(s.subrange(16, 20) =~= le_bytes(e.data_size as int, 4));
    assert(s.subrange(24, 28) =~= le_bytes(e.checksum as int, 4));
    assert(s[20] == storage_code(e.storage_type));
}

/// Folds the FNV-1a hash over all of `bytes`.
fn fnv1a_of(bytes: &Vec<u8>) -> (h: u32)
    ensures
        h == fnv1a(bytes@),
{
    let mut h: u32 = 0x811C_9DC5;
    let mut i: usize = 0;
    proof {
        assert(bytes@.subrange(0, 0) =~= Seq::<u8>::empty());
    }
    while i < bytes.len()
        invariant
            i <= bytes@.len(),
            h == fnv1a(bytes@.subrange(0, i as int)),
        decreases bytes@.len() - i,
    {
        proof {
            assert(bytes@.subrange(0, i + 1).drop_last() =~= bytes@.subrange(0, i as int));
        }
        let x = h ^ (bytes[i] as u32);
        h = ((x as u64 * 16777619u64) % 0x1_0000_0000u64) as u32;
        i = i + 1;
    }
    proof {
        assert(bytes@.subrange(0, bytes@.len() as int) =~= bytes@);
    }
    h
}

fn storage_type_code(t: StorageType) -> (b: u8)
    ensures
        b == storage_code(t),
{
    match t {
        StorageType::Empty => 0,
        StorageType::Full => 1,
        StorageType::Delta => 2,
    }
}

/// Appends the first 24 bytes of an entry's encoding.
fn push_entry_body(e: &PageTableEntry, out: &mut Vec<u8>)
    ensures
        final(out)@ == old(out)@ + entry_body(*e),
{
    let ghost start = out@;
    push_le(out, i32_to_bits(e.chunk_x) as u64, 4);
    push_le(out, i32_to_bits(e.chunk_y) as u64, 4);
    push_le(out, e.data_offset, 8);
    push_le(out, e.data_size as u64, 4);
    out.push(storage_type_code(e.storage_type));
    out.push(0);
    out.push(0);
    out.push(0);
    proof {
        assert(out@ =~= start + entry_body(*e));
    }
}

impl PageTableEntry {
    /// Entry size in bytes for serialization.
    pub const SIZE: usize = 28;

    /// Creates an entry for the chunk at `pos`, with a matching checksum.
    pub fn new(pos: ChunkPos, data_offset: u64, data_size: u32, storage_type: StorageType) -> (e:
        Self)
        ensures
            e.chunk_x == pos.x,
            e.chunk_y == pos.y,
            e.data_offset == data_offset,
            e.data_size == data_size,
            e.storage_type == storage_type,
            e.checksum == entry_checksum(e),
    {
        let mut e = PageTableEntry {
            chunk_x: pos.x,
            chunk_y: pos.y,
            data_offset,
            data_size,
            storage_type,
            checksum: 0,
        };
        e.checksum = e.compute_checksum();
        e
    }

    /// The chunk position this entry describes.
    pub fn pos(&self) -> (p: ChunkPos)
        ensures
            p.x == self.chunk_x,
            p.y == self.chunk_y,
    {
        ChunkPos::new(self.chunk_x, self.chunk_y)
    }

    /// Computes the checksum of this entry's other fields.
    pub fn compute_checksum(&self) -> (c: u32)
        ensures
            c == entry_checksum(*self),
    {
        let mut body: Vec<u8> = Vec::new();
        push_entry_body(self, &mut body);
        proof {
            assert(body@ =~= entry_body(*self));
        }
        fnv1a_of(&body)
    }

    /// Returns true if the stored checksum matches the other fields.
    pub fn validate_checksum(&self) -> (b: bool)
        ensures
            b == (self.checksum == entry_checksum(*self)),
    {
        self.checksum == self.compute_checksum()
    }

    /// Appends this entry's 28-byte encoding to `out`.
    pub fn write_to(&self, out: &mut Vec<u8>)
        ensures
            final(out)@ == old(out)@ + encode_entry(*self),
    {
        let ghost start = out@;
        push_entry_body(self, out);
        push_le(out, self.checksum as u64, 4);
        proof {
            assert(out@ =~= start + encode_entry(*self));
        }
    }

    /// Decodes the entry stored in `bytes` at `offset`.
    pub fn read_from(bytes: &[u8], offset: usize) -> (r: Result<Self, FormatError>)
        ensures
            offset + 28 > bytes@.len() ==> r == Err::<Self, FormatError>(FormatError::UnexpectedEof),
            offset + 28 <= bytes@.len() ==> match decode_entry(
                bytes@.subrange(offset as int, offset + 28),
            ) {
                Some(e) => r == Ok::<Self, FormatError>(e),
                None => r == Err::<Self, FormatError>(
                    FormatError::InvalidStorageType(bytes@[offset + 20]),
                ),
            },
    {
        let len = bytes.len();
        if offset > len || len - offset < 28 {
            return Err(FormatError::UnexpectedEof);
        }
        let ghost s = bytes@.subrange(offset as int, offset + 28);
        let code = bytes[offset + 20];
        let storage_type = if code == 0 {
            StorageType::Empty
        } else if code == 1 {
            StorageType::Full
        } else if code == 2 {
            StorageType::Delta
        } else {
            return Err(FormatError::InvalidStorageType(code));
        };
        let x = read_le(bytes, offset, 4);
        let y = read_le(bytes, offset + 4, 4);
        let data_offset = read_le(bytes, offset + 8, 8);
        let data_size = read_le(bytes, offset + 16, 4);
        let checksum = read_le(bytes, offset + 24, 4);
        proof {
            lemma_pow256_values();
            assert(s.subrange(0, 4) =~= bytes@.subrange(offset as int, offset + 4));
            assert(s.subrange(4, 8) =~= bytes@.subrange(offset + 4, offset + 8));
            assert(s.subrange(8, 16) =~= bytes@.subrange(offset + 8, offset + 16));
            assert(s.subrange(16, 20) =~= bytes@.subrange(offset + 16, offset + 20));
            assert(s.subrange(24, 28) =~= bytes@.subrange(offset + 24, offset + 28));
            lemma_le_value_bound(s.subrange(0, 4));
            lemma_le_value_bound(s.subrange(4, 8));
            lemma_le_value_bound(s.subrange(16, 20));
            lemma_le_value_bound(s.subrange(24, 28));
        }
        Ok(PageTableEntry {
            chunk_x: i32_from_bits(x as u32),
            chunk_y: i32_from_bits(y as u32),
            data_offset,
            data_size: data_size as u32,
            storage_type,
            checksum: checksum as u32,
        })
    }
}

/// Header preceding each pixel body record's compressed data.
#[derive(Clone, Copy, Debug, PartialEq, Eq, Structural)]
pub struct PixelBodyRecordHeader {
    /// Stable ID of the body.
    pub stable_id: u64,
    /// World position x (`f32` bits).
    pub position_x: u32,
    /// World position y (`f32` bits).
    pub position_y: u32,
    /// Rotation in radians (`f32` bits).
    pub rotation: u32,
    /// Linear velocity x (`f32` bits).
    pub linear_velocity_x: u32,
    /// Linear velocity y (`f32` bits).
    pub linear_velocity_y: u32,
    /// Angular velocity (`f32` bits).
    pub angular_velocity: u32,
    /// Width of the pixel grid.
    pub width: u32,
    /// Height of the pixel grid.
    pub height: u32,
    /// Origin offset x.
    pub origin_x: i32,
    /// Origin offset y.
    pub origin_y: i32,
    /// Size of the compressed pixel data.
    pub pixel_data_size: u32,
    /// Size of the compressed shape mask.
    pub shape_mask_size: u32,
    /// Size of the extension data.
    pub extension_data_size: u32,
    /// Checksum of the other fields' encoding.
    pub checksum: u32,
}

/// The little-endian bytes of a list of `u32` words, four per word.
pub open spec fn words_le(ws: Seq<u32>) -> Seq<u8>
    decreases ws.len(),
{
    if ws.len() == 0 {
        Seq::empty()
    } else {
        words_le(ws.drop_last()) + le_bytes(ws.last() as int, 4)
    }
}

/// The thirteen `u32` fields after the stable id, in encoding order.
pub open spec fn header_words(h: PixelBodyRecordHeader) -> Seq<u32> {
    seq![
        h.position_x,
        h.position_y,
        h.rotation,
        h.linear_velocity_x,
        h.linear_velocity_y,
        h.angular_velocity,
        h.width,
        h.height,
        i32_bits(h.origin_x) as u32,
        i32_bits(h.origin_y) as u32,
        h.pixel_data_size,
        h.shape_mask_size,
        h.extension_data_size,
    ]
}

/// The first 60 bytes of a header's encoding: everything but the checksum
/// and the reserved bytes.
pub open spec fn header_body(h: PixelBodyRecordHeader) -> Seq<u8> {
    le_bytes(h.stable_id as int, 8) + words_le(header_words(h))
}

/// Word `i` of a word list sits at bytes `4i..4i + 4` of its encoding.
pub proof fn lemma_words_le(ws: Seq<u32>)
    ensures
        words_le(ws).len() == 4 * ws.len(),
        forall|i: int| 0 <= i < ws.len() ==> #[trigger] words_le(ws).subrange(4 * i, 4 * i + 4) == le_bytes(ws[i] as int, 4),
    decreases ws.len(),
{
    if ws.len() > 0 {
        let init = ws.drop_last();
        lemma_words_le(init);
        lemma_le_bytes_len(ws.last() as int, 4);
        let e = words_le(ws);
        assert forall|i: int| 0 <= i < ws.len() implies #[trigger] e.subrange(4 * i, 4 * i + 4) == le_bytes(ws[i] as int, 4) by {
            if i < init.len() {
                assert(e.subrange(4 * i, 4 * i + 4) =~= words_le(init).subrange(4 * i, 4 * i + 4));
            } else {
                assert(e.subrange(4 * i, 4 * i + 4) =~= le_bytes(ws.last() as int, 4));
            }
        }
    }
}

/// The checksum a header with these fields should carry.
pub open spec fn header_checksum(h: PixelBodyRecordHeader) -> u32 {
    fnv1a(header_body(h))
}

/// The 76-byte encoding of a header.
pub open spec fn encode_header(h: PixelBodyRecordHeader) -> Seq<u8> {
    header_body(h) + le_bytes(h.checksum as int, 4) + Seq::new(12, |i: int| 0u8)
}

/// The `u32` stored little-endian at `s[at..at + 4]`.
pub open spec fn u32_at(s: Seq<u8>, at: int) -> u32 {
    le_value(s.subrange(at, at + 4)) as u32
}

/// The header encoded by the first 76 bytes of `s`.
pub open spec fn decode_header(s: Seq<u8>) -> PixelBodyRecordHeader {
    PixelBodyRecordHeader {
        stable_id: le_value(s.subrange(0, 8)) as u64,
        position_x: u32_at(s, 8),
        position_y: u32_at(s, 12),
        rotation: u32_at(s, 16),
        linear_velocity_x: u32_at(s, 20),
        linear_velocity_y: u32_at(s, 24),
        angular_velocity: u32_at(s, 28),
        width: u32_at(s, 32),
        height: u32_at(s, 36),
        origin_x: i32_of_bits(u32_at(s, 40) as int) as i32,
        origin_y: i32_of_bits(u32_at(s, 44) as int) as i32,
        pixel_data_size: u32_at(s, 48),
        shape_mask_size: u32_at(s, 52),
        extension_data_size: u32_at(s, 56),
        checksum: u32_at(s, 60),
    }
}

pub proof fn lemma_header_lengths(h: PixelBodyRecordHeader)
    ensures
        header_body(h).len() == 60,
        encode_header(h).len() == 76,
{
    lemma_le_bytes_len(h.stable_id as int, 8);
    lemma_words_le(header_words(h));
    lemma_le_bytes_len(h.checksum as int, 4);
}

/// Reading the `u32` written at `at` gives it back.
proof fn lemma_u32_field(s: Seq<u8>, at: int, v: u32)
    requires
        0 <= at,
        at + 4 <= s.len(),
        s.subrange(at, at + 4) == le_bytes(v as int, 4),
    ensures
        u32_at(s, at) == v,
{
    lemma_pow256_values();
    lemma_le_round_trip(v as int, 4);
}

/// Decoding a header's encoding gives the header back, whatever follows it.
pub proof fn lemma_decode_encode_header(h: PixelBodyRecordHeader, rest: Seq<u8>)
    ensures
        decode_header(encode_header(h) + rest) == h,
{
    let s = encode_header(h) + rest;
    let ws = header_words(h);
    let e = words_le(ws);
    lemma_header_lengths(h);
    lemma_words_le(ws);
    lemma_pow256_values();
    lemma_le_round_trip(h.stable_id as int, 8);
    lemma_i32_bits_round_trip(h.origin_x);
    lemma_i32_bits_round_trip(h.origin_y);
    assert(s.subrange(0, 8) =~= le_bytes(h.stable_id as int, 8));
    assert forall|k: int| 0 <= k < 13 implies #[trigger] u32_at(s, 8 + 4 * k) == ws[k] by {
        assert(s.subrange(8 + 4 * k, 8 + 4 * k + 4) =~= e.subrange(4 * k, 4 * k + 4));
        lemma_u32_field(s, 8 + 4 * k, ws[k]);
    }
    assert(u32_at(s, 8 + 4 * (0 as int)) == ws[0]);
    assert(u32_at(s, 8 + 4 * (1 as int)) == ws[1]);
    assert(u32_at(s, 8 + 4 * (2 as int)) == ws[2]);
    assert(u32_at(s, 8 + 4 * (3 as int)) == ws[3]);
    assert(u32_at(s, 8 + 4 * (4 as int)) == ws[4]);
    assert(u32_at(s, 8 + 4 * (5 as int)) == ws[5]);
    assert(u32_at(s, 8 + 4 * (6 as int)) == ws[6]);
    assert(u32_at(s, 8 + 4 * (7 as int)) == ws[7]);
    assert(u32_at(s, 8 + 4 * (8 as int)) == ws[8]);
    assert(u32_at(s, 8 + 4 * (9 as int)) == ws[9]);
    assert(u32_at(s, 8 + 4 * (10 as int)) == ws[10]);
    assert(u32_at(s, 8 + 4 * (11 as int)) == ws[11]);
    assert(u32_at(s, 8 + 4 * (12 as int)) == ws[12]);
    assert(s.subrange(60, 64) =~= le_bytes(h.checksum as int, 4));
    lemma_u32_field(s, 60, h.checksum);
}

/// Appends the first 60 bytes of a header's encoding.
fn push_header_body(h: &PixelBodyRecordHeader, out: &mut Vec<u8>)
    ensures
        final(out)@ == old(out)@ + header_body(*h),
{
    let ghost start = out@;
    push_le(out, h.stable_id, 8);
    let words: Vec<u32> = vec![
        h.position_x,
        h.position_y,
        h.rotation,
        h.linear_velocity_x,
        h.linear_velocity_y,
        h.angular_velocity,
        h.width,
        h.height,
        i32_to_bits(h.origin_x),
        i32_to_bits(h.origin_y),
        h.pixel_data_size,
        h.shape_mask_size,
        h.extension_data_size,
    ];
    proof {
        assert(words@ =~= header_words(*h));
        assert(words@.subrange(0, 0) =~= Seq::<u32>::empty());
    }
    let mut i: usize = 0;
    while i < words.len()
        invariant
            i <= words@.len(),
            words@ == header_words(*h),
            out@ == start + le_bytes(h.stable_id as int, 8) + words_le(words@.subrange(0, i as int)),
        decreases words@.len() - i,
    {
        let ghost before = out@;
        push_le(out, words[i] as u64, 4);
        proof {
            let pre = words@.subrange(0, i + 1);
            assert(pre.drop_last() =~= words@.subrange(0, i as int));
            assert(out@ =~= start + le_bytes(h.stable_id as int, 8) + words_le(pre));
        }
        i = i + 1;
    }
    proof {
        assert(words@.subrange(0, words@.len() as int) =~= words@);
        assert(out@ =~= start + header_body(*h));
    }
}

impl PixelBodyRecordHeader {
    /// Header size in bytes for serialization.
    pub const SIZE: usize = 76;

    /// Computes the checksum of this header's other fields.
    pub fn compute_checksum(&self) -> (c: u32)
        ensures
            c == header_checksum(*self),
    {
        let mut body: Vec<u8> = Vec::new();
        push_header_body(self, &mut body);
        proof {
            assert(body@ =~= header_body(*self));
        }
        fnv1a_of(&body)
    }

    /// Returns true if the stored checksum matches the other fields.
    pub fn validate_checksum(&self) -> (b: bool)
        ensures
            b == (self.checksum == header_checksum(*self)),
    {
        self.checksum == self.compute_checksum()
    }

    /// Appends this header's 76-byte encoding to `out`.
    pub fn write_to(&self, out: &mut Vec<u8>)
        ensures
            final(out)@ == old(out)@ + encode_header(*self),
    {
        let ghost start = out@;
        push_header_body(self, out);
        push_le(out, self.checksum as u64, 4);
        push_le(out, 0, 8);
        push_le(out, 0, 4);
        proof {
            assert(le_bytes(0, 8) =~= Seq::new(8, |i: int| 0u8)) by {
                reveal_with_fuel(le_bytes, 9);
            }
            assert(le_bytes(0, 4) =~= Seq::new(4, |i: int| 0u8)) by {
                reveal_with_fuel(le_bytes, 5);
            }
            assert(out@ =~= start + encode_header(*self));
        }
    }

    /// Decodes the header stored in `bytes` at `offset`.
    pub fn read_from(bytes: &[u8], offset: usize) -> (r: Result<Self, FormatError>)
        ensures
            offset + 76 > bytes@.len() ==> r == Err::<Self, FormatError>(FormatError::UnexpectedEof),
            offset + 76 <= bytes@.len() ==> r == Ok::<Self, FormatError>(
                decode_header(bytes@.subrange(offset as int, offset + 76)),
            ),
    {
        let len = bytes.len();
        if offset > len || len - offset < 76 {
            return Err(FormatError::UnexpectedEof);
        }
        let ghost s = bytes@.subrange(offset as int, offset + 76);
        let stable_id = read_le(bytes, offset, 8);
        let position_x = read_le(bytes, offset + 8, 4);
        let position_y = read_le(bytes, offset + 12, 4);
        let rotation = read_le(bytes, offset + 16, 4);
        let linear_velocity_x = read_le(bytes, offset + 20, 4);
        let linear_velocity_y = read_le(bytes, offset + 24, 4);
        let angular_velocity = read_le(bytes, offset + 28, 4);
        let width = read_le(bytes, offset + 32, 4);
        let height = read_le(bytes, offset + 36, 4);
        let origin_x = read_le(bytes, offset + 40, 4);
        let origin_y = read_le(bytes, offset + 44, 4);
        let pixel_data_size = read_le(bytes, offset + 48, 4);
        let shape_mask_size = read_le(bytes, offset + 52, 4);
        let extension_data_size = read_le(bytes, offset + 56, 4);
        let checksum = read_le(bytes, offset + 60, 4);
        proof {
            lemma_pow256_values();
            assert(s.subrange(0, 8) =~= bytes@.subrange(offset as int, offset + 8));
            assert(s.subrange(8, 12) =~= bytes@.subrange(offset + 8, offset + 12));
            lemma_le_value_bound(s.subrange(8, 12));
            assert(s.subrange(12, 16) =~= bytes@.subrange(offset + 12, offset + 16));
            lemma_le_value_bound(s.subrange(12, 16));
            assert(s.subrange(16, 20) =~= bytes@.subrange(offset + 16, offset + 20));
            lemma_le_value_bound(s.subrange(16, 20));
            assert(s.subrange(20, 24) =~= bytes@.subrange(offset + 20, offset + 24));
            lemma_le_value_bound(s.subrange(20, 24));
            assert(s.subrange(24, 28) =~= bytes@.subrange(offset + 24, offset + 28));
            lemma_le_value_bound(s.subrange(24, 28));
            assert(s.subrange(28, 32) =~= bytes@.subrange(offset + 28, offset + 32));
            lemma_le_value_bound(s.subrange(28, 32));
            assert(s.subrange(32, 36) =~= bytes@.subrange(offset + 32, offset + 36));
            lemma_le_value_bound(s.subrange(32, 36));
            assert(s.subrange(36, 40) =~= bytes@.subrange(offset + 36, offset + 40));
            lemma_le_value_bound(s.subrange(36, 40));
            assert(s.subrange(40, 44) =~= bytes@.subrange(offset + 40, offset + 44));
            lemma_le_value_bound(s.subrange(40, 44));
            assert(s.subrange(44, 48) =~= bytes@.subrange(offset + 44, offset + 48));
            lemma_le_value_bound(s.subrange(44, 48));
            assert(s.subrange(48, 52) =~= bytes@.subrange(offset + 48, offset + 52));
            lemma_le_value_bound(s.subrange(48, 52));
            assert(s.subrange(52, 56) =~= bytes@.subrange(offset + 52, offset + 56));
            lemma_le_value_bound(s.subrange(52, 56));
            assert(s.subrange(56, 60) =~= bytes@.subrange(offset + 56, offset + 60));
            lemma_le_value_bound(s.subrange(56, 60));
            assert(s.subrange(60, 64) =~= bytes@.subrange(offset + 60, offset + 64));
            lemma_le_value_bound(s.subrange(60, 64));
        }
        Ok(PixelBodyRecordHeader {
            stable_id,
            position_x: position_x as u32,
            position_y: position_y as u32,
            rotation: rotation as u32,
            linear_velocity_x: linear_velocity_x as u32,
            linear_velocity_y: linear_velocity_y as u32,
            angular_velocity: angular_velocity as u32,
            width: width as u32,
            height: height as u32,
            origin_x: i32_from_bits(origin_x as u32),
            origin_y: i32_from_bits(origin_y as u32),
            pixel_data_size: pixel_data_size as u32,
            shape_mask_size: shape_mask_size as u32,
            extension_data_size: extension_data_size as u32,
            checksum: checksum as u32,
        })
    }
}

} // verus!
