//! Runtime index for chunk persistence.
//!
//! Maintains a hash map for O(1) chunk lookups at runtime.
//! Serializes to a sorted array on disk for forward scanning and recovery.
use std::collections::HashMap;
use vstd::prelude::*;

use super::bytes::{
    i32_bits, i32_from_bits, i32_of_bits, i32_to_bits, le_bytes, le_value, lemma_i32_bits_round_trip,
    lemma_le_round_trip, lemma_le_value_bound, lemma_pow256_values, push_le, read_le,
};
use super::format::{
    encode_entry, entry_checksum, lemma_decode_encode, lemma_entry_lengths, valid_slot,
    FormatError, PageTableEntry,
};
use crate::coords::{chunk_key, lemma_chunk_key_injective, pack_key, ChunkPos};
use vstd::std_specs::hash::spec_hash_map_iter;
use vstd::std_specs::iter::IteratorSpec;

verus! {

broadcast use {vstd::std_specs::hash::group_hash_axioms, crate::coords::lemma_chunk_key_fits};

/// The chunk position an entry describes.
pub open spec fn entry_pos(e: PageTableEntry) -> ChunkPos {
    ChunkPos { x: e.chunk_x, y: e.chunk_y }
}

/// Order of entries on disk: by chunk y, then by chunk x.
pub open spec fn yx_less(a: PageTableEntry, b: PageTableEntry) -> bool {
    a.chunk_y < b.chunk_y || (a.chunk_y == b.chunk_y && a.chunk_x < b.chunk_x)
}

/// `s` lists every entry of `m` exactly once, in strictly increasing
/// (y, x) order, each stored under its own position.
pub open spec fn is_sorted_listing(s: Seq<PageTableEntry>, m: Map<ChunkPos, PageTableEntry>) -> bool {
    &&& forall|i: int| 0 <= i < s.len() ==> m.contains_key(entry_pos(#[trigger] s[i])) && m[entry_pos(s[i])] == s[i]
    &&& forall|p: ChunkPos| #[trigger] m.contains_key(p) ==> s.contains(m[p])
    &&& forall|i: int, j: int| 0 <= i < j < s.len() ==> yx_less(#[trigger] s[i], #[trigger] s[j])
}

/// The concatenated encodings of a sequence of entries.
pub open spec fn encode_all(s: Seq<PageTableEntry>) -> Seq<u8>
    decreases s.len(),
{
    if s.len() == 0 {
        Seq::empty()
    } else {
        encode_all(s.drop_last()) + encode_entry(s.last())
    }
}

/// The chunk index rebuilt from the first `n` slots of `bytes`: each slot that
/// decodes with a matching checksum is inserted in order, the others skipped.
pub open spec fn index_of_slots(bytes: Seq<u8>, n: nat) -> Map<ChunkPos, PageTableEntry>
    decreases n,
{
    if n == 0 {
        Map::empty()
    } else {
        let m = index_of_slots(bytes, (n - 1) as nat);
        match valid_slot(bytes, n - 1) {
            Some(e) => m.insert(entry_pos(e), e),
            None => m,
        }
    }
}


/// Runtime index for chunk positions to page table entries.
///
/// Uses a hash map for O(1) lookups. Serializes to a sorted array on disk.
pub struct ChunkIndex {
    entries: HashMap<i64, PageTableEntry>,
}

impl View for ChunkIndex {
    type V = Map<ChunkPos, PageTableEntry>;

    closed spec fn view(&self) -> Map<ChunkPos, PageTableEntry> {
        Map::new(
            |p: ChunkPos| self.entries@.contains_key(chunk_key(p.x, p.y) as i64),
            |p: ChunkPos| self.entries@[chunk_key(p.x, p.y) as i64],
        )
    }
}

impl ChunkIndex {
    /// Every entry is stored under the key of its own position.
    pub closed spec fn wf(&self) -> bool {
        forall|k: i64| #[trigger]
            self.entries@.contains_key(k) ==> chunk_key(
                self.entries@[k].chunk_x,
                self.entries@[k].chunk_y,
            ) == k
    }

    /// A well-formed index maps each position to an entry for that position,
    /// and holds finitely many entries.
    pub proof fn lemma_entries_at_own_position(&self)
        requires
            self.wf(),
        ensures
            self@.dom().finite(),
            forall|p: ChunkPos| #[trigger] self@.contains_key(p) ==> entry_pos(self@[p]) == p,
    {
        self.lemma_view_len();
        assert forall|p: ChunkPos| #[trigger] self@.contains_key(p) implies entry_pos(self@[p]) == p by {
            let k = chunk_key(p.x, p.y) as i64;
            let e = self.entries@[k];
            lemma_chunk_key_injective(e.chunk_x, e.chunk_y, p.x, p.y);
        }
    }

    proof fn lemma_view_len(&self)
        requires
            self.wf(),
        ensures
            self@.dom().finite(),
            self@.len() == self.entries@.len(),
    {
        let f = |k: i64| entry_pos(self.entries@[k]);
        let x = self.entries@.dom();
        assert(vstd::relations::injective_on(f, x)) by {
            assert forall|a: i64, b: i64| x.contains(a) && x.contains(b) && #[trigger] f(a) == #[trigger] f(b) implies a == b by {
            }
        }
        assert(x.map(f) =~= self@.dom()) by {
            assert forall|p: ChunkPos| #[trigger] self@.dom().contains(p) implies x.map(f).contains(p) by {
                let k = chunk_key(p.x, p.y) as i64;
                let e = self.entries@[k];
                lemma_chunk_key_injective(e.chunk_x, e.chunk_y, p.x, p.y);
                assert(x.contains(k) && f(k) == p);
            }
        }
        vstd::set_lib::lemma_map_size(x, self@.dom(), f);
    }

    /// Creates an empty index.
    pub fn new() -> (idx: Self)
        ensures
            idx.wf(),
            idx@ == Map::<ChunkPos, PageTableEntry>::empty(),
    {
        let idx = ChunkIndex { entries: HashMap::new() };
        proof {
            assert(idx@ =~= Map::<ChunkPos, PageTableEntry>::empty());
        }
        idx
    }

    /// Creates an empty index with room for `capacity` entries.
    pub fn with_capacity(capacity: usize) -> (idx: Self)
        ensures
            idx.wf(),
            idx@ == Map::<ChunkPos, PageTableEntry>::empty(),
    {
        let idx = ChunkIndex { entries: HashMap::with_capacity(capacity) };
        proof {
            assert(idx@ =~= Map::<ChunkPos, PageTableEntry>::empty());
        }
        idx
    }

    /// Returns the number of entries.
    pub fn len(&self) -> (n: usize)
        requires
            self.wf(),
        ensures
            n == self@.len(),
    {
        proof {
            self.lemma_view_len();
        }
        self.entries.len()
    }

    /// Returns true if the index is empty.
    pub fn is_empty(&self) -> (b: bool)
        requires
            self.wf(),
        ensures
            b == (self@.len() == 0),
    {
        proof {
            self.lemma_view_len();
        }
        self.entries.len() == 0
    }

    /// Looks up an entry by chunk position.
    pub fn get(&self, pos: ChunkPos) -> (r: Option<&PageTableEntry>)
        ensures
            match r {
                Some(e) => self@.contains_key(pos) && *e == self@[pos],
                None => !self@.contains_key(pos),
            },
    {
        let k = pack_key(pos.x, pos.y);
        self.entries.get(&k)
    }

    /// Inserts or updates an entry, under its own position.
    pub fn insert(&mut self, entry: PageTableEntry)
        requires
            old(self).wf(),
        ensures
            final(self).wf(),
            final(self)@ == old(self)@.insert(entry_pos(entry), entry),
    {
        let k = pack_key(entry.chunk_x, entry.chunk_y);
        self.entries.insert(k, entry);
        proof {
            assert forall|p: ChunkPos| #[trigger] self@.contains_key(p) == old(self)@.insert(entry_pos(entry), entry).contains_key(p) by {
                if chunk_key(p.x, p.y) == k {
                    lemma_chunk_key_injective(p.x, p.y, entry.chunk_x, entry.chunk_y);
                }
            }
            assert(self@ =~= old(self)@.insert(entry_pos(entry), entry));
        }
    }

    /// Removes an entry by chunk position.
    pub fn remove(&mut self, pos: ChunkPos) -> (r: Option<PageTableEntry>)
        requires
            old(self).wf(),
        ensures
            final(self).wf(),
            final(self)@ == old(self)@.remove(pos),
            match r {
                Some(e) => old(self)@.contains_key(pos) && e == old(self)@[pos],
                None => !old(self)@.contains_key(pos),
            },
    {
        let k = pack_key(pos.x, pos.y);
        let r = self.entries.remove(&k);
        proof {
            assert forall|p: ChunkPos| #[trigger] self@.contains_key(p) == old(self)@.remove(pos).contains_key(p) by {
                if chunk_key(p.x, p.y) == k {
                    lemma_chunk_key_injective(p.x, p.y, pos.x, pos.y);
                }
            }
            assert(self@ =~= old(self)@.remove(pos));
        }
        r
    }

    /// Returns true if the index contains the given position.
    pub fn contains(&self, pos: ChunkPos) -> (b: bool)
        ensures
            b == self@.contains_key(pos),
    {
        let k = pack_key(pos.x, pos.y);
        self.entries.contains_key(&k)
    }

    /// Lists all entries, each once, in no particular order.
    pub fn iter(&self) -> (v: Vec<PageTableEntry>)
        requires
            self.wf(),
        ensures
            v@.len() == self@.len(),
            forall|i: int| 0 <= i < v@.len() ==> #[trigger] self@.contains_key(entry_pos(v@[i])) && self@[entry_pos(v@[i])] == v@[i],
            forall|p: ChunkPos| #[trigger] self@.contains_key(p) ==> v@.contains(self@[p]),
            forall|i: int, j: int| 0 <= i < j < v@.len() ==> entry_pos(#[trigger] v@[i]) != entry_pos(#[trigger] v@[j]),
    {
        let v = collect_entries(&self.entries);
        proof {
            self.lemma_view_len();
            assert forall|i: int| 0 <= i < v@.len() implies #[trigger] self@.contains_key(entry_pos(v@[i])) && self@[entry_pos(v@[i])] == v@[i] by {
                let k = chunk_key(v@[i].chunk_x, v@[i].chunk_y) as i64;
                assert(self.entries@.contains_key(k) && self.entries@[k] == v@[i]);
                assert(chunk_key(entry_pos(v@[i]).x, entry_pos(v@[i]).y) as i64 == k);
            }
            assert forall|p: ChunkPos| #[trigger] self@.contains_key(p) implies v@.contains(self@[p]) by {
                let k = chunk_key(p.x, p.y) as i64;
                assert(self.entries@.contains_key(k));
                assert(v@.contains(self.entries@[k]));
            }
            assert forall|i: int, j: int| 0 <= i < j < v@.len() implies entry_pos(#[trigger] v@[i]) != entry_pos(#[trigger] v@[j]) by {
                assert(chunk_key(v@[i].chunk_x, v@[i].chunk_y) != chunk_key(v@[j].chunk_x, v@[j].chunk_y));
            }
        }
        v
    }

    /// Encodes the index as a sorted array of 28-byte entries.
    ///
    /// Entries are sorted by (chunk_y, chunk_x) for spatial locality
    /// and forward scanning during recovery.
    pub fn write_to(&self) -> (out: Vec<u8>)
        requires
            self.wf(),
        ensures
            exists|s: Seq<PageTableEntry>| is_sorted_listing(s, self@) && out@ == encode_all(s),
            out@.len() == self@.len() * 28,
    {
        let v = self.iter();
        let mut sorted: Vec<PageTableEntry> = Vec::new();
        let mut i: usize = 0;
        while i < v.len()
            invariant
                i <= v@.len(),
                sorted@.len() == i,
                forall|a: int, b: int| 0 <= a < b < v@.len() ==> entry_pos(#[trigger] v@[a]) != entry_pos(#[trigger] v@[b]),
                forall|a: int, b: int| 0 <= a < b < sorted@.len() ==> yx_less(#[trigger] sorted@[a], #[trigger] sorted@[b]),
                forall|a: int| 0 <= a < i ==> sorted@.contains(#[trigger] v@[a]),
                forall|a: int| 0 <= a < sorted@.len() ==> exists|b: int| 0 <= b < i && v@[b] == #[trigger] sorted@[a],
            decreases v@.len() - i,
        {
            let e = v[i];
            let mut j: usize = 0;
            while j < sorted.len() && !entry_before(&e, &sorted[j])
                invariant
                    j <= sorted@.len(),
                    forall|a: int| 0 <= a < j ==> !yx_less(e, #[trigger] sorted@[a]),
                decreases sorted@.len() - j,
            {
                j = j + 1;
            }
            let ghost before = sorted@;
            proof {
                assert forall|a: int| 0 <= a < j implies yx_less(#[trigger] before[a], e) by {
                    let b = choose|b: int| 0 <= b < i && v@[b] == before[a];
                    assert(entry_pos(v@[b]) != entry_pos(v@[i as int]));
                }
            }
            sorted.insert(j, e);
            proof {
                assert forall|a: int, b: int| 0 <= a < b < sorted@.len() implies yx_less(#[trigger] sorted@[a], #[trigger] sorted@[b]) by {
                    if b < j {
                    } else if b == j {
                    } else if a < j {
                        assert(sorted@[b] == before[b - 1]);
                        assert(yx_less(before[a], e));
                        assert(!yx_less(e, before[a]));
                        if j < before.len() {
                            assert(yx_less(e, before[j as int]));
                        }
                    } else if a == j {
                        assert(yx_less(e, before[j as int]));
                        if b - 1 > j {
                            assert(yx_less(before[j as int], before[b - 1]));
                        }
                    } else {
                        assert(sorted@[a] == before[a - 1]);
                    }
                }
                assert forall|a: int| 0 <= a < i + 1 implies sorted@.contains(#[trigger] v@[a]) by {
                    if a < i {
                        assert(before.contains(v@[a]));
                        let t = choose|t: int| 0 <= t < before.len() && before[t] == v@[a];
                        if t < j {
                            assert(sorted@[t] == v@[a]);
                        } else {
                            assert(sorted@[t + 1] == v@[a]);
                        }
                    } else {
                        assert(sorted@[j as int] == e);
                    }
                }
                assert forall|a: int| 0 <= a < sorted@.len() implies exists|b: int| 0 <= b < i + 1 && v@[b] == #[trigger] sorted@[a] by {
                    if a < j {
                        assert(sorted@[a] == before[a]);
                    } else if a == j {
                        assert(v@[i as int] == sorted@[a]);
                    } else {
                        assert(sorted@[a] == before[a - 1]);
                    }
                }
            }
            i = i + 1;
        }
        let mut out: Vec<u8> = Vec::new();
        let mut t: usize = 0;
        while t < sorted.len()
            invariant
                t <= sorted@.len(),
                out@ == encode_all(sorted@.subrange(0, t as int)),
            decreases sorted@.len() - t,
        {
            sorted[t].write_to(&mut out);
            proof {
                assert(sorted@.subrange(0, t + 1).drop_last() =~= sorted@.subrange(0, t as int));
            }
            t = t + 1;
        }
        proof {
            assert(sorted@.subrange(0, sorted@.len() as int) =~= sorted@);
            assert forall|p: ChunkPos| #[trigger] self@.contains_key(p) implies sorted@.contains(self@[p]) by {
                assert(v@.contains(self@[p]));
                let a = choose|a: int| 0 <= a < v@.len() && v@[a] == self@[p];
                assert(sorted@.contains(v@[a]));
            }
            assert forall|a: int| 0 <= a < sorted@.len() implies self@.contains_key(entry_pos(#[trigger] sorted@[a])) && self@[entry_pos(sorted@[a])] == sorted@[a] by {
                let b = choose|b: int| 0 <= b < v@.len() && v@[b] == sorted@[a];
                assert(self@.contains_key(entry_pos(v@[b])));
            }
            assert(is_sorted_listing(sorted@, self@));
            lemma_encode_all_slots(sorted@);
        }
        out
    }

    /// Rebuilds the index from the first `count` 28-byte entries of `bytes`.
    ///
    /// Entries that do not decode or whose checksum does not match are
    /// skipped as corrupted; later entries for a position replace earlier ones.
    pub fn read_from(bytes: &[u8], count: usize) -> (r: Result<Self, FormatError>)
        ensures
            count * 28 > bytes@.len() ==> r == Err::<Self, FormatError>(FormatError::UnexpectedEof),
            count * 28 <= bytes@.len() ==> (r matches Ok(idx) && idx.wf() && idx@ == index_of_slots(
                bytes@,
                count as nat,
            )),
    {
        if count > bytes.len() / 28 {
            return Err(FormatError::UnexpectedEof);
        }
        let len = bytes.len();
        let mut index = Self::with_capacity(count);
        let mut i: usize = 0;
        while i < count
            invariant
                i <= count,
                len == bytes@.len(),
                count * 28 <= bytes@.len(),
                index.wf(),
                index@ == index_of_slots(bytes@, i as nat),
            decreases count - i,
        {
            let slot = PageTableEntry::read_from(bytes, i * 28);
            match slot {
                Ok(entry) => {
                    if entry.validate_checksum() {
                        index.insert(entry);
                    }
                },
                Err(_) => {},
            }
            i = i + 1;
        }
        Ok(index)
    }

    /// Returns the total serialized size in bytes.
    pub fn serialized_size(&self) -> (n: usize)
        requires
            self.wf(),
            self@.len() * 28 <= usize::MAX,
        ensures
            n == self@.len() * 28,
    {
        self.len() * PageTableEntry::SIZE
    }

    /// Clears all entries.
    pub fn clear(&mut self)
        ensures
            final(self).wf(),
            final(self)@ == Map::<ChunkPos, PageTableEntry>::empty(),
    {
        self.entries.clear();
        proof {
            assert(self@ =~= Map::<ChunkPos, PageTableEntry>::empty());
        }
    }
}

impl Default for ChunkIndex {
    fn default() -> (idx: Self)
        ensures
            idx.wf(),
            idx@ == Map::<ChunkPos, PageTableEntry>::empty(),
    {
        Self::new()
    }
}

fn entry_before(a: &PageTableEntry, b: &PageTableEntry) -> (r: bool)
    ensures
        r == yx_less(*a, *b),
{
    a.chunk_y < b.chunk_y || (a.chunk_y == b.chunk_y && a.chunk_x < b.chunk_x)
}

fn collect_entries(m: &HashMap<i64, PageTableEntry>) -> (v: Vec<PageTableEntry>)
    requires
        forall|k: i64| #[trigger]
            m@.contains_key(k) ==> chunk_key(m@[k].chunk_x, m@[k].chunk_y) == k,
    ensures
        v@.len() == m@.len(),
        forall|i: int|
            0 <= i < v@.len() ==> {
                let k = chunk_key((#[trigger] v@[i]).chunk_x, v@[i].chunk_y) as i64;
                m@.contains_key(k) && m@[k] == v@[i]
            },
        forall|i: int, j: int|
            0 <= i < j < v@.len() ==> chunk_key((#[trigger] v@[i]).chunk_x, v@[i].chunk_y)
                != chunk_key((#[trigger] v@[j]).chunk_x, v@[j].chunk_y),
        forall|k: i64| m@.contains_key(k) ==> v@.contains(#[trigger] m@[k]),
{
    let mut v: Vec<PageTableEntry> = Vec::new();
    let iter = m.iter();
    let ghost whole = iter.remaining();
    proof {
        assert(whole.no_duplicates());
    }
    for kv in it: iter
        invariant
            it.seq() == whole,
            v@.len() == it.index(),
            forall|i: int| 0 <= i < v@.len() ==> v@[i] == *(#[trigger] whole[i]).1,
    {
        v.push(*kv.1);
    }
    proof {
        assert(whole.len() == m@.dom().len());
        assert(v@.len() == whole.len());
        assert forall|i: int|
            0 <= i < v@.len() implies {
                let k = chunk_key((#[trigger] v@[i]).chunk_x, v@[i].chunk_y) as i64;
                m@.contains_key(k) && m@[k] == v@[i]
            } by {
            let k = *whole[i].0;
            assert(m@.contains_key(k) && m@[k] == v@[i]);
        }
        assert forall|i: int, j: int|
            0 <= i < j < v@.len() implies chunk_key((#[trigger] v@[i]).chunk_x, v@[i].chunk_y)
                != chunk_key((#[trigger] v@[j]).chunk_x, v@[j].chunk_y) by {
            let ki = *whole[i].0;
            let kj = *whole[j].0;
            assert(m@.contains_key(ki) && m@[ki] == v@[i]);
            assert(m@.contains_key(kj) && m@[kj] == v@[j]);
            if ki == kj {
                assert(whole[i] == whole[j]);
            }
        }
        assert forall|k: i64| m@.contains_key(k) implies v@.contains(#[trigger] m@[k]) by {
            assert(whole.contains((&k, &m@[k])));
            let i = choose|i: int| 0 <= i < whole.len() && whole[i] == (&k, &m@[k]);
            assert(v@[i] == m@[k]);
        }
    }
    v
}


/// Index entry for a persisted pixel body.
#[derive(Clone, Copy, Debug, PartialEq, Eq, Structural)]
pub struct PixelBodyIndexEntry {
    /// Stable ID of the pixel body.
    pub stable_id: u64,
    /// File offset to the pixel body record.
    pub data_offset: u64,
    /// Total size of the record (header + variable data).
    pub data_size: u32,
    /// Chunk position where this body's center is located.
    pub chunk_pos: ChunkPos,
}

/// The 28-byte little-endian encoding of a body index entry: id, offset,
/// size, chunk x, chunk y.
pub open spec fn encode_body_entry(e: PixelBodyIndexEntry) -> Seq<u8> {
    le_bytes(e.stable_id as int, 8) + le_bytes(e.data_offset as int, 8) + le_bytes(
        e.data_size as int,
        4,
    ) + le_bytes(i32_bits(e.chunk_pos.x), 4) + le_bytes(i32_bits(e.chunk_pos.y), 4)
}

/// The body index entry encoded by 28 bytes.
pub open spec fn decode_body_entry(s: Seq<u8>) -> PixelBodyIndexEntry {
    PixelBodyIndexEntry {
        stable_id: le_value(s.subrange(0, 8)) as u64,
        data_offset: le_value(s.subrange(8, 16)) as u64,
        data_size: le_value(s.subrange(16, 20)) as u32,
        chunk_pos: ChunkPos {
            x: i32_of_bits(le_value(s.subrange(20, 24))) as i32,
            y: i32_of_bits(le_value(s.subrange(24, 28))) as i32,
        },
    }
}

/// Decoding a body entry's encoding gives the entry back.
pub proof fn lemma_decode_encode_body_entry(e: PixelBodyIndexEntry)
    ensures
        encode_body_entry(e).len() == 28,
        decode_body_entry(encode_body_entry(e)) == e,
{
    let s = encode_body_entry(e);
    lemma_pow256_values();
    lemma_i32_bits_round_trip(e.chunk_pos.x);
    lemma_i32_bits_round_trip(e.chunk_pos.y);
    lemma_le_round_trip(e.stable_id as int, 8);
    lemma_le_round_trip(e.data_offset as int, 8);
    lemma_le_round_trip(e.data_size as int, 4);
    lemma_le_round_trip(i32_bits(e.chunk_pos.x), 4);
    lemma_le_round_trip(i32_bits(e.chunk_pos.y), 4);
    assert(s.subrange(0, 8) =~= le_bytes(e.stable_id as int, 8));
    assert(s.subrange(8, 16) =~= le_bytes(e.data_offset as int, 8));
    assert(s.subrange(16, 20) =~= le_bytes(e.data_size as int, 4));
    assert(s.subrange(20, 24) =~= le_bytes(i32_bits(e.chunk_pos.x), 4));
    assert(s.subrange(24, 28) =~= le_bytes(i32_bits(e.chunk_pos.y), 4));
}

impl PixelBodyIndexEntry {
    /// Entry size in bytes for serialization.
    pub const SIZE: usize = 28;

    /// Appends this entry's 28-byte encoding to `out`.
    pub fn write_to(&self, out: &mut Vec<u8>)
        ensures
            final(out)@ == old(out)@ + encode_body_entry(*self),
    {
        let ghost start = out@;
        push_le(out, self.stable_id, 8);
        push_le(out, self.data_offset, 8);
        push_le(out, self.data_size as u64, 4);
        push_le(out, i32_to_bits(self.chunk_pos.x) as u64, 4);
        push_le(out, i32_to_bits(self.chunk_pos.y) as u64, 4);
        proof {
            assert(out@ =~= start + encode_body_entry(*self));
        }
    }

    /// Decodes the entry stored in `bytes` at `offset`.
    pub fn read_from(bytes: &[u8], offset: usize) -> (r: Result<Self, FormatError>)
        ensures
            offset + 28 > bytes@.len() ==> r == Err::<Self, FormatError>(FormatError::UnexpectedEof),
            offset + 28 <= bytes@.len() ==> r == Ok::<Self, FormatError>(
                decode_body_entry(bytes@.subrange(offset as int, offset + 28)),
            ),
    {
        let len = bytes.len();
        if offset > len || len - offset < 28 {
            return Err(FormatError::UnexpectedEof);
        }
        let ghost s = bytes@.subrange(offset as int, offset + 28);
        let stable_id = read_le(bytes, offset, 8);
        let data_offset = read_le(bytes, offset + 8, 8);
        let data_size = read_le(bytes, offset + 16, 4);
        let x = read_le(bytes, offset + 20, 4);
        let y = read_le(bytes, offset + 24, 4);
        proof {
            lemma_pow256_values();
            assert(s.subrange(0, 8) =~= bytes@.subrange(offset as int, offset + 8));
            assert(s.subrange(8, 16) =~= bytes@.subrange(offset + 8, offset + 16));
            assert(s.subrange(16, 20) =~= bytes@.subrange(offset + 16, offset + 20));
            assert(s.subrange(20, 24) =~= bytes@.subrange(offset + 20, offset + 24));
            assert(s.subrange(24, 28) =~= bytes@.subrange(offset + 24, offset + 28));
            lemma_le_value_bound(s.subrange(16, 20));
            lemma_le_value_bound(s.subrange(20, 24));
            lemma_le_value_bound(s.subrange(24, 28));
        }
        Ok(PixelBodyIndexEntry {
            stable_id,
            data_offset,
            data_size: data_size as u32,
            chunk_pos: ChunkPos::new(i32_from_bits(x as u32), i32_from_bits(y as u32)),
        })
    }
}

/// The hash key of a chunk position, as the body index stores it.
pub open spec fn pos_key(p: ChunkPos) -> i64 {
    chunk_key(p.x, p.y) as i64
}

/// `l` without any occurrence of `id`.
pub open spec fn without_id(l: Seq<u64>, id: u64) -> Seq<u64> {
    l.filter(|x: u64| x != id)
}

/// The chunk lists after inserting `e` into an index holding `bodies` and
/// `lists`: the id leaves the list of the chunk it was in, if that chunk
/// differs, and is appended to the list of its new chunk unless that list
/// already names it (an update in place keeps a single listing).
pub open spec fn lists_after_insert(
    bodies: Map<u64, PixelBodyIndexEntry>,
    lists: Map<ChunkPos, Seq<u64>>,
    e: PixelBodyIndexEntry,
) -> Map<ChunkPos, Seq<u64>> {
    let id = e.stable_id;
    let l1 = if bodies.contains_key(id) && bodies[id].chunk_pos != e.chunk_pos && lists.contains_key(
        bodies[id].chunk_pos,
    ) {
        lists.insert(bodies[id].chunk_pos, without_id(lists[bodies[id].chunk_pos], id))
    } else {
        lists
    };
    let cur = if l1.contains_key(e.chunk_pos) {
        l1[e.chunk_pos]
    } else {
        Seq::empty()
    };
    l1.insert(
        e.chunk_pos,
        if cur.contains(id) {
            cur
        } else {
            cur.push(id)
        },
    )
}

/// Removes, in order, each listed id that is still present in `m`: the
/// removed entries, and the map left.
pub open spec fn drain_ids(m: Map<u64, PixelBodyIndexEntry>, ids: Seq<u64>) -> (Seq<
    PixelBodyIndexEntry,
>, Map<u64, PixelBodyIndexEntry>)
    decreases ids.len(),
{
    if ids.len() == 0 {
        (Seq::empty(), m)
    } else {
        let (r, m2) = drain_ids(m, ids.drop_last());
        let id = ids.last();
        if m2.contains_key(id) {
            (r.push(m2[id]), m2.remove(id))
        } else {
            (r, m2)
        }
    }
}

/// The body index rebuilt from the first `n` slots of `bytes`, inserting each
/// decoded entry in order: the bodies and the chunk lists.
pub open spec fn body_state_of_slots(bytes: Seq<u8>, n: nat) -> (Map<u64, PixelBodyIndexEntry>, Map<
    ChunkPos,
    Seq<u64>,
>)
    decreases n,
{
    if n == 0 {
        (Map::empty(), Map::empty())
    } else {
        let (b, l) = body_state_of_slots(bytes, (n - 1) as nat);
        let e = decode_body_entry(bytes.subrange((n - 1) * 28, (n - 1) * 28 + 28));
        (b.insert(e.stable_id, e), lists_after_insert(b, l, e))
    }
}

/// Order of body entries on disk: by chunk y, then chunk x, then id.
pub open spec fn body_less(a: PixelBodyIndexEntry, b: PixelBodyIndexEntry) -> bool {
    a.chunk_pos.y < b.chunk_pos.y || (a.chunk_pos.y == b.chunk_pos.y && (a.chunk_pos.x
        < b.chunk_pos.x || (a.chunk_pos.x == b.chunk_pos.x && a.stable_id < b.stable_id)))
}

/// `s` lists every body of `m` exactly once, in strictly increasing
/// (y, x, id) order.
pub open spec fn is_sorted_body_listing(
    s: Seq<PixelBodyIndexEntry>,
    m: Map<u64, PixelBodyIndexEntry>,
) -> bool {
    &&& forall|i: int| 0 <= i < s.len() ==> m.contains_key((#[trigger] s[i]).stable_id) && m[s[i].stable_id] == s[i]
    &&& forall|id: u64| #[trigger] m.contains_key(id) ==> s.contains(m[id])
    &&& forall|i: int, j: int| 0 <= i < j < s.len() ==> body_less(#[trigger] s[i], #[trigger] s[j])
}

/// The concatenated encodings of a sequence of body entries.
pub open spec fn encode_all_bodies(s: Seq<PixelBodyIndexEntry>) -> Seq<u8>
    decreases s.len(),
{
    if s.len() == 0 {
        Seq::empty()
    } else {
        encode_all_bodies(s.drop_last()) + encode_body_entry(s.last())
    }
}

/// Runtime index for pixel bodies.
///
/// Maps chunk positions to the pixel bodies whose centers are in that chunk.
/// Also maintains a by-ID lookup for deduplication.
pub struct PixelBodyIndex {
    by_id: HashMap<u64, PixelBodyIndexEntry>,
    by_chunk: HashMap<i64, Vec<u64>>,
}

impl View for PixelBodyIndex {
    type V = Map<u64, PixelBodyIndexEntry>;

    /// The indexed bodies by stable id.
    closed spec fn view(&self) -> Map<u64, PixelBodyIndexEntry> {
        self.by_id@
    }
}

impl PixelBodyIndex {
    /// The id list kept for each chunk that has one (possibly empty, possibly
    /// naming an id more than once).
    pub closed spec fn chunk_lists(&self) -> Map<ChunkPos, Seq<u64>> {
        Map::new(
            |p: ChunkPos| self.by_chunk@.contains_key(pos_key(p)),
            |p: ChunkPos| self.by_chunk@[pos_key(p)]@,
        )
    }

    /// The ids listed for chunk `p` (empty if it has no list).
    pub open spec fn ids_in(&self, p: ChunkPos) -> Seq<u64> {
        if self.chunk_lists().contains_key(p) {
            self.chunk_lists()[p]
        } else {
            Seq::empty()
        }
    }

    /// Ids match their entries, every listed id is indexed in that chunk, and
    /// every indexed body is listed in its chunk.
    pub closed spec fn wf(&self) -> bool {
        &&& forall|id: u64| #[trigger] self.by_id@.contains_key(id) ==> self.by_id@[id].stable_id == id
        &&& forall|k: i64, t: int|
            #![trigger self.by_chunk@[k]@[t]]
            self.by_chunk@.contains_key(k) && 0 <= t < self.by_chunk@[k]@.len() ==> {
                let id = self.by_chunk@[k]@[t];
                &&& self.by_id@.contains_key(id)
                &&& pos_key(self.by_id@[id].chunk_pos) == k
            }
        &&& forall|id: u64| #[trigger] self.by_id@.contains_key(id) ==> {
            let k = pos_key(self.by_id@[id].chunk_pos);
            self.by_chunk@.contains_key(k) && self.by_chunk@[k]@.contains(id)
        }
    }

    /// What well-formedness gives a caller: entries are filed under their own
    /// ids, listed ids are indexed bodies of that chunk, and every body is
    /// listed in its chunk.
    pub proof fn lemma_wf_facts(&self)
        requires
            self.wf(),
        ensures
            self@.dom().finite(),
            forall|id: u64| #[trigger] self@.contains_key(id) ==> self@[id].stable_id == id,
            forall|p: ChunkPos, t: int|
                0 <= t < self.ids_in(p).len() ==> self@.contains_key(#[trigger] self.ids_in(p)[t])
                    && self@[self.ids_in(p)[t]].chunk_pos == p,
            forall|id: u64| #[trigger]
                self@.contains_key(id) ==> self.ids_in(self@[id].chunk_pos).contains(id),
    {
        assert forall|p: ChunkPos, t: int|
            0 <= t < self.ids_in(p).len() implies self@.contains_key(#[trigger] self.ids_in(p)[t])
                && self@[self.ids_in(p)[t]].chunk_pos == p by {
            let k = pos_key(p);
            assert(self.by_chunk@.contains_key(k));
            let id = self.by_chunk@[k]@[t];
            let q = self.by_id@[id].chunk_pos;
            lemma_chunk_key_injective(q.x, q.y, p.x, p.y);
        }
    }

    /// Creates an empty index.
    pub fn new() -> (idx: Self)
        ensures
            idx.wf(),
            idx@ == Map::<u64, PixelBodyIndexEntry>::empty(),
            idx.chunk_lists() == Map::<ChunkPos, Seq<u64>>::empty(),
    {
        let idx = PixelBodyIndex { by_id: HashMap::new(), by_chunk: HashMap::new() };
        proof {
            assert(idx.chunk_lists() =~= Map::<ChunkPos, Seq<u64>>::empty());
        }
        idx
    }

    /// Returns the number of indexed bodies.
    pub fn len(&self) -> (n: usize)
        ensures
            n == self@.len(),
    {
        self.by_id.len()
    }

    /// Returns true if the index is empty.
    pub fn is_empty(&self) -> (b: bool)
        ensures
            b == (self@.len() == 0),
    {
        self.by_id.len() == 0
    }

    /// Looks up an entry by stable ID.
    pub fn get(&self, stable_id: u64) -> (r: Option<&PixelBodyIndexEntry>)
        ensures
            match r {
                Some(e) => self@.contains_key(stable_id) && *e == self@[stable_id],
                None => !self@.contains_key(stable_id),
            },
    {
        self.by_id.get(&stable_id)
    }

    /// Returns true if the index contains a body with the given ID.
    pub fn contains(&self, stable_id: u64) -> (b: bool)
        ensures
            b == self@.contains_key(stable_id),
    {
        self.by_id.contains_key(&stable_id)
    }

    /// Returns the bodies listed for a chunk, in list order.
    pub fn get_chunk(&self, pos: ChunkPos) -> (r: Vec<PixelBodyIndexEntry>)
        requires
            self.wf(),
        ensures
            r@ == self.ids_in(pos).map_values(|id: u64| self@[id]),
    {
        proof {
            self.lemma_wf_facts();
        }
        let k = pack_key(pos.x, pos.y);
        let mut out: Vec<PixelBodyIndexEntry> = Vec::new();
        match self.by_chunk.get(&k) {
            Some(ids) => {
                let ghost l = ids@;
                proof {
                    assert(l == self.ids_in(pos));
                }
                let mut i: usize = 0;
                while i < ids.len()
                    invariant
                        i <= ids@.len(),
                        l == ids@,
                        l == self.ids_in(pos),
                        forall|t: int| 0 <= t < l.len() ==> self@.contains_key(#[trigger] l[t]),
                        out@ == l.subrange(0, i as int).map_values(|id: u64| self@[id]),
                    decreases ids@.len() - i,
                {
                    let id = ids[i];
                    match self.by_id.get(&id) {
                        Some(e) => {
                            out.push(*e);
                        },
                        None => {},
                    }
                    proof {
                        assert(self@.contains_key(l[i as int]));
                        assert(out@ =~= l.subrange(0, i + 1).map_values(|id: u64| self@[id]));
                    }
                    i = i + 1;
                }
                proof {
                    assert(l.subrange(0, l.len() as int) =~= l);
                }
            },
            None => {
                proof {
                    assert(self.ids_in(pos) =~= Seq::<u64>::empty());
                    assert(out@ =~= self.ids_in(pos).map_values(|id: u64| self@[id]));
                }
            },
        }
        out
    }
    /// Inserts or updates an entry.
    ///
    /// A body that moves to another chunk leaves that chunk's list; the id is
    /// appended to the list of its new chunk, unless it is already listed
    /// there.
    pub fn insert(&mut self, entry: PixelBodyIndexEntry)
        requires
            old(self).wf(),
        ensures
            final(self).wf(),
            final(self)@ == old(self)@.insert(entry.stable_id, entry),
            final(self).chunk_lists() == lists_after_insert(
                old(self)@,
                old(self).chunk_lists(),
                entry,
            ),
    {
        let id = entry.stable_id;
        let new_key = pack_key(entry.chunk_pos.x, entry.chunk_pos.y);
        let ghost pre_lists = self.chunk_lists();
        let old_pos: Option<ChunkPos> = match self.by_id.get(&id) {
            Some(o) => Some(o.chunk_pos),
            None => None,
        };
        let ghost ok: i64 = 0;
        let ghost moved = false;
        match old_pos {
            Some(op) => {
                if op != entry.chunk_pos {
                    let okey = pack_key(op.x, op.y);
                    proof {
                        ok = okey;
                        moved = true;
                        lemma_without_id_members(self.by_chunk@[okey]@, id);
                    }
                    match self.by_chunk.remove(&okey) {
                        Some(ids) => {
                            let f = copy_without(&ids, id);
                            self.by_chunk.insert(okey, f);
                        },
                        None => {},
                    }
                }
            },
            None => {},
        }
        let ghost mid = self.by_chunk@;
        let ghost mid_lists = self.chunk_lists();
        let mut ids = match self.by_chunk.remove(&new_key) {
            Some(v) => v,
            None => Vec::new(),
        };
        let ghost cur = ids@;
        let listed = list_contains(&ids, id);
        if !listed {
            ids.push(id);
        }
        self.by_chunk.insert(new_key, ids);
        self.by_id.insert(id, entry);
        proof {
            let o = old(self);
            let l1 = if o@.contains_key(id) && o@[id].chunk_pos != entry.chunk_pos
                && pre_lists.contains_key(o@[id].chunk_pos) {
                pre_lists.insert(o@[id].chunk_pos, without_id(pre_lists[o@[id].chunk_pos], id))
            } else {
                pre_lists
            };
            if moved {
                let q = o@[id].chunk_pos;
                assert(pos_key(q) == ok);
                assert(o.by_chunk@.contains_key(ok));
                assert forall|p: ChunkPos| #[trigger] mid_lists.contains_key(p) == l1.contains_key(p) by {
                    if pos_key(p) == ok {
                        lemma_chunk_key_injective(p.x, p.y, q.x, q.y);
                    }
                }
                assert forall|p: ChunkPos| #[trigger] mid_lists.contains_key(p) implies mid_lists[p] == l1[p] by {
                    if pos_key(p) == ok {
                        lemma_chunk_key_injective(p.x, p.y, q.x, q.y);
                    }
                }
            } else {
                assert(mid == o.by_chunk@);
            }
            assert(mid_lists =~= l1);
            assert forall|p: ChunkPos| #[trigger] self.chunk_lists().contains_key(p) == lists_after_insert(o@, pre_lists, entry).contains_key(p) by {
                if pos_key(p) == new_key {
                    lemma_chunk_key_injective(p.x, p.y, entry.chunk_pos.x, entry.chunk_pos.y);
                }
            }
            assert forall|p: ChunkPos| #[trigger] self.chunk_lists().contains_key(p) implies self.chunk_lists()[p] == lists_after_insert(o@, pre_lists, entry)[p] by {
                if pos_key(p) == new_key {
                    lemma_chunk_key_injective(p.x, p.y, entry.chunk_pos.x, entry.chunk_pos.y);
                }
            }
            assert(self.chunk_lists() =~= lists_after_insert(o@, pre_lists, entry));
            // well-formedness
            assert forall|k: i64, t: int|
                #![trigger self.by_chunk@[k]@[t]]
                self.by_chunk@.contains_key(k) && 0 <= t < self.by_chunk@[k]@.len() implies {
                    let x = self.by_chunk@[k]@[t];
                    &&& self.by_id@.contains_key(x)
                    &&& pos_key(self.by_id@[x].chunk_pos) == k
                } by {
                let x = self.by_chunk@[k]@[t];
                if k == new_key {
                    if t < cur.len() {
                        assert(mid.contains_key(new_key));
                        assert(x == mid[new_key]@[t]);
                        if moved {
                            assert(new_key != ok);
                        }
                        assert(o.by_chunk@[new_key]@[t] == x);
                    }
                } else if moved && k == ok {
                    let l0 = o.by_chunk@[ok]@;
                    assert(self.by_chunk@[k]@ == without_id(l0, id));
                    assert(without_id(l0, id).contains(x));
                    let u = choose|u: int| 0 <= u < l0.len() && l0[u] == x;
                    assert(o.by_chunk@[ok]@[u] == x);
                } else {
                    assert(o.by_chunk@[k]@[t] == x);
                    if x == id {
                        assert(o.by_id@.contains_key(id));
                    }
                }
            }
            assert forall|x: u64| #[trigger] self.by_id@.contains_key(x) implies {
                let k = pos_key(self.by_id@[x].chunk_pos);
                self.by_chunk@.contains_key(k) && self.by_chunk@[k]@.contains(x)
            } by {
                let k = pos_key(self.by_id@[x].chunk_pos);
                if x == id {
                    let l = self.by_chunk@[new_key]@;
                    if !listed {
                        assert(l[l.len() - 1] == id);
                    } else {
                        assert(l == cur);
                    }
                } else {
                    assert(o.by_id@.contains_key(x));
                    let l0 = o.by_chunk@[k]@;
                    assert(l0.contains(x));
                    let u = choose|u: int| 0 <= u < l0.len() && l0[u] == x;
                    if k == new_key {
                        if moved {
                            assert(new_key != ok);
                        }
                        assert(mid[k]@ == l0);
                        assert(self.by_chunk@[k]@[u] == x);
                    } else if moved && k == ok {
                        assert(without_id(l0, id).contains(x));
                    } else {
                        assert(self.by_chunk@[k]@ == l0);
                    }
                }
            }
        }
    }

    /// Removes an entry by stable ID, and the id from its chunk's list.
    pub fn remove(&mut self, stable_id: u64) -> (r: Option<PixelBodyIndexEntry>)
        requires
            old(self).wf(),
        ensures
            final(self).wf(),
            final(self)@ == old(self)@.remove(stable_id),
            r == (if old(self)@.contains_key(stable_id) {
                Some(old(self)@[stable_id])
            } else {
                None
            }),
            final(self).chunk_lists() == (if old(self)@.contains_key(stable_id) {
                old(self).chunk_lists().insert(
                    old(self)@[stable_id].chunk_pos,
                    without_id(old(self).ids_in(old(self)@[stable_id].chunk_pos), stable_id),
                )
            } else {
                old(self).chunk_lists()
            }),
    {
        let ghost pre_lists = self.chunk_lists();
        let r = self.by_id.remove(&stable_id);
        match r {
            Some(e) => {
                let k = pack_key(e.chunk_pos.x, e.chunk_pos.y);
                proof {
                    lemma_without_id_members(self.by_chunk@[k]@, stable_id);
                }
                match self.by_chunk.remove(&k) {
                    Some(ids) => {
                        let f = copy_without(&ids, stable_id);
                        self.by_chunk.insert(k, f);
                    },
                    None => {},
                }
                proof {
                    let o = old(self);
                    let q = e.chunk_pos;
                    let target = pre_lists.insert(q, without_id(o.ids_in(q), stable_id));
                    assert(pre_lists.contains_key(q));
                    assert forall|p: ChunkPos| #[trigger] self.chunk_lists().contains_key(p) == target.contains_key(p) by {
                        if pos_key(p) == k {
                            lemma_chunk_key_injective(p.x, p.y, q.x, q.y);
                        }
                    }
                    assert forall|p: ChunkPos| #[trigger] self.chunk_lists().contains_key(p) implies self.chunk_lists()[p] == target[p] by {
                        if pos_key(p) == k {
                            lemma_chunk_key_injective(p.x, p.y, q.x, q.y);
                        }
                    }
                    assert(self.chunk_lists() =~= target);
                    assert forall|kk: i64, t: int|
                        #![trigger self.by_chunk@[kk]@[t]]
                        self.by_chunk@.contains_key(kk) && 0 <= t < self.by_chunk@[kk]@.len() implies {
                            let x = self.by_chunk@[kk]@[t];
                            &&& self.by_id@.contains_key(x)
                            &&& pos_key(self.by_id@[x].chunk_pos) == kk
                        } by {
                        let x = self.by_chunk@[kk]@[t];
                        if kk == k {
                            let l0 = o.by_chunk@[k]@;
                            assert(without_id(l0, stable_id).contains(x));
                            let u = choose|u: int| 0 <= u < l0.len() && l0[u] == x;
                            assert(o.by_chunk@[k]@[u] == x);
                        } else {
                            assert(o.by_chunk@[kk]@[t] == x);
                        }
                    }
                    assert forall|x: u64| #[trigger] self.by_id@.contains_key(x) implies {
                        let kk = pos_key(self.by_id@[x].chunk_pos);
                        self.by_chunk@.contains_key(kk) && self.by_chunk@[kk]@.contains(x)
                    } by {
                        let kk = pos_key(self.by_id@[x].chunk_pos);
                        assert(o.by_id@.contains_key(x));
                        if kk == k {
                            assert(without_id(o.by_chunk@[k]@, stable_id).contains(x));
                        }
                    }
                }
            },
            None => {},
        }
        r
    }

    /// Removes all bodies listed for a chunk, and the chunk's list.
    ///
    /// Returns the removed entries in list order, each once.
    pub fn remove_chunk(&mut self, pos: ChunkPos) -> (r: Vec<PixelBodyIndexEntry>)
        requires
            old(self).wf(),
        ensures
            final(self).wf(),
            r@ == drain_ids(old(self)@, old(self).ids_in(pos)).0,
            final(self)@ == old(self)@.remove_keys(old(self).ids_in(pos).to_set()),
            final(self).chunk_lists() == old(self).chunk_lists().remove(pos),
    {
        let ghost ids0 = self.ids_in(pos);
        let ghost pre_lists = self.chunk_lists();
        let k = pack_key(pos.x, pos.y);
        let ids = match self.by_chunk.remove(&k) {
            Some(v) => v,
            None => Vec::new(),
        };
        proof {
            assert(ids@ == ids0);
        }
        let ghost bc = self.by_chunk@;
        let mut out: Vec<PixelBodyIndexEntry> = Vec::new();
        let mut i: usize = 0;
        while i < ids.len()
            invariant
                i <= ids@.len(),
                ids@ == ids0,
                self.by_chunk@ == bc,
                out@ == drain_ids(old(self).by_id@, ids0.subrange(0, i as int)).0,
                self.by_id@ == drain_ids(old(self).by_id@, ids0.subrange(0, i as int)).1,
            decreases ids@.len() - i,
        {
            proof {
                assert(ids0.subrange(0, i + 1).drop_last() =~= ids0.subrange(0, i as int));
            }
            let id = ids[i];
            match self.by_id.remove(&id) {
                Some(e) => {
                    out.push(e);
                },
                None => {},
            }
            i = i + 1;
        }
        proof {
            let o = old(self);
            assert(ids0.subrange(0, ids0.len() as int) =~= ids0);
            lemma_drain_ids_removes(o.by_id@, ids0);
            assert forall|p: ChunkPos| #[trigger] self.chunk_lists().contains_key(p) == pre_lists.remove(pos).contains_key(p) by {
                if pos_key(p) == k {
                    lemma_chunk_key_injective(p.x, p.y, pos.x, pos.y);
                }
            }
            assert(self.chunk_lists() =~= pre_lists.remove(pos));
            assert forall|t: int| 0 <= t < ids0.len() implies pos_key(o.by_id@[#[trigger] ids0[t]].chunk_pos) == k && o.by_id@.contains_key(ids0[t]) by {
                assert(o.by_chunk@[k]@[t] == ids0[t]);
            }
            assert forall|kk: i64, t: int|
                #![trigger self.by_chunk@[kk]@[t]]
                self.by_chunk@.contains_key(kk) && 0 <= t < self.by_chunk@[kk]@.len() implies {
                    let x = self.by_chunk@[kk]@[t];
                    &&& self.by_id@.contains_key(x)
                    &&& pos_key(self.by_id@[x].chunk_pos) == kk
                } by {
                let x = self.by_chunk@[kk]@[t];
                assert(o.by_chunk@[kk]@[t] == x);
                if ids0.to_set().contains(x) {
                    let u = choose|u: int| 0 <= u < ids0.len() && ids0[u] == x;
                    assert(pos_key(o.by_id@[ids0[u]].chunk_pos) == k);
                }
            }
            assert forall|x: u64| #[trigger] self.by_id@.contains_key(x) implies {
                let kk = pos_key(self.by_id@[x].chunk_pos);
                self.by_chunk@.contains_key(kk) && self.by_chunk@[kk]@.contains(x)
            } by {
                assert(o.by_id@.contains_key(x));
                assert(!ids0.to_set().contains(x));
                let kk = pos_key(o.by_id@[x].chunk_pos);
                if kk == k {
                    assert(o.by_chunk@[k]@.contains(x));
                    assert(ids0.contains(x));
                }
            }
        }
        out
    }

    /// Lists all indexed bodies, each once, in no particular order.
    pub fn iter(&self) -> (v: Vec<PixelBodyIndexEntry>)
        requires
            self.wf(),
        ensures
            v@.len() == self@.len(),
            forall|i: int| 0 <= i < v@.len() ==> self@.contains_key((#[trigger] v@[i]).stable_id) && self@[v@[i].stable_id] == v@[i],
            forall|id: u64| #[trigger] self@.contains_key(id) ==> v@.contains(self@[id]),
            forall|i: int, j: int| 0 <= i < j < v@.len() ==> (#[trigger] v@[i]).stable_id != (#[trigger] v@[j]).stable_id,
    {
        collect_bodies(&self.by_id)
    }

    /// Encodes all bodies as 28-byte entries sorted by (chunk y, chunk x, id).
    pub fn write_to(&self) -> (out: Vec<u8>)
        requires
            self.wf(),
        ensures
            exists|s: Seq<PixelBodyIndexEntry>| is_sorted_body_listing(s, self@) && out@ == encode_all_bodies(s),
            out@.len() == self@.len() * 28,
    {
        let v = self.iter();
        let mut sorted: Vec<PixelBodyIndexEntry> = Vec::new();
        let mut i: usize = 0;
        while i < v.len()
            invariant
                i <= v@.len(),
                sorted@.len() == i,
                forall|a: int, b: int| 0 <= a < b < v@.len() ==> (#[trigger] v@[a]).stable_id != (#[trigger] v@[b]).stable_id,
                forall|a: int, b: int| 0 <= a < b < sorted@.len() ==> body_less(#[trigger] sorted@[a], #[trigger] sorted@[b]),
                forall|a: int| 0 <= a < i ==> sorted@.contains(#[trigger] v@[a]),
                forall|a: int| 0 <= a < sorted@.len() ==> exists|b: int| 0 <= b < i && v@[b] == #[trigger] sorted@[a],
            decreases v@.len() - i,
        {
            let e = v[i];
            let mut j: usize = 0;
            while j < sorted.len() && !body_before(&e, &sorted[j])
                invariant
                    j <= sorted@.len(),
                    forall|a: int| 0 <= a < j ==> !body_less(e, #[trigger] sorted@[a]),
                decreases sorted@.len() - j,
            {
                j = j + 1;
            }
            let ghost before = sorted@;
            proof {
                assert forall|a: int| 0 <= a < j implies body_less(#[trigger] before[a], e) by {
                    let b = choose|b: int| 0 <= b < i && v@[b] == before[a];
                    assert(v@[b].stable_id != v@[i as int].stable_id);
                }
            }
            sorted.insert(j, e);
            proof {
                assert forall|a: int, b: int| 0 <= a < b < sorted@.len() implies body_less(#[trigger] sorted@[a], #[trigger] sorted@[b]) by {
                    if b < j {
                    } else if b == j {
                    } else if a < j {
                        assert(sorted@[b] == before[b - 1]);
                        assert(body_less(before[a], e));
                        if j < before.len() {
                            assert(body_less(e, before[j as int]));
                        }
                    } else if a == j {
                        assert(body_less(e, before[j as int]));
                        if b - 1 > j {
                            assert(body_less(before[j as int], before[b - 1]));
                        }
                    } else {
                        assert(sorted@[a] == before[a - 1]);
                    }
                }
                assert forall|a: int| 0 <= a < i + 1 implies sorted@.contains(#[trigger] v@[a]) by {
                    if a < i {
                        assert(before.contains(v@[a]));
                        let t = choose|t: int| 0 <= t < before.len() && before[t] == v@[a];
                        if t < j {
                            assert(sorted@[t] == v@[a]);
                        } else {
                            assert(sorted@[t + 1] == v@[a]);
                        }
                    } else {
                        assert(sorted@[j as int] == e);
                    }
                }
                assert forall|a: int| 0 <= a < sorted@.len() implies exists|b: int| 0 <= b < i + 1 && v@[b] == #[trigger] sorted@[a] by {
                    if a < j {
                        assert(sorted@[a] == before[a]);
                    } else if a == j {
                        assert(v@[i as int] == sorted@[a]);
                    } else {
                        assert(sorted@[a] == before[a - 1]);
                    }
                }
            }
            i = i + 1;
        }
        let mut out: Vec<u8> = Vec::new();
        let mut t: usize = 0;
        while t < sorted.len()
            invariant
                t <= sorted@.len(),
                out@ == encode_all_bodies(sorted@.subrange(0, t as int)),
            decreases sorted@.len() - t,
        {
            sorted[t].write_to(&mut out);
            proof {
                assert(sorted@.subrange(0, t + 1).drop_last() =~= sorted@.subrange(0, t as int));
            }
            t = t + 1;
        }
        proof {
            assert(sorted@.subrange(0, sorted@.len() as int) =~= sorted@);
            assert forall|id: u64| #[trigger] self@.contains_key(id) implies sorted@.contains(self@[id]) by {
                assert(v@.contains(self@[id]));
                let a = choose|a: int| 0 <= a < v@.len() && v@[a] == self@[id];
                assert(sorted@.contains(v@[a]));
            }
            assert forall|a: int| 0 <= a < sorted@.len() implies self@.contains_key((#[trigger] sorted@[a]).stable_id) && self@[sorted@[a].stable_id] == sorted@[a] by {
                let b = choose|b: int| 0 <= b < v@.len() && v@[b] == sorted@[a];
                assert(self@.contains_key(v@[b].stable_id));
            }
            assert(is_sorted_body_listing(sorted@, self@));
            lemma_encode_all_bodies_slots(sorted@);
        }
        out
    }

    /// Rebuilds the index from the first `count` 28-byte entries of `bytes`,
    /// inserting each in order.
    pub fn read_from(bytes: &[u8], count: usize) -> (r: Result<Self, FormatError>)
        ensures
            count * 28 > bytes@.len() ==> r == Err::<Self, FormatError>(FormatError::UnexpectedEof),
            count * 28 <= bytes@.len() ==> (r matches Ok(idx) && idx.wf() && (idx@, idx.chunk_lists())
                == body_state_of_slots(bytes@, count as nat)),
    {
        if count > bytes.len() / 28 {
            return Err(FormatError::UnexpectedEof);
        }
        let len = bytes.len();
        let mut index = Self::new();
        let mut i: usize = 0;
        while i < count
            invariant
                i <= count,
                len == bytes@.len(),
                count * 28 <= bytes@.len(),
                index.wf(),
                (index@, index.chunk_lists()) == body_state_of_slots(bytes@, i as nat),
            decreases count - i,
        {
            let slot = PixelBodyIndexEntry::read_from(bytes, i * 28);
            match slot {
                Ok(entry) => {
                    index.insert(entry);
                },
                Err(_) => {},
            }
            i = i + 1;
        }
        Ok(index)
    }

    /// Returns the total serialized size in bytes.
    pub fn serialized_size(&self) -> (n: usize)
        requires
            self@.len() * 28 <= usize::MAX,
        ensures
            n == self@.len() * 28,
    {
        self.by_id.len() * PixelBodyIndexEntry::SIZE
    }

    /// Clears all entries.
    pub fn clear(&mut self)
        ensures
            final(self).wf(),
            final(self)@ == Map::<u64, PixelBodyIndexEntry>::empty(),
            final(self).chunk_lists() == Map::<ChunkPos, Seq<u64>>::empty(),
    {
        self.by_id.clear();
        self.by_chunk.clear();
        proof {
            assert(self.chunk_lists() =~= Map::<ChunkPos, Seq<u64>>::empty());
        }
    }
}

impl Default for PixelBodyIndex {
    fn default() -> (idx: Self)
        ensures
            idx.wf(),
            idx@ == Map::<u64, PixelBodyIndexEntry>::empty(),
            idx.chunk_lists() == Map::<ChunkPos, Seq<u64>>::empty(),
    {
        Self::new()
    }
}

fn body_before(a: &PixelBodyIndexEntry, b: &PixelBodyIndexEntry) -> (r: bool)
    ensures
        r == body_less(*a, *b),
{
    a.chunk_pos.y < b.chunk_pos.y || (a.chunk_pos.y == b.chunk_pos.y && (a.chunk_pos.x
        < b.chunk_pos.x || (a.chunk_pos.x == b.chunk_pos.x && a.stable_id < b.stable_id)))
}

fn collect_bodies(m: &HashMap<u64, PixelBodyIndexEntry>) -> (v: Vec<PixelBodyIndexEntry>)
    requires
        forall|k: u64| #[trigger] m@.contains_key(k) ==> m@[k].stable_id == k,
    ensures
        v@.len() == m@.len(),
        forall|i: int| 0 <= i < v@.len() ==> m@.contains_key((#[trigger] v@[i]).stable_id) && m@[v@[i].stable_id] == v@[i],
        forall|i: int, j: int| 0 <= i < j < v@.len() ==> (#[trigger] v@[i]).stable_id != (#[trigger] v@[j]).stable_id,
        forall|k: u64| m@.contains_key(k) ==> v@.contains(#[trigger] m@[k]),
{
    let mut v: Vec<PixelBodyIndexEntry> = Vec::new();
    let iter = m.iter();
    let ghost whole = iter.remaining();
    proof {
        assert(whole.no_duplicates());
    }
    for kv in it: iter
        invariant
            it.seq() == whole,
            v@.len() == it.index(),
            forall|i: int| 0 <= i < v@.len() ==> v@[i] == *(#[trigger] whole[i]).1,
    {
        v.push(*kv.1);
    }
    proof {
        assert(whole.len() == m@.dom().len());
        assert(v@.len() == whole.len());
        assert forall|i: int| 0 <= i < v@.len() implies m@.contains_key((#[trigger] v@[i]).stable_id) && m@[v@[i].stable_id] == v@[i] by {
            let k = *whole[i].0;
            assert(m@.contains_key(k) && m@[k] == v@[i]);
        }
        assert forall|i: int, j: int| 0 <= i < j < v@.len() implies (#[trigger] v@[i]).stable_id != (#[trigger] v@[j]).stable_id by {
            let ki = *whole[i].0;
            let kj = *whole[j].0;
            assert(m@.contains_key(ki) && m@[ki] == v@[i]);
            assert(m@.contains_key(kj) && m@[kj] == v@[j]);
            if ki == kj {
                assert(whole[i] == whole[j]);
            }
        }
        assert forall|k: u64| m@.contains_key(k) implies v@.contains(#[trigger] m@[k]) by {
            assert(whole.contains((&k, &m@[k])));
            let i = choose|i: int| 0 <= i < whole.len() && whole[i] == (&k, &m@[k]);
            assert(v@[i] == m@[k]);
        }
    }
    v
}

proof fn lemma_encode_all_bodies_slots(s: Seq<PixelBodyIndexEntry>)
    ensures
        encode_all_bodies(s).len() == 28 * s.len(),
        forall|i: int|
            0 <= i < s.len() ==> encode_all_bodies(s).subrange(i * 28, i * 28 + 28)
                == encode_body_entry(#[trigger] s[i]),
    decreases s.len(),
{
    if s.len() > 0 {
        let init = s.drop_last();
        lemma_encode_all_bodies_slots(init);
        lemma_decode_encode_body_entry(s.last());
        let b = encode_all_bodies(s);
        assert(b == encode_all_bodies(init) + encode_body_entry(s.last()));
        assert forall|i: int|
            0 <= i < s.len() implies encode_all_bodies(s).subrange(i * 28, i * 28 + 28)
                == encode_body_entry(#[trigger] s[i]) by {
            if i < s.len() - 1 {
                assert(init[i] == s[i]);
                assert(b.subrange(i * 28, i * 28 + 28) =~= encode_all_bodies(init).subrange(
                    i * 28,
                    i * 28 + 28,
                ));
            } else {
                assert(b.subrange(i * 28, i * 28 + 28) =~= encode_body_entry(s.last()));
            }
        }
    }
}

proof fn lemma_body_slots_of_listing(s: Seq<PixelBodyIndexEntry>, k: nat)
    requires
        k <= s.len(),
        forall|i: int, j: int| 0 <= i < j < s.len() ==> (#[trigger] s[i]).stable_id != (#[trigger] s[j]).stable_id,
    ensures
        forall|id: u64|
            #[trigger] body_state_of_slots(encode_all_bodies(s), k).0.contains_key(id) <==> exists|i: int|
                0 <= i < k && (#[trigger] s[i]).stable_id == id,
        forall|i: int|
            0 <= i < k ==> #[trigger] body_state_of_slots(encode_all_bodies(s), k).0[s[i].stable_id]
                == s[i],
    decreases k,
{
    if k > 0 {
        lemma_body_slots_of_listing(s, (k - 1) as nat);
        lemma_encode_all_bodies_slots(s);
        let b = encode_all_bodies(s);
        let i = k - 1;
        assert(b.subrange(i * 28, i * 28 + 28) == encode_body_entry(s[i]));
        lemma_decode_encode_body_entry(s[i]);
        let prev = body_state_of_slots(b, (k - 1) as nat).0;
        let m = body_state_of_slots(b, k).0;
        assert(m == prev.insert(s[i].stable_id, s[i]));
        assert forall|id: u64|
            #[trigger] m.contains_key(id) <==> exists|t: int| 0 <= t < k && (#[trigger] s[t]).stable_id == id by {
            if m.contains_key(id) && id != s[i].stable_id {
                assert(prev.contains_key(id));
                let t = choose|t: int| 0 <= t < k - 1 && (#[trigger] s[t]).stable_id == id;
                assert(0 <= t < k && s[t].stable_id == id);
            }
            if exists|t: int| 0 <= t < k && (#[trigger] s[t]).stable_id == id {
                let t = choose|t: int| 0 <= t < k && (#[trigger] s[t]).stable_id == id;
                if t < k - 1 {
                    assert(prev.contains_key(id));
                }
            }
        }
        assert forall|t: int| 0 <= t < k implies #[trigger] m[s[t].stable_id] == s[t] by {
            if t < k - 1 {
                assert(s[t].stable_id != s[i].stable_id);
                assert(prev[s[t].stable_id] == s[t]);
            }
        }
    }
}

/// Reading back what `write_to` wrote gives back the same bodies: the slots of
/// any sorted listing of a well-formed body index rebuild exactly its
/// bodies, and there are as many slots as bodies.
pub proof fn lemma_body_index_round_trip(idx: &PixelBodyIndex, s: Seq<PixelBodyIndexEntry>)
    requires
        idx.wf(),
        is_sorted_body_listing(s, idx@),
    ensures
        s.len() == idx@.len(),
        encode_all_bodies(s).len() == 28 * idx@.len(),
        body_state_of_slots(encode_all_bodies(s), s.len()).0 == idx@,
{
    let m = idx@;
    idx.lemma_wf_facts();
    assert forall|i: int, j: int| 0 <= i < j < s.len() implies (#[trigger] s[i]).stable_id != (#[trigger] s[j]).stable_id by {
        assert(body_less(s[i], s[j]));
    }
    lemma_body_slots_of_listing(s, s.len());
    lemma_encode_all_bodies_slots(s);
    let built = body_state_of_slots(encode_all_bodies(s), s.len()).0;
    assert forall|id: u64| #[trigger] built.contains_key(id) == m.contains_key(id) by {
        if m.contains_key(id) {
            let i = choose|i: int| 0 <= i < s.len() && s[i] == m[id];
            assert(s[i].stable_id == id);
        }
        if built.contains_key(id) {
            let i = choose|i: int| 0 <= i < s.len() && (#[trigger] s[i]).stable_id == id;
            assert(m.contains_key(s[i].stable_id));
        }
    }
    assert forall|id: u64| #[trigger] built.contains_key(id) implies built[id] == m[id] by {
        let i = choose|i: int| 0 <= i < s.len() && (#[trigger] s[i]).stable_id == id;
        assert(built[s[i].stable_id] == s[i]);
    }
    assert(built =~= m);
    let ids = s.map_values(|e: PixelBodyIndexEntry| e.stable_id);
    assert(ids.no_duplicates());
    ids.unique_seq_to_set();
    assert(ids.to_set() =~= m.dom()) by {
        assert forall|id: u64| ids.to_set().contains(id) == m.dom().contains(id) by {
            if m.contains_key(id) {
                let i = choose|i: int| 0 <= i < s.len() && s[i] == m[id];
                assert(ids[i] == id);
            }
            if ids.to_set().contains(id) {
                let i = choose|i: int| 0 <= i < ids.len() && ids[i] == id;
                assert(m.contains_key(s[i].stable_id));
            }
        }
    }
}

proof fn lemma_drain_ids_removes(m: Map<u64, PixelBodyIndexEntry>, ids: Seq<u64>)
    ensures
        drain_ids(m, ids).1 == m.remove_keys(ids.to_set()),
    decreases ids.len(),
{
    if ids.len() > 0 {
        lemma_drain_ids_removes(m, ids.drop_last());
        assert(ids.to_set() =~= ids.drop_last().to_set().insert(ids.last())) by {
            assert forall|x: u64| ids.to_set().contains(x) == ids.drop_last().to_set().insert(ids.last()).contains(x) by {
                if ids.contains(x) && x != ids.last() {
                    let t = choose|t: int| 0 <= t < ids.len() && ids[t] == x;
                    assert(ids.drop_last()[t] == x);
                }
                if ids.drop_last().contains(x) {
                    let t = choose|t: int| 0 <= t < ids.drop_last().len() && ids.drop_last()[t] == x;
                    assert(ids[t] == x);
                }
                if x == ids.last() {
                    assert(ids[ids.len() - 1] == x);
                }
            }
        }
        assert(drain_ids(m, ids).1 =~= m.remove_keys(ids.to_set()));
    }
}

/// Whether `ids` names `id`.
fn list_contains(ids: &Vec<u64>, id: u64) -> (b: bool)
    ensures
        b == ids@.contains(id),
{
    let mut i: usize = 0;
    while i < ids.len()
        invariant
            i <= ids@.len(),
            forall|t: int| 0 <= t < i ==> ids@[t] != id,
        decreases ids@.len() - i,
    {
        if ids[i] == id {
            assert(ids@[i as int] == id);
            return true;
        }
        i = i + 1;
    }
    false
}

/// Copies `ids` without any occurrence of `id`, keeping the order.
fn copy_without(ids: &Vec<u64>, id: u64) -> (r: Vec<u64>)
    ensures
        r@ == without_id(ids@, id),
{
    let mut r: Vec<u64> = Vec::new();
    let mut i: usize = 0;
    proof {
        reveal(Seq::filter);
        assert(ids@.subrange(0, 0) =~= Seq::<u64>::empty());
    }
    while i < ids.len()
        invariant
            i <= ids@.len(),
            r@ == without_id(ids@.subrange(0, i as int), id),
        decreases ids@.len() - i,
    {
        proof {
            reveal(Seq::filter);
            assert(ids@.subrange(0, i + 1).drop_last() =~= ids@.subrange(0, i as int));
        }
        if ids[i] != id {
            r.push(ids[i]);
        }
        i = i + 1;
    }
    proof {
        assert(ids@.subrange(0, ids@.len() as int) =~= ids@);
    }
    r
}

proof fn lemma_without_id_members(l: Seq<u64>, id: u64)
    ensures
        forall|x: u64| #[trigger] without_id(l, id).contains(x) <==> (l.contains(x) && x != id),
    decreases l.len(),
{
    reveal(Seq::filter);
    if l.len() > 0 {
        lemma_without_id_members(l.drop_last(), id);
        assert forall|x: u64| #[trigger] without_id(l, id).contains(x) <==> (l.contains(x) && x != id) by {
            let w0 = without_id(l.drop_last(), id);
            reveal(Seq::filter);
            assert(without_id(l, id) == (if l.last() != id {
                w0.push(l.last())
            } else {
                w0
            }));
            if l.contains(x) && x != id {
                let t = choose|t: int| 0 <= t < l.len() && l[t] == x;
                if t < l.len() - 1 {
                    assert(l.drop_last()[t] == x);
                    assert(w0.contains(x));
                    let u = choose|u: int| 0 <= u < w0.len() && w0[u] == x;
                    if l.last() != id {
                        assert(without_id(l, id)[u] == x);
                    }
                } else {
                    assert(without_id(l, id) == w0.push(x));
                    assert(without_id(l, id)[w0.len() as int] == x);
                }
            }
            if without_id(l, id).contains(x) {
                let u = choose|u: int| 0 <= u < without_id(l, id).len() && without_id(l, id)[u] == x;
                if l.last() != id && u == w0.len() {
                    assert(l[l.len() - 1] == x);
                } else {
                    assert(w0[u] == x);
                    assert(w0.contains(x));
                    assert(l.drop_last().contains(x));
                    let t = choose|t: int| 0 <= t < l.drop_last().len() && l.drop_last()[t] == x;
                    assert(l[t] == x);
                }
            }
        }
    }
}

/// The entries of `s` inserted one after another, later ones replacing
/// earlier ones at the same position.
pub open spec fn insert_all(s: Seq<PageTableEntry>, k: nat) -> Map<ChunkPos, PageTableEntry>
    decreases k,
{
    if k == 0 {
        Map::empty()
    } else {
        insert_all(s, (k - 1) as nat).insert(entry_pos(s[k - 1]), s[k - 1])
    }
}

proof fn lemma_encode_all_slots(s: Seq<PageTableEntry>)
    ensures
        encode_all(s).len() == 28 * s.len(),
        forall|i: int|
            0 <= i < s.len() ==> encode_all(s).subrange(i * 28, i * 28 + 28) == encode_entry(
                #[trigger] s[i],
            ),
    decreases s.len(),
{
    if s.len() > 0 {
        let init = s.drop_last();
        lemma_encode_all_slots(init);
        lemma_entry_lengths(s.last());
        let b = encode_all(s);
        assert(b == encode_all(init) + encode_entry(s.last()));
        assert forall|i: int|
            0 <= i < s.len() implies encode_all(s).subrange(i * 28, i * 28 + 28) == encode_entry(
                #[trigger] s[i],
            ) by {
            if i < s.len() - 1 {
                assert(init[i] == s[i]);
                assert(b.subrange(i * 28, i * 28 + 28) =~= encode_all(init).subrange(
                    i * 28,
                    i * 28 + 28,
                ));
            } else {
                assert(b.subrange(i * 28, i * 28 + 28) =~= encode_entry(s.last()));
            }
        }
    }
}

proof fn lemma_slots_of_listing(s: Seq<PageTableEntry>, k: nat)
    requires
        k <= s.len(),
        forall|i: int| 0 <= i < s.len() ==> (#[trigger] s[i]).checksum == entry_checksum(s[i]),
    ensures
        index_of_slots(encode_all(s), k) == insert_all(s, k),
    decreases k,
{
    if k > 0 {
        lemma_slots_of_listing(s, (k - 1) as nat);
        lemma_encode_all_slots(s);
        let i = k - 1;
        assert(encode_all(s).subrange(i * 28, i * 28 + 28) == encode_entry(s[i]));
        lemma_decode_encode(s[i]);
        assert(valid_slot(encode_all(s), i) == Some(s[i]));
    }
}

proof fn lemma_insert_all_members(s: Seq<PageTableEntry>, k: nat)
    requires
        k <= s.len(),
        forall|i: int, j: int| 0 <= i < j < s.len() ==> yx_less(#[trigger] s[i], #[trigger] s[j]),
    ensures
        forall|p: ChunkPos|
            #[trigger] insert_all(s, k).contains_key(p) <==> exists|i: int|
                0 <= i < k && entry_pos(#[trigger] s[i]) == p,
        forall|i: int|
            0 <= i < k ==> #[trigger] insert_all(s, k).contains_key(entry_pos(s[i])) && insert_all(
                s,
                k,
            )[entry_pos(s[i])] == s[i],
    decreases k,
{
    if k > 0 {
        lemma_insert_all_members(s, (k - 1) as nat);
        let m = insert_all(s, k);
        assert forall|p: ChunkPos|
            #[trigger] m.contains_key(p) <==> exists|i: int|
                0 <= i < k && entry_pos(#[trigger] s[i]) == p by {
            if m.contains_key(p) && p != entry_pos(s[k - 1]) {
                assert(insert_all(s, (k - 1) as nat).contains_key(p));
                let i = choose|i: int| 0 <= i < k - 1 && entry_pos(#[trigger] s[i]) == p;
                assert(0 <= i < k && entry_pos(s[i]) == p);
            }
            if exists|i: int| 0 <= i < k && entry_pos(#[trigger] s[i]) == p {
                let i = choose|i: int| 0 <= i < k && entry_pos(#[trigger] s[i]) == p;
                if i < k - 1 {
                    assert(insert_all(s, (k - 1) as nat).contains_key(p));
                }
            }
        }
        assert forall|i: int|
            0 <= i < k implies #[trigger] m.contains_key(entry_pos(s[i])) && m[entry_pos(s[i])]
                == s[i] by {
            if i < k - 1 {
                assert(yx_less(s[i], s[k - 1]));
                assert(insert_all(s, (k - 1) as nat).contains_key(entry_pos(s[i])));
            }
        }
    }
}

/// Reading back what `write_to` wrote gives back the same index: the slots of
/// any sorted listing of a well-formed index whose entries carry matching
/// checksums rebuild exactly that index, and there are as many slots as
/// entries.
pub proof fn lemma_chunk_index_round_trip(idx: &ChunkIndex, s: Seq<PageTableEntry>)
    requires
        idx.wf(),
        is_sorted_listing(s, idx@),
        forall|p: ChunkPos| #[trigger]
            idx@.contains_key(p) ==> idx@[p].checksum == entry_checksum(idx@[p]),
    ensures
        s.len() == idx@.len(),
        encode_all(s).len() == 28 * idx@.len(),
        index_of_slots(encode_all(s), s.len()) == idx@,
{
    let m = idx@;
    idx.lemma_entries_at_own_position();
    assert forall|i: int| 0 <= i < s.len() implies (#[trigger] s[i]).checksum == entry_checksum(
        s[i],
    ) by {
        assert(m.contains_key(entry_pos(s[i])));
    }
    lemma_slots_of_listing(s, s.len());
    lemma_insert_all_members(s, s.len());
    lemma_encode_all_slots(s);
    let built = insert_all(s, s.len());
    assert forall|p: ChunkPos| #[trigger] built.contains_key(p) == m.contains_key(p) by {
        if m.contains_key(p) {
            let i = choose|i: int| 0 <= i < s.len() && s[i] == m[p];
            assert(entry_pos(s[i]) == p);
        }
        if built.contains_key(p) {
            let i = choose|i: int| 0 <= i < s.len() && entry_pos(#[trigger] s[i]) == p;
            assert(m.contains_key(entry_pos(s[i])));
        }
    }
    assert forall|p: ChunkPos| #[trigger] built.contains_key(p) implies built[p] == m[p] by {
        let i = choose|i: int| 0 <= i < s.len() && entry_pos(#[trigger] s[i]) == p;
        assert(built[entry_pos(s[i])] == s[i]);
        assert(m[entry_pos(s[i])] == s[i]);
    }
    assert(built =~= m);
    let ps = s.map_values(|e: PageTableEntry| entry_pos(e));
    assert(ps.no_duplicates()) by {
        assert forall|i: int, j: int| 0 <= i < ps.len() && 0 <= j < ps.len() && i != j implies ps[i]
            != ps[j] by {
            if i < j {
                assert(yx_less(s[i], s[j]));
            } else {
                assert(yx_less(s[j], s[i]));
            }
        }
    }
    ps.unique_seq_to_set();
    assert(ps.to_set() =~= m.dom()) by {
        assert forall|p: ChunkPos| ps.to_set().contains(p) == m.dom().contains(p) by {
            if m.contains_key(p) {
                let i = choose|i: int| 0 <= i < s.len() && s[i] == m[p];
                assert(ps[i] == p);
            }
            if ps.to_set().contains(p) {
                let i = choose|i: int| 0 <= i < ps.len() && ps[i] == p;
                assert(m.contains_key(entry_pos(s[i])));
            }
        }
    }
}

} // verus!
