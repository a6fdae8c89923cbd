use bevy_pixel_world::coords::ChunkPos;
use bevy_pixel_world::persistence::format::{FormatError, PageTableEntry, StorageType};
use bevy_pixel_world::persistence::index::{ChunkIndex, PixelBodyIndex, PixelBodyIndexEntry};

#[test]
fn index_insert_and_lookup() {
    let mut index = ChunkIndex::new();

    let pos1 = ChunkPos::new(0, 0);
    let pos2 = ChunkPos::new(-5, 10);

    let entry1 = PageTableEntry::new(pos1, 100, 50, StorageType::Full);
    let entry2 = PageTableEntry::new(pos2, 200, 75, StorageType::Delta);

    index.insert(entry1);
    index.insert(entry2);

    assert_eq!(index.len(), 2);
    assert!(index.contains(pos1));
    assert!(index.contains(pos2));

    let found = index.get(pos1).unwrap();
    assert_eq!(found.data_offset, 100);
}

#[test]
fn index_round_trip() {
    let mut index = ChunkIndex::new();

    // Add entries in random order
    let entries = [
        PageTableEntry::new(ChunkPos::new(5, 10), 100, 50, StorageType::Full),
        PageTableEntry::new(ChunkPos::new(-3, 2), 200, 60, StorageType::Delta),
        PageTableEntry::new(ChunkPos::new(0, 0), 300, 70, StorageType::Empty),
        PageTableEntry::new(ChunkPos::new(1, -1), 400, 80, StorageType::Full),
    ];

    for entry in &entries {
        index.insert(*entry);
    }

    // Write to buffer
    let buf = index.write_to();

    // Verify size
    assert_eq!(buf.len(), entries.len() * PageTableEntry::SIZE);

    // Read back
    let read_index = ChunkIndex::read_from(&buf, entries.len()).unwrap();

    assert_eq!(read_index.len(), index.len());

    // Verify all entries present
    for entry in &entries {
        let found = read_index.get(entry.pos()).unwrap();
        assert_eq!(found.data_offset, entry.data_offset);
        assert_eq!(found.storage_type, entry.storage_type);
    }
}

#[test]
fn index_insert_replaces_same_position() {
    let mut index = ChunkIndex::new();
    let pos = ChunkPos::new(3, -4);
    index.insert(PageTableEntry::new(pos, 10, 5, StorageType::Full));
    index.insert(PageTableEntry::new(pos, 20, 6, StorageType::Delta));
    assert_eq!(index.len(), 1);
    let found = index.get(pos).unwrap();
    assert_eq!(found.data_offset, 20);
    assert_eq!(found.storage_type, StorageType::Delta);
}

#[test]
fn index_remove_and_clear() {
    let mut index = ChunkIndex::new();
    let a = ChunkPos::new(1, 1);
    let b = ChunkPos::new(2, 2);
    index.insert(PageTableEntry::new(a, 1, 1, StorageType::Full));
    index.insert(PageTableEntry::new(b, 2, 2, StorageType::Full));
    let removed = index.remove(a).unwrap();
    assert_eq!(removed.data_offset, 1);
    assert!(index.remove(a).is_none());
    assert!(!index.contains(a));
    assert_eq!(index.len(), 1);
    index.clear();
    assert!(index.is_empty());
    assert_eq!(index.serialized_size(), 0);
}

#[test]
fn index_write_sorts_by_row_then_column() {
    let mut index = ChunkIndex::new();
    index.insert(PageTableEntry::new(ChunkPos::new(5, 1), 1, 1, StorageType::Full));
    index.insert(PageTableEntry::new(ChunkPos::new(-2, 1), 2, 1, StorageType::Full));
    index.insert(PageTableEntry::new(ChunkPos::new(9, -7), 3, 1, StorageType::Full));
    let buf = index.write_to();
    assert_eq!(buf.len(), 3 * PageTableEntry::SIZE);
    let first = PageTableEntry::read_from(&buf, 0).unwrap();
    let second = PageTableEntry::read_from(&buf, PageTableEntry::SIZE).unwrap();
    let third = PageTableEntry::read_from(&buf, 2 * PageTableEntry::SIZE).unwrap();
    assert_eq!((first.chunk_x, first.chunk_y), (9, -7));
    assert_eq!((second.chunk_x, second.chunk_y), (-2, 1));
    assert_eq!((third.chunk_x, third.chunk_y), (5, 1));
}

#[test]
fn index_read_skips_bad_checksum_and_reports_short_input() {
    let mut index = ChunkIndex::new();
    index.insert(PageTableEntry::new(ChunkPos::new(0, 0), 7, 8, StorageType::Full));
    index.insert(PageTableEntry::new(ChunkPos::new(1, 0), 9, 10, StorageType::Full));
    let mut buf = index.write_to();
    // Corrupt the data offset of the first entry: its checksum no longer matches.
    buf[8] ^= 0xff;
    let read = ChunkIndex::read_from(&buf, 2).unwrap();
    assert_eq!(read.len(), 1);
    assert!(read.contains(ChunkPos::new(1, 0)));
    assert!(!read.contains(ChunkPos::new(0, 0)));

    let short = ChunkIndex::read_from(&buf[..PageTableEntry::SIZE + 3], 2);
    assert!(matches!(short, Err(FormatError::UnexpectedEof)));
}

#[test]
fn page_table_entry_round_trip_and_bad_storage_type() {
    let entry = PageTableEntry::new(ChunkPos::new(-123, 456), 0x0102_0304_0506_0708, 99, StorageType::Delta);
    assert!(entry.validate_checksum());
    let mut buf = Vec::new();
    entry.write_to(&mut buf);
    assert_eq!(buf.len(), PageTableEntry::SIZE);
    let back = PageTableEntry::read_from(&buf, 0).unwrap();
    assert_eq!(back, entry);

    buf[20] = 9;
    assert_eq!(PageTableEntry::read_from(&buf, 0), Err(FormatError::InvalidStorageType(9)));
    assert_eq!(PageTableEntry::read_from(&buf, 1), Err(FormatError::UnexpectedEof));
}

#[test]
fn body_index_round_trip_and_chunk_lists() {
    let mut index = PixelBodyIndex::new();
    let chunk_a = ChunkPos::new(0, 0);
    let chunk_b = ChunkPos::new(-1, 3);
    index.insert(PixelBodyIndexEntry { stable_id: 7, data_offset: 100, data_size: 10, chunk_pos: chunk_a });
    index.insert(PixelBodyIndexEntry { stable_id: 3, data_offset: 200, data_size: 20, chunk_pos: chunk_a });
    index.insert(PixelBodyIndexEntry { stable_id: 5, data_offset: 300, data_size: 30, chunk_pos: chunk_b });
    assert_eq!(index.len(), 3);
    let mut in_a: Vec<u64> = index.get_chunk(chunk_a).iter().map(|e| e.stable_id).collect();
    in_a.sort();
    assert_eq!(in_a, vec![3, 7]);
    let in_b: Vec<u64> = index.get_chunk(chunk_b).iter().map(|e| e.stable_id).collect();
    assert_eq!(in_b, vec![5]);

    let buf = index.write_to();
    assert_eq!(buf.len(), index.serialized_size());
    let back = PixelBodyIndex::read_from(&buf, 3).unwrap();
    assert_eq!(back.len(), 3);
    assert_eq!(back.get(5).unwrap().data_offset, 300);
    assert_eq!(back.get(3).unwrap().data_size, 20);
    assert_eq!(back.get(7).unwrap().chunk_pos, chunk_a);

    let removed = index.remove_chunk(chunk_a);
    assert_eq!(removed.len(), 2);
    assert!(index.get(7).is_none());
    assert!(index.contains(5));
    assert!(index.get_chunk(chunk_a).is_empty());
}

#[test]
fn body_index_entry_round_trip() {
    let entry = PixelBodyIndexEntry {
        stable_id: 0xdead_beef_0000_0001,
        data_offset: 4096,
        data_size: 77,
        chunk_pos: ChunkPos::new(-9, 12),
    };
    let mut buf = Vec::new();
    entry.write_to(&mut buf);
    assert_eq!(buf.len(), PixelBodyIndexEntry::SIZE);
    assert_eq!(PixelBodyIndexEntry::read_from(&buf, 0), Ok(entry));
    assert_eq!(PixelBodyIndexEntry::read_from(&buf[..10], 0), Err(FormatError::UnexpectedEof));
}

#[test]
fn body_reinsert_in_same_chunk_updates_in_place() {
    let e = PixelBodyIndexEntry { stable_id: 7, data_offset: 0, data_size: 28, chunk_pos: ChunkPos::new(0, 0) };
    let mut idx = PixelBodyIndex::new();
    idx.insert(e);
    idx.insert(PixelBodyIndexEntry { data_offset: 100, ..e });
    assert_eq!(idx.len(), 1);
    assert_eq!(idx.get(7).unwrap().data_offset, 100);
    let listed = idx.get_chunk(ChunkPos::new(0, 0));
    assert_eq!(listed.len(), 1);
    assert_eq!(listed[0].data_offset, 100);
}
