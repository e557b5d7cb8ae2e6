use std::io::Write;

use region_codec::chunk::{Chunk, ChunkPos, CompressionMode};
use region_codec::header::RegionEntry;
use region_codec::region::RegionFile;
use region_codec::writer::RegionFileWriter;
use region_codec::RegionError;

fn chunk(x: i32, z: i32, data: Vec<u8>) -> Chunk {
    Chunk { data, position: ChunkPos { x, z } }
}

fn collect_slots(bytes: Vec<u8>) -> Vec<Result<Option<Chunk>, RegionError>> {
    let region = RegionFile::open(bytes);
    let mut out = Vec::new();
    let mut it = region.stream_chunks();
    while let Some(result) = it.next() {
        out.push(result);
    }
    out
}

#[test]
fn s1_single_chunk_roundtrip() {
    let mut writer = RegionFileWriter::create();
    writer.add_chunk(&chunk(0, 0, b"hello".to_vec())).unwrap();
    let bytes = writer.close();
    assert_eq!(bytes.len(), 12288);

    let slots = collect_slots(bytes);
    assert_eq!(slots.len(), 1024);
    match &slots[0] {
        Ok(Some(c)) => {
            assert_eq!(c.data, b"hello".to_vec());
            assert_eq!(c.position, ChunkPos { x: 0, z: 0 });
        },
        other => panic!("slot 0 should be present: {:?}", other.is_ok()),
    }
    for slot in slots.iter().skip(1) {
        assert!(matches!(slot, Ok(None)));
    }
}

#[test]
fn s2_two_chunks_row_major() {
    let payload_small: Vec<u8> = (0..100u32).map(|i| (i % 251) as u8).collect();
    let payload_large: Vec<u8> = (0..10000u32).map(|i| (i * 7 % 241) as u8).collect();

    let mut writer = RegionFileWriter::create();
    writer.add_chunk(&chunk(5, 7, payload_small.clone())).unwrap();
    writer.add_chunk(&chunk(31, 31, payload_large.clone())).unwrap();
    let bytes = writer.close();

    let slots = collect_slots(bytes);
    let mut present: Vec<usize> = Vec::new();
    for (i, slot) in slots.iter().enumerate() {
        if let Ok(Some(_)) = slot {
            present.push(i);
        }
    }
    assert_eq!(present, vec![229, 1023]);
    match &slots[229] {
        Ok(Some(c)) => {
            assert_eq!(c.position, ChunkPos { x: 5, z: 7 });
            assert_eq!(c.data, payload_small);
        },
        _ => panic!("slot 229 should be present"),
    }
    match &slots[1023] {
        Ok(Some(c)) => {
            assert_eq!(c.position, ChunkPos { x: 31, z: 31 });
            assert_eq!(c.data, payload_large);
        },
        _ => panic!("slot 1023 should be present"),
    }
}

fn put_entry(bytes: &mut Vec<u8>, slot: usize, sector_index: u32, sector_count: u32) {
    let field = (sector_index << 8) | sector_count;
    bytes[slot * 4..slot * 4 + 4].copy_from_slice(&field.to_be_bytes());
}

/// A region built by hand: slot 0 carries compression tag 9 (unknown), slot 1
/// a valid uncompressed chunk.
#[test]
fn s4_corrupt_tag_does_not_poison_later_slots() {
    let mut bytes = vec![0u8; 4096 * 4];
    put_entry(&mut bytes, 0, 2, 1);
    put_entry(&mut bytes, 1, 3, 1);

    // Slot 0 frame at sector 2: length 6, unknown compression tag 9.
    bytes[8192..8196].copy_from_slice(&6u32.to_be_bytes());
    bytes[8196] = 9;
    bytes[8197..8202].copy_from_slice(b"junk!");

    // Slot 1 frame at sector 3: length 6, tag 3 (uncompressed), payload "world".
    bytes[12288..12292].copy_from_slice(&6u32.to_be_bytes());
    bytes[12292] = 3;
    bytes[12293..12298].copy_from_slice(b"world");

    let slots = collect_slots(bytes);
    assert!(matches!(slots[0], Err(RegionError::Corrupt)));
    match &slots[1] {
        Ok(Some(c)) => {
            assert_eq!(c.data, b"world".to_vec());
            assert_eq!(c.position, ChunkPos { x: 1, z: 0 });
        },
        _ => panic!("slot 1 should decode"),
    }
    for slot in slots.iter().skip(2) {
        assert!(matches!(slot, Ok(None)));
    }
}

#[test]
fn s5_parse_name_negative_coordinates() {
    assert_eq!(
        RegionFile::parse_name("r.-3.4.mca"),
        Some(ChunkPos { x: -3, z: 4 })
    );
}

#[test]
fn s6_interleaved_writers_match_serial_runs() {
    let a1: Vec<u8> = (0..3000u32).map(|i| (i % 13) as u8).collect();
    let a2 = b"alpha".to_vec();
    let b1 = b"beta".to_vec();
    let b2: Vec<u8> = (0..512u32).map(|i| (i % 3) as u8).collect();

    let mut serial_a = RegionFileWriter::create();
    serial_a.add_chunk(&chunk(1, 2, a1.clone())).unwrap();
    serial_a.add_chunk(&chunk(3, 4, a2.clone())).unwrap();
    let serial_a = serial_a.close();

    let mut serial_b = RegionFileWriter::create();
    serial_b.add_chunk(&chunk(9, 9, b1.clone())).unwrap();
    serial_b.add_chunk(&chunk(0, 31, b2.clone())).unwrap();
    let serial_b = serial_b.close();

    let mut wa = RegionFileWriter::create();
    let mut wb = RegionFileWriter::create();
    wa.add_chunk(&chunk(1, 2, a1)).unwrap();
    wb.add_chunk(&chunk(9, 9, b1)).unwrap();
    wb.add_chunk(&chunk(0, 31, b2)).unwrap();
    wa.add_chunk(&chunk(3, 4, a2)).unwrap();

    assert_eq!(wa.close(), serial_a);
    assert_eq!(wb.close(), serial_b);
}

#[test]
fn header_entry_field_roundtrip_values() {
    let entry = RegionEntry { position: ChunkPos { x: 0, z: 0 }, sector_index: 2, sector_count: 1 };
    let field = entry.encode_field();
    assert_eq!(field, 0x201);
    let decoded = RegionEntry::decode_field(ChunkPos { x: 0, z: 0 }, field).unwrap();
    assert_eq!(decoded.sector_index, 2);
    assert_eq!(decoded.sector_count, 1);

    let entry = RegionEntry {
        position: ChunkPos { x: 0, z: 0 },
        sector_index: 0xFFFFFF,
        sector_count: 0xFF,
    };
    let field = entry.encode_field();
    assert_eq!(field, 0xFFFFFFFF);
    let decoded = RegionEntry::decode_field(ChunkPos { x: 0, z: 0 }, field).unwrap();
    assert_eq!(decoded.sector_index, 0xFFFFFF);
    assert_eq!(decoded.sector_count, 0xFF);

    assert!(RegionEntry::decode_field(ChunkPos { x: 0, z: 0 }, 0).is_none());
}

#[test]
fn empty_region_is_two_zero_sectors() {
    let writer = RegionFileWriter::create();
    let bytes = writer.close();
    assert_eq!(bytes.len(), 8192);
    assert!(bytes.iter().all(|b| *b == 0));
    let slots = collect_slots(bytes);
    assert!(slots.iter().all(|s| matches!(s, Ok(None))));
}

#[test]
fn file_length_stays_sector_aligned() {
    let mut writer = RegionFileWriter::create();
    for (i, size) in [1usize, 100, 4091, 4092, 10000].iter().enumerate() {
        let data: Vec<u8> = (0..*size).map(|k| (k % 7) as u8).collect();
        writer.add_chunk(&chunk(i as i32, 0, data)).unwrap();
    }
    let bytes = writer.close();
    assert!(bytes.len() >= 8192);
    assert_eq!(bytes.len() % 4096, 0);
}

#[test]
fn overwriting_a_slot_reads_back_latest() {
    let mut writer = RegionFileWriter::create();
    writer.add_chunk(&chunk(4, 4, b"first".to_vec())).unwrap();
    writer.add_chunk(&chunk(4, 4, b"second".to_vec())).unwrap();
    let bytes = writer.close();
    let slots = collect_slots(bytes);
    match &slots[4 + 4 * 32] {
        Ok(Some(c)) => assert_eq!(c.data, b"second".to_vec()),
        _ => panic!("slot should hold the latest write"),
    }
}

#[test]
fn compressible_payload_takes_one_sector() {
    // Ten thousand identical bytes compress far below one sector; an identity
    // "compressor" would need three extra sectors.
    let mut writer = RegionFileWriter::create();
    writer.add_chunk(&chunk(0, 0, vec![0x41u8; 10000])).unwrap();
    let bytes = writer.close();
    assert_eq!(bytes.len(), 12288);
}

#[test]
fn oversized_chunk_is_rejected() {
    // Pseudo-random bytes do not compress below the 8-bit sector count limit.
    let mut state = 0x12345678u64;
    let mut data = Vec::with_capacity(2_000_000);
    for _ in 0..2_000_000 {
        state = state.wrapping_mul(6364136223846793005).wrapping_add(1442695040888963407);
        data.push((state >> 33) as u8);
    }
    let mut writer = RegionFileWriter::create();
    assert!(matches!(writer.add_chunk(&chunk(0, 0, data)), Err(RegionError::ChunkTooLarge)));
    // The failed call leaves the writer untouched.
    assert_eq!(writer.close().len(), 8192);
}

#[test]
fn corrupt_zlib_stream_reports_decompression_failure() {
    let mut bytes = vec![0u8; 4096 * 3];
    put_entry(&mut bytes, 0, 2, 1);
    bytes[8192..8196].copy_from_slice(&6u32.to_be_bytes());
    bytes[8196] = 2;
    bytes[8197..8202].copy_from_slice(b"junk!");
    let slots = collect_slots(bytes);
    assert!(matches!(slots[0], Err(RegionError::DecompressionFailed)));
}

#[test]
fn gzip_frames_decode() {
    let payload = b"gzip carried chunk data".to_vec();
    let mut encoder = flate2::write::GzEncoder::new(Vec::new(), flate2::Compression::default());
    encoder.write_all(&payload).unwrap();
    let gz = encoder.finish().unwrap();

    let sectors = (5 + gz.len() + 4095) / 4096;
    let mut bytes = vec![0u8; 4096 * (2 + sectors)];
    put_entry(&mut bytes, 0, 2, sectors as u32);
    bytes[8192..8196].copy_from_slice(&((gz.len() + 1) as u32).to_be_bytes());
    bytes[8196] = 1;
    bytes[8197..8197 + gz.len()].copy_from_slice(&gz);

    let slots = collect_slots(bytes);
    match &slots[0] {
        Ok(Some(c)) => assert_eq!(c.data, payload),
        _ => panic!("gzip frame should decode"),
    }
}

#[test]
fn truncated_and_empty_files_read_as_absent() {
    assert!(collect_slots(Vec::new()).iter().all(|s| matches!(s, Ok(None))));
    assert!(collect_slots(vec![0u8; 100]).iter().all(|s| matches!(s, Ok(None))));
}

#[test]
fn sector_range_past_end_is_corrupt() {
    let mut bytes = vec![0u8; 8192];
    put_entry(&mut bytes, 0, 2, 1);
    let slots = collect_slots(bytes);
    assert!(matches!(slots[0], Err(RegionError::Corrupt)));
}

#[test]
fn parse_name_cases() {
    assert_eq!(RegionFile::parse_name("r.12.-34.mca"), Some(ChunkPos { x: 12, z: -34 }));
    assert_eq!(RegionFile::parse_name("c.3.4.nbt"), Some(ChunkPos { x: 3, z: 4 }));
    assert_eq!(RegionFile::parse_name("r.0.0"), Some(ChunkPos { x: 0, z: 0 }));
    assert_eq!(RegionFile::parse_name("r.+7.2.mca"), Some(ChunkPos { x: 7, z: 2 }));
    assert_eq!(RegionFile::parse_name("bad"), None);
    assert_eq!(RegionFile::parse_name("r.x.4.mca"), None);
    assert_eq!(RegionFile::parse_name("r.3"), None);
    assert_eq!(RegionFile::parse_name("r..4.mca"), None);
    assert_eq!(RegionFile::parse_name("r.2147483648.0.mca"), None);
    assert_eq!(RegionFile::parse_name("r.-2147483648.2147483647.mca"),
        Some(ChunkPos { x: -2147483648, z: 2147483647 }));
}

#[test]
fn compression_mode_tags() {
    assert!(matches!(CompressionMode::from_int(1), Some(CompressionMode::Gzip)));
    assert!(matches!(CompressionMode::from_int(2), Some(CompressionMode::Zlib)));
    assert!(matches!(CompressionMode::from_int(3), Some(CompressionMode::Uncompressed)));
    assert!(CompressionMode::from_int(0).is_none());
    assert!(CompressionMode::from_int(9).is_none());
    assert_eq!(CompressionMode::Gzip.to_int(), 1);
    assert_eq!(CompressionMode::Zlib.to_int(), 2);
    assert_eq!(CompressionMode::Uncompressed.to_int(), 3);
}

#[test]
fn with_data_keeps_position() {
    let c = chunk(7, -9, b"abc".to_vec());
    let d = c.with_data(b"xyz".to_vec());
    assert_eq!(d.position, ChunkPos { x: 7, z: -9 });
    assert_eq!(d.data, b"xyz".to_vec());
    assert_eq!(c.data, b"abc".to_vec());
}

#[test]
fn negative_positions_do_not_panic() {
    let mut writer = RegionFileWriter::create();
    writer.add_chunk(&chunk(-1, -32, b"wrapped".to_vec())).unwrap();
    let bytes = writer.close();
    let slots = collect_slots(bytes);
    // -1 wraps to column 31, -32 wraps to row 0.
    match &slots[31] {
        Ok(Some(c)) => assert_eq!(c.data, b"wrapped".to_vec()),
        _ => panic!("wrapped slot should be present"),
    }
}

#[test]
fn iterator_ends_after_every_slot() {
    let region = RegionFile::open(Vec::new());
    let mut it = region.stream_chunks();
    let mut count = 0usize;
    while let Some(_) = it.next() {
        count += 1;
    }
    assert_eq!(count, 1024);
    assert!(it.next().is_none());
    assert!(it.next().is_none());
}
