use region_codec::chunk::{Chunk, ChunkPos};
use region_codec::nbt::{parse_root, ser_root, NbtEntry, NbtTag};
use region_codec::region::RegionFile;
use region_codec::strip::{strip_chunk, strip_file};
use region_codec::writer::RegionFileWriter;
use region_codec::RegionError;

fn entry(name: &str, value: NbtTag) -> NbtEntry {
    NbtEntry { name: name.as_bytes().to_vec(), value }
}

fn chunk_of(tree: NbtTag) -> Chunk {
    let data = ser_root(&Vec::new(), &tree);
    Chunk { data, position: ChunkPos { x: 0, z: 0 } }
}

fn sample_section() -> NbtTag {
    NbtTag::Compound(vec![
        entry("Y", NbtTag::Byte(0)),
        entry("SkyLight", NbtTag::ByteArray(vec![0xFF; 16])),
        entry("BlockLight", NbtTag::ByteArray(vec![0x11; 16])),
        entry("block_states", NbtTag::Compound(Vec::new())),
    ])
}

fn sample_chunk_tree() -> NbtTag {
    NbtTag::Compound(vec![
        entry("Heightmaps", NbtTag::IntArray(vec![1, 2, 3])),
        entry("isLightOn", NbtTag::Byte(1)),
        entry("InhabitedTime", NbtTag::Int(42)),
        entry("sections", NbtTag::List(10, vec![sample_section()])),
    ])
}

fn expected_stripped_tree() -> NbtTag {
    NbtTag::Compound(vec![
        entry("InhabitedTime", NbtTag::Int(42)),
        entry(
            "sections",
            NbtTag::List(
                10,
                vec![NbtTag::Compound(vec![
                    entry("Y", NbtTag::Byte(0)),
                    entry("block_states", NbtTag::Compound(Vec::new())),
                ])],
            ),
        ),
    ])
}

#[test]
fn s3_strip_removes_derived_tags() {
    let stripped = strip_chunk(&chunk_of(sample_chunk_tree())).unwrap();
    let expected = ser_root(&Vec::new(), &expected_stripped_tree());
    assert_eq!(stripped.data, expected);
    assert_eq!(stripped.position, ChunkPos { x: 0, z: 0 });

    // The output still parses as one whole document.
    let (name, _, consumed) = parse_root(&stripped.data).unwrap();
    assert!(name.is_empty());
    assert_eq!(consumed, stripped.data.len());
}

#[test]
fn restrip_is_identity() {
    let once = strip_chunk(&chunk_of(sample_chunk_tree())).unwrap();
    let twice = strip_chunk(&once).unwrap();
    assert_eq!(once.data, twice.data);
}

#[test]
fn strip_preserves_unrelated_tags() {
    let tree = NbtTag::Compound(vec![
        entry("DataVersion", NbtTag::Int(3465)),
        entry("Heightmaps", NbtTag::Byte(9)),
        entry("xPos", NbtTag::Int(7)),
        entry("status", NbtTag::Str(b"full".to_vec())),
    ]);
    let stripped = strip_chunk(&chunk_of(tree)).unwrap();
    let expected = ser_root(
        &Vec::new(),
        &NbtTag::Compound(vec![
            entry("DataVersion", NbtTag::Int(3465)),
            entry("xPos", NbtTag::Int(7)),
            entry("status", NbtTag::Str(b"full".to_vec())),
        ]),
    );
    assert_eq!(stripped.data, expected);
}

#[test]
fn strip_handles_legacy_level_compound() {
    let tree = NbtTag::Compound(vec![entry(
        "Level",
        NbtTag::Compound(vec![
            entry("Heightmaps", NbtTag::Byte(1)),
            entry("isLightOn", NbtTag::Byte(1)),
            entry("LastUpdate", NbtTag::Long(99)),
        ]),
    )]);
    let stripped = strip_chunk(&chunk_of(tree)).unwrap();
    let expected = ser_root(
        &Vec::new(),
        &NbtTag::Compound(vec![entry(
            "Level",
            NbtTag::Compound(vec![entry("LastUpdate", NbtTag::Long(99))]),
        )]),
    );
    assert_eq!(stripped.data, expected);
}

#[test]
fn strip_returns_non_compound_roots_unchanged() {
    let c = chunk_of(NbtTag::Int(5));
    let stripped = strip_chunk(&c).unwrap();
    assert_eq!(stripped.data, c.data);
}

#[test]
fn strip_rejects_malformed_bytes() {
    let c = Chunk { data: vec![1, 2, 3], position: ChunkPos { x: 0, z: 0 } };
    assert!(matches!(strip_chunk(&c), Err(RegionError::MalformedTagTree)));
    let c = Chunk { data: Vec::new(), position: ChunkPos { x: 0, z: 0 } };
    assert!(matches!(strip_chunk(&c), Err(RegionError::MalformedTagTree)));
}

#[test]
fn strip_rejects_trailing_garbage() {
    let mut data = ser_root(&Vec::new(), &NbtTag::Compound(Vec::new()));
    data.push(0);
    let c = Chunk { data, position: ChunkPos { x: 0, z: 0 } };
    assert!(matches!(strip_chunk(&c), Err(RegionError::MalformedTagTree)));
}

#[test]
fn all_scalar_and_array_tags_roundtrip_through_strip() {
    let tree = NbtTag::Compound(vec![
        entry("a", NbtTag::Byte(0x80)),
        entry("b", NbtTag::Short(0x1234)),
        entry("c", NbtTag::Int(0xDEADBEEF)),
        entry("d", NbtTag::Long(0x0123456789ABCDEF)),
        entry("e", NbtTag::Float(0x3F800000)),
        entry("f", NbtTag::Double(0x3FF0000000000000)),
        entry("g", NbtTag::ByteArray(vec![1, 2, 3])),
        entry("h", NbtTag::Str(b"text".to_vec())),
        entry("i", NbtTag::List(3, vec![NbtTag::Int(1), NbtTag::Int(2)])),
        entry("j", NbtTag::List(3, Vec::new())),
        entry("k", NbtTag::IntArray(vec![7, 8])),
        entry("l", NbtTag::LongArray(vec![9, 10])),
        entry("m", NbtTag::Compound(vec![entry("n", NbtTag::Byte(1))])),
    ]);
    let c = chunk_of(tree);
    let stripped = strip_chunk(&c).unwrap();
    // Nothing is removable, so stripping re-serializes the same document.
    assert_eq!(stripped.data, c.data);
}

#[test]
fn strip_file_rewrites_each_present_slot() {
    let mut writer = RegionFileWriter::create();
    let strippable = chunk_of(sample_chunk_tree());
    let plain = Chunk {
        data: ser_root(&Vec::new(), &NbtTag::Compound(vec![entry("xPos", NbtTag::Int(1))])),
        position: ChunkPos { x: 2, z: 3 },
    };
    writer.add_chunk(&strippable).unwrap();
    writer.add_chunk(&plain).unwrap();
    let input = writer.close();

    let output = strip_file(input).unwrap();
    let region = RegionFile::open(output);

    match region.get_chunk_from_index(0).unwrap() {
        Some(c) => {
            let expected = ser_root(&Vec::new(), &expected_stripped_tree());
            assert_eq!(c.data, expected);
        },
        None => panic!("slot 0 should stay present"),
    }
    match region.get_chunk_from_index(2 + 3 * 32).unwrap() {
        Some(c) => assert_eq!(c.data, plain.data),
        None => panic!("slot 98 should stay present"),
    }
    assert!(region.get_chunk_from_index(1).unwrap().is_none());
}

#[test]
fn strip_file_propagates_chunk_errors() {
    let mut bytes = vec![0u8; 4096 * 3];
    let field = (2u32 << 8) | 1;
    bytes[0..4].copy_from_slice(&field.to_be_bytes());
    bytes[8192..8196].copy_from_slice(&6u32.to_be_bytes());
    bytes[8196] = 3;
    bytes[8197..8202].copy_from_slice(b"notbt");
    assert!(matches!(strip_file(bytes), Err(RegionError::MalformedTagTree)));
}

#[test]
fn sections_value_that_is_not_a_list_is_untouched() {
    let tree = NbtTag::Compound(vec![entry("sections", NbtTag::Int(7))]);
    let c = chunk_of(tree);
    let stripped = strip_chunk(&c).unwrap();
    assert_eq!(stripped.data, c.data);
}

#[test]
fn non_compound_section_elements_are_untouched() {
    let tree = NbtTag::Compound(vec![entry(
        "sections",
        NbtTag::List(3, vec![NbtTag::Int(1), NbtTag::Int(2)]),
    )]);
    let c = chunk_of(tree);
    let stripped = strip_chunk(&c).unwrap();
    assert_eq!(stripped.data, c.data);
}

#[test]
fn strip_file_succeeds_on_all_absent_region() {
    let writer = RegionFileWriter::create();
    let empty = writer.close();
    let output = strip_file(empty).unwrap();
    assert_eq!(output.len(), 8192);
    assert!(output.iter().all(|b| *b == 0));

    // Truncated and zero-length inputs read as all-absent too.
    assert!(strip_file(Vec::new()).is_ok());
    assert!(strip_file(vec![0u8; 100]).is_ok());
}
