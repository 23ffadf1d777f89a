use splatforge::ir::blake3_tagged;
use splatforge::gltf::{check_chunk_bytes, IndexChunk};
use splatforge::streaming::{chunk_buffer_name, chunk_record, gltf_chunk_ranges};

#[test]
fn chunk_ranges_follow_slice_chunks() {
    assert_eq!(gltf_chunk_ranges(10, true, 4), vec![(0, 4), (4, 8), (8, 10)]);
    assert_eq!(gltf_chunk_ranges(8, true, 4), vec![(0, 4), (4, 8)]);
    assert_eq!(gltf_chunk_ranges(0, true, 4), vec![]);
    assert_eq!(gltf_chunk_ranges(10, false, 4), vec![(0, 10)]);
    assert_eq!(gltf_chunk_ranges(10, true, 0), vec![(0, 10)]);
    assert_eq!(gltf_chunk_ranges(0, false, 4), vec![(0, 0)]);
    let v: Vec<u32> = (0..10).collect();
    let expect: Vec<(usize, usize)> = v.chunks(3).scan(0, |s, c| {
        let r = (*s, *s + c.len());
        *s += c.len();
        Some(r)
    }).collect();
    assert_eq!(gltf_chunk_ranges(10, true, 3), expect);
}

#[test]
fn chunk_names_are_zero_padded() {
    assert_eq!(chunk_buffer_name(0), "buffers/chunk_0000.bin");
    assert_eq!(chunk_buffer_name(42), "buffers/chunk_0042.bin");
    assert_eq!(chunk_buffer_name(999), "buffers/chunk_0999.bin");
    assert_eq!(chunk_buffer_name(12345), "buffers/chunk_12345.bin");
}

#[test]
fn chunk_record_passes_inspection() {
    let bytes: Vec<u8> = (0..=255u8).collect();
    let r = chunk_record(3, 1, &bytes, 17);
    assert_eq!(r.uri, "buffers/chunk_0003.bin");
    assert_eq!((r.buffer, r.byte_length, r.splat_count, r.load_priority), (1, 256, 17, 3));
    assert_eq!(r.checksum, blake3_tagged(&bytes));
    assert_eq!(r.checksum, format!("blake3:{}", blake3::hash(&bytes).to_hex()));
    let entry = IndexChunk {
        buffer: Some(r.buffer as u64),
        byte_offset: 0,
        byte_length: r.byte_length as u64,
        checksum: r.checksum.clone(),
        splat_count: r.splat_count as u64,
    };
    assert_eq!(check_chunk_bytes(3, &entry, &bytes).unwrap(), 17);
    let mut tampered = bytes.clone();
    tampered[7] ^= 1;
    assert!(check_chunk_bytes(3, &entry, &tampered).is_err());
}
