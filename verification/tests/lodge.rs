use splatforge::lodge::{
    check_chunk_digest, find_level, split_chunks, unpack_level_to_ply, ChunkData, ChunkRef, LevelRef, LodgeError,
};

fn chunk(path: &str, bytes: &[u8], n: usize) -> ChunkRef {
    ChunkRef { path: path.to_string(), blake3: blake3::hash(bytes).to_hex().to_string(), splat_count: n }
}

fn levels() -> Vec<LevelRef> {
    vec![
        LevelRef { level: 0, splat_count: 3, chunks: vec![chunk("l0/c0.ply", b"aa", 2), chunk("l0/c1.ply", b"bb", 1)] },
        LevelRef { level: 1, splat_count: 1, chunks: vec![chunk("l1/c0.ply", b"cc", 1)] },
    ]
}

fn read(bytes: &[u8], splats: Vec<u32>) -> Result<ChunkData<u32>, LodgeError> {
    Ok(ChunkData { bytes: bytes.to_vec(), splats })
}

#[test]
fn unpack_level_concatenates_chunks_in_order() {
    let out = unpack_level_to_ply(&levels(), 0, vec![read(b"aa", vec![1, 2]), read(b"bb", vec![3])]).unwrap();
    assert_eq!(out, vec![1, 2, 3]);
    let out = unpack_level_to_ply(&levels(), 1, vec![read(b"cc", vec![9])]).unwrap();
    assert_eq!(out, vec![9]);
}

#[test]
fn unpack_level_rejects_unknown_level() {
    match unpack_level_to_ply::<u32>(&levels(), 7, vec![]) {
        Err(LodgeError::Invalid(m)) => assert_eq!(m, "level 7 not in manifest"),
        _ => panic!("expected an invalid-level error"),
    }
}

#[test]
fn unpack_level_rejects_swapped_chunk() {
    match unpack_level_to_ply(&levels(), 0, vec![read(b"aa", vec![1, 2]), read(b"zz", vec![3])]) {
        Err(LodgeError::Invalid(m)) => {
            assert!(m.starts_with("blake3 mismatch on l0/c1.ply: manifest="));
            assert!(m.ends_with(&format!(" disk={}", blake3::hash(b"zz").to_hex())));
        }
        _ => panic!("expected a digest mismatch"),
    }
}

#[test]
fn unpack_level_rejects_wrong_total() {
    match unpack_level_to_ply(&levels(), 0, vec![read(b"aa", vec![1]), read(b"bb", vec![3])]) {
        Err(LodgeError::Invalid(m)) => assert_eq!(m, "reassemble level 0: expected 3 splats, got 2"),
        _ => panic!("expected a count mismatch"),
    }
}

#[test]
fn unpack_level_stops_at_the_first_failed_read() {
    let r = unpack_level_to_ply::<u32>(&levels(), 0, vec![Err(LodgeError::Io("gone".to_string()))]);
    assert!(matches!(r, Err(LodgeError::Io(m)) if m == "gone"));
}

#[test]
fn chunk_digest_check() {
    let c = chunk("x.ply", b"payload", 1);
    assert!(check_chunk_digest(&c, b"payload").is_ok());
    assert!(check_chunk_digest(&c, b"payloaD").is_err());
}

#[test]
fn find_level_takes_the_first_match() {
    let mut ls = levels();
    ls.push(LevelRef { level: 0, splat_count: 0, chunks: vec![] });
    assert_eq!(find_level(&ls, 0), Some(0));
    assert_eq!(find_level(&ls, 1), Some(1));
    assert_eq!(find_level(&ls, 2), None);
}

#[test]
fn chunks_are_balanced_and_cover_the_input() {
    let items: Vec<u32> = (0..10).collect();
    let chunks = split_chunks(&items, 4);
    let sizes: Vec<usize> = chunks.iter().map(|c| c.len()).collect();
    assert_eq!(sizes, vec![4, 3, 3]);
    assert_eq!(chunks.concat(), items);
    assert_eq!(split_chunks(&items, 0).len(), 10);
    assert_eq!(split_chunks(&items, 100), vec![items.clone()]);
    assert!(split_chunks(&vec![], 4).is_empty());
}
