use splatforge::index_stream::{
    decode_index_stream, encode_index_stream, index_histograms, saturate_counts, IndexStream,
};
use splatforge::meson::{
    container_layout, decode_perm, encode_perm, invert_permutation, layout_meta_in_file, morton3, pack_codes,
    permute_rows, read_container_header, split_by_3, unpack_codes, unpermute_rows, write_container,
    EncodeConfig, MesonError, StreamId,
};
use splatforge::optimize::stable_order;
use splatforge::codebook::{pack_codebook_blob, unpack_codebook, ChannelStatsBits, CodebookBits};

fn eight_streams() -> Vec<Vec<u8>> {
    (0..8u8).map(|i| vec![i; (i as usize) * 3 + 1]).collect()
}

#[test]
fn bad_magic_is_rejected() {
    let bogus = vec![0u8; 256];
    match read_container_header(&bogus) {
        Err(MesonError::BadMagic) | Err(MesonError::Crc32Mismatch) => {}
        other => panic!("unexpected: {:?}", other.map(|_| ())),
    }
}

#[test]
fn crc_tampering_is_rejected() {
    let meta = br#"{"n_anchors":128}"#;
    let mut bytes = write_container(meta, &eight_streams(), 14);
    let mid = bytes.len() / 2;
    bytes[mid] ^= 0xFF;
    assert!(matches!(read_container_header(&bytes), Err(MesonError::Crc32Mismatch)));
}

#[test]
fn container_header_reads_back_table() {
    let meta = br#"{"n_anchors":128}"#;
    let streams = eight_streams();
    let bytes = write_container(meta, &streams, 14);
    let h = read_container_header(&bytes).unwrap();
    assert_eq!(h.xyz_bits, 14);
    assert_eq!(h.meta_len as usize, meta.len());
    for (k, s) in streams.iter().enumerate() {
        let off = h.offsets[k] as usize;
        assert_eq!(h.sizes[k] as usize, s.len());
        assert_eq!(&bytes[off..off + s.len()], &s[..]);
    }
    assert_eq!(&bytes[h.meta_start..h.meta_start + meta.len()], meta);
}

#[test]
fn container_layout_reads_sizes_and_anchor_count() {
    let meta = br#"{"n_anchors":128,"sh_degree":0}"#;
    let streams = eight_streams();
    let bytes = write_container(meta, &streams, 14);
    assert!(layout_meta_in_file(&bytes));
    let l = container_layout(&bytes).unwrap();
    assert_eq!(l.n_anchors, 128);
    assert_eq!(l.meta_bytes as usize, meta.len());
    let sizes: Vec<u64> = streams.iter().map(|s| s.len() as u64).collect();
    assert_eq!(l.stream_sizes, sizes);
}

#[test]
fn container_layout_without_anchor_count_reports_zero() {
    let meta = b"not json";
    let bytes = write_container(meta, &eight_streams(), 12);
    assert_eq!(container_layout(&bytes).unwrap().n_anchors, 0);
}

#[test]
fn container_layout_rejects_short_input() {
    assert!(matches!(container_layout(&[0u8; 10]), Err(MesonError::BadMagic)));
}

/// Quantizes `v` in `[lo, hi]` to `bits` bits, as the Morton ordering does.
fn quantize(v: f32, lo: f32, hi: f32, bits: u32) -> u32 {
    let max = ((1u32 << bits) - 1) as f32;
    (((v - lo) / (hi - lo).max(1e-12)).clamp(0.0, 1.0) * max).round() as u32
}

#[test]
fn morton_codes_are_increasing_after_sort() {
    let xyz: Vec<f32> = vec![5.0, 5.0, 5.0, 1.0, 1.0, 1.0, 9.0, 9.0, 9.0, 3.0, 3.0, 3.0];
    let codes: Vec<u64> = xyz
        .chunks(3)
        .map(|p| morton3(quantize(p[0], 1.0, 9.0, 10), quantize(p[1], 1.0, 9.0, 10), quantize(p[2], 1.0, 9.0, 10)))
        .collect();
    let perm = stable_order(&codes);
    assert_eq!(perm.len(), 4);
    // After the Morton sort, the (1,1,1) point comes first.
    assert_eq!(perm[0], 1);
    for w in perm.windows(2) {
        assert!(codes[w[0]] <= codes[w[1]]);
    }
}

#[test]
fn morton3_interleaves_bits() {
    assert_eq!(split_by_3(0b101), 0b001_000_001);
    assert_eq!(morton3(1, 0, 0), 0b001);
    assert_eq!(morton3(0, 1, 0), 0b010);
    assert_eq!(morton3(0, 0, 1), 0b100);
    assert_eq!(morton3(3, 0, 1), 0b001_101);
    assert_eq!(morton3(0xFFFF, 0xFFFF, 0xFFFF), (1u64 << 48) - 1);
}

#[test]
fn permutation_roundtrip() {
    let perm = vec![2u32, 0, 3, 1];
    let inv = invert_permutation(&perm);
    assert_eq!(inv, vec![1, 3, 0, 2]);
    let data: Vec<u16> = vec![10, 11, 20, 21, 30, 31, 40, 41];
    let permuted = permute_rows(&data, &perm, 2);
    assert_eq!(permuted, vec![30, 31, 10, 11, 40, 41, 20, 21]);
    let back = unpermute_rows(&permuted, &perm, 2, 0);
    assert_eq!(back, data);
}

#[test]
fn perm_stream_roundtrip() {
    let perm = vec![3u32, 1, 0, 2];
    let bytes = encode_perm(&perm, true);
    assert_eq!(bytes.len(), 16);
    assert_eq!(decode_perm(&bytes, 4).unwrap(), perm);
    assert_eq!(decode_perm(&encode_perm(&perm, false), 4).unwrap(), vec![0, 1, 2, 3]);
    assert!(matches!(decode_perm(&bytes[..6], 4), Err(MesonError::MalformedMeta(_))));
}

#[test]
fn packed_codes_roundtrip() {
    let codes = vec![0u32, 1, 16383, 4242, 77];
    let bytes = pack_codes(&codes, 14);
    assert_eq!(bytes.len(), (5 * 14 + 7) / 8);
    assert_eq!(unpack_codes(&bytes, 5, 14), codes);
}

#[test]
fn stream_ids_index_the_table() {
    assert_eq!(StreamId::Xyz.index(), 0);
    assert_eq!(StreamId::CodebookBlob.index(), 7);
    let c = EncodeConfig::default();
    assert_eq!(c.xyz_bits, 14);
    assert_eq!(c.kmeans_k_low, 256);
}

#[test]
fn index_histograms_count_symbols_and_transitions() {
    let codes = vec![0u16, 1, 1, 2, 0];
    let (marg, cond) = index_histograms(&codes, 3);
    assert_eq!(marg, vec![3, 3, 2]);
    assert_eq!(cond.len(), 9);
    // transitions 0->1, 1->1, 1->2, 2->0, each once, plus the add-one prior
    assert_eq!(cond[0 * 3 + 1], 2);
    assert_eq!(cond[1 * 3 + 1], 2);
    assert_eq!(cond[1 * 3 + 2], 2);
    assert_eq!(cond[2 * 3 + 0], 2);
    assert_eq!(cond[0], 1);
}

#[test]
fn index_stream_roundtrip() {
    let (marg, cond) = index_histograms(&[1u16, 0, 1], 2);
    let s = IndexStream { k: 2, kk: 2, marg: saturate_counts(&marg), cond, words: vec![0xDEAD_BEEF, 7], n_codes: 3 };
    let bytes = encode_index_stream(&s);
    assert_eq!(bytes.len(), 4 * (2 + 2 + 4 + 1 + 2 + 1));
    let back = decode_index_stream(&bytes).unwrap().unwrap();
    assert_eq!(back.k, 2);
    assert_eq!(back.marg, vec![2, 3]);
    assert_eq!(back.cond, s.cond);
    assert_eq!(back.words, s.words);
    assert_eq!(back.n_codes, 3);
    assert!(decode_index_stream(&[]).unwrap().is_none());
    match decode_index_stream(&bytes[..bytes.len() - 1]) {
        Err(MesonError::Io(m)) => assert_eq!(m, "failed to fill whole buffer"),
        _ => panic!("expected a short-read error"),
    }
}

fn codebook(k: usize, d: usize, seed: u32) -> CodebookBits {
    CodebookBits {
        centroids: (0..k).map(|i| (0..d).map(|j| seed + (i * d + j) as u32).collect()).collect(),
        stats: (0..d)
            .map(|j| ChannelStatsBits {
                min: seed + 1000 + j as u32,
                max: seed + 2000 + j as u32,
                cdf: (0..257).map(|c| seed * 7 + c as u32 + j as u32).collect(),
            })
            .collect(),
    }
}

#[test]
fn codebook_blob_round_trips() {
    let cbs = vec![codebook(4, 3, 10), codebook(2, 1, 500), codebook(0, 0, 9)];
    let (blob, descs) = pack_codebook_blob(&cbs);
    assert_eq!(descs.len(), 3);
    assert_eq!((descs[0].k, descs[0].d, descs[0].centroids_off, descs[0].stats_off), (4, 3, 0, 48));
    assert_eq!(descs[1].centroids_off, 48 + 3 * 1036);
    assert_eq!(blob.len(), 48 + 3 * 1036 + 8 + 1036);
    for (cb, desc) in cbs.iter().zip(descs.iter()) {
        let back = unpack_codebook(desc, &blob).unwrap();
        assert_eq!(back.centroids, cb.centroids);
        assert_eq!(back.stats.len(), cb.stats.len());
        for (a, b) in back.stats.iter().zip(cb.stats.iter()) {
            assert_eq!((a.min, a.max), (b.min, b.max));
            assert_eq!(a.cdf, b.cdf);
        }
    }
}

#[test]
fn codebook_offsets_are_bounds_checked() {
    let (blob, descs) = pack_codebook_blob(&[codebook(2, 2, 1)]);
    let mut bad = descs[0];
    bad.centroids_off = blob.len() as u64;
    match unpack_codebook(&bad, &blob) {
        Err(MesonError::MalformedMeta(m)) => assert_eq!(m, "codebook centroid offset out of range"),
        other => panic!("{other:?}"),
    }
    let mut bad = descs[0];
    bad.stats_off = 17;
    match unpack_codebook(&bad, &blob) {
        Err(MesonError::MalformedMeta(m)) => assert_eq!(m, "codebook stats offset out of range"),
        other => panic!("{other:?}"),
    }
}

#[test]
fn morton_codes_are_distinct_for_distinct_coordinates() {
    assert_eq!(splatforge::meson::morton3(0, 0, 1), 4);
    assert_eq!(splatforge::meson::morton3(2, 0, 0), 8);
    assert_ne!(splatforge::meson::morton3(1, 0, 0), splatforge::meson::morton3(0, 1, 0));
    assert_eq!(splatforge::meson::morton3(0xFFFF, 0xFFFF, 0xFFFF), (1u64 << 48) - 1);
}

#[test]
fn permuting_by_the_inverse_restores_rows() {
    let data: Vec<u32> = (0..12).collect();
    let perm = vec![2u32, 0, 3, 1];
    let moved = splatforge::meson::permute_rows(&data, &perm, 3);
    assert_eq!(moved, vec![6, 7, 8, 0, 1, 2, 9, 10, 11, 3, 4, 5]);
    let inv = splatforge::meson::invert_permutation(&perm);
    assert_eq!(splatforge::meson::permute_rows(&moved, &inv, 3), data);
}
