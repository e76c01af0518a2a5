use codec_pipeline::error::CodecPipelineError;
use codec_pipeline::pipeline::{
    ChunkDescription, CodecPipelineImpl, CodecPipelineStore, StoreInput,
};
use codec_pipeline::subset::SliceRange;

/// A codec chain: little-endian byte serialization followed by gzip.
const META: &str = "[{\"name\":\"bytes\",\"configuration\":{\"endian\":\"little\"}},{\"name\":\"gzip\",\"configuration\":{\"level\":5}}]";

fn i32_bytes(values: &[i32]) -> Vec<u8> {
    let mut out = Vec::new();
    for v in values {
        out.extend_from_slice(&v.to_le_bytes());
    }
    out
}

fn zero_fill() -> Vec<u8> {
    vec![0u8; 4]
}

fn pipeline() -> CodecPipelineImpl {
    CodecPipelineImpl::new(META, None, None, None).unwrap()
}

fn slice(start: i64, stop: i64) -> SliceRange {
    SliceRange { start, stop, step: 1 }
}

fn raw_value(p: &CodecPipelineImpl, key: &[u8]) -> Option<Vec<u8>> {
    match &p.store {
        Some(CodecPipelineStore::Memory(m)) => m.get(&key.to_vec()),
        None => None,
    }
}

#[test]
fn missing_chunk_reads_as_fill() {
    let mut p = pipeline();
    let v = p
        .retrieve_chunk("memory://data/c/0/0", vec![4, 4], "int32", zero_fill())
        .unwrap();
    assert_eq!(v, vec![0u8; 64]);
}

#[test]
fn store_then_retrieve_round_trip() {
    let mut p = pipeline();
    let values: Vec<i32> = (1..=16).collect();
    let bytes = i32_bytes(&values);
    p.store_chunk("memory://data/c/0/0", vec![4, 4], "int32", zero_fill(), bytes.clone())
        .unwrap();
    let v = p
        .retrieve_chunk("memory://data/c/0/0", vec![4, 4], "int32", zero_fill())
        .unwrap();
    assert_eq!(v, bytes);
}

#[test]
fn stored_bytes_are_encoded_not_raw() {
    let mut p = pipeline();
    let values: Vec<i32> = (1..=16).collect();
    let bytes = i32_bytes(&values);
    p.store_chunk("memory://data/c/0/0", vec![4, 4], "int32", zero_fill(), bytes.clone())
        .unwrap();
    let stored = raw_value(&p, b"data/c/0/0").expect("chunk should be stored");
    assert_ne!(stored, bytes);
}

#[test]
fn all_fill_chunk_is_erased() {
    let mut p = pipeline();
    let values: Vec<i32> = (1..=16).collect();
    p.store_chunk("memory://data/c/0/0", vec![4, 4], "int32", zero_fill(), i32_bytes(&values))
        .unwrap();
    assert!(raw_value(&p, b"data/c/0/0").is_some());
    p.store_chunk("memory://data/c/0/0", vec![4, 4], "int32", zero_fill(), vec![0u8; 64])
        .unwrap();
    assert!(raw_value(&p, b"data/c/0/0").is_none());
}

#[test]
fn full_cover_write_bypasses_read() {
    // a full-cover write must not decode the chunk's previous value: seed the
    // key with bytes no codec chain accepts, then overwrite the whole chunk
    let mut p = pipeline();
    p.retrieve_chunk("memory://data/c/0/0", vec![4, 4], "int32", zero_fill())
        .unwrap();
    match &mut p.store {
        Some(CodecPipelineStore::Memory(m)) => {
            m.set(b"data/c/0/0".to_vec(), vec![1, 2, 3]);
        },
        None => panic!("store should be initialized"),
    }
    let descriptions = vec![ChunkDescription {
        chunk_path: "memory://data/c/0/0".to_string(),
        chunk_shape: vec![4, 4],
        dtype: "int32".to_string(),
        fill_value: zero_fill(),
        selection: vec![slice(0, 4), slice(0, 4)],
        chunk_selection: vec![slice(0, 4), slice(0, 4)],
    }];
    let values: Vec<i32> = (1..=16).collect();
    let input = StoreInput::Array(i32_bytes(&values));
    p.store_chunks(&descriptions, &input, &vec![4, 4], 1).unwrap();
    let v = p
        .retrieve_chunk("memory://data/c/0/0", vec![4, 4], "int32", zero_fill())
        .unwrap();
    assert_eq!(v, i32_bytes(&values));
}

#[test]
fn partial_write_of_corrupt_chunk_fails() {
    // a partial write must read, decode and splice: on an undecodable chunk
    // it fails with a codec error
    let mut p = pipeline();
    p.retrieve_chunk("memory://data/c/0/0", vec![4, 4], "int32", zero_fill())
        .unwrap();
    match &mut p.store {
        Some(CodecPipelineStore::Memory(m)) => {
            m.set(b"data/c/0/0".to_vec(), vec![1, 2, 3]);
        },
        None => panic!("store should be initialized"),
    }
    let descriptions = vec![ChunkDescription {
        chunk_path: "memory://data/c/0/0".to_string(),
        chunk_shape: vec![4, 4],
        dtype: "int32".to_string(),
        fill_value: zero_fill(),
        selection: vec![slice(0, 2), slice(0, 2)],
        chunk_selection: vec![slice(1, 3), slice(1, 3)],
    }];
    let input = StoreInput::Array(i32_bytes(&[7, 7, 7, 7]));
    let r = p.store_chunks(&descriptions, &input, &vec![2, 2], 1);
    assert_eq!(r, Err(CodecPipelineError::CodecFailure));
}

#[test]
fn partial_write_preserves_rest_of_chunk() {
    // store a full chunk, overwrite a sub-region, check every element
    let mut p = pipeline();
    let base: Vec<i32> = (1..=16).collect();
    p.store_chunk("memory://data/c/0/0", vec![4, 4], "int32", zero_fill(), i32_bytes(&base))
        .unwrap();
    let descriptions = vec![ChunkDescription {
        chunk_path: "memory://data/c/0/0".to_string(),
        chunk_shape: vec![4, 4],
        dtype: "int32".to_string(),
        fill_value: zero_fill(),
        selection: vec![slice(0, 2), slice(0, 2)],
        chunk_selection: vec![slice(1, 3), slice(1, 3)],
    }];
    let input = StoreInput::Array(i32_bytes(&[70, 71, 72, 73]));
    p.store_chunks(&descriptions, &input, &vec![2, 2], 1).unwrap();
    let v = p
        .retrieve_chunk("memory://data/c/0/0", vec![4, 4], "int32", zero_fill())
        .unwrap();
    let expected: Vec<i32> = vec![
        1, 2, 3, 4,
        5, 70, 71, 8,
        9, 72, 73, 12,
        13, 14, 15, 16,
    ];
    assert_eq!(v, i32_bytes(&expected));
}

#[test]
fn absent_chunk_subset_write_starts_from_fill() {
    // the example scenario: chunk absent, retrieve gives 64 zero bytes, a
    // sub-region write of sevens creates the chunk, and the grid shows the
    // block of sevens on a zero background
    let mut p = pipeline();
    let v0 = p
        .retrieve_chunk("memory://data/c/0/0", vec![4, 4], "int32", zero_fill())
        .unwrap();
    assert_eq!(v0, vec![0u8; 64]);
    let descriptions = vec![ChunkDescription {
        chunk_path: "memory://data/c/0/0".to_string(),
        chunk_shape: vec![4, 4],
        dtype: "int32".to_string(),
        fill_value: zero_fill(),
        selection: vec![slice(0, 2), slice(0, 2)],
        chunk_selection: vec![slice(1, 3), slice(1, 3)],
    }];
    let input = StoreInput::Array(i32_bytes(&[7, 7, 7, 7]));
    p.store_chunks(&descriptions, &input, &vec![2, 2], 1).unwrap();
    assert!(raw_value(&p, b"data/c/0/0").is_some());
    let v = p
        .retrieve_chunk("memory://data/c/0/0", vec![4, 4], "int32", zero_fill())
        .unwrap();
    let expected: Vec<i32> = vec![
        0, 0, 0, 0,
        0, 7, 7, 0,
        0, 7, 7, 0,
        0, 0, 0, 0,
    ];
    assert_eq!(v, i32_bytes(&expected));
}

#[test]
fn out_of_bounds_chunk_subset_is_rejected_without_mutation() {
    let mut p = pipeline();
    let descriptions = vec![ChunkDescription {
        chunk_path: "memory://data/c/0/0".to_string(),
        chunk_shape: vec![4, 4],
        dtype: "int32".to_string(),
        fill_value: zero_fill(),
        selection: vec![slice(0, 2), slice(0, 2)],
        chunk_selection: vec![slice(3, 5), slice(3, 5)],
    }];
    let input = StoreInput::Array(i32_bytes(&[7, 7, 7, 7]));
    let r = p.store_chunks(&descriptions, &input, &vec![2, 2], 1);
    assert_eq!(r, Err(CodecPipelineError::SubsetOutOfBounds));
    assert!(raw_value(&p, b"data/c/0/0").is_none());
}

#[test]
fn batch_retrieval_is_concurrency_invariant() {
    let mut p = pipeline();
    let a: Vec<i32> = (1..=16).collect();
    let b: Vec<i32> = (101..=116).collect();
    p.store_chunk("memory://data/c/0/0", vec![4, 4], "int32", zero_fill(), i32_bytes(&a))
        .unwrap();
    p.store_chunk("memory://data/c/0/1", vec![4, 4], "int32", zero_fill(), i32_bytes(&b))
        .unwrap();
    let descriptions = vec![
        ChunkDescription {
            chunk_path: "memory://data/c/0/0".to_string(),
            chunk_shape: vec![4, 4],
            dtype: "int32".to_string(),
            fill_value: zero_fill(),
            selection: vec![slice(0, 4), slice(0, 4)],
            chunk_selection: vec![slice(0, 4), slice(0, 4)],
        },
        ChunkDescription {
            chunk_path: "memory://data/c/0/1".to_string(),
            chunk_shape: vec![4, 4],
            dtype: "int32".to_string(),
            fill_value: zero_fill(),
            selection: vec![slice(0, 4), slice(4, 8)],
            chunk_selection: vec![slice(0, 4), slice(0, 4)],
        },
        ChunkDescription {
            chunk_path: "memory://data/c/0/2".to_string(),
            chunk_shape: vec![4, 4],
            dtype: "int32".to_string(),
            fill_value: zero_fill(),
            selection: vec![slice(4, 8), slice(0, 4)],
            chunk_selection: vec![slice(0, 4), slice(0, 4)],
        },
    ];
    let shape = vec![8u64, 8u64];
    let mut out1 = vec![0xabu8; 256];
    let mut out2 = vec![0xabu8; 256];
    let mut out3 = vec![0xabu8; 256];
    p.retrieve_chunks(&descriptions, &mut out1, &shape, 1).unwrap();
    p.retrieve_chunks(&descriptions, &mut out2, &shape, 4).unwrap();
    p.retrieve_chunks(&descriptions, &mut out3, &shape, usize::MAX).unwrap();
    assert_eq!(out1, out2);
    assert_eq!(out1, out3);
    // the first chunk's row 0 lands in the buffer's row 0, columns 0..4
    assert_eq!(&out1[0..16], &i32_bytes(&[1, 2, 3, 4])[..]);
    // the second chunk's row 0 lands in the buffer's row 0, columns 4..8
    assert_eq!(&out1[16..32], &i32_bytes(&[101, 102, 103, 104])[..]);
    // the third chunk was never stored: its region reads as fill
    assert_eq!(&out1[128..144], &vec![0u8; 16][..]);
    // a region addressed by no description is untouched
    assert_eq!(&out1[144..160], &vec![0xabu8; 16][..]);
}

#[test]
fn partial_retrieval_reads_sub_region() {
    let mut p = pipeline();
    let a: Vec<i32> = (1..=16).collect();
    p.store_chunk("memory://data/c/0/0", vec![4, 4], "int32", zero_fill(), i32_bytes(&a))
        .unwrap();
    let descriptions = vec![ChunkDescription {
        chunk_path: "memory://data/c/0/0".to_string(),
        chunk_shape: vec![4, 4],
        dtype: "int32".to_string(),
        fill_value: zero_fill(),
        selection: vec![slice(0, 2), slice(0, 2)],
        chunk_selection: vec![slice(1, 3), slice(1, 3)],
    }];
    let shape = vec![2u64, 2u64];
    let mut out = vec![0u8; 16];
    p.retrieve_chunks(&descriptions, &mut out, &shape, 1).unwrap();
    assert_eq!(out, i32_bytes(&[6, 7, 10, 11]));
}

#[test]
fn scalar_constant_write_broadcasts_fill_pattern() {
    let mut p = pipeline();
    let descriptions = vec![ChunkDescription {
        chunk_path: "memory://data/c/0/0".to_string(),
        chunk_shape: vec![4, 4],
        dtype: "int32".to_string(),
        fill_value: zero_fill(),
        selection: vec![],
        chunk_selection: vec![slice(0, 4), slice(0, 4)],
    }];
    let input = StoreInput::Constant(i32_bytes(&[9]));
    p.store_chunks(&descriptions, &input, &vec![1, 1], 1).unwrap();
    let v = p
        .retrieve_chunk("memory://data/c/0/0", vec![4, 4], "int32", zero_fill())
        .unwrap();
    assert_eq!(v, i32_bytes(&vec![9i32; 16]));
}

const META_CRC: &str = "[{\"name\":\"bytes\",\"configuration\":{\"endian\":\"little\"}},{\"name\":\"crc32c\"}]";

#[test]
fn checksum_codec_round_trips() {
    let mut p = CodecPipelineImpl::new(META_CRC, Some(true), None, None).unwrap();
    let bytes = i32_bytes(&[5, 6, 7, 8]);
    p.store_chunk("memory://data/c/0", vec![4], "int32", zero_fill(), bytes.clone())
        .unwrap();
    let v = p
        .retrieve_chunk("memory://data/c/0", vec![4], "int32", zero_fill())
        .unwrap();
    assert_eq!(v, bytes);
}

#[test]
fn corrupted_checksum_fails_validation() {
    let mut p = CodecPipelineImpl::new(META_CRC, Some(true), None, None).unwrap();
    let bytes = i32_bytes(&[5, 6, 7, 8]);
    p.store_chunk("memory://data/c/0", vec![4], "int32", zero_fill(), bytes)
        .unwrap();
    let stored = raw_value(&p, b"data/c/0").unwrap();
    let mut corrupt = stored.clone();
    let last = corrupt.len() - 1;
    corrupt[last] ^= 0xff;
    match &mut p.store {
        Some(CodecPipelineStore::Memory(m)) => m.set(b"data/c/0".to_vec(), corrupt),
        None => panic!("store should be initialized"),
    }
    let r = p.retrieve_chunk("memory://data/c/0", vec![4], "int32", zero_fill());
    assert_eq!(r, Err(CodecPipelineError::CodecFailure));
}

#[test]
fn batch_store_is_concurrency_invariant() {
    // two pipelines, same batch, different concurrency budgets: the stored
    // bytes are identical, key for key
    let descriptions = vec![
        ChunkDescription {
            chunk_path: "memory://data/c/0/0".to_string(),
            chunk_shape: vec![4, 4],
            dtype: "int32".to_string(),
            fill_value: zero_fill(),
            selection: vec![slice(0, 4), slice(0, 4)],
            chunk_selection: vec![slice(0, 4), slice(0, 4)],
        },
        ChunkDescription {
            chunk_path: "memory://data/c/0/1".to_string(),
            chunk_shape: vec![4, 4],
            dtype: "int32".to_string(),
            fill_value: zero_fill(),
            selection: vec![slice(0, 4), slice(4, 8)],
            chunk_selection: vec![slice(0, 4), slice(0, 4)],
        },
    ];
    let values: Vec<i32> = (1..=32).collect();
    let input = StoreInput::Array(i32_bytes(&values));
    let mut p1 = pipeline();
    let mut p2 = pipeline();
    p1.store_chunks(&descriptions, &input, &vec![4, 8], 1).unwrap();
    p2.store_chunks(&descriptions, &input, &vec![4, 8], 8).unwrap();
    assert_eq!(raw_value(&p1, b"data/c/0/0"), raw_value(&p2, b"data/c/0/0"));
    assert_eq!(raw_value(&p1, b"data/c/0/1"), raw_value(&p2, b"data/c/0/1"));
    assert!(raw_value(&p1, b"data/c/0/0").is_some());
}

#[test]
fn duplicate_chunk_writes_apply_in_order() {
    // two writes to the same chunk in one batch: the second sees the first's
    // result, and where their regions overlap the later write wins
    let mut p = pipeline();
    let descriptions = vec![
        ChunkDescription {
            chunk_path: "memory://data/c/0/0".to_string(),
            chunk_shape: vec![4, 4],
            dtype: "int32".to_string(),
            fill_value: zero_fill(),
            selection: vec![slice(0, 2), slice(0, 2)],
            chunk_selection: vec![slice(1, 3), slice(1, 3)],
        },
        ChunkDescription {
            chunk_path: "memory://data/c/0/0".to_string(),
            chunk_shape: vec![4, 4],
            dtype: "int32".to_string(),
            fill_value: zero_fill(),
            selection: vec![slice(0, 2), slice(2, 4)],
            chunk_selection: vec![slice(0, 2), slice(0, 2)],
        },
    ];
    let input = StoreInput::Array(i32_bytes(&[7, 7, 9, 9, 7, 7, 9, 9]));
    p.store_chunks(&descriptions, &input, &vec![2, 4], 1).unwrap();
    let v = p
        .retrieve_chunk("memory://data/c/0/0", vec![4, 4], "int32", zero_fill())
        .unwrap();
    let expected: Vec<i32> = vec![
        9, 9, 0, 0,
        9, 9, 7, 0,
        0, 7, 7, 0,
        0, 0, 0, 0,
    ];
    assert_eq!(v, i32_bytes(&expected));
}
