use codec_pipeline::error::CodecPipelineError;
use codec_pipeline::http_store::HttpStoreConfig;
use codec_pipeline::pipeline::{ChunkDescription, CodecPipelineImpl, StoreInput};
use codec_pipeline::representation::{parse_element_type, ChunkRepresentation, ElementType};
use codec_pipeline::subset::{selection_to_array_subset, slice_to_range, SliceRange};

const META: &str = "[{\"name\":\"bytes\",\"configuration\":{\"endian\":\"little\"}},{\"name\":\"gzip\",\"configuration\":{\"level\":5}}]";

fn pipeline() -> CodecPipelineImpl {
    CodecPipelineImpl::new(META, None, None, None).unwrap()
}

fn slice(start: i64, stop: i64) -> SliceRange {
    SliceRange { start, stop, step: 1 }
}

#[test]
fn empty_selection_on_scalar_shape_is_single_element() {
    let subset = selection_to_array_subset(&vec![], &vec![1]).unwrap();
    assert_eq!(subset.shape, vec![1]);
    assert_eq!(subset.start, vec![0]);
}

#[test]
fn empty_selection_matches_dimensionality() {
    let subset = selection_to_array_subset(&vec![], &vec![3, 5]).unwrap();
    assert_eq!(subset.shape, vec![1, 1]);
    assert_eq!(subset.start, vec![0, 0]);
}

#[test]
fn non_unit_step_is_rejected() {
    let r = slice_to_range(&SliceRange { start: 0, stop: 4, step: 2 }, 8);
    assert_eq!(r, Err(CodecPipelineError::UnsupportedSelectionStep));
}

#[test]
fn negative_bound_after_normalization_is_rejected() {
    // -5 against a length of 3 normalizes to -2, still negative
    let r = slice_to_range(&SliceRange { start: -5, stop: 2, step: 1 }, 3);
    assert_eq!(r, Err(CodecPipelineError::NegativeSelectionBound));
    let r = slice_to_range(&SliceRange { start: 0, stop: -4, step: 1 }, 3);
    assert_eq!(r, Err(CodecPipelineError::NegativeSelectionBound));
}

#[test]
fn negative_bounds_count_from_the_end() {
    let r = slice_to_range(&SliceRange { start: -2, stop: -1, step: 1 }, 4).unwrap();
    assert_eq!(r, (2, 3));
}

#[test]
fn inverted_slice_denotes_an_empty_range() {
    let r = slice_to_range(&SliceRange { start: 3, stop: 1, step: 1 }, 4).unwrap();
    assert_eq!(r, (3, 3));
}

#[test]
fn selection_dimension_mismatch_is_rejected() {
    let r = selection_to_array_subset(&vec![slice(0, 1)], &vec![4, 4]);
    assert_eq!(r.err().unwrap(), CodecPipelineError::SelectionDimensionMismatch);
}

#[test]
fn data_type_names_resolve_to_sizes() {
    assert_eq!(parse_element_type("int32"), Some(ElementType::Int32));
    assert_eq!(ElementType::Int32.size(), 4);
    assert_eq!(ElementType::Complex128.size(), 16);
    assert_eq!(parse_element_type("float128"), None);
}

#[test]
fn representation_validation_errors() {
    let r = ChunkRepresentation::new(vec![4, 4], "notadtype", vec![0; 4]);
    assert_eq!(r.err().unwrap(), CodecPipelineError::UnsupportedDataType);
    let r = ChunkRepresentation::new(vec![4, 0], "int32", vec![0; 4]);
    assert_eq!(r.err().unwrap(), CodecPipelineError::ZeroChunkDimension);
    let r = ChunkRepresentation::new(vec![4, 4], "int32", vec![0; 3]);
    assert_eq!(r.err().unwrap(), CodecPipelineError::InvalidFillValueLength);
    let r = ChunkRepresentation::new(vec![u64::MAX, u64::MAX, 8], "int32", vec![0; 4]);
    assert_eq!(r.err().unwrap(), CodecPipelineError::ChunkTooLarge);
}

#[test]
fn malformed_metadata_is_rejected() {
    let r = CodecPipelineImpl::new("not json", None, None, None);
    assert_eq!(r.err().unwrap(), CodecPipelineError::InvalidMetadata);
    let r = CodecPipelineImpl::new("[{\"name\":\"nosuchcodec\"}]", None, None, None);
    assert_eq!(r.err().unwrap(), CodecPipelineError::InvalidMetadata);
}

#[test]
fn options_are_recorded() {
    let p = CodecPipelineImpl::new(META, Some(false), Some(true), Some(7)).unwrap();
    assert!(!p.codec_options.validate_checksums);
    assert!(p.codec_options.store_empty_chunks);
    assert_eq!(p.codec_options.concurrent_target, 7);
    let p = CodecPipelineImpl::new(META, None, None, None).unwrap();
    assert!(p.codec_options.validate_checksums);
    assert!(!p.codec_options.store_empty_chunks);
}

#[test]
fn unsupported_scheme_is_rejected() {
    let mut p = pipeline();
    let r = p.retrieve_chunk("s3://bucket/key", vec![4], "int32", vec![0; 4]);
    assert_eq!(r.err().unwrap(), CodecPipelineError::UnsupportedStoreScheme);
}

#[test]
fn store_type_cannot_change() {
    let mut p = pipeline();
    p.retrieve_chunk("memory://data/c/0", vec![4], "int32", vec![0; 4]).unwrap();
    let r = p.retrieve_chunk("file:///tmp/data/c/0", vec![4], "int32", vec![0; 4]);
    assert_eq!(r.err().unwrap(), CodecPipelineError::StoreTypeMismatch);
}

#[test]
fn file_scheme_is_not_served_by_the_memory_engine() {
    let mut p = pipeline();
    let r = p.retrieve_chunk("file:///tmp/data/c/0", vec![4], "int32", vec![0; 4]);
    assert_eq!(r.err().unwrap(), CodecPipelineError::UnsupportedStoreScheme);
}

#[test]
fn buffer_size_mismatch_is_rejected() {
    let mut p = pipeline();
    let r = p.store_chunk("memory://data/c/0", vec![4], "int32", vec![0; 4], vec![0; 15]);
    assert_eq!(r.err().unwrap(), CodecPipelineError::BufferSizeMismatch);
    // a batch write whose input buffer does not match the input shape
    let descriptions = vec![ChunkDescription {
        chunk_path: "memory://data/c/0".to_string(),
        chunk_shape: vec![4],
        dtype: "int32".to_string(),
        fill_value: vec![0; 4],
        selection: vec![slice(0, 2)],
        chunk_selection: vec![slice(0, 2)],
    }];
    let input = StoreInput::Array(vec![0; 7]);
    let r = p.store_chunks(&descriptions, &input, &vec![2], 1);
    assert_eq!(r.err().unwrap(), CodecPipelineError::BufferSizeMismatch);
}

#[test]
fn http_store_options_are_validated() {
    let c = HttpStoreConfig::new(
        "http://example.invalid/data",
        &vec!["asynchronous".to_string()],
    )
    .unwrap();
    assert_eq!(c.root, "http://example.invalid/data");
    let r = HttpStoreConfig::new(
        "http://example.invalid/data",
        &vec!["asynchronous".to_string(), "retries".to_string()],
    );
    assert_eq!(r.err().unwrap(), CodecPipelineError::UnsupportedStorageOption);
}

#[test]
fn error_messages_name_their_cause() {
    assert_eq!(
        CodecPipelineError::UnsupportedSelectionStep.message(),
        "slice step must be equal to 1"
    );
    assert_eq!(CodecPipelineError::StoreTypeMismatch.message(), "the store type changed");
}

#[test]
fn empty_batch_leaves_the_buffer_untouched() {
    let mut p = pipeline();
    let mut out = vec![0x5au8; 16];
    p.retrieve_chunks(&vec![], &mut out, &vec![2, 2], 4).unwrap();
    assert_eq!(out, vec![0x5au8; 16]);
    p.store_chunks(&vec![], &StoreInput::Array(vec![0; 16]), &vec![2, 2], 4).unwrap();
}

#[test]
fn retrieval_buffer_of_wrong_size_is_rejected() {
    let mut p = pipeline();
    let descriptions = vec![ChunkDescription {
        chunk_path: "memory://data/c/0".to_string(),
        chunk_shape: vec![4],
        dtype: "int32".to_string(),
        fill_value: vec![0; 4],
        selection: vec![slice(0, 4)],
        chunk_selection: vec![slice(0, 4)],
    }];
    let mut out = vec![0u8; 15];
    let r = p.retrieve_chunks(&descriptions, &mut out, &vec![4], 1);
    assert_eq!(r.err().unwrap(), CodecPipelineError::BufferSizeMismatch);
}

#[test]
fn codecs_off_the_lossless_list_are_rejected() {
    // the codec library also links transforms that lose information when
    // they encode; a chain naming one is refused at construction
    let meta = "[{\"name\":\"bytes\",\"configuration\":{\"endian\":\"little\"}},{\"name\":\"numcodecs.fixedscaleoffset\",\"configuration\":{\"offset\":0,\"scale\":10,\"dtype\":\"<f8\",\"astype\":\"<i4\"}}]";
    let r = CodecPipelineImpl::new(meta, None, None, None);
    assert_eq!(r.err().unwrap(), CodecPipelineError::InvalidMetadata);
}

#[test]
fn the_full_lossless_chain_is_accepted() {
    let meta = "[{\"name\":\"bytes\",\"configuration\":{\"endian\":\"little\"}},{\"name\":\"gzip\",\"configuration\":{\"level\":5}},{\"name\":\"crc32c\"}]";
    let mut p = CodecPipelineImpl::new(meta, None, None, None).unwrap();
    let bytes = vec![1u8, 2, 3, 4, 5, 6, 7, 8];
    p.store_chunk("memory://data/c/0", vec![2], "int32", vec![0; 4], bytes.clone())
        .unwrap();
    let v = p
        .retrieve_chunk("memory://data/c/0", vec![2], "int32", vec![0; 4])
        .unwrap();
    assert_eq!(v, bytes);
}
