//! The pipeline's error taxonomy.
//!
//! Configuration errors are fatal at construction, validation errors abort a
//! call before any storage mutation, and codec errors abort the in-flight
//! operation.

use vstd::prelude::*;

verus! {

/// Everything that can go wrong in the pipeline.
#[derive(Clone, Copy, Debug, PartialEq, Eq, Structural)]
pub enum CodecPipelineError {
    /// The codec metadata could not be parsed or holds an unknown codec.
    InvalidMetadata,
    /// The data type name is not a supported fixed-width data type.
    UnsupportedDataType,
    /// A chunk shape has a zero-length dimension.
    ZeroChunkDimension,
    /// The fill value's byte length does not equal one element's byte size.
    InvalidFillValueLength,
    /// A chunk's byte size does not fit in the machine's address space.
    ChunkTooLarge,
    /// A selection uses a step other than one.
    UnsupportedSelectionStep,
    /// A selection bound is still negative after normalization.
    NegativeSelectionBound,
    /// A selection's dimensionality does not match the shape's.
    SelectionDimensionMismatch,
    /// A subset reaches outside the shape it is addressed against.
    SubsetOutOfBounds,
    /// A buffer's byte length does not match a subset's element count.
    BufferSizeMismatch,
    /// The encode or decode call of the codec chain failed.
    CodecFailure,
    /// A store path uses a scheme this pipeline cannot serve.
    UnsupportedStoreScheme,
    /// A store path addresses a different backend kind than the one the
    /// pipeline was initialized with.
    StoreTypeMismatch,
    /// A storage option is not supported by the chosen backend.
    UnsupportedStorageOption,
}

impl CodecPipelineError {
    /// A short human-readable description of the error.
    pub fn message(&self) -> (r: &'static str)
    {
        match self {
            CodecPipelineError::InvalidMetadata => "codec metadata is invalid",
            CodecPipelineError::UnsupportedDataType => "unsupported data type",
            CodecPipelineError::ZeroChunkDimension => {
                "chunk shapes should always be non-zero"
            },
            CodecPipelineError::InvalidFillValueLength => {
                "fill value length does not match the data type size"
            },
            CodecPipelineError::ChunkTooLarge => "chunk byte size overflows",
            CodecPipelineError::UnsupportedSelectionStep => {
                "slice step must be equal to 1"
            },
            CodecPipelineError::NegativeSelectionBound => {
                "slice bounds must be greater than or equal to 0"
            },
            CodecPipelineError::SelectionDimensionMismatch => {
                "selection dimensionality does not match the shape"
            },
            CodecPipelineError::SubsetOutOfBounds => "chunk subset is out of bounds",
            CodecPipelineError::BufferSizeMismatch => {
                "buffer length does not match the subset size"
            },
            CodecPipelineError::CodecFailure => "codec encode or decode failed",
            CodecPipelineError::UnsupportedStoreScheme => "unsupported store",
            CodecPipelineError::StoreTypeMismatch => "the store type changed",
            CodecPipelineError::UnsupportedStorageOption => {
                "unsupported storage option"
            },
        }
    }
}

} // verus!
