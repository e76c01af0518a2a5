//! The trusted boundary to the `zarrs` codec chain.
//!
//! The codec chain is an outside capability: an ordered sequence of
//! reversible byte transforms built from a JSON metadata list. The codec
//! library also compiles in transforms that are not reversible, so a chain
//! handle is only ever built after a verified check that every codec the
//! metadata names is on this crate's lossless allow-list (`bytes`, `gzip`,
//! `crc32c`). For those codecs, decoding is deterministic in the chain's
//! metadata, the chunk representation, the bytes and the checksum-validation
//! flag, and encoding in all but the flag; those functions are given the
//! names below, and every contract of the pipeline speaks of them. Encoding
//! promises that decoding its output returns its input.

use crate::error::CodecPipelineError;
use crate::bytes_nd::{extract_subset, region_in_bounds};
use crate::nd::product;
use crate::representation::ChunkRepresentation;
use std::sync::Arc;
use vstd::prelude::*;
use zarrs::array::ArrayToBytesCodecTraits;
use zarrs::array::{ArrayBytes, BytesPartialDecoderTraits, CodecError, FillValue};
use zarrs::array::ArraySubset as ZarrsArraySubset;
use std::num::NonZeroU64;

verus! {

#[verifier::external_type_specification]
#[verifier::external_body]
pub struct ExCodecChain(zarrs::array::CodecChain);

#[verifier::external_type_specification]
#[verifier::external_body]
pub struct ExZarrsCodecOptions(zarrs::array::CodecOptions);

#[verifier::external_type_specification]
#[verifier::external_body]
pub struct ExCodecError(zarrs::array::CodecError);

/// Carries the codec library's data type value. Verus refuses a direct
/// declaration of that type (a derived impl on it names a trait Verus has
/// not seen), so it is held opaquely.
#[verifier::external_body]
pub struct DataTypeHandle {
    inner: zarrs::array::DataType,
}

/// Whether a metadata string is a JSON list of codec metadata describing a
/// codec chain this build recognizes: exactly when construction succeeds.
/// The codec library consults runtime plugin registries first; nothing in
/// this program registers codecs or data types at run time, so resolution is
/// the compile-time one and a function of the string per build.
pub uninterp spec fn metadata_ok(meta: Seq<char>) -> bool;

/// The names of the codecs a metadata list carries, in order: a function of
/// the string, meaningful when it parses as a list of codec metadata.
pub uninterp spec fn codec_names_of(meta: Seq<char>) -> Seq<Seq<char>>;

/// Whether a codec name is on this crate's lossless allow-list: the byte
/// serialization, gzip and crc32c codecs, for each of which decode inverts
/// encode.
pub open spec fn codec_allowed(name: Seq<char>) -> bool {
    ||| name == "bytes"@
    ||| name == "gzip"@
    ||| name == "crc32c"@
}

/// Whether every codec a metadata list names is on the lossless allow-list.
pub open spec fn lossless_chain(meta: Seq<char>) -> bool {
    forall|i: int|
        0 <= i < codec_names_of(meta).len() ==> codec_allowed(#[trigger] codec_names_of(meta)[i])
}

/// What the codec chain built from the metadata string `meta` decodes the
/// bytes `encoded` to, for a chunk of the given shape, data type name and
/// fill value. Decoding is deterministic in these arguments alone: the
/// runtime options tune checksum validation and internal concurrency, never
/// the decoded value.
pub uninterp spec fn decode_of(
    meta: Seq<char>,
    shape: Seq<u64>,
    dtype_name: Seq<char>,
    fill: Seq<u8>,
    encoded: Seq<u8>,
) -> Seq<u8>;

/// Whether the codec chain decodes `encoded` successfully: a function of the
/// same arguments as [`decode_of`] together with the checksum-validation
/// flag, which can turn a corrupted payload from an accepted value into an
/// error.
pub uninterp spec fn decode_ok(
    meta: Seq<char>,
    shape: Seq<u64>,
    dtype_name: Seq<char>,
    fill: Seq<u8>,
    encoded: Seq<u8>,
    validate_checksums: bool,
) -> bool;

/// What the codec chain encodes the decoded bytes `decoded` to. With the
/// lossless codecs compiled in here, encoding is deterministic in these
/// arguments alone.
pub uninterp spec fn encode_of(
    meta: Seq<char>,
    shape: Seq<u64>,
    dtype_name: Seq<char>,
    fill: Seq<u8>,
    decoded: Seq<u8>,
) -> Seq<u8>;

/// Whether the codec chain encodes `decoded` successfully: encoding neither
/// reads nor verifies checksums, so success is a function of these arguments
/// alone.
pub uninterp spec fn encode_ok(
    meta: Seq<char>,
    shape: Seq<u64>,
    dtype_name: Seq<char>,
    fill: Seq<u8>,
    decoded: Seq<u8>,
) -> bool;

/// Whether partially decoding the region `[start, start + sub_shape)` of an
/// encoded chunk held in memory succeeds.
pub uninterp spec fn partial_decode_ok(
    meta: Seq<char>,
    shape: Seq<u64>,
    dtype_name: Seq<char>,
    fill: Seq<u8>,
    encoded: Seq<u8>,
    start: Seq<u64>,
    sub_shape: Seq<u64>,
    validate_checksums: bool,
) -> bool;

/// The options fixed once at pipeline construction.
#[derive(Clone, Copy, Debug, PartialEq, Eq, Structural)]
pub struct PipelineOptions {
    /// Whether checksum codecs verify checksums when decoding.
    pub validate_checksums: bool,
    /// Whether empty chunks are stored by the codec layer.
    pub store_empty_chunks: bool,
    /// The concurrency budget the codec chain may use internally.
    pub concurrent_target: usize,
}

impl PipelineOptions {
    /// The default options: checksums are validated, empty chunks are not
    /// stored, and the concurrency budget follows the worker pool's size.
    pub fn defaults() -> (r: PipelineOptions)
        ensures
            r.validate_checksums == true,
            r.store_empty_chunks == false,
    {
        PipelineOptions {
            validate_checksums: true,
            store_empty_chunks: false,
            concurrent_target: default_concurrent_target(),
        }
    }
}

/// A codec chain together with the metadata string it was built from. The
/// chain is only ever constructed by [`codec_chain_from_metadata`], so it is
/// always the chain that its metadata string describes, and every codec it
/// holds is on the lossless allow-list.
pub struct CodecChainHandle {
    chain: Arc<zarrs::array::CodecChain>,
    meta: String,
}

impl CodecChainHandle {
    /// The metadata string the chain was built from.
    pub closed spec fn spec_meta(&self) -> Seq<char> {
        self.meta@
    }
}

/// Relies on `serde_json::from_str` and `CodecChain::from_metadata`: parsing
/// a JSON list of codec metadata and building the chain it describes succeed
/// or fail as a function of the string alone, which `metadata_ok` names —
/// nothing in this program touches the codec library's runtime registries.
/// The two calls are one trusted item because the metadata list between them
/// is an opaque value no contract could speak about.
#[verifier::external_body]
fn parse_codec_chain(metadata: &str) -> (r: Option<zarrs::array::CodecChain>)
    ensures
        r is Some <==> metadata_ok(metadata@),
{
    let parsed: Vec<zarrs::metadata::v3::MetadataV3> = serde_json::from_str(metadata).ok()?;
    zarrs::array::CodecChain::from_metadata(&parsed).ok()
}

/// Relies on `serde_json::from_str` and `MetadataV3::name`: the codec names
/// a metadata list carries, handed out as plain strings. A string whose
/// chain builds certainly parses as a metadata list, so this cannot fail
/// where `metadata_ok` holds.
#[verifier::external_body]
fn metadata_codec_names(metadata: &str) -> (r: Option<Vec<String>>)
    ensures
        metadata_ok(metadata@) ==> r is Some,
        r matches Some(names) ==> names.deep_view() == codec_names_of(metadata@),
{
    let parsed: Vec<zarrs::metadata::v3::MetadataV3> = serde_json::from_str(metadata).ok()?;
    Some(parsed.iter().map(|m| m.name().to_string()).collect())
}

/// Whether every name is on the lossless codec allow-list.
fn codecs_allowed(names: &Vec<String>) -> (r: bool)
    ensures
        r == (forall|i: int|
            0 <= i < names.deep_view().len() ==> codec_allowed(#[trigger] names.deep_view()[i])),
{
    let mut i: usize = 0;
    while i < names.len()
        invariant
            0 <= i <= names@.len(),
            forall|p: int| 0 <= p < i ==> codec_allowed(#[trigger] names.deep_view()[p]),
        decreases names@.len() - i,
    {
        let n = &names[i];
        if !(crate::text::str_equal(n.as_str(), "bytes") || crate::text::str_equal(
            n.as_str(),
            "gzip",
        ) || crate::text::str_equal(n.as_str(), "crc32c")) {
            proof {
                assert(names.deep_view()[i as int] == names@[i as int]@);
            }
            return false;
        }
        proof {
            assert(names.deep_view()[i as int] == names@[i as int]@);
        }
        i += 1;
    }
    true
}

/// Relies on `DataType::from_metadata`: resolves a data type name to the
/// codec library's data type, or fails on a name no registered data type
/// matches.
#[verifier::external_body]
fn zarrs_data_type_from_name(name: &str) -> (r: Option<DataTypeHandle>) {
    let inner = zarrs::array::DataType::from_metadata(&zarrs::metadata::v3::MetadataV3::new(name))
        .ok()?;
    Some(DataTypeHandle { inner })
}

/// Relies on `CodecOptions`' builder methods: packs the option fields into
/// the codec library's option record.
#[verifier::external_body]
fn make_zarrs_codec_options(opts: &PipelineOptions) -> zarrs::array::CodecOptions {
    zarrs::array::CodecOptions::default().with_validate_checksums(opts.validate_checksums)
        .with_store_empty_chunks(opts.store_empty_chunks)
        .with_concurrent_target(opts.concurrent_target)
}

/// Relies on `rayon::current_num_threads`: the worker pool's size, used as
/// the default concurrency budget.
#[verifier::external_body]
fn default_concurrent_target() -> usize {
    rayon::current_num_threads()
}

/// Parse a JSON list of codec metadata and build the codec chain it
/// describes; succeeds exactly on recognized metadata naming only codecs of
/// the lossless allow-list.
pub fn codec_chain_from_metadata(metadata: &str) -> (r: Result<
    CodecChainHandle,
    CodecPipelineError,
>)
    ensures
        r is Ok <==> metadata_ok(metadata@) && lossless_chain(metadata@),
        match r {
            Ok(h) => h.spec_meta() == metadata@,
            Err(e) => e == CodecPipelineError::InvalidMetadata,
        },
{
    let names = match metadata_codec_names(metadata) {
        Some(n) => n,
        None => {
            return Err(CodecPipelineError::InvalidMetadata);
        },
    };
    if !codecs_allowed(&names) {
        return Err(CodecPipelineError::InvalidMetadata);
    }
    match parse_codec_chain(metadata) {
        Some(chain) => Ok(
            CodecChainHandle { chain: Arc::new(chain), meta: metadata.to_owned() },
        ),
        None => Err(CodecPipelineError::InvalidMetadata),
    }
}

/// Relies on `CodecChain::decode` and `DataType::from_metadata`: success and
/// decoded bytes are functions of the chain's metadata, the chunk
/// representation's plain fields and the checksum-validation flag — the data
/// type is resolved from the representation's name right here — and a
/// successful decode is exactly one element per chunk index, since the codec
/// chain rejects output incompatible with the decoded representation.
#[verifier::external_body]
pub(crate) fn chain_decode_raw(
    chain: &CodecChainHandle,
    rep: &ChunkRepresentation,
    encoded: Vec<u8>,
    opts: &PipelineOptions,
) -> (r: Result<Vec<u8>, zarrs::array::CodecError>)
    requires
        forall|d: int| 0 <= d < rep.shape@.len() ==> #[trigger] rep.shape@[d] > 0,
    ensures
        r is Ok <==> decode_ok(
            chain.spec_meta(),
            rep.shape@,
            rep.data_type.spec_name(),
            rep.fill_value@,
            encoded@,
            opts.validate_checksums,
        ),
        r matches Ok(dec) ==> dec@ == decode_of(
            chain.spec_meta(),
            rep.shape@,
            rep.data_type.spec_name(),
            rep.fill_value@,
            encoded@,
        ) && dec@.len() == product(rep.shape@) * rep.data_type.spec_size(),
{
    let dt = zarrs_data_type_from_name(rep.data_type.name()).ok_or(CodecError::from("unresolved data type"))?;
    let shape: Vec<NonZeroU64> = rep.shape.iter().map(|x| NonZeroU64::new(*x).unwrap()).collect();
    let fill = FillValue::new(rep.fill_value.clone());
    let zopts = make_zarrs_codec_options(opts);
    let bytes = chain.chain.decode(std::borrow::Cow::Owned(encoded), &shape, &dt.inner, &fill, &zopts)?;
    Ok(bytes.into_fixed().map_err(CodecError::from)?.into_owned())
}

/// Relies on `CodecChain::encode` undoing `CodecChain::decode`: a codec
/// chain is a sequence of reversible transforms, so decoding whatever encode
/// returned — under either checksum setting — gives back encode's input.
/// With the lossless codecs compiled in here, the encoded bytes themselves
/// are a deterministic function of the arguments, named `encode_of`.
#[verifier::external_body]
pub(crate) fn chain_encode_raw(
    chain: &CodecChainHandle,
    rep: &ChunkRepresentation,
    decoded: Vec<u8>,
    opts: &PipelineOptions,
) -> (r: Result<Vec<u8>, zarrs::array::CodecError>)
    requires
        forall|d: int| 0 <= d < rep.shape@.len() ==> #[trigger] rep.shape@[d] > 0,
    ensures
        r is Ok <==> encode_ok(
            chain.spec_meta(),
            rep.shape@,
            rep.data_type.spec_name(),
            rep.fill_value@,
            decoded@,
        ),
        r matches Ok(enc) ==> enc@ == encode_of(
            chain.spec_meta(),
            rep.shape@,
            rep.data_type.spec_name(),
            rep.fill_value@,
            decoded@,
        ) && decode_of(
            chain.spec_meta(),
            rep.shape@,
            rep.data_type.spec_name(),
            rep.fill_value@,
            enc@,
        ) == decoded@ && (forall|vc: bool|
            #[trigger] decode_ok(
                chain.spec_meta(),
                rep.shape@,
                rep.data_type.spec_name(),
                rep.fill_value@,
                enc@,
                vc,
            )),
{
    let dt = zarrs_data_type_from_name(rep.data_type.name()).ok_or(CodecError::from("unresolved data type"))?;
    let shape: Vec<NonZeroU64> = rep.shape.iter().map(|x| NonZeroU64::new(*x).unwrap()).collect();
    let fill = FillValue::new(rep.fill_value.clone());
    let zopts = make_zarrs_codec_options(opts);
    let bytes = chain.chain.encode(ArrayBytes::new_flen(std::borrow::Cow::Owned(decoded)), &shape, &dt.inner, &fill, &zopts)?;
    Ok(bytes.into_owned())
}

/// Relies on `CodecChain::partial_decoder` over an in-memory byte handle:
/// partially decoding a region returns exactly that region of the full
/// decode, without materializing the whole chunk, and succeeds or fails as a
/// function of the arguments and the checksum-validation flag.
#[verifier::external_body]
pub(crate) fn chain_partial_decode_raw(
    chain: &CodecChainHandle,
    rep: &ChunkRepresentation,
    encoded: Vec<u8>,
    start: &Vec<u64>,
    sub_shape: &Vec<u64>,
    opts: &PipelineOptions,
) -> (r: Result<Vec<u8>, zarrs::array::CodecError>)
    requires
        forall|d: int| 0 <= d < rep.shape@.len() ==> #[trigger] rep.shape@[d] > 0,
        region_in_bounds(start@, sub_shape@, rep.shape@),
    ensures
        r is Ok <==> partial_decode_ok(
            chain.spec_meta(),
            rep.shape@,
            rep.data_type.spec_name(),
            rep.fill_value@,
            encoded@,
            start@,
            sub_shape@,
            opts.validate_checksums,
        ),
        r matches Ok(dec) ==> dec@ == extract_subset(
            decode_of(
                chain.spec_meta(),
                rep.shape@,
                rep.data_type.spec_name(),
                rep.fill_value@,
                encoded@,
            ),
            rep.shape@,
            start@,
            sub_shape@,
            rep.data_type.spec_size(),
        ),
{
    let dt = zarrs_data_type_from_name(rep.data_type.name()).ok_or(CodecError::from("unresolved data type"))?;
    let shape: Vec<NonZeroU64> = rep.shape.iter().map(|x| NonZeroU64::new(*x).unwrap()).collect();
    let fill = FillValue::new(rep.fill_value.clone());
    let zopts = make_zarrs_codec_options(opts);
    let input: Arc<dyn BytesPartialDecoderTraits> = Arc::new(encoded);
    let decoder = chain.chain.clone().partial_decoder(input, &shape, &dt.inner, &fill, &zopts)?;
    let subset = ZarrsArraySubset::new_with_start_shape(start.clone(), sub_shape.clone()).unwrap();
    let bytes = decoder.partial_decode(&subset, &zopts)?;
    Ok(bytes.into_fixed().map_err(CodecError::from)?.into_owned())
}

/// Any codec chain failure is a codec error.
pub(crate) fn codec_error(_e: zarrs::array::CodecError) -> (r: CodecPipelineError)
    ensures
        r == CodecPipelineError::CodecFailure,
{
    CodecPipelineError::CodecFailure
}

} // verus!
