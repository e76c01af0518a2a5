//! The pipeline engine: chunk items, per-chunk retrieval and storage with
//! read-modify-write, and the batch drivers over a shared buffer.
//!
//! A pipeline instance is bound to one store backend, chosen by the first
//! path's URI scheme and never changed afterwards. The engine here serves the
//! in-memory backend; paths of other schemes are parsed and handed to an
//! outer driver.

use crate::bytes_nd::{
    byte_index, extract_subset, extract_subset_bytes, fill_seq, fill_subset_bytes, is_fill,
    is_fill_pattern, lemma_extract_fill, lemma_full_cover_extract, lemma_spliced_is_splice_spec,
    region_in_bounds, repeat_fill, splice_spec, spliced, write_subset_bytes,
};
use crate::codec::{
    chain_decode_raw, chain_encode_raw, chain_partial_decode_raw, codec_chain_from_metadata,
    codec_error, decode_of, decode_ok, encode_of, encode_ok, metadata_ok, partial_decode_ok,
    CodecChainHandle, PipelineOptions,
};
use crate::error::CodecPipelineError;
use crate::nd::{in_region, lemma_product_monotone, lemma_product_pos, product, valid_index, vec_sub};
use crate::representation::{parse_element_type_spec, representation_error, representation_ok, ChunkRepresentation};
use crate::store::{copy_bytes, MemoryStore};
use crate::subset::{selection_to_array_subset, ArraySubset, SliceRange};
use vstd::prelude::*;
use vstd::string::StringSliceAdditionalSpecFns;

verus! {

/// The decoded bytes of the chunk stored at `key`, or the all-fill chunk when
/// the key is absent, over the representation's plain fields.
pub open spec fn spec_chunk_bytes_p(
    meta: Seq<char>,
    shape: Seq<u64>,
    dtype_name: Seq<char>,
    fill: Seq<u8>,
    m: Map<Seq<u8>, Seq<u8>>,
    key: Seq<u8>,
) -> Seq<u8> {
    if m.contains_key(key) {
        decode_of(meta, shape, dtype_name, fill, m[key])
    } else {
        fill_seq(product(shape), fill)
    }
}

/// The decoded bytes of the chunk stored at `key`, or the all-fill chunk when
/// the key is absent.
pub open spec fn spec_chunk_bytes(
    meta: Seq<char>,
    rep: ChunkRepresentation,
    m: Map<Seq<u8>, Seq<u8>>,
    key: Seq<u8>,
) -> Seq<u8> {
    spec_chunk_bytes_p(meta, rep.shape@, rep.data_type.spec_name(), rep.fill_value@, m, key)
}

/// Whether the chunk stored at `key` can be fetched: an absent chunk always
/// can (its fill is synthesized), a present one exactly when it decodes.
pub open spec fn chunk_readable_p(
    meta: Seq<char>,
    shape: Seq<u64>,
    dtype_name: Seq<char>,
    fill: Seq<u8>,
    m: Map<Seq<u8>, Seq<u8>>,
    key: Seq<u8>,
    validate_checksums: bool,
) -> bool {
    m.contains_key(key) ==> decode_ok(meta, shape, dtype_name, fill, m[key], validate_checksums)
}

/// Whether the chunk stored at `key` can be fetched under a representation.
pub open spec fn chunk_readable(
    meta: Seq<char>,
    rep: ChunkRepresentation,
    m: Map<Seq<u8>, Seq<u8>>,
    key: Seq<u8>,
    validate_checksums: bool,
) -> bool {
    chunk_readable_p(
        meta,
        rep.shape@,
        rep.data_type.spec_name(),
        rep.fill_value@,
        m,
        key,
        validate_checksums,
    )
}

/// Whether decoded chunk contents can be committed: an all-fill chunk is
/// erased, which always succeeds, anything else must encode.
pub open spec fn chunk_storable_p(
    meta: Seq<char>,
    shape: Seq<u64>,
    dtype_name: Seq<char>,
    fill: Seq<u8>,
    merged: Seq<u8>,
) -> bool {
    is_fill_pattern(merged, fill) || encode_ok(meta, shape, dtype_name, fill, merged)
}

/// Whether decoded chunk contents can be committed under a representation.
pub open spec fn chunk_storable(
    meta: Seq<char>,
    rep: ChunkRepresentation,
    merged: Seq<u8>,
) -> bool {
    chunk_storable_p(meta, rep.shape@, rep.data_type.spec_name(), rep.fill_value@, merged)
}

/// Whether a region covers all of `shape`: it starts at the origin and its
/// extent equals the shape.
pub open spec fn full_cover_region(start: Seq<u64>, sub_shape: Seq<u64>, shape: Seq<u64>) -> bool {
    &&& start.len() == shape.len()
    &&& sub_shape == shape
    &&& forall|d: int| 0 <= d < start.len() ==> start[d] == 0
}

/// How a store map changes when new decoded bytes `merged` replace a chunk:
/// an all-fill chunk is erased, anything else is stored as its encoding,
/// which decodes back to `merged` under either checksum setting.
pub open spec fn chunk_store_step(
    meta: Seq<char>,
    rep: ChunkRepresentation,
    old_m: Map<Seq<u8>, Seq<u8>>,
    new_m: Map<Seq<u8>, Seq<u8>>,
    key: Seq<u8>,
    merged: Seq<u8>,
) -> bool {
    if is_fill_pattern(merged, rep.fill_value@) {
        new_m == old_m.remove(key)
    } else {
        let enc = encode_of(meta, rep.shape@, rep.data_type.spec_name(), rep.fill_value@, merged);
        &&& new_m == old_m.insert(key, enc)
        &&& decode_of(meta, rep.shape@, rep.data_type.spec_name(), rep.fill_value@, enc) == merged
        &&& forall|vc: bool|
            #[trigger] decode_ok(
                meta,
                rep.shape@,
                rep.data_type.spec_name(),
                rep.fill_value@,
                enc,
                vc,
            )
    }
}

/// The merged chunk contents one sub-region write produces: a full-cover
/// write replaces the chunk with the new bytes without reading it, a partial
/// write splices the new bytes into the chunk's current contents.
pub open spec fn subset_merged_p(
    meta: Seq<char>,
    shape: Seq<u64>,
    dtype_name: Seq<char>,
    fill: Seq<u8>,
    esize: nat,
    m: Map<Seq<u8>, Seq<u8>>,
    key: Seq<u8>,
    cs_start: Seq<u64>,
    cs_shape: Seq<u64>,
    bytes: Seq<u8>,
) -> Seq<u8> {
    if full_cover_region(cs_start, cs_shape, shape) {
        bytes
    } else {
        splice_spec(
            spec_chunk_bytes_p(meta, shape, dtype_name, fill, m, key),
            shape,
            cs_start,
            cs_shape,
            bytes,
            esize,
        )
    }
}

/// The merged chunk contents of a sub-region write, under a representation.
pub open spec fn subset_merged(
    meta: Seq<char>,
    rep: ChunkRepresentation,
    m: Map<Seq<u8>, Seq<u8>>,
    key: Seq<u8>,
    cs_start: Seq<u64>,
    cs_shape: Seq<u64>,
    bytes: Seq<u8>,
) -> Seq<u8> {
    subset_merged_p(
        meta,
        rep.shape@,
        rep.data_type.spec_name(),
        rep.fill_value@,
        rep.spec_size(),
        m,
        key,
        cs_start,
        cs_shape,
        bytes,
    )
}

/// Whether one sub-region write succeeds: a partial write must be able to
/// read the chunk's current contents, and the merged chunk must be
/// committable.
pub open spec fn subset_write_ok(
    meta: Seq<char>,
    rep: ChunkRepresentation,
    m: Map<Seq<u8>, Seq<u8>>,
    key: Seq<u8>,
    cs_start: Seq<u64>,
    cs_shape: Seq<u64>,
    bytes: Seq<u8>,
    validate_checksums: bool,
) -> bool {
    &&& (!full_cover_region(cs_start, cs_shape, rep.shape@) ==> chunk_readable(
        meta,
        rep,
        m,
        key,
        validate_checksums,
    ))
    &&& chunk_storable(meta, rep, subset_merged(meta, rep, m, key, cs_start, cs_shape, bytes))
}

/// Fetch a chunk's decoded bytes: the stored value decoded, or the all-fill
/// chunk when the key is absent. Succeeds exactly when the chunk is readable.
pub fn retrieve_chunk_bytes(
    store: &MemoryStore,
    key: &Vec<u8>,
    chain: &CodecChainHandle,
    rep: &ChunkRepresentation,
    opts: &PipelineOptions,
) -> (r: Result<Vec<u8>, CodecPipelineError>)
    requires
        store.wf(),
        rep.wf(),
    ensures
        r is Ok <==> chunk_readable(
            chain.spec_meta(),
            *rep,
            store@,
            key@,
            opts.validate_checksums,
        ),
        match r {
            Ok(v) => v@ == spec_chunk_bytes(chain.spec_meta(), *rep, store@, key@) && v@.len()
                == product(rep.shape@) * rep.spec_size(),
            Err(e) => e == CodecPipelineError::CodecFailure && store@.contains_key(key@),
        },
{
    let count = rep.num_elements();
    proof {
        assert(usize::MAX <= u64::MAX);
    }
    match store.get(key) {
        None => {
            Ok(repeat_fill(count, &rep.fill_value))
        },
        Some(encoded) => {
            match chain_decode_raw(chain, rep, encoded, opts) {
                Ok(d) => Ok(d),
                Err(e) => Err(codec_error(e)),
            }
        },
    }
}

/// Store a chunk's decoded bytes: a chunk equal to the fill value everywhere
/// is represented by absence, anything else is encoded and stored. Succeeds
/// exactly when the contents are committable.
pub fn store_chunk_bytes(
    store: &mut MemoryStore,
    key: &Vec<u8>,
    chain: &CodecChainHandle,
    rep: &ChunkRepresentation,
    decoded: Vec<u8>,
    opts: &PipelineOptions,
) -> (r: Result<(), CodecPipelineError>)
    requires
        old(store).wf(),
        rep.wf(),
        decoded@.len() == product(rep.shape@) * rep.spec_size(),
    ensures
        final(store).wf(),
        r is Ok <==> chunk_storable(chain.spec_meta(), *rep, decoded@),
        r is Ok ==> chunk_store_step(
            chain.spec_meta(),
            *rep,
            old(store)@,
            final(store)@,
            key@,
            decoded@,
        ),
        r is Err ==> r == Err::<(), CodecPipelineError>(CodecPipelineError::CodecFailure) && final(store)@ == old(store)@,
{
    if is_fill(&decoded, &rep.fill_value) {
        store.erase(key);
        Ok(())
    } else {
        match chain_encode_raw(chain, rep, decoded, opts) {
            Ok(encoded) => {
                store.set(copy_bytes(key), encoded);
                Ok(())
            },
            Err(e) => Err(codec_error(e)),
        }
    }
}

/// Write the bytes of a chunk-local sub-region, reading, splicing and
/// re-storing the chunk when the region does not cover it whole.
///
/// The region's byte length and bounds are validated before any store
/// mutation; a write covering the whole chunk skips the read entirely. On
/// valid inputs the write succeeds exactly when the chunk is readable (where
/// it must be read) and the merged contents are committable.
pub fn store_chunk_subset_bytes(
    store: &mut MemoryStore,
    key: &Vec<u8>,
    chain: &CodecChainHandle,
    rep: &ChunkRepresentation,
    subset_bytes: Vec<u8>,
    chunk_subset: &ArraySubset,
    opts: &PipelineOptions,
) -> (r: Result<(), CodecPipelineError>)
    requires
        old(store).wf(),
        rep.wf(),
        chunk_subset.wf(),
    ensures
        final(store).wf(),
        r is Err ==> final(store)@ == old(store)@,
        subset_bytes@.len() != product(chunk_subset.shape@) * rep.spec_size() ==> r == Err::<
            (),
            CodecPipelineError,
        >(CodecPipelineError::BufferSizeMismatch),
        subset_bytes@.len() == product(chunk_subset.shape@) * rep.spec_size()
            && !region_in_bounds(chunk_subset.start@, chunk_subset.shape@, rep.shape@) ==> r
            == Err::<(), CodecPipelineError>(CodecPipelineError::SubsetOutOfBounds),
        r is Err && subset_bytes@.len() == product(chunk_subset.shape@) * rep.spec_size()
            && region_in_bounds(chunk_subset.start@, chunk_subset.shape@, rep.shape@) ==> r
            == Err::<(), CodecPipelineError>(CodecPipelineError::CodecFailure),
        subset_bytes@.len() == product(chunk_subset.shape@) * rep.spec_size() && region_in_bounds(
            chunk_subset.start@,
            chunk_subset.shape@,
            rep.shape@,
        ) ==> (r is Ok <==> subset_write_ok(
            chain.spec_meta(),
            *rep,
            old(store)@,
            key@,
            chunk_subset.start@,
            chunk_subset.shape@,
            subset_bytes@,
            opts.validate_checksums,
        )),
        r is Ok ==> chunk_store_step(
            chain.spec_meta(),
            *rep,
            old(store)@,
            final(store)@,
            key@,
            subset_merged(
                chain.spec_meta(),
                *rep,
                old(store)@,
                key@,
                chunk_subset.start@,
                chunk_subset.shape@,
                subset_bytes@,
            ),
        ),
{
    let esize = rep.data_type.size();
    // validate the byte length
    let sub_count = match chunk_subset.num_elements_checked() {
        Some(n) => n,
        None => {
            proof {
                assert(subset_bytes@.len() == subset_bytes.len());
                assert(usize::MAX <= u64::MAX);
                assert(subset_bytes@.len() < product(chunk_subset.shape@) * rep.spec_size())
                    by (nonlinear_arith)
                    requires
                        subset_bytes@.len() <= u64::MAX,
                        product(chunk_subset.shape@) > u64::MAX,
                        rep.spec_size() >= 1,
                ;
            }
            return Err(CodecPipelineError::BufferSizeMismatch);
        },
    };
    proof {
        assert(subset_bytes@.len() == subset_bytes.len());
        assert(usize::MAX <= u64::MAX);
    }
    if !crate::representation::mul_fits_usize(sub_count, esize) {
        proof {
            assert(subset_bytes@.len() < product(chunk_subset.shape@) * rep.spec_size());
        }
        return Err(CodecPipelineError::BufferSizeMismatch);
    }
    proof {
        assert(sub_count as nat <= usize::MAX) by (nonlinear_arith)
            requires
                sub_count as nat * esize as nat <= usize::MAX,
                esize >= 1,
        ;
    }
    let expected: usize = (sub_count as usize) * esize;
    if subset_bytes.len() != expected {
        return Err(CodecPipelineError::BufferSizeMismatch);
    }
    proof {
        assert(subset_bytes@.len() == product(chunk_subset.shape@) * rep.spec_size());
    }
    // validate the bounds
    if !chunk_subset.inbounds(&rep.shape) {
        return Err(CodecPipelineError::SubsetOutOfBounds);
    }
    if chunk_subset.is_full_cover(&rep.shape) {
        // a full-cover write needs no read of the current chunk
        proof {
            assert(full_cover_region(chunk_subset.start@, chunk_subset.shape@, rep.shape@));
        }
        store_chunk_bytes(store, key, chain, rep, subset_bytes, opts)
    } else {
        // read-modify-write
        proof {
            assert(!full_cover_region(chunk_subset.start@, chunk_subset.shape@, rep.shape@));
        }
        let old_chunk = match retrieve_chunk_bytes(store, key, chain, rep, opts) {
            Ok(v) => v,
            Err(e) => {
                return Err(e);
            },
        };
        let ghost old_decoded = old_chunk@;
        let mut merged = old_chunk;
        write_subset_bytes(
            &mut merged,
            &rep.shape,
            &chunk_subset.start,
            &chunk_subset.shape,
            &subset_bytes,
            esize,
        );
        proof {
            lemma_spliced_is_splice_spec(
                old_decoded,
                merged@,
                rep.shape@,
                chunk_subset.start@,
                chunk_subset.shape@,
                subset_bytes@,
                rep.spec_size(),
            );
            assert(merged@ == subset_merged(
                chain.spec_meta(),
                *rep,
                old(store)@,
                key@,
                chunk_subset.start@,
                chunk_subset.shape@,
                subset_bytes@,
            ));
        }
        store_chunk_bytes(store, key, chain, rep, merged, opts)
    }
}

/// The bytes of the `memory://` URI scheme prefix.
pub open spec fn memory_scheme() -> Seq<u8> {
    seq![0x6du8, 0x65u8, 0x6du8, 0x6fu8, 0x72u8, 0x79u8, 0x3au8, 0x2fu8, 0x2fu8]
}

/// The bytes of the `file://` URI scheme prefix.
pub open spec fn file_scheme() -> Seq<u8> {
    seq![0x66u8, 0x69u8, 0x6cu8, 0x65u8, 0x3au8, 0x2fu8, 0x2fu8]
}

/// Whether `b` starts with `p`.
pub open spec fn has_prefix(b: Seq<u8>, p: Seq<u8>) -> bool {
    b.len() >= p.len() && b.take(p.len() as int) == p
}

/// The `memory://` prefix, as runnable bytes.
fn memory_scheme_exec() -> (r: Vec<u8>)
    ensures
        r@ == memory_scheme(),
{
    let mut v: Vec<u8> = Vec::new();
    v.push(0x6d);
    v.push(0x65);
    v.push(0x6d);
    v.push(0x6f);
    v.push(0x72);
    v.push(0x79);
    v.push(0x3a);
    v.push(0x2f);
    v.push(0x2f);
    proof {
        assert(v@ =~= memory_scheme());
    }
    v
}

/// The `file://` prefix, as runnable bytes.
fn file_scheme_exec() -> (r: Vec<u8>)
    ensures
        r@ == file_scheme(),
{
    let mut v: Vec<u8> = Vec::new();
    v.push(0x66);
    v.push(0x69);
    v.push(0x6c);
    v.push(0x65);
    v.push(0x3a);
    v.push(0x2f);
    v.push(0x2f);
    proof {
        assert(v@ =~= file_scheme());
    }
    v
}

/// Whether a byte slice starts with the given prefix.
fn prefix_matches(b: &[u8], p: &Vec<u8>) -> (r: bool)
    ensures
        r == has_prefix(b@, p@),
{
    if b.len() < p.len() {
        return false;
    }
    let mut i: usize = 0;
    while i < p.len()
        invariant
            0 <= i <= p@.len(),
            p@.len() <= b@.len(),
            forall|q: int| 0 <= q < i ==> b@[q] == p@[q],
        decreases p@.len() - i,
    {
        if b[i] != p[i] {
            proof {
                assert(b@.take(p@.len() as int)[i as int] != p@[i as int]);
            }
            return false;
        }
        i += 1;
    }
    proof {
        assert(b@.take(p@.len() as int) =~= p@);
    }
    true
}

/// The bytes of `b` from position `from` on.
fn suffix_bytes(b: &[u8], from: usize) -> (r: Vec<u8>)
    requires
        from <= b@.len(),
    ensures
        r@ == b@.skip(from as int),
{
    let mut r: Vec<u8> = Vec::new();
    let mut i: usize = from;
    while i < b.len()
        invariant
            from <= i <= b@.len(),
            r@.len() == i - from,
            forall|q: int| 0 <= q < i - from ==> r@[q] == b@[from + q],
        decreases b@.len() - i,
    {
        r.push(b[i]);
        i += 1;
    }
    proof {
        assert(r@ =~= b@.skip(from as int));
    }
    r
}

/// Where a chunk path points: its backend kind and the key within it.
pub enum StorePlan {
    /// An in-memory store key.
    Memory(Vec<u8>),
    /// A filesystem path, absolute or relative to the working directory.
    Filesystem(Vec<u8>),
    /// A scheme no backend here serves.
    Unsupported,
}

/// Split a chunk path into its backend kind and key.
pub fn parse_store_path(path: &str) -> (r: StorePlan)
    ensures
        ({
            let b = path.spec_bytes();
            if has_prefix(b, memory_scheme()) {
                r matches StorePlan::Memory(k) && k@ == b.skip(memory_scheme().len() as int)
            } else if has_prefix(b, file_scheme()) {
                r matches StorePlan::Filesystem(k) && k@ == b.skip(file_scheme().len() as int)
            } else {
                r == StorePlan::Unsupported
            }
        }),
{
    let b = path.as_bytes();
    let mem = memory_scheme_exec();
    if prefix_matches(b, &mem) {
        return StorePlan::Memory(suffix_bytes(b, mem.len()));
    }
    let file = file_scheme_exec();
    if prefix_matches(b, &file) {
        return StorePlan::Filesystem(suffix_bytes(b, file.len()));
    }
    StorePlan::Unsupported
}

/// The backend a pipeline instance is bound to. The in-memory backend is the
/// one served here; other backends are driven by an outer layer through
/// [`parse_store_path`] and the per-chunk functions.
pub enum CodecPipelineStore {
    /// The process-lifetime in-memory store.
    Memory(MemoryStore),
}

/// A unit of work binding one chunk's key, representation, chunk-local
/// region and buffer-local region.
pub struct ChunksItem {
    /// The chunk's store key.
    pub key: Vec<u8>,
    /// The chunk's shape, data type and fill value.
    pub representation: ChunkRepresentation,
    /// The region of the chunk read or written.
    pub chunk_subset: ArraySubset,
    /// The region of the shared buffer it maps to.
    pub subset: ArraySubset,
}

impl ChunksItem {
    /// An item is well formed against a buffer shape when its representation
    /// and regions are, its chunk region lies in the chunk, its buffer region
    /// lies in the buffer, and the two regions agree in element count.
    pub open spec fn wf(&self, bound_shape: Seq<u64>) -> bool {
        &&& self.representation.wf()
        &&& self.chunk_subset.wf()
        &&& self.subset.wf()
        &&& region_in_bounds(
            self.chunk_subset.start@,
            self.chunk_subset.shape@,
            self.representation.shape@,
        )
        &&& region_in_bounds(self.subset.start@, self.subset.shape@, bound_shape)
    }
}

/// One raw per-chunk request of a batch call.
pub struct ChunkDescription {
    /// The chunk's store path, scheme included.
    pub chunk_path: String,
    /// The chunk's shape.
    pub chunk_shape: Vec<u64>,
    /// The chunk's data type name.
    pub dtype: String,
    /// The chunk's fill value bytes, one element's worth.
    pub fill_value: Vec<u8>,
    /// The selection of the shared buffer.
    pub selection: Vec<SliceRange>,
    /// The selection of the chunk.
    pub chunk_selection: Vec<SliceRange>,
}

/// The start of the region a selection denotes: the origin for an empty
/// selection.
pub open spec fn sel_start(sel: Seq<SliceRange>, shape: Seq<u64>) -> Seq<u64> {
    if sel.len() == 0 {
        Seq::new(shape.len(), |d: int| 0u64)
    } else {
        crate::subset::selection_starts(sel, shape)
    }
}

/// The extent of the region a selection denotes: all ones for an empty
/// selection.
pub open spec fn sel_shape(sel: Seq<SliceRange>, shape: Seq<u64>) -> Seq<u64> {
    if sel.len() == 0 {
        Seq::new(shape.len(), |d: int| 1u64)
    } else {
        crate::subset::selection_shape(sel, shape)
    }
}

/// The UTF-8 bytes of an owned string.
pub open spec fn string_bytes(s: String) -> Seq<u8> {
    vstd::utf8::encode_utf8(s@)
}

/// How a built chunk item corresponds to the raw description it came from.
pub open spec fn item_matches_desc(it: ChunksItem, d: ChunkDescription, oshape: Seq<u64>) -> bool {
    &&& has_prefix(string_bytes(d.chunk_path), memory_scheme())
    &&& it.key@ == string_bytes(d.chunk_path).skip(memory_scheme().len() as int)
    &&& it.representation.shape@ == d.chunk_shape@
    &&& it.representation.fill_value@ == d.fill_value@
    &&& Some(it.representation.data_type) == parse_element_type_spec(d.dtype@)
    &&& it.chunk_subset.start@ == sel_start(d.chunk_selection@, d.chunk_shape@)
    &&& it.chunk_subset.shape@ == sel_shape(d.chunk_selection@, d.chunk_shape@)
    &&& it.subset.start@ == sel_start(d.selection@, oshape)
    &&& it.subset.shape@ == sel_shape(d.selection@, oshape)
    &&& it.wf(oshape)
}

/// Whether a selection is empty (denoting the single leading element) or
/// accepted against a shape.
pub open spec fn sel_acceptable(sel: Seq<SliceRange>, shape: Seq<u64>) -> bool {
    sel.len() == 0 || crate::subset::selection_ok(sel, shape)
}

/// Whether one raw description converts into a chunk item against a buffer
/// shape: an in-memory path, accepted selections, a valid representation and
/// regions inside their bounds.
pub open spec fn desc_converts(d: ChunkDescription, shape: Seq<u64>) -> bool {
    &&& has_prefix(string_bytes(d.chunk_path), memory_scheme())
    &&& sel_acceptable(d.chunk_selection@, d.chunk_shape@)
    &&& sel_acceptable(d.selection@, shape)
    &&& representation_ok(d.chunk_shape@, d.dtype@, d.fill_value@)
    &&& region_in_bounds(
        sel_start(d.chunk_selection@, d.chunk_shape@),
        sel_shape(d.chunk_selection@, d.chunk_shape@),
        d.chunk_shape@,
    )
    &&& region_in_bounds(sel_start(d.selection@, shape), sel_shape(d.selection@, shape), shape)
}

/// The error a description that does not convert produces: the first failing
/// check of scheme, chunk selection, buffer selection, representation and
/// bounds. `initialized` tells whether a backend was already chosen when the
/// description was reached.
pub open spec fn desc_error(
    d: ChunkDescription,
    shape: Seq<u64>,
    initialized: bool,
) -> CodecPipelineError {
    if !has_prefix(string_bytes(d.chunk_path), memory_scheme()) {
        if has_prefix(string_bytes(d.chunk_path), file_scheme()) && initialized {
            CodecPipelineError::StoreTypeMismatch
        } else {
            CodecPipelineError::UnsupportedStoreScheme
        }
    } else if !sel_acceptable(d.chunk_selection@, d.chunk_shape@) {
        crate::subset::selection_error(d.chunk_selection@, d.chunk_shape@)
    } else if !sel_acceptable(d.selection@, shape) {
        crate::subset::selection_error(d.selection@, shape)
    } else if !representation_ok(d.chunk_shape@, d.dtype@, d.fill_value@) {
        representation_error(d.chunk_shape@, d.dtype@, d.fill_value@)
    } else {
        CodecPipelineError::SubsetOutOfBounds
    }
}

/// The codec pipeline: a codec chain, the options fixed at construction, and
/// the store backend the first chunk path binds it to.
pub struct CodecPipelineImpl {
    /// The codec chain and the metadata it was built from.
    pub codec_chain: CodecChainHandle,
    /// The options fixed at construction.
    pub codec_options: PipelineOptions,
    /// The backend chosen by the first path, never changed afterwards.
    pub store: Option<CodecPipelineStore>,
}

impl CodecPipelineImpl {
    /// The pipeline's store, when initialized, is well formed.
    pub open spec fn wf(&self) -> bool {
        match self.store {
            None => true,
            Some(CodecPipelineStore::Memory(m)) => m.wf(),
        }
    }

    /// The metadata string the codec chain was built from.
    pub open spec fn spec_meta(&self) -> Seq<char> {
        self.codec_chain.spec_meta()
    }

    /// The store's contents; an uninitialized store holds nothing.
    pub open spec fn store_map(&self) -> Map<Seq<u8>, Seq<u8>> {
        match self.store {
            None => Map::empty(),
            Some(CodecPipelineStore::Memory(m)) => m@,
        }
    }

    /// Whether a backend has been chosen.
    pub open spec fn store_initialized(&self) -> bool {
        self.store is Some
    }

    /// Everything of the pipeline but its store: the chain and the options.
    pub open spec fn same_config(&self, other: &CodecPipelineImpl) -> bool {
        &&& self.codec_chain == other.codec_chain
        &&& self.codec_options == other.codec_options
    }

    /// Build a pipeline from a JSON list of codec metadata and optional
    /// overrides of the default options.
    pub fn new(
        metadata: &str,
        validate_checksums: Option<bool>,
        store_empty_chunks: Option<bool>,
        concurrent_target: Option<usize>,
    ) -> (r: Result<CodecPipelineImpl, CodecPipelineError>)
        ensures
            r is Ok <==> metadata_ok(metadata@) && crate::codec::lossless_chain(metadata@),
            match r {
                Ok(p) => {
                    &&& p.wf()
                    &&& !p.store_initialized()
                    &&& p.spec_meta() == metadata@
                    &&& p.codec_options.validate_checksums == (match validate_checksums {
                        Some(v) => v,
                        None => true,
                    })
                    &&& p.codec_options.store_empty_chunks == (match store_empty_chunks {
                        Some(v) => v,
                        None => false,
                    })
                    &&& (concurrent_target matches Some(t) ==> p.codec_options.concurrent_target
                        == t)
                },
                Err(e) => e == CodecPipelineError::InvalidMetadata,
            },
    {
        let codec_chain = match codec_chain_from_metadata(metadata) {
            Ok(c) => c,
            Err(e) => {
                return Err(e);
            },
        };
        let defaults = PipelineOptions::defaults();
        let codec_options = PipelineOptions {
            validate_checksums: match validate_checksums {
                Some(v) => v,
                None => defaults.validate_checksums,
            },
            store_empty_chunks: match store_empty_chunks {
                Some(v) => v,
                None => defaults.store_empty_chunks,
            },
            concurrent_target: match concurrent_target {
                Some(t) => t,
                None => defaults.concurrent_target,
            },
        };
        Ok(CodecPipelineImpl { codec_chain, codec_options, store: None })
    }

    /// Resolve a chunk path to a key of this pipeline's store.
    ///
    /// The first in-memory path binds the pipeline to the in-memory backend.
    /// A path of another scheme is refused: with a scheme no backend here
    /// serves it is unsupported, and against an already chosen backend of a
    /// different kind it is a store type change.
    pub fn get_store_and_path(&mut self, chunk_path: &str) -> (r: Result<
        Vec<u8>,
        CodecPipelineError,
    >)
        requires
            old(self).wf(),
        ensures
            final(self).wf(),
            final(self).same_config(old(self)),
            final(self).store_map() == old(self).store_map(),
            match r {
                Ok(k) => {
                    &&& has_prefix(chunk_path.spec_bytes(), memory_scheme())
                    &&& k@ == chunk_path.spec_bytes().skip(memory_scheme().len() as int)
                    &&& final(self).store_initialized()
                },
                Err(e) => {
                    &&& final(self).store_initialized() == old(self).store_initialized()
                    &&& !has_prefix(chunk_path.spec_bytes(), memory_scheme())
                    &&& if has_prefix(chunk_path.spec_bytes(), file_scheme()) {
                        e == (if old(self).store_initialized() {
                            CodecPipelineError::StoreTypeMismatch
                        } else {
                            CodecPipelineError::UnsupportedStoreScheme
                        })
                    } else {
                        e == CodecPipelineError::UnsupportedStoreScheme
                    }
                },
            },
    {
        match parse_store_path(chunk_path) {
            StorePlan::Memory(key) => {
                if self.store.is_none() {
                    self.store = Some(CodecPipelineStore::Memory(MemoryStore::new()));
                    proof {
                        assert(self.store_map() =~= old(self).store_map());
                    }
                }
                Ok(key)
            },
            StorePlan::Filesystem(_) => {
                if self.store.is_some() {
                    Err(CodecPipelineError::StoreTypeMismatch)
                } else {
                    Err(CodecPipelineError::UnsupportedStoreScheme)
                }
            },
            StorePlan::Unsupported => Err(CodecPipelineError::UnsupportedStoreScheme),
        }
    }
}

/// An owned copy of a shape vector.
fn copy_u64s(v: &Vec<u64>) -> (r: Vec<u64>)
    ensures
        r@ == v@,
{
    let mut r: Vec<u64> = Vec::new();
    let mut i: usize = 0;
    while i < v.len()
        invariant
            0 <= i <= v@.len(),
            r@.len() == i,
            forall|p: int| 0 <= p < i ==> r@[p] == v@[p],
        decreases v@.len() - i,
    {
        r.push(v[i]);
        i += 1;
    }
    proof {
        assert(r@ =~= v@);
    }
    r
}

/// The bytes an item contributes to the shared buffer: the requested region
/// of the chunk's decoded (or fill-synthesized) contents.
pub open spec fn item_source(meta: Seq<char>, it: ChunksItem, m: Map<Seq<u8>, Seq<u8>>) -> Seq<
    u8,
> {
    extract_subset(
        spec_chunk_bytes(meta, it.representation, m, it.key@),
        it.representation.shape@,
        it.chunk_subset.start@,
        it.chunk_subset.shape@,
        it.representation.spec_size(),
    )
}

/// One item's effect on the shared buffer: its source bytes spliced into its
/// buffer region, everything else untouched.
pub open spec fn retrieve_item_written(
    meta: Seq<char>,
    it: ChunksItem,
    m: Map<Seq<u8>, Seq<u8>>,
    old_out: Seq<u8>,
    new_out: Seq<u8>,
    oshape: Seq<u64>,
) -> bool {
    spliced(
        old_out,
        new_out,
        oshape,
        it.subset.start@,
        it.subset.shape@,
        item_source(meta, it, m),
        it.representation.spec_size(),
    )
}

/// Whether one retrieval item can be served: an absent chunk always can, a
/// present one exactly when its full decode (for a region covering the whole
/// chunk) or its partial decode (for a strict sub-region) succeeds.
pub open spec fn item_readable(
    meta: Seq<char>,
    it: ChunksItem,
    m: Map<Seq<u8>, Seq<u8>>,
    validate_checksums: bool,
) -> bool {
    m.contains_key(it.key@) ==> (if full_cover_region(
        it.chunk_subset.start@,
        it.chunk_subset.shape@,
        it.representation.shape@,
    ) {
        decode_ok(
            meta,
            it.representation.shape@,
            it.representation.data_type.spec_name(),
            it.representation.fill_value@,
            m[it.key@],
            validate_checksums,
        )
    } else {
        partial_decode_ok(
            meta,
            it.representation.shape@,
            it.representation.data_type.spec_name(),
            it.representation.fill_value@,
            m[it.key@],
            it.chunk_subset.start@,
            it.chunk_subset.shape@,
            validate_checksums,
        )
    })
}

/// Process one retrieval item: write the requested region of one chunk into
/// the item's region of the shared buffer.
///
/// A missing chunk contributes its fill pattern. A region covering the whole
/// chunk is decoded in full; a strict sub-region is decoded partially.
pub fn process_retrieve_item(
    store: &MemoryStore,
    chain: &CodecChainHandle,
    item: &ChunksItem,
    output: &mut Vec<u8>,
    output_shape: &Vec<u64>,
    opts: &PipelineOptions,
) -> (r: Result<(), CodecPipelineError>)
    requires
        store.wf(),
        item.wf(output_shape@),
        product(item.chunk_subset.shape@) == product(item.subset.shape@),
        old(output)@.len() == product(output_shape@) * item.representation.spec_size(),
    ensures
        final(output)@.len() == old(output)@.len(),
        r is Err ==> final(output)@ == old(output)@ && r == Err::<(), CodecPipelineError>(
            CodecPipelineError::CodecFailure,
        ) && store@.contains_key(item.key@),
        r is Ok <==> item_readable(chain.spec_meta(), *item, store@, opts.validate_checksums),
        r is Ok ==> retrieve_item_written(
            chain.spec_meta(),
            *item,
            store@,
            old(output)@,
            final(output)@,
            output_shape@,
        ),
{
    let rep = &item.representation;
    let esize = rep.data_type.size();
    proof {
        assert forall|d: int|
            0 <= d < item.chunk_subset.shape@.len() implies #[trigger] item.chunk_subset.shape@[d]
            <= rep.shape@[d] by {
            assert(item.chunk_subset.start@[d] + item.chunk_subset.shape@[d] <= rep.shape@[d]);
        }
        lemma_product_monotone(item.chunk_subset.shape@, rep.shape@);
        assert(product(item.chunk_subset.shape@) * rep.spec_size() <= product(rep.shape@)
            * rep.spec_size()) by (nonlinear_arith)
            requires
                product(item.chunk_subset.shape@) <= product(rep.shape@),
                rep.spec_size() >= 0,
        ;
    }
    match store.get(&item.key) {
        None => {
            // the chunk is missing: broadcast the fill pattern
            fill_subset_bytes(
                output,
                output_shape,
                &item.subset.start,
                &item.subset.shape,
                &rep.fill_value,
            );
            proof {
                lemma_extract_fill(
                    rep.fill_value@,
                    rep.shape@,
                    item.chunk_subset.start@,
                    item.chunk_subset.shape@,
                );
                assert(item_source(chain.spec_meta(), *item, store@) == fill_seq(
                    product(item.subset.shape@),
                    rep.fill_value@,
                ));
            }
            Ok(())
        },
        Some(encoded) => {
            if item.chunk_subset.is_full_cover(&rep.shape) {
                proof {
                    assert(full_cover_region(
                        item.chunk_subset.start@,
                        item.chunk_subset.shape@,
                        rep.shape@,
                    ));
                }
                // decode the whole chunk straight into the buffer region
                let decoded = match chain_decode_raw(chain, rep, encoded, opts) {
                    Ok(d) => d,
                    Err(e) => {
                        return Err(codec_error(e));
                    },
                };
                proof {
                    assert(decoded@.len() == decoded.len());
                    lemma_full_cover_extract(
                        decoded@,
                        rep.shape@,
                        item.chunk_subset.start@,
                        rep.spec_size(),
                    );
                    assert(item_source(chain.spec_meta(), *item, store@) == decoded@);
                }
                write_subset_bytes(
                    output,
                    output_shape,
                    &item.subset.start,
                    &item.subset.shape,
                    &decoded,
                    esize,
                );
                Ok(())
            } else {
                proof {
                    assert(!full_cover_region(
                        item.chunk_subset.start@,
                        item.chunk_subset.shape@,
                        rep.shape@,
                    ));
                }
                // decode only the requested region of the chunk
                let sub_bytes = match chain_partial_decode_raw(
                    chain,
                    rep,
                    encoded,
                    &item.chunk_subset.start,
                    &item.chunk_subset.shape,
                    opts,
                ) {
                    Ok(d) => d,
                    Err(e) => {
                        return Err(codec_error(e));
                    },
                };
                proof {
                    assert(item_source(chain.spec_meta(), *item, store@) == sub_bytes@);
                }
                write_subset_bytes(
                    output,
                    output_shape,
                    &item.subset.start,
                    &item.subset.shape,
                    &sub_bytes,
                    esize,
                );
                Ok(())
            }
        },
    }
}

impl CodecPipelineImpl {
    /// Expand raw per-chunk descriptions into validated chunk items against a
    /// shared buffer of the given shape.
    ///
    /// Every selection is normalized, every representation validated, every
    /// region checked against its bounds and the two regions of each item
    /// checked to agree in element count, before any chunk is touched.
    pub fn collect_chunk_descriptions(
        &mut self,
        descriptions: &Vec<ChunkDescription>,
        shape: &Vec<u64>,
    ) -> (r: Result<Vec<ChunksItem>, CodecPipelineError>)
        requires
            old(self).wf(),
            forall|d: int| 0 <= d < shape@.len() ==> #[trigger] shape@[d] <= i64::MAX,
            forall|i: int, d2: int|
                0 <= i < descriptions@.len() && 0 <= d2 < descriptions@[i].chunk_shape@.len()
                    ==> #[trigger] descriptions@[i].chunk_shape@[d2] <= i64::MAX,
        ensures
            final(self).wf(),
            final(self).same_config(old(self)),
            final(self).store_map() == old(self).store_map(),
            r is Ok <==> (forall|i: int|
                0 <= i < descriptions@.len() ==> desc_converts(
                    #[trigger] descriptions@[i],
                    shape@,
                )),
            match r {
                Ok(items) => {
                    &&& items_match(items@, descriptions@, shape@)
                    &&& (descriptions@.len() > 0 ==> final(self).store_initialized())
                },
                Err(e) => exists|i: int|
                    0 <= i < descriptions@.len() && (forall|j: int|
                        0 <= j < i ==> desc_converts(#[trigger] descriptions@[j], shape@)) && !(
                    #[trigger] desc_converts(descriptions@[i], shape@)) && e == desc_error(
                        descriptions@[i],
                        shape@,
                        old(self).store_initialized() || i > 0,
                    ),
            },
    {
        let mut items: Vec<ChunksItem> = Vec::new();
        let mut i: usize = 0;
        while i < descriptions.len()
            invariant
                0 <= i <= descriptions@.len(),
                self.wf(),
                self.same_config(old(self)),
                self.store_map() == old(self).store_map(),
                forall|d: int| 0 <= d < shape@.len() ==> #[trigger] shape@[d] <= i64::MAX,
                forall|i2: int, d2: int|
                    0 <= i2 < descriptions@.len() && 0 <= d2
                        < descriptions@[i2].chunk_shape@.len()
                        ==> #[trigger] descriptions@[i2].chunk_shape@[d2] <= i64::MAX,
                items@.len() == i,
                forall|p: int|
                    0 <= p < i ==> item_matches_desc(
                        #[trigger] items@[p],
                        descriptions@[p],
                        shape@,
                    ),
                forall|p: int| 0 <= p < i ==> desc_converts(#[trigger] descriptions@[p], shape@),
                self.store_initialized() == (old(self).store_initialized() || i > 0),
            decreases descriptions@.len() - i,
        {
            let d = &descriptions[i];
            let ghost was_init = self.store_initialized();
            let key = match self.get_store_and_path(d.chunk_path.as_str()) {
                Ok(k) => k,
                Err(e) => {
                    proof {
                        assert(!desc_converts(descriptions@[i as int], shape@));
                        assert(e == desc_error(descriptions@[i as int], shape@, was_init));
                    }
                    return Err(e);
                },
            };
            let chunk_subset = match selection_to_array_subset(&d.chunk_selection, &d.chunk_shape) {
                Ok(s) => s,
                Err(e) => {
                    proof {
                        assert(!sel_acceptable(d.chunk_selection@, d.chunk_shape@));
                        assert(!desc_converts(descriptions@[i as int], shape@));
                        assert(e == desc_error(descriptions@[i as int], shape@, was_init));
                    }
                    return Err(e);
                },
            };
            let subset = match selection_to_array_subset(&d.selection, shape) {
                Ok(s) => s,
                Err(e) => {
                    proof {
                        assert(!sel_acceptable(d.selection@, shape@));
                        assert(!desc_converts(descriptions@[i as int], shape@));
                        assert(e == desc_error(descriptions@[i as int], shape@, was_init));
                    }
                    return Err(e);
                },
            };
            proof {
                if d.chunk_selection@.len() == 0 {
                    assert(chunk_subset.start@ =~= sel_start(d.chunk_selection@, d.chunk_shape@));
                    assert(chunk_subset.shape@ =~= sel_shape(d.chunk_selection@, d.chunk_shape@));
                }
                if d.selection@.len() == 0 {
                    assert(subset.start@ =~= sel_start(d.selection@, shape@));
                    assert(subset.shape@ =~= sel_shape(d.selection@, shape@));
                }
            }
            let representation = match ChunkRepresentation::new(
                copy_u64s(&d.chunk_shape),
                d.dtype.as_str(),
                copy_bytes(&d.fill_value),
            ) {
                Ok(rep) => rep,
                Err(e) => {
                    proof {
                        assert(!representation_ok(d.chunk_shape@, d.dtype@, d.fill_value@));
                        assert(!desc_converts(descriptions@[i as int], shape@));
                        assert(e == desc_error(descriptions@[i as int], shape@, was_init));
                    }
                    return Err(e);
                },
            };
            if !chunk_subset.inbounds(&representation.shape) {
                proof {
                    assert(!desc_converts(descriptions@[i as int], shape@));
                    assert(CodecPipelineError::SubsetOutOfBounds == desc_error(
                        descriptions@[i as int],
                        shape@,
                        was_init,
                    ));
                }
                return Err(CodecPipelineError::SubsetOutOfBounds);
            }
            if !subset.inbounds(shape) {
                proof {
                    assert(!desc_converts(descriptions@[i as int], shape@));
                    assert(CodecPipelineError::SubsetOutOfBounds == desc_error(
                        descriptions@[i as int],
                        shape@,
                        was_init,
                    ));
                }
                return Err(CodecPipelineError::SubsetOutOfBounds);
            }
            let it = ChunksItem { key, representation, chunk_subset, subset };
            proof {
                assert(item_matches_desc(it, descriptions@[i as int], shape@));
                assert(desc_converts(descriptions@[i as int], shape@));
            }
            items.push(it);
            i += 1;
        }
        Ok(items)
    }

    /// Retrieve one whole chunk as decoded bytes: the stored value decoded,
    /// or the all-fill chunk when nothing is stored under the path.
    pub fn retrieve_chunk(
        &mut self,
        chunk_path: &str,
        chunk_shape: Vec<u64>,
        dtype: &str,
        fill_value: Vec<u8>,
    ) -> (r: Result<Vec<u8>, CodecPipelineError>)
        requires
            old(self).wf(),
        ensures
            final(self).wf(),
            final(self).same_config(old(self)),
            final(self).store_map() == old(self).store_map(),
            r is Ok <==> has_prefix(chunk_path.spec_bytes(), memory_scheme())
                && representation_ok(chunk_shape@, dtype@, fill_value@) && chunk_readable_p(
                old(self).spec_meta(),
                chunk_shape@,
                parse_element_type_spec(dtype@).unwrap().spec_name(),
                fill_value@,
                old(self).store_map(),
                chunk_path.spec_bytes().skip(memory_scheme().len() as int),
                old(self).codec_options.validate_checksums,
            ),
            r matches Err(e) ==> e == (if !has_prefix(chunk_path.spec_bytes(), memory_scheme()) {
                if has_prefix(chunk_path.spec_bytes(), file_scheme()) && old(
                    self,
                ).store_initialized() {
                    CodecPipelineError::StoreTypeMismatch
                } else {
                    CodecPipelineError::UnsupportedStoreScheme
                }
            } else if !representation_ok(chunk_shape@, dtype@, fill_value@) {
                representation_error(chunk_shape@, dtype@, fill_value@)
            } else {
                CodecPipelineError::CodecFailure
            }),
            r matches Ok(v) ==> has_prefix(chunk_path.spec_bytes(), memory_scheme()) && (exists|
                rep: ChunkRepresentation,
            |
                {
                    &&& rep.shape@ == chunk_shape@
                    &&& rep.fill_value@ == fill_value@
                    &&& Some(rep.data_type) == parse_element_type_spec(dtype@)
                    &&& rep.wf()
                    &&& v@ == #[trigger] spec_chunk_bytes(
                        old(self).spec_meta(),
                        rep,
                        old(self).store_map(),
                        chunk_path.spec_bytes().skip(memory_scheme().len() as int),
                    )
                }),
    {
        let key = match self.get_store_and_path(chunk_path) {
            Ok(k) => k,
            Err(e) => {
                return Err(e);
            },
        };
        let rep = match ChunkRepresentation::new(chunk_shape, dtype, fill_value) {
            Ok(rep) => rep,
            Err(e) => {
                return Err(e);
            },
        };
        match &self.store {
            Some(CodecPipelineStore::Memory(m)) => {
                let r = retrieve_chunk_bytes(m, &key, &self.codec_chain, &rep, &self.codec_options);
                proof {
                    if r is Ok {
                        assert(key@ == chunk_path.spec_bytes().skip(memory_scheme().len() as int));
                        assert(r->Ok_0@ == spec_chunk_bytes(
                            old(self).spec_meta(),
                            rep,
                            old(self).store_map(),
                            chunk_path.spec_bytes().skip(memory_scheme().len() as int),
                        ));
                    }
                }
                r
            },
            None => {
                proof {
                    assert(false);
                }
                Err(CodecPipelineError::UnsupportedStoreScheme)
            },
        }
    }

    /// Store one whole chunk from decoded bytes: an all-fill chunk is erased,
    /// anything else encoded and stored.
    pub fn store_chunk(
        &mut self,
        chunk_path: &str,
        chunk_shape: Vec<u64>,
        dtype: &str,
        fill_value: Vec<u8>,
        decoded: Vec<u8>,
    ) -> (r: Result<(), CodecPipelineError>)
        requires
            old(self).wf(),
        ensures
            final(self).wf(),
            final(self).same_config(old(self)),
            r is Err ==> final(self).store_map() == old(self).store_map(),
            r is Ok <==> has_prefix(chunk_path.spec_bytes(), memory_scheme())
                && representation_ok(chunk_shape@, dtype@, fill_value@) && decoded@.len()
                == product(chunk_shape@) * parse_element_type_spec(dtype@).unwrap().spec_size()
                && chunk_storable_p(
                old(self).spec_meta(),
                chunk_shape@,
                parse_element_type_spec(dtype@).unwrap().spec_name(),
                fill_value@,
                decoded@,
            ),
            r matches Err(e) ==> e == (if !has_prefix(chunk_path.spec_bytes(), memory_scheme()) {
                if has_prefix(chunk_path.spec_bytes(), file_scheme()) && old(
                    self,
                ).store_initialized() {
                    CodecPipelineError::StoreTypeMismatch
                } else {
                    CodecPipelineError::UnsupportedStoreScheme
                }
            } else if !representation_ok(chunk_shape@, dtype@, fill_value@) {
                representation_error(chunk_shape@, dtype@, fill_value@)
            } else if decoded@.len() != product(chunk_shape@) * parse_element_type_spec(
                dtype@,
            ).unwrap().spec_size() {
                CodecPipelineError::BufferSizeMismatch
            } else {
                CodecPipelineError::CodecFailure
            }),
            r is Ok ==> has_prefix(chunk_path.spec_bytes(), memory_scheme()) && (exists|
                rep: ChunkRepresentation,
            |
                {
                    &&& rep.shape@ == chunk_shape@
                    &&& rep.fill_value@ == fill_value@
                    &&& Some(rep.data_type) == parse_element_type_spec(dtype@)
                    &&& rep.wf()
                    &&& decoded@.len() == product(rep.shape@) * rep.spec_size()
                    &&& #[trigger] chunk_store_step(
                        old(self).spec_meta(),
                        rep,
                        old(self).store_map(),
                        final(self).store_map(),
                        chunk_path.spec_bytes().skip(memory_scheme().len() as int),
                        decoded@,
                    )
                }),
    {
        let key = match self.get_store_and_path(chunk_path) {
            Ok(k) => k,
            Err(e) => {
                return Err(e);
            },
        };
        let rep = match ChunkRepresentation::new(chunk_shape, dtype, fill_value) {
            Ok(rep) => rep,
            Err(e) => {
                return Err(e);
            },
        };
        let esize = rep.data_type.size();
        let count = rep.num_elements();
        proof {
            assert(product(rep.shape@) <= product(rep.shape@) * rep.spec_size())
                by (nonlinear_arith)
                requires
                    rep.spec_size() >= 1,
                    product(rep.shape@) >= 0,
            ;
            assert(usize::MAX <= u64::MAX);
            assert(decoded@.len() == decoded.len());
        }
        let expected: usize = (count as usize) * esize;
        if decoded.len() != expected {
            return Err(CodecPipelineError::BufferSizeMismatch);
        }
        let ghost gdec = decoded@;
        match &mut self.store {
            Some(CodecPipelineStore::Memory(m)) => {
                let r = store_chunk_bytes(m, &key, &self.codec_chain, &rep, decoded, &self.codec_options);
                proof {
                    if r is Ok {
                        assert(chunk_store_step(
                            old(self).spec_meta(),
                            rep,
                            old(self).store_map(),
                            self.store_map(),
                            chunk_path.spec_bytes().skip(memory_scheme().len() as int),
                            gdec,
                        ));
                    }
                }
                r
            },
            None => {
                proof {
                    assert(false);
                }
                Err(CodecPipelineError::UnsupportedStoreScheme)
            },
        }
    }
}

/// The items of a batch, each corresponding to its raw description.
pub open spec fn items_match(
    items: Seq<ChunksItem>,
    descs: Seq<ChunkDescription>,
    oshape: Seq<u64>,
) -> bool {
    &&& items.len() == descs.len()
    &&& forall|i: int|
        0 <= i < items.len() ==> item_matches_desc(#[trigger] items[i], descs[i], oshape)
}

/// Whether a buffer of `output_len` bytes holds exactly one element of
/// `esize` bytes per index of a buffer of shape `oshape`.
fn buffer_len_matches(output_len: usize, oshape: &Vec<u64>, esize: usize) -> (r: bool)
    requires
        esize > 0,
    ensures
        r == (output_len as nat == product(oshape@) * esize),
{
    match crate::nd::checked_num_elements(oshape) {
        Some(c) => {
            if crate::representation::mul_fits_usize(c, esize) {
                proof {
                    assert(c as nat <= usize::MAX) by (nonlinear_arith)
                        requires
                            c as nat * esize as nat <= usize::MAX,
                            esize >= 1,
                    ;
                }
                output_len == (c as usize) * esize
            } else {
                false
            }
        },
        None => {
            proof {
                assert(usize::MAX <= u64::MAX);
                assert((output_len as nat) < product(oshape@) * esize) by (nonlinear_arith)
                    requires
                        output_len as nat <= u64::MAX,
                        product(oshape@) > u64::MAX,
                        esize >= 1,
                ;
            }
            false
        },
    }
}

/// The buffer regions two descriptions address are disjoint: no index lies in
/// both.
pub open spec fn desc_regions_disjoint(
    d1: ChunkDescription,
    d2: ChunkDescription,
    oshape: Seq<u64>,
) -> bool {
    forall|q: Seq<u64>|
        !(#[trigger] in_region(sel_start(d1.selection@, oshape), sel_shape(d1.selection@, oshape), q)
            && in_region(sel_start(d2.selection@, oshape), sel_shape(d2.selection@, oshape), q))
}

/// The element type a description's data type name resolves to; meaningful
/// when the description converts.
pub open spec fn desc_dtype(d: ChunkDescription) -> crate::representation::ElementType {
    parse_element_type_spec(d.dtype@).unwrap()
}

/// One element's byte size under a description.
pub open spec fn desc_esize(d: ChunkDescription) -> nat {
    desc_dtype(d).spec_size()
}

/// Whether one description's chunk can be served from the store: the buffer
/// holds one element per index, the chunk and buffer regions agree in element
/// count, and the addressed chunk decodes (fully or partially) if present.
pub open spec fn desc_fetchable(
    meta: Seq<char>,
    d: ChunkDescription,
    m: Map<Seq<u8>, Seq<u8>>,
    oshape: Seq<u64>,
    out_len: nat,
    validate_checksums: bool,
) -> bool {
    &&& out_len == product(oshape) * desc_esize(d)
    &&& product(sel_shape(d.chunk_selection@, d.chunk_shape@)) == product(
        sel_shape(d.selection@, oshape),
    )
    &&& (m.contains_key(desc_key(d)) ==> (if full_cover_region(
        sel_start(d.chunk_selection@, d.chunk_shape@),
        sel_shape(d.chunk_selection@, d.chunk_shape@),
        d.chunk_shape@,
    ) {
        decode_ok(
            meta,
            d.chunk_shape@,
            desc_dtype(d).spec_name(),
            d.fill_value@,
            m[desc_key(d)],
            validate_checksums,
        )
    } else {
        partial_decode_ok(
            meta,
            d.chunk_shape@,
            desc_dtype(d).spec_name(),
            d.fill_value@,
            m[desc_key(d)],
            sel_start(d.chunk_selection@, d.chunk_shape@),
            sel_shape(d.chunk_selection@, d.chunk_shape@),
            validate_checksums,
        )
    }))
}

/// What a finished batch retrieval says of the shared buffer: each item's
/// region holds that item's source bytes, and every index in no item's region
/// is untouched.
pub open spec fn batch_retrieved(
    meta: Seq<char>,
    items: Seq<ChunksItem>,
    m: Map<Seq<u8>, Seq<u8>>,
    old_out: Seq<u8>,
    new_out: Seq<u8>,
    oshape: Seq<u64>,
) -> bool {
    &&& new_out.len() == old_out.len()
    &&& forall|i: int|
        0 <= i < items.len() ==> old_out.len() == product(oshape) * (
        #[trigger] items[i].representation.spec_size())
    &&& forall|i: int, q: Seq<u64>, j: int|
        0 <= i < items.len() && valid_index(oshape, q) && in_region(
            items[i].subset.start@,
            items[i].subset.shape@,
            q,
        ) && 0 <= j < items[i].representation.spec_size() ==> new_out[#[trigger] byte_index(
            oshape,
            q,
            items[i].representation.spec_size(),
            j,
        )] == item_source(meta, items[i], m)[byte_index(
            items[i].subset.shape@,
            vec_sub(q, items[i].subset.start@),
            items[i].representation.spec_size(),
            j,
        )]
    &&& forall|i0: int, q: Seq<u64>, j: int|
        0 <= i0 < items.len() && valid_index(oshape, q) && 0 <= j
            < items[i0].representation.spec_size() && (forall|i: int|
            0 <= i < items.len() ==> !(#[trigger] in_region(
                items[i].subset.start@,
                items[i].subset.shape@,
                q,
            ))) ==> new_out[#[trigger] byte_index(
            oshape,
            q,
            items[i0].representation.spec_size(),
            j,
        )] == old_out[byte_index(oshape, q, items[i0].representation.spec_size(), j)]
    &&& (items.len() == 0 ==> new_out == old_out)
}

impl CodecPipelineImpl {
    /// Retrieve a batch of chunk regions into one shared buffer.
    ///
    /// The caller guarantees that the buffer regions of the descriptions are
    /// pairwise disjoint; the contract then pins every byte of the buffer
    /// from the store and the descriptions alone, so any schedule that
    /// processes the items within the concurrency budget — this driver takes
    /// them one at a time, an outer worker pool may take several at once —
    /// leaves the same buffer. The first failing item aborts the batch with
    /// its error.
    pub fn retrieve_chunks(
        &mut self,
        descriptions: &Vec<ChunkDescription>,
        output: &mut Vec<u8>,
        output_shape: &Vec<u64>,
        chunk_concurrent_limit: usize,
    ) -> (r: Result<(), CodecPipelineError>)
        requires
            old(self).wf(),
            forall|d: int| 0 <= d < output_shape@.len() ==> #[trigger] output_shape@[d] <= i64::MAX,
            forall|i: int, d2: int|
                0 <= i < descriptions@.len() && 0 <= d2 < descriptions@[i].chunk_shape@.len()
                    ==> #[trigger] descriptions@[i].chunk_shape@[d2] <= i64::MAX,
            forall|i: int, j: int|
                0 <= i < descriptions@.len() && 0 <= j < descriptions@.len() && i != j
                    ==> #[trigger] desc_regions_disjoint(
                    descriptions@[i],
                    descriptions@[j],
                    output_shape@,
                ),
        ensures
            final(self).wf(),
            final(self).same_config(old(self)),
            final(self).store_map() == old(self).store_map(),
            final(output)@.len() == old(output)@.len(),
            r is Ok <==> (forall|i: int|
                0 <= i < descriptions@.len() ==> desc_converts(
                    #[trigger] descriptions@[i],
                    output_shape@,
                )) && (forall|i: int|
                0 <= i < descriptions@.len() ==> desc_fetchable(
                    old(self).spec_meta(),
                    #[trigger] descriptions@[i],
                    old(self).store_map(),
                    output_shape@,
                    old(output)@.len(),
                    old(self).codec_options.validate_checksums,
                )),
            r matches Err(e) ==> ((exists|i: int|
                0 <= i < descriptions@.len() && (forall|j: int|
                    0 <= j < i ==> desc_converts(#[trigger] descriptions@[j], output_shape@)) && !(
                #[trigger] desc_converts(descriptions@[i], output_shape@)) && e == desc_error(
                    descriptions@[i],
                    output_shape@,
                    old(self).store_initialized() || i > 0,
                )) || ((forall|i: int|
                0 <= i < descriptions@.len() ==> desc_converts(
                    #[trigger] descriptions@[i],
                    output_shape@,
                )) && (e == CodecPipelineError::BufferSizeMismatch || e
                == CodecPipelineError::CodecFailure))),
            r is Ok ==> exists|items: Seq<ChunksItem>|
                #[trigger] items_match(items, descriptions@, output_shape@) && batch_retrieved(
                    old(self).spec_meta(),
                    items,
                    old(self).store_map(),
                    old(output)@,
                    final(output)@,
                    output_shape@,
                ),
    {
        let items = match self.collect_chunk_descriptions(descriptions, output_shape) {
            Ok(it) => it,
            Err(e) => {
                return Err(e);
            },
        };
        let ghost m = self.store_map();
        let ghost meta = self.spec_meta();
        let mut idx: usize = 0;
        while idx < items.len()
            invariant
                0 <= idx <= items@.len(),
                self.wf(),
                self.same_config(old(self)),
                self.store_map() == old(self).store_map(),
                m == old(self).store_map(),
                meta == old(self).spec_meta(),
                items@.len() > 0 ==> self.store_initialized(),
                items_match(items@, descriptions@, output_shape@),
                forall|i: int, j: int|
                    0 <= i < descriptions@.len() && 0 <= j < descriptions@.len() && i != j
                        ==> #[trigger] desc_regions_disjoint(
                        descriptions@[i],
                        descriptions@[j],
                        output_shape@,
                    ),
                output@.len() == old(output)@.len(),
                idx == 0 ==> output@ == old(output)@,
                forall|i: int|
                    0 <= i < descriptions@.len() ==> desc_converts(
                        #[trigger] descriptions@[i],
                        output_shape@,
                    ),
                forall|i: int|
                    0 <= i < idx ==> desc_fetchable(
                        meta,
                        #[trigger] descriptions@[i],
                        m,
                        output_shape@,
                        old(output)@.len(),
                        self.codec_options.validate_checksums,
                    ),
                forall|i: int|
                    0 <= i < idx ==> old(output)@.len() == product(output_shape@) * (
                    #[trigger] items@[i].representation.spec_size()),
                forall|i: int, q: Seq<u64>, j: int|
                    0 <= i < idx && valid_index(output_shape@, q) && in_region(
                        items@[i].subset.start@,
                        items@[i].subset.shape@,
                        q,
                    ) && 0 <= j < items@[i].representation.spec_size() ==> output@[
                    #[trigger] byte_index(
                        output_shape@,
                        q,
                        items@[i].representation.spec_size(),
                        j,
                    )] == item_source(meta, items@[i], m)[byte_index(
                        items@[i].subset.shape@,
                        vec_sub(q, items@[i].subset.start@),
                        items@[i].representation.spec_size(),
                        j,
                    )],
                forall|i0: int, q: Seq<u64>, j: int|
                    0 <= i0 < idx && valid_index(output_shape@, q) && 0 <= j
                        < items@[i0].representation.spec_size() && (forall|i: int|
                        0 <= i < items@.len() ==> !(#[trigger] in_region(
                            items@[i].subset.start@,
                            items@[i].subset.shape@,
                            q,
                        ))) ==> output@[#[trigger] byte_index(
                        output_shape@,
                        q,
                        items@[i0].representation.spec_size(),
                        j,
                    )] == old(output)@[byte_index(
                        output_shape@,
                        q,
                        items@[i0].representation.spec_size(),
                        j,
                    )],
            decreases items@.len() - idx,
        {
            let it = &items[idx];
            let ghost dd = descriptions@[idx as int];
            proof {
                assert(item_matches_desc(items@[idx as int], dd, output_shape@));
                assert(it.representation.data_type == desc_dtype(dd));
            }
            let esize = it.representation.data_type.size();
            // the buffer must hold exactly one element of this item's size
            // per buffer index
            if !buffer_len_matches(output.len(), output_shape, esize) {
                proof {
                    assert(!desc_fetchable(
                        meta,
                        dd,
                        m,
                        output_shape@,
                        old(output)@.len(),
                        self.codec_options.validate_checksums,
                    ));
                }
                return Err(CodecPipelineError::BufferSizeMismatch);
            }
            proof {
                // both regions' element counts are bounded by what fits the
                // chunk and the buffer, so counting them cannot overflow
                assert forall|d2: int|
                    0 <= d2 < it.chunk_subset.shape@.len() implies #[trigger] it.chunk_subset.shape@[d2]
                    <= it.representation.shape@[d2] by {
                    assert(it.chunk_subset.start@[d2] + it.chunk_subset.shape@[d2]
                        <= it.representation.shape@[d2]);
                }
                lemma_product_monotone(it.chunk_subset.shape@, it.representation.shape@);
                assert(product(it.representation.shape@) <= product(it.representation.shape@)
                    * it.representation.spec_size()) by (nonlinear_arith)
                    requires
                        it.representation.spec_size() >= 1,
                        product(it.representation.shape@) >= 0,
                ;
                assert forall|d2: int|
                    0 <= d2 < it.subset.shape@.len() implies #[trigger] it.subset.shape@[d2]
                    <= output_shape@[d2] by {
                    assert(it.subset.start@[d2] + it.subset.shape@[d2] <= output_shape@[d2]);
                }
                lemma_product_monotone(it.subset.shape@, output_shape@);
                assert(product(output_shape@) <= product(output_shape@)
                    * it.representation.spec_size()) by (nonlinear_arith)
                    requires
                        it.representation.spec_size() >= 1,
                        product(output_shape@) >= 0,
                ;
                assert(output@.len() == output.len());
                assert(usize::MAX <= u64::MAX);
            }
            let ccount = match it.chunk_subset.num_elements_checked() {
                Some(a) => a,
                None => {
                    proof {
                        assert(false);
                    }
                    0
                },
            };
            let scount = match it.subset.num_elements_checked() {
                Some(b) => b,
                None => {
                    proof {
                        assert(false);
                    }
                    0
                },
            };
            if ccount != scount {
                proof {
                    assert(!desc_fetchable(
                        meta,
                        dd,
                        m,
                        output_shape@,
                        old(output)@.len(),
                        self.codec_options.validate_checksums,
                    ));
                }
                return Err(CodecPipelineError::BufferSizeMismatch);
            }
            let ghost pre = output@;
            let step = match &self.store {
                Some(CodecPipelineStore::Memory(mem)) => {
                    process_retrieve_item(
                        mem,
                        &self.codec_chain,
                        it,
                        output,
                        output_shape,
                        &self.codec_options,
                    )
                },
                None => {
                    proof {
                        assert(false);
                    }
                    Err(CodecPipelineError::UnsupportedStoreScheme)
                },
            };
            match step {
                Ok(()) => {},
                Err(e) => {
                    proof {
                        assert(!item_readable(
                            meta,
                            items@[idx as int],
                            m,
                            self.codec_options.validate_checksums,
                        ));
                        assert(!desc_fetchable(
                            meta,
                            dd,
                            m,
                            output_shape@,
                            old(output)@.len(),
                            self.codec_options.validate_checksums,
                        ));
                    }
                    return Err(e);
                },
            }
            proof {
                assert(desc_fetchable(
                    meta,
                    dd,
                    m,
                    output_shape@,
                    old(output)@.len(),
                    self.codec_options.validate_checksums,
                ));
                lemma_retrieve_batch_step(
                    meta,
                    items@,
                    descriptions@,
                    m,
                    old(output)@,
                    pre,
                    output@,
                    output_shape@,
                    idx as int,
                );
            }
            idx += 1;
        }
        proof {
            if items@.len() == 0 {
                assert(output@ =~= old(output)@);
            }
            assert(items_match(items@, descriptions@, output_shape@));
            assert(batch_retrieved(meta, items@, m, old(output)@, output@, output_shape@));
        }
        Ok(())
    }
}

/// One step of the batch retrieval: processing item `idx` establishes that
/// item's region and, because the regions are pairwise disjoint, preserves
/// every already written region and every untouched index.
proof fn lemma_retrieve_batch_step(
    meta: Seq<char>,
    items: Seq<ChunksItem>,
    descs: Seq<ChunkDescription>,
    m: Map<Seq<u8>, Seq<u8>>,
    orig: Seq<u8>,
    pre: Seq<u8>,
    post: Seq<u8>,
    oshape: Seq<u64>,
    idx: int,
)
    requires
        0 <= idx < items.len(),
        items_match(items, descs, oshape),
        forall|i: int, j: int|
            0 <= i < descs.len() && 0 <= j < descs.len() && i != j
                ==> #[trigger] desc_regions_disjoint(descs[i], descs[j], oshape),
        pre.len() == orig.len(),
        orig.len() == product(oshape) * items[idx].representation.spec_size(),
        forall|i: int|
            0 <= i < idx ==> orig.len() == product(oshape) * (
            #[trigger] items[i].representation.spec_size()),
        idx == 0 ==> pre == orig,
        retrieve_item_written(meta, items[idx], m, pre, post, oshape),
        // the picture before the step
        forall|i: int, q: Seq<u64>, j: int|
            0 <= i < idx && valid_index(oshape, q) && in_region(
                items[i].subset.start@,
                items[i].subset.shape@,
                q,
            ) && 0 <= j < items[i].representation.spec_size() ==> pre[#[trigger] byte_index(
                oshape,
                q,
                items[i].representation.spec_size(),
                j,
            )] == item_source(meta, items[i], m)[byte_index(
                items[i].subset.shape@,
                vec_sub(q, items[i].subset.start@),
                items[i].representation.spec_size(),
                j,
            )],
        forall|i0: int, q: Seq<u64>, j: int|
            0 <= i0 < idx && valid_index(oshape, q) && 0 <= j
                < items[i0].representation.spec_size() && (forall|i: int|
                0 <= i < items.len() ==> !(#[trigger] in_region(
                    items[i].subset.start@,
                    items[i].subset.shape@,
                    q,
                ))) ==> pre[#[trigger] byte_index(oshape, q, items[i0].representation.spec_size(), j)]
                == orig[byte_index(oshape, q, items[i0].representation.spec_size(), j)],
    ensures
        post.len() == pre.len(),
        forall|i: int, q: Seq<u64>, j: int|
            0 <= i < idx + 1 && valid_index(oshape, q) && in_region(
                items[i].subset.start@,
                items[i].subset.shape@,
                q,
            ) && 0 <= j < items[i].representation.spec_size() ==> post[#[trigger] byte_index(
                oshape,
                q,
                items[i].representation.spec_size(),
                j,
            )] == item_source(meta, items[i], m)[byte_index(
                items[i].subset.shape@,
                vec_sub(q, items[i].subset.start@),
                items[i].representation.spec_size(),
                j,
            )],
        forall|i0: int, q: Seq<u64>, j: int|
            0 <= i0 < idx + 1 && valid_index(oshape, q) && 0 <= j
                < items[i0].representation.spec_size() && (forall|i: int|
                0 <= i < items.len() ==> !(#[trigger] in_region(
                    items[i].subset.start@,
                    items[i].subset.shape@,
                    q,
                ))) ==> post[#[trigger] byte_index(oshape, q, items[i0].representation.spec_size(), j)]
                == orig[byte_index(oshape, q, items[i0].representation.spec_size(), j)],
{
    let ek = items[idx].representation.spec_size();
    // every item processed so far shares the element size, unless the buffer
    // has no index at all
    assert forall|i: int| 0 <= i < idx + 1 implies product(oshape) > 0 ==> (
    #[trigger] items[i].representation.spec_size()) == ek by {
        if product(oshape) > 0 {
            let ei = items[i].representation.spec_size();
            assert(ei == ek) by (nonlinear_arith)
                requires
                    product(oshape) * ei == product(oshape) * ek,
                    product(oshape) > 0,
            ;
        }
    }
    assert forall|q: Seq<u64>| valid_index(oshape, q) implies product(oshape) > 0 by {
        lemma_product_pos(oshape);
        if product(oshape) == 0 {
            let d = choose|d: int| 0 <= d < oshape.len() && !(oshape[d] > 0);
            assert(q[d] < oshape[d]);
        }
    }
    // the new region
    assert forall|q: Seq<u64>, j: int|
        valid_index(oshape, q) && in_region(
            items[idx].subset.start@,
            items[idx].subset.shape@,
            q,
        ) && 0 <= j < ek implies post[#[trigger] byte_index(oshape, q, ek, j)] == item_source(
        meta,
        items[idx],
        m,
    )[byte_index(items[idx].subset.shape@, vec_sub(q, items[idx].subset.start@), ek, j)] by {
        assert(post[byte_index(oshape, q, ek, j)] == item_source(meta, items[idx], m)[byte_index(
            items[idx].subset.shape@,
            vec_sub(q, items[idx].subset.start@),
            ek,
            j,
        )]);
    }
    // older regions and untouched indices: not in the new region, so kept
    assert forall|i: int, q: Seq<u64>, j: int|
        0 <= i < idx && valid_index(oshape, q) && in_region(
            items[i].subset.start@,
            items[i].subset.shape@,
            q,
        ) && 0 <= j < items[i].representation.spec_size() implies post[#[trigger] byte_index(
        oshape,
        q,
        items[i].representation.spec_size(),
        j,
    )] == item_source(meta, items[i], m)[byte_index(
        items[i].subset.shape@,
        vec_sub(q, items[i].subset.start@),
        items[i].representation.spec_size(),
        j,
    )] by {
        assert(desc_regions_disjoint(descs[i], descs[idx], oshape));
        assert(in_region(
            sel_start(descs[i].selection@, oshape),
            sel_shape(descs[i].selection@, oshape),
            q,
        ));
        assert(!in_region(items[idx].subset.start@, items[idx].subset.shape@, q));
        assert(items[i].representation.spec_size() == ek);
        assert(post[byte_index(oshape, q, ek, j)] == pre[byte_index(oshape, q, ek, j)]);
    }
    assert forall|i0: int, q: Seq<u64>, j: int|
        0 <= i0 < idx + 1 && valid_index(oshape, q) && 0 <= j
            < items[i0].representation.spec_size() && (forall|i: int|
            0 <= i < items.len() ==> !(#[trigger] in_region(
                items[i].subset.start@,
                items[i].subset.shape@,
                q,
            ))) implies post[#[trigger] byte_index(oshape, q, items[i0].representation.spec_size(), j)]
        == orig[byte_index(oshape, q, items[i0].representation.spec_size(), j)] by {
        assert(!in_region(items[idx].subset.start@, items[idx].subset.shape@, q));
        assert(items[i0].representation.spec_size() == ek);
        assert(post[byte_index(oshape, q, ek, j)] == pre[byte_index(oshape, q, ek, j)]);
        if i0 < idx {
        } else {
            // item idx is the first with this element size; untouched indices
            // still carry the original bytes
            if idx > 0 {
                assert(items[0].representation.spec_size() == ek);
                assert(pre[byte_index(oshape, q, ek, j)] == orig[byte_index(oshape, q, ek, j)]);
            } else {
                assert(pre == orig);
            }
        }
    }
}

/// The store key a description addresses.
pub open spec fn desc_key(d: ChunkDescription) -> Seq<u8> {
    string_bytes(d.chunk_path).skip(memory_scheme().len() as int)
}

/// Whether one item's two regions agree as the input kind needs: a buffer
/// write extracts the item's buffer region, so the element counts must match;
/// a broadcast constant needs no buffer region.
pub open spec fn item_counts_ok(it: ChunksItem, input: StoreInput) -> bool {
    match input {
        StoreInput::Array(_) => product(it.chunk_subset.shape@) == product(it.subset.shape@),
        StoreInput::Constant(_) => true,
    }
}

/// Whether the batch input's length agrees with one item: a buffer holds one
/// element per index of the input shape, a constant is one element.
pub open spec fn input_len_ok(it: ChunksItem, input: StoreInput, ishape: Seq<u64>) -> bool {
    match input {
        StoreInput::Array(b) => b@.len() == product(ishape) * it.representation.spec_size(),
        StoreInput::Constant(c) => c@.len() == it.representation.spec_size(),
    }
}

/// Whether the batch input fits one description: a buffer holds one element
/// per index of the input shape and the two regions agree in element count; a
/// constant is one element.
pub open spec fn desc_input_ok(d: ChunkDescription, input: StoreInput, ishape: Seq<u64>) -> bool {
    match input {
        StoreInput::Array(b) => b@.len() == product(ishape) * desc_esize(d) && product(
            sel_shape(d.chunk_selection@, d.chunk_shape@),
        ) == product(sel_shape(d.selection@, ishape)),
        StoreInput::Constant(c) => c@.len() == desc_esize(d),
    }
}

/// The bytes handed to one description's chunk region.
pub open spec fn desc_item_input(d: ChunkDescription, input: StoreInput, ishape: Seq<u64>) -> Seq<
    u8,
> {
    match input {
        StoreInput::Array(b) => extract_subset(
            b@,
            ishape,
            sel_start(d.selection@, ishape),
            sel_shape(d.selection@, ishape),
            desc_esize(d),
        ),
        StoreInput::Constant(c) => fill_seq(
            product(sel_shape(d.chunk_selection@, d.chunk_shape@)),
            c@,
        ),
    }
}

/// Whether one description's write succeeds against the original store: a
/// partial write must be able to read the chunk, and the merged chunk must be
/// committable.
pub open spec fn desc_writable(
    meta: Seq<char>,
    d: ChunkDescription,
    m0: Map<Seq<u8>, Seq<u8>>,
    input: StoreInput,
    ishape: Seq<u64>,
    validate_checksums: bool,
) -> bool {
    &&& (!full_cover_region(
        sel_start(d.chunk_selection@, d.chunk_shape@),
        sel_shape(d.chunk_selection@, d.chunk_shape@),
        d.chunk_shape@,
    ) ==> chunk_readable_p(
        meta,
        d.chunk_shape@,
        desc_dtype(d).spec_name(),
        d.fill_value@,
        m0,
        desc_key(d),
        validate_checksums,
    ))
    &&& chunk_storable_p(
        meta,
        d.chunk_shape@,
        desc_dtype(d).spec_name(),
        d.fill_value@,
        subset_merged_p(
            meta,
            d.chunk_shape@,
            desc_dtype(d).spec_name(),
            d.fill_value@,
            desc_esize(d),
            m0,
            desc_key(d),
            sel_start(d.chunk_selection@, d.chunk_shape@),
            sel_shape(d.chunk_selection@, d.chunk_shape@),
            desc_item_input(d, input, ishape),
        ),
    )
}

/// The store map after one description's write: the merged chunk is erased
/// when all fill, else stored as its encoding.
pub open spec fn desc_store_step(
    meta: Seq<char>,
    d: ChunkDescription,
    m: Map<Seq<u8>, Seq<u8>>,
    input: StoreInput,
    ishape: Seq<u64>,
) -> Map<Seq<u8>, Seq<u8>> {
    let merged = subset_merged_p(
        meta,
        d.chunk_shape@,
        desc_dtype(d).spec_name(),
        d.fill_value@,
        desc_esize(d),
        m,
        desc_key(d),
        sel_start(d.chunk_selection@, d.chunk_shape@),
        sel_shape(d.chunk_selection@, d.chunk_shape@),
        desc_item_input(d, input, ishape),
    );
    if is_fill_pattern(merged, d.fill_value@) {
        m.remove(desc_key(d))
    } else {
        m.insert(
            desc_key(d),
            encode_of(meta, d.chunk_shape@, desc_dtype(d).spec_name(), d.fill_value@, merged),
        )
    }
}

/// The store map after a batch's writes, applied in description order.
/// Descriptions may address the same chunk: a later write sees the earlier
/// one's result.
pub open spec fn batch_store_map(
    meta: Seq<char>,
    descs: Seq<ChunkDescription>,
    m: Map<Seq<u8>, Seq<u8>>,
    input: StoreInput,
    ishape: Seq<u64>,
) -> Map<Seq<u8>, Seq<u8>>
    decreases descs.len(),
{
    if descs.len() == 0 {
        m
    } else {
        batch_store_map(
            meta,
            descs.drop_first(),
            desc_store_step(meta, descs.first(), m, input, ishape),
            input,
            ishape,
        )
    }
}

/// Whether every write of a batch succeeds, in description order, each
/// against the store the writes before it left.
pub open spec fn batch_writable(
    meta: Seq<char>,
    descs: Seq<ChunkDescription>,
    m: Map<Seq<u8>, Seq<u8>>,
    input: StoreInput,
    ishape: Seq<u64>,
    validate_checksums: bool,
) -> bool
    decreases descs.len(),
{
    if descs.len() == 0 {
        true
    } else {
        &&& desc_writable(meta, descs.first(), m, input, ishape, validate_checksums)
        &&& batch_writable(
            meta,
            descs.drop_first(),
            desc_store_step(meta, descs.first(), m, input, ishape),
            input,
            ishape,
            validate_checksums,
        )
    }
}

/// Appending one description folds one more step onto the batch's store map.
proof fn lemma_batch_store_map_push(
    meta: Seq<char>,
    descs: Seq<ChunkDescription>,
    d: ChunkDescription,
    m: Map<Seq<u8>, Seq<u8>>,
    input: StoreInput,
    ishape: Seq<u64>,
)
    ensures
        batch_store_map(meta, descs.push(d), m, input, ishape) == desc_store_step(
            meta,
            d,
            batch_store_map(meta, descs, m, input, ishape),
            input,
            ishape,
        ),
    decreases descs.len(),
{
    if descs.len() == 0 {
        assert(descs.push(d).first() == d);
        assert(descs.push(d).drop_first() =~= Seq::<ChunkDescription>::empty());
        assert(batch_store_map(meta, descs.push(d), m, input, ishape) == batch_store_map(
            meta,
            descs.push(d).drop_first(),
            desc_store_step(meta, d, m, input, ishape),
            input,
            ishape,
        ));
        assert(batch_store_map(meta, descs, m, input, ishape) == m);
    } else {
        assert(descs.push(d).first() == descs.first());
        assert(descs.push(d).drop_first() =~= descs.drop_first().push(d));
        lemma_batch_store_map_push(
            meta,
            descs.drop_first(),
            d,
            desc_store_step(meta, descs.first(), m, input, ishape),
            input,
            ishape,
        );
        assert(batch_store_map(meta, descs.push(d), m, input, ishape) == batch_store_map(
            meta,
            descs.drop_first().push(d),
            desc_store_step(meta, descs.first(), m, input, ishape),
            input,
            ishape,
        ));
        assert(batch_store_map(meta, descs, m, input, ishape) == batch_store_map(
            meta,
            descs.drop_first(),
            desc_store_step(meta, descs.first(), m, input, ishape),
            input,
            ishape,
        ));
    }
}

/// Appending one description to a writable batch stays writable exactly when
/// the new write succeeds against the batch's store map.
proof fn lemma_batch_writable_push(
    meta: Seq<char>,
    descs: Seq<ChunkDescription>,
    d: ChunkDescription,
    m: Map<Seq<u8>, Seq<u8>>,
    input: StoreInput,
    ishape: Seq<u64>,
    validate_checksums: bool,
)
    ensures
        batch_writable(meta, descs.push(d), m, input, ishape, validate_checksums) == (
        batch_writable(meta, descs, m, input, ishape, validate_checksums) && desc_writable(
            meta,
            d,
            batch_store_map(meta, descs, m, input, ishape),
            input,
            ishape,
            validate_checksums,
        )),
    decreases descs.len(),
{
    if descs.len() == 0 {
        assert(descs.push(d).first() == d);
        assert(descs.push(d).drop_first() =~= Seq::<ChunkDescription>::empty());
        assert(batch_writable(meta, descs.push(d), m, input, ishape, validate_checksums) == (
        desc_writable(meta, d, m, input, ishape, validate_checksums) && batch_writable(
            meta,
            descs.push(d).drop_first(),
            desc_store_step(meta, d, m, input, ishape),
            input,
            ishape,
            validate_checksums,
        )));
        assert(batch_store_map(meta, descs, m, input, ishape) == m);
    } else {
        assert(descs.push(d).first() == descs.first());
        assert(descs.push(d).drop_first() =~= descs.drop_first().push(d));
        lemma_batch_writable_push(
            meta,
            descs.drop_first(),
            d,
            desc_store_step(meta, descs.first(), m, input, ishape),
            input,
            ishape,
            validate_checksums,
        );
        lemma_batch_store_map_push(
            meta,
            descs.drop_first(),
            d,
            desc_store_step(meta, descs.first(), m, input, ishape),
            input,
            ishape,
        );
        assert(batch_writable(meta, descs.push(d), m, input, ishape, validate_checksums) == (
        desc_writable(meta, descs.first(), m, input, ishape, validate_checksums)
            && batch_writable(
            meta,
            descs.drop_first().push(d),
            desc_store_step(meta, descs.first(), m, input, ishape),
            input,
            ishape,
            validate_checksums,
        )));
        assert(batch_store_map(meta, descs, m, input, ishape) == batch_store_map(
            meta,
            descs.drop_first(),
            desc_store_step(meta, descs.first(), m, input, ishape),
            input,
            ishape,
        ));
    }
}

/// In a writable batch, the write at position `k` succeeds against the store
/// the writes before it left.
proof fn lemma_batch_writable_prefix(
    meta: Seq<char>,
    descs: Seq<ChunkDescription>,
    k: int,
    m: Map<Seq<u8>, Seq<u8>>,
    input: StoreInput,
    ishape: Seq<u64>,
    validate_checksums: bool,
)
    requires
        0 <= k < descs.len(),
        batch_writable(meta, descs, m, input, ishape, validate_checksums),
    ensures
        desc_writable(
            meta,
            descs[k],
            batch_store_map(meta, descs.take(k), m, input, ishape),
            input,
            ishape,
            validate_checksums,
        ),
    decreases k,
{
    if k == 0 {
        assert(descs.take(0) =~= Seq::<ChunkDescription>::empty());
        assert(descs[0] == descs.first());
    } else {
        let m1 = desc_store_step(meta, descs.first(), m, input, ishape);
        lemma_batch_writable_prefix(
            meta,
            descs.drop_first(),
            k - 1,
            m1,
            input,
            ishape,
            validate_checksums,
        );
        assert(descs.take(k).first() == descs.first());
        assert(descs.take(k).drop_first() =~= descs.drop_first().take(k - 1));
        assert(batch_store_map(meta, descs.take(k), m, input, ishape) == batch_store_map(
            meta,
            descs.drop_first().take(k - 1),
            m1,
            input,
            ishape,
        ));
        assert(descs.drop_first()[k - 1] == descs[k]);
    }
}

/// The batch input: the whole buffer's bytes, or one element broadcast over
/// every written region.
pub enum StoreInput {
    /// Elementwise bytes of a buffer in row-major order.
    Array(Vec<u8>),
    /// One element's bytes, broadcast.
    Constant(Vec<u8>),
}

impl CodecPipelineImpl {
    /// Store a batch of chunk regions from one shared input.
    ///
    /// Full-cover writes replace their chunk outright; partial writes read,
    /// splice and re-store. A merged chunk equal to the fill value everywhere
    /// is erased rather than stored. Writes are applied in description order
    /// — two writes to one chunk compose, the later seeing the earlier's
    /// result — and the contract pins the final store as that in-order fold,
    /// so any schedule that respects the composition reaches the same store.
    /// The first failing item aborts the batch, and items already processed
    /// stay stored.
    pub fn store_chunks(
        &mut self,
        descriptions: &Vec<ChunkDescription>,
        input: &StoreInput,
        input_shape: &Vec<u64>,
        chunk_concurrent_limit: usize,
    ) -> (r: Result<(), CodecPipelineError>)
        requires
            old(self).wf(),
            forall|d: int| 0 <= d < input_shape@.len() ==> #[trigger] input_shape@[d] <= i64::MAX,
            forall|i: int, d2: int|
                0 <= i < descriptions@.len() && 0 <= d2 < descriptions@[i].chunk_shape@.len()
                    ==> #[trigger] descriptions@[i].chunk_shape@[d2] <= i64::MAX,
        ensures
            final(self).wf(),
            final(self).same_config(old(self)),
            r is Err && r->Err_0 != CodecPipelineError::CodecFailure ==> final(self).store_map()
                == old(self).store_map(),
            r is Ok <==> (forall|i: int|
                0 <= i < descriptions@.len() ==> desc_converts(
                    #[trigger] descriptions@[i],
                    input_shape@,
                )) && (forall|i: int|
                0 <= i < descriptions@.len() ==> desc_input_ok(
                    #[trigger] descriptions@[i],
                    *input,
                    input_shape@,
                )) && batch_writable(
                old(self).spec_meta(),
                descriptions@,
                old(self).store_map(),
                *input,
                input_shape@,
                old(self).codec_options.validate_checksums,
            ),
            r matches Err(e) ==> ((exists|i: int|
                0 <= i < descriptions@.len() && (forall|j: int|
                    0 <= j < i ==> desc_converts(#[trigger] descriptions@[j], input_shape@)) && !(
                #[trigger] desc_converts(descriptions@[i], input_shape@)) && e == desc_error(
                    descriptions@[i],
                    input_shape@,
                    old(self).store_initialized() || i > 0,
                )) || ((forall|i: int|
                0 <= i < descriptions@.len() ==> desc_converts(
                    #[trigger] descriptions@[i],
                    input_shape@,
                )) && (e == CodecPipelineError::BufferSizeMismatch || e
                == CodecPipelineError::CodecFailure))),
            r is Ok ==> final(self).store_map() == batch_store_map(
                old(self).spec_meta(),
                descriptions@,
                old(self).store_map(),
                *input,
                input_shape@,
            ),
    {
        let items = match self.collect_chunk_descriptions(descriptions, input_shape) {
            Ok(it) => it,
            Err(e) => {
                return Err(e);
            },
        };
        // validate the input length against every item before any mutation
        let mut v: usize = 0;
        while v < items.len()
            invariant
                0 <= v <= items@.len(),
                self.wf(),
                self.same_config(old(self)),
                self.store_map() == old(self).store_map(),
                items@.len() > 0 ==> self.store_initialized(),
                items_match(items@, descriptions@, input_shape@),
                forall|i: int|
                    0 <= i < descriptions@.len() ==> desc_converts(
                        #[trigger] descriptions@[i],
                        input_shape@,
                    ),
                forall|i: int|
                    0 <= i < v ==> #[trigger] input_len_ok(items@[i], *input, input_shape@),
                forall|i: int| 0 <= i < v ==> #[trigger] item_counts_ok(items@[i], *input),
                forall|i: int|
                    0 <= i < v ==> desc_input_ok(#[trigger] descriptions@[i], *input, input_shape@),
            decreases items@.len() - v,
        {
            let vit = &items[v];
            let ghost vdd = descriptions@[v as int];
            proof {
                assert(item_matches_desc(items@[v as int], vdd, input_shape@));
                assert(vit.representation.data_type == desc_dtype(vdd));
            }
            let vesize = vit.representation.data_type.size();
            match input {
                StoreInput::Array(b) => {
                    if !buffer_len_matches(b.len(), input_shape, vesize) {
                        proof {
                            assert(b@.len() == b.len());
                            assert(!desc_input_ok(vdd, *input, input_shape@));
                        }
                        return Err(CodecPipelineError::BufferSizeMismatch);
                    }
                    proof {
                        assert forall|d2: int|
                            0 <= d2 < vit.chunk_subset.shape@.len() implies #[trigger] vit.chunk_subset.shape@[d2]
                            <= vit.representation.shape@[d2] by {
                            assert(vit.chunk_subset.start@[d2] + vit.chunk_subset.shape@[d2]
                                <= vit.representation.shape@[d2]);
                        }
                        lemma_product_monotone(vit.chunk_subset.shape@, vit.representation.shape@);
                        assert(product(vit.representation.shape@) <= product(
                            vit.representation.shape@,
                        ) * vit.representation.spec_size()) by (nonlinear_arith)
                            requires
                                vit.representation.spec_size() >= 1,
                                product(vit.representation.shape@) >= 0,
                        ;
                        assert forall|d2: int|
                            0 <= d2 < vit.subset.shape@.len() implies #[trigger] vit.subset.shape@[d2]
                            <= input_shape@[d2] by {
                            assert(vit.subset.start@[d2] + vit.subset.shape@[d2]
                                <= input_shape@[d2]);
                        }
                        lemma_product_monotone(vit.subset.shape@, input_shape@);
                        assert(product(input_shape@) <= product(input_shape@)
                            * vit.representation.spec_size()) by (nonlinear_arith)
                            requires
                                vit.representation.spec_size() >= 1,
                                product(input_shape@) >= 0,
                        ;
                        assert(b@.len() == b.len());
                        assert(usize::MAX <= u64::MAX);
                    }
                    let vcc = match vit.chunk_subset.num_elements_checked() {
                        Some(a) => a,
                        None => {
                            proof {
                                assert(false);
                            }
                            0
                        },
                    };
                    let vsc = match vit.subset.num_elements_checked() {
                        Some(b2) => b2,
                        None => {
                            proof {
                                assert(false);
                            }
                            0
                        },
                    };
                    if vcc != vsc {
                        proof {
                            assert(!desc_input_ok(vdd, *input, input_shape@));
                        }
                        return Err(CodecPipelineError::BufferSizeMismatch);
                    }
                },
                StoreInput::Constant(c) => {
                    if c.len() != vesize {
                        proof {
                            assert(!desc_input_ok(vdd, *input, input_shape@));
                        }
                        return Err(CodecPipelineError::BufferSizeMismatch);
                    }
                },
            }
            v += 1;
        }
        let ghost m0 = self.store_map();
        let ghost meta = self.spec_meta();
        let mut idx: usize = 0;
        while idx < items.len()
            invariant
                0 <= idx <= items@.len(),
                self.wf(),
                self.same_config(old(self)),
                m0 == old(self).store_map(),
                meta == old(self).spec_meta(),
                items@.len() > 0 ==> self.store_initialized(),
                items_match(items@, descriptions@, input_shape@),
                forall|i: int|
                    0 <= i < descriptions@.len() ==> desc_converts(
                        #[trigger] descriptions@[i],
                        input_shape@,
                    ),
                forall|i: int|
                    0 <= i < descriptions@.len() ==> desc_input_ok(
                        #[trigger] descriptions@[i],
                        *input,
                        input_shape@,
                    ),
                forall|i: int|
                    0 <= i < items@.len() ==> #[trigger] input_len_ok(
                        items@[i],
                        *input,
                        input_shape@,
                    ),
                forall|i: int|
                    0 <= i < items@.len() ==> #[trigger] item_counts_ok(items@[i], *input),
                batch_writable(
                    meta,
                    descriptions@.take(idx as int),
                    m0,
                    *input,
                    input_shape@,
                    self.codec_options.validate_checksums,
                ),
                self.store_map() == batch_store_map(
                    meta,
                    descriptions@.take(idx as int),
                    m0,
                    *input,
                    input_shape@,
                ),
            decreases items@.len() - idx,
        {
            let it = &items[idx];
            let ghost dd = descriptions@[idx as int];
            proof {
                assert(item_matches_desc(items@[idx as int], dd, input_shape@));
                assert(it.representation.data_type == desc_dtype(dd));
            }
            let esize = it.representation.data_type.size();
            proof {
                assert(input_len_ok(items@[idx as int], *input, input_shape@));
                assert(item_counts_ok(items@[idx as int], *input));
                assert forall|d: int|
                    0 <= d < it.chunk_subset.shape@.len() implies #[trigger] it.chunk_subset.shape@[d]
                    <= it.representation.shape@[d] by {
                    assert(it.chunk_subset.start@[d] + it.chunk_subset.shape@[d]
                        <= it.representation.shape@[d]);
                }
                lemma_product_monotone(it.chunk_subset.shape@, it.representation.shape@);
                assert(product(it.chunk_subset.shape@) * it.representation.spec_size() <= product(
                    it.representation.shape@,
                ) * it.representation.spec_size()) by (nonlinear_arith)
                    requires
                        product(it.chunk_subset.shape@) <= product(it.representation.shape@),
                        it.representation.spec_size() >= 0,
                ;
                assert(usize::MAX <= u64::MAX);
            }
            let subset_bytes: Vec<u8> = match input {
                StoreInput::Array(b) => {
                    proof {
                        assert(b@.len() == b.len());
                        assert forall|d: int|
                            0 <= d < it.subset.shape@.len() implies #[trigger] it.subset.shape@[d]
                            <= input_shape@[d] by {
                            assert(it.subset.start@[d] + it.subset.shape@[d] <= input_shape@[d]);
                        }
                        lemma_product_monotone(it.subset.shape@, input_shape@);
                        assert(product(it.subset.shape@) * esize <= product(input_shape@) * esize)
                            by (nonlinear_arith)
                            requires
                                product(it.subset.shape@) <= product(input_shape@),
                                esize >= 0,
                        ;
                    }
                    extract_subset_bytes(b, input_shape, &it.subset.start, &it.subset.shape, esize)
                },
                StoreInput::Constant(c) => {
                    let count = match it.chunk_subset.num_elements_checked() {
                        Some(n) => n,
                        None => {
                            proof {
                                assert(product(it.representation.shape@) <= product(
                                    it.representation.shape@,
                                ) * it.representation.spec_size()) by (nonlinear_arith)
                                    requires
                                        it.representation.spec_size() >= 1,
                                        product(it.representation.shape@) >= 0,
                                ;
                                assert(false);
                            }
                            0
                        },
                    };
                    repeat_fill(count, c)
                },
            };
            let ghost src = desc_item_input(dd, *input, input_shape@);
            proof {
                assert(subset_bytes@ == src);
                assert(subset_bytes@.len() == product(it.chunk_subset.shape@)
                    * it.representation.spec_size());
            }
            let ghost m_pre = self.store_map();
            proof {
                // the write sees the store the earlier writes left; the
                // description-level step speaks of the same plain values
                assert(subset_merged(
                    meta,
                    it.representation,
                    m_pre,
                    it.key@,
                    it.chunk_subset.start@,
                    it.chunk_subset.shape@,
                    src,
                ) == subset_merged_p(
                    meta,
                    dd.chunk_shape@,
                    desc_dtype(dd).spec_name(),
                    dd.fill_value@,
                    desc_esize(dd),
                    m_pre,
                    desc_key(dd),
                    sel_start(dd.chunk_selection@, dd.chunk_shape@),
                    sel_shape(dd.chunk_selection@, dd.chunk_shape@),
                    desc_item_input(dd, *input, input_shape@),
                ));
            }
            let step = match &mut self.store {
                Some(CodecPipelineStore::Memory(mem)) => {
                    store_chunk_subset_bytes(
                        mem,
                        &it.key,
                        &self.codec_chain,
                        &it.representation,
                        subset_bytes,
                        &it.chunk_subset,
                        &self.codec_options,
                    )
                },
                None => {
                    proof {
                        assert(false);
                    }
                    Err(CodecPipelineError::UnsupportedStoreScheme)
                },
            };
            match step {
                Ok(()) => {},
                Err(e) => {
                    proof {
                        assert(e == CodecPipelineError::CodecFailure);
                        assert(!subset_write_ok(
                            meta,
                            it.representation,
                            m_pre,
                            it.key@,
                            it.chunk_subset.start@,
                            it.chunk_subset.shape@,
                            src,
                            self.codec_options.validate_checksums,
                        ));
                        assert(!desc_writable(
                            meta,
                            dd,
                            m_pre,
                            *input,
                            input_shape@,
                            self.codec_options.validate_checksums,
                        ));
                        if batch_writable(
                            meta,
                            descriptions@,
                            m0,
                            *input,
                            input_shape@,
                            self.codec_options.validate_checksums,
                        ) {
                            lemma_batch_writable_prefix(
                                meta,
                                descriptions@,
                                idx as int,
                                m0,
                                *input,
                                input_shape@,
                                self.codec_options.validate_checksums,
                            );
                        }
                    }
                    return Err(e);
                },
            }
            proof {
                assert(subset_write_ok(
                    meta,
                    it.representation,
                    m_pre,
                    it.key@,
                    it.chunk_subset.start@,
                    it.chunk_subset.shape@,
                    src,
                    self.codec_options.validate_checksums,
                ));
                assert(desc_writable(
                    meta,
                    dd,
                    m_pre,
                    *input,
                    input_shape@,
                    self.codec_options.validate_checksums,
                ));
                assert(chunk_store_step(
                    meta,
                    it.representation,
                    m_pre,
                    self.store_map(),
                    it.key@,
                    subset_merged(
                        meta,
                        it.representation,
                        m_pre,
                        it.key@,
                        it.chunk_subset.start@,
                        it.chunk_subset.shape@,
                        src,
                    ),
                ));
                assert(self.store_map() == desc_store_step(meta, dd, m_pre, *input, input_shape@));
                assert(descriptions@.take(idx + 1) =~= descriptions@.take(idx as int).push(dd));
                lemma_batch_store_map_push(
                    meta,
                    descriptions@.take(idx as int),
                    dd,
                    m0,
                    *input,
                    input_shape@,
                );
                lemma_batch_writable_push(
                    meta,
                    descriptions@.take(idx as int),
                    dd,
                    m0,
                    *input,
                    input_shape@,
                    self.codec_options.validate_checksums,
                );
            }
            idx += 1;
        }
        proof {
            assert(descriptions@.take(descriptions@.len() as int) =~= descriptions@);
        }
        Ok(())
    }
}

} // verus!
