//! The laws of the pipeline, stated and proved once over its model.
//!
//! Each law relates several operations through the spec functions their
//! contracts use: what a store step leaves behind, what a retrieval reads,
//! and how the shared buffer ends up.

use crate::bytes_nd::{byte_index, fill_seq, is_fill_pattern, lemma_fill_seq_is_fill};
use crate::nd::{delinearize, in_region, lemma_delinearize, product, valid_index, vec_sub};
use crate::pipeline::{
    batch_retrieved, batch_store_map, chunk_readable, chunk_store_step, full_cover_region,
    item_source, spec_chunk_bytes, subset_merged, ChunkDescription, ChunksItem, StoreInput,
};
use crate::representation::ChunkRepresentation;
use vstd::prelude::*;

verus! {

/// Law: a chunk no store holds reads as its fill value, repeated once per
/// element.
pub proof fn lemma_missing_chunk_reads_fill(
    meta: Seq<char>,
    rep: ChunkRepresentation,
    m: Map<Seq<u8>, Seq<u8>>,
    key: Seq<u8>,
)
    requires
        !m.contains_key(key),
    ensures
        spec_chunk_bytes(meta, rep, m, key) == fill_seq(product(rep.shape@), rep.fill_value@),
{
}

/// Law: round trip. Storing a chunk's decoded bytes and then reading the same
/// chunk succeeds, under either checksum setting, and returns those bytes
/// exactly — both when an encoded value was stored, by the codec chain's
/// decode inverting its encode, and when an all-fill chunk was erased, by the
/// fill synthesis of the missing chunk.
pub proof fn lemma_store_then_retrieve_round_trip(
    meta: Seq<char>,
    rep: ChunkRepresentation,
    m: Map<Seq<u8>, Seq<u8>>,
    mf: Map<Seq<u8>, Seq<u8>>,
    key: Seq<u8>,
    decoded: Seq<u8>,
    validate_checksums: bool,
)
    requires
        rep.wf(),
        decoded.len() == product(rep.shape@) * rep.spec_size(),
        chunk_store_step(meta, rep, m, mf, key, decoded),
    ensures
        chunk_readable(meta, rep, mf, key, validate_checksums),
        spec_chunk_bytes(meta, rep, mf, key) == decoded,
{
    if is_fill_pattern(decoded, rep.fill_value@) {
        assert(mf == m.remove(key));
        assert(!mf.contains_key(key));
        lemma_fill_seq_is_fill(product(rep.shape@), rep.fill_value@);
        assert(decoded == fill_seq(product(rep.shape@), rep.fill_value@));
    }
}

/// Law: a chunk whose contents equal the fill value everywhere is, after a
/// store step, absent from the store rather than stored.
pub proof fn lemma_fill_chunk_stored_as_absence(
    meta: Seq<char>,
    rep: ChunkRepresentation,
    m: Map<Seq<u8>, Seq<u8>>,
    mf: Map<Seq<u8>, Seq<u8>>,
    key: Seq<u8>,
    decoded: Seq<u8>,
)
    requires
        is_fill_pattern(decoded, rep.fill_value@),
        chunk_store_step(meta, rep, m, mf, key, decoded),
    ensures
        !mf.contains_key(key),
{
    assert(mf == m.remove(key));
}

/// Law: a store step is deterministic. Two stores of the same merged chunk
/// against the same store contents leave identical stores — the stored
/// encoding is pinned, so batch stores are byte-identical however their items
/// are scheduled.
pub proof fn lemma_store_step_deterministic(
    meta: Seq<char>,
    rep: ChunkRepresentation,
    m: Map<Seq<u8>, Seq<u8>>,
    mf1: Map<Seq<u8>, Seq<u8>>,
    mf2: Map<Seq<u8>, Seq<u8>>,
    key: Seq<u8>,
    merged: Seq<u8>,
)
    requires
        chunk_store_step(meta, rep, m, mf1, key, merged),
        chunk_store_step(meta, rep, m, mf2, key, merged),
    ensures
        mf1 == mf2,
{
}

/// Law: batch stores are concurrency invariant. The batch-store contract
/// pins the final store as the in-order fold of the writes over the original
/// store — a function of the batch alone, with the stored encodings pinned —
/// so two runs of the same batch, whatever their concurrency limit or
/// interleaving, leave identical stores.
pub proof fn lemma_store_concurrency_invariant(
    meta: Seq<char>,
    descs: Seq<ChunkDescription>,
    m0: Map<Seq<u8>, Seq<u8>>,
    mf1: Map<Seq<u8>, Seq<u8>>,
    mf2: Map<Seq<u8>, Seq<u8>>,
    input: StoreInput,
    ishape: Seq<u64>,
)
    requires
        mf1 == batch_store_map(meta, descs, m0, input, ishape),
        mf2 == batch_store_map(meta, descs, m0, input, ishape),
    ensures
        mf1 == mf2,
{
}

/// Law: a partial sub-region write preserves the chunk outside that region.
/// Every element of the merged chunk outside the written region carries the
/// chunk's previous byte at that position.
pub proof fn lemma_partial_write_preserves_outside(
    meta: Seq<char>,
    rep: ChunkRepresentation,
    m: Map<Seq<u8>, Seq<u8>>,
    key: Seq<u8>,
    cs_start: Seq<u64>,
    cs_shape: Seq<u64>,
    bytes: Seq<u8>,
    q: Seq<u64>,
    j: int,
)
    requires
        rep.spec_size() > 0,
        !full_cover_region(cs_start, cs_shape, rep.shape@),
        valid_index(rep.shape@, q),
        !in_region(cs_start, cs_shape, q),
        0 <= j < rep.spec_size(),
        byte_index(rep.shape@, q, rep.spec_size(), j) < spec_chunk_bytes(
            meta,
            rep,
            m,
            key,
        ).len(),
    ensures
        subset_merged(meta, rep, m, key, cs_start, cs_shape, bytes)[byte_index(
            rep.shape@,
            q,
            rep.spec_size(),
            j,
        )] == spec_chunk_bytes(meta, rep, m, key)[byte_index(rep.shape@, q, rep.spec_size(), j)],
{
    let esize = rep.spec_size();
    let old_chunk = spec_chunk_bytes(meta, rep, m, key);
    let p = byte_index(rep.shape@, q, esize, j);
    crate::nd::lemma_linearize_bound(rep.shape@, q);
    assert(0 <= p) by (nonlinear_arith)
        requires
            p == crate::nd::linearize(rep.shape@, q) * esize + j,
            crate::nd::linearize(rep.shape@, q) >= 0,
            esize > 0,
            0 <= j,
    ;
    vstd::arithmetic::div_mod::lemma_fundamental_div_mod_converse(
        p,
        esize as int,
        crate::nd::linearize(rep.shape@, q) as int,
        j,
    );
    assert((p / esize as int) as nat == crate::nd::linearize(rep.shape@, q));
    crate::nd::lemma_linearize_inverse(rep.shape@, q);
    assert(delinearize(rep.shape@, (p / esize as int) as nat) == q);
}

/// Law: what a sub-region write leaves readable. After a write of a merged
/// chunk with the chunk's byte size, reading the chunk back returns exactly
/// the merged contents; for a partial write that is the written bytes inside
/// the region and the chunk's previous bytes outside it.
pub proof fn lemma_subset_write_then_read(
    meta: Seq<char>,
    rep: ChunkRepresentation,
    m: Map<Seq<u8>, Seq<u8>>,
    mf: Map<Seq<u8>, Seq<u8>>,
    key: Seq<u8>,
    cs_start: Seq<u64>,
    cs_shape: Seq<u64>,
    bytes: Seq<u8>,
    validate_checksums: bool,
)
    requires
        rep.wf(),
        subset_merged(meta, rep, m, key, cs_start, cs_shape, bytes).len() == product(rep.shape@)
            * rep.spec_size(),
        chunk_store_step(
            meta,
            rep,
            m,
            mf,
            key,
            subset_merged(meta, rep, m, key, cs_start, cs_shape, bytes),
        ),
    ensures
        chunk_readable(meta, rep, mf, key, validate_checksums),
        spec_chunk_bytes(meta, rep, mf, key) == subset_merged(
            meta,
            rep,
            m,
            key,
            cs_start,
            cs_shape,
            bytes,
        ),
{
    lemma_store_then_retrieve_round_trip(
        meta,
        rep,
        m,
        mf,
        key,
        subset_merged(meta, rep, m, key, cs_start, cs_shape, bytes),
        validate_checksums,
    );
}

/// Law: concurrency invariance. The batch-retrieval contract pins every byte
/// of the final buffer from the items and the store alone, so any two runs of
/// the same batch — whatever their concurrency limit or interleaving — leave
/// byte-identical buffers.
pub proof fn lemma_retrieve_concurrency_invariant(
    meta: Seq<char>,
    items: Seq<ChunksItem>,
    m: Map<Seq<u8>, Seq<u8>>,
    old_out: Seq<u8>,
    out1: Seq<u8>,
    out2: Seq<u8>,
    oshape: Seq<u64>,
)
    requires
        batch_retrieved(meta, items, m, old_out, out1, oshape),
        batch_retrieved(meta, items, m, old_out, out2, oshape),
    ensures
        out1 == out2,
{
    if items.len() == 0 {
        assert(out1 =~= out2);
    } else {
        let esize = items[0].representation.spec_size();
        assert(old_out.len() == product(oshape) * esize);
        assert forall|p: int| 0 <= p < out1.len() implies out1[p] == out2[p] by {
            assert(esize > 0) by (nonlinear_arith)
                requires
                    product(oshape) * esize > p >= 0,
            ;
            let k = (p / esize as int) as nat;
            let j = p % esize as int;
            vstd::arithmetic::div_mod::lemma_fundamental_div_mod(p, esize as int);
            vstd::arithmetic::div_mod::lemma_div_pos_is_pos(p, esize as int);
            assert(k as int == p / esize as int);
            assert(k * esize + j == p) by (nonlinear_arith)
                requires
                    p == esize as int * (p / esize as int) + j,
                    k as int == p / esize as int,
            ;
            assert(k < product(oshape)) by (nonlinear_arith)
                requires
                    k * esize + j == p,
                    0 <= j < esize,
                    p < product(oshape) * esize,
                    esize > 0,
            ;
            lemma_delinearize(oshape, k);
            let q = delinearize(oshape, k);
            assert(byte_index(oshape, q, esize, j) == p);
            if exists|i: int|
                0 <= i < items.len() && #[trigger] in_region(
                    items[i].subset.start@,
                    items[i].subset.shape@,
                    q,
                ) {
                let i = choose|i: int|
                    0 <= i < items.len() && #[trigger] in_region(
                        items[i].subset.start@,
                        items[i].subset.shape@,
                        q,
                    );
                let ei = items[i].representation.spec_size();
                assert(ei == esize) by (nonlinear_arith)
                    requires
                        product(oshape) * ei == product(oshape) * esize,
                        product(oshape) * esize > 0,
                        ei >= 0,
                        esize >= 0,
                ;
                assert(out1[byte_index(oshape, q, ei, j)] == item_source(meta, items[i], m)[
                byte_index(
                    items[i].subset.shape@,
                    vec_sub(q, items[i].subset.start@),
                    ei,
                    j,
                )]);
                assert(out2[byte_index(oshape, q, ei, j)] == item_source(meta, items[i], m)[
                byte_index(
                    items[i].subset.shape@,
                    vec_sub(q, items[i].subset.start@),
                    ei,
                    j,
                )]);
            } else {
                assert(out1[byte_index(oshape, q, esize, j)] == old_out[byte_index(
                    oshape,
                    q,
                    esize,
                    j,
                )]);
                assert(out2[byte_index(oshape, q, esize, j)] == old_out[byte_index(
                    oshape,
                    q,
                    esize,
                    j,
                )]);
            }
        }
        assert(out1 =~= out2);
    }
}

} // verus!
