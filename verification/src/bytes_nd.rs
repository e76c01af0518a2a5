//! Byte-level operations on row-major N-dimensional buffers.
//!
//! A buffer holds `product(shape)` elements of `esize` bytes each, in C order.
//! These functions extract the bytes of an axis-aligned sub-region, splice
//! sub-region bytes back into a buffer, and broadcast a fill pattern — the
//! primitives behind chunk retrieval, read-modify-write updates and
//! missing-chunk synthesis.

use crate::nd::{
    delinearize, in_region, lemma_delinearize, lemma_linearize_bound, lemma_linearize_injective,
    linearize, product, valid_index, vec_add, vec_sub, checked_num_elements, delinearize_exec,
    linearize_exec, lemma_product_pos,
};
use vstd::arithmetic::div_mod::lemma_fundamental_div_mod_converse;
use vstd::prelude::*;

verus! {

/// The linear byte offset of byte `j` of the element at index `q`.
pub open spec fn byte_index(shape: Seq<u64>, q: Seq<u64>, esize: nat, j: int) -> int {
    linearize(shape, q) * esize + j
}

/// `count` elements, each equal to the fill pattern, in one byte sequence.
pub open spec fn fill_seq(count: nat, fill: Seq<u8>) -> Seq<u8> {
    Seq::new(count * fill.len(), |i: int| fill[i % fill.len() as int])
}

/// Whether every element of `bytes` equals the fill pattern.
pub open spec fn is_fill_pattern(bytes: Seq<u8>, fill: Seq<u8>) -> bool {
    forall|i: int| 0 <= i < bytes.len() ==> bytes[i] == fill[i % fill.len() as int]
}

/// Whether the region `[start, start + sub_shape)` lies inside `shape`.
pub open spec fn region_in_bounds(start: Seq<u64>, sub_shape: Seq<u64>, shape: Seq<u64>) -> bool {
    &&& start.len() == shape.len()
    &&& sub_shape.len() == shape.len()
    &&& forall|d: int| 0 <= d < shape.len() ==> #[trigger] start[d] + sub_shape[d] <= shape[d]
}

/// The bytes of the region `[start, start + sub_shape)` of a buffer of shape
/// `shape`, in row-major order of the region's own index space.
pub open spec fn extract_subset(
    src: Seq<u8>,
    shape: Seq<u64>,
    start: Seq<u64>,
    sub_shape: Seq<u64>,
    esize: nat,
) -> Seq<u8> {
    Seq::new(
        product(sub_shape) * esize,
        |i: int|
            src[byte_index(
                shape,
                vec_add(start, delinearize(sub_shape, (i / esize as int) as nat)),
                esize,
                i % esize as int,
            )],
    )
}

/// How a buffer looks after the bytes of `src` were spliced into the region
/// `[start, start + sub_shape)`: inside the region each byte comes from `src`
/// (addressed in the region's own row-major order), outside it is unchanged.
pub open spec fn spliced(
    old_d: Seq<u8>,
    new_d: Seq<u8>,
    shape: Seq<u64>,
    start: Seq<u64>,
    sub_shape: Seq<u64>,
    src: Seq<u8>,
    esize: nat,
) -> bool {
    &&& new_d.len() == old_d.len()
    &&& forall|q: Seq<u64>, j: int|
        valid_index(shape, q) && 0 <= j < esize ==> new_d[#[trigger] byte_index(shape, q, esize, j)]
            == (if in_region(start, sub_shape, q) {
            src[byte_index(sub_shape, vec_sub(q, start), esize, j)]
        } else {
            old_d[byte_index(shape, q, esize, j)]
        })
}

/// A buffer of `count` elements, each a copy of the fill pattern.
pub fn repeat_fill(count: u64, fill: &Vec<u8>) -> (r: Vec<u8>)
    requires
        fill@.len() > 0,
        count as nat * fill@.len() <= usize::MAX,
    ensures
        r@ == fill_seq(count as nat, fill@),
{
    let esize = fill.len();
    proof {
        assert(count as nat <= count as nat * fill@.len()) by (nonlinear_arith)
            requires
                fill@.len() >= 1,
                count as nat >= 0,
        ;
    }
    let total: usize = (count as usize) * esize;
    let mut r: Vec<u8> = Vec::new();
    let mut i: usize = 0;
    while i < total
        invariant
            0 <= i <= total,
            esize == fill@.len(),
            total == count as nat * fill@.len(),
            r@.len() == i,
            forall|p: int| 0 <= p < i ==> r@[p] == fill@[p % esize as int],
        decreases total - i,
    {
        r.push(fill[i % esize]);
        i += 1;
    }
    proof {
        assert(r@ =~= fill_seq(count as nat, fill@));
    }
    r
}

/// Whether every element of `bytes` equals the fill pattern.
pub fn is_fill(bytes: &Vec<u8>, fill: &Vec<u8>) -> (r: bool)
    requires
        fill@.len() > 0,
    ensures
        r == is_fill_pattern(bytes@, fill@),
{
    let esize = fill.len();
    let mut i: usize = 0;
    while i < bytes.len()
        invariant
            0 <= i <= bytes@.len(),
            esize == fill@.len(),
            esize > 0,
            forall|p: int| 0 <= p < i ==> bytes@[p] == fill@[p % esize as int],
        decreases bytes@.len() - i,
    {
        if bytes[i] != fill[i % esize] {
            return false;
        }
        i += 1;
    }
    true
}

/// The bytes of the region `[start, start + sub_shape)` of `src`, extracted in
/// the region's own row-major order.
pub fn extract_subset_bytes(
    src: &Vec<u8>,
    shape: &Vec<u64>,
    start: &Vec<u64>,
    sub_shape: &Vec<u64>,
    esize: usize,
) -> (r: Vec<u8>)
    requires
        region_in_bounds(start@, sub_shape@, shape@),
        esize > 0,
        src@.len() == product(shape@) * esize,
        product(sub_shape@) * esize <= usize::MAX,
    ensures
        r@ == extract_subset(src@, shape@, start@, sub_shape@, esize as nat),
{
    let ghost gspec = extract_subset(src@, shape@, start@, sub_shape@, esize as nat);
    proof {
        assert(product(sub_shape@) <= product(sub_shape@) * esize) by (nonlinear_arith)
            requires
                esize >= 1,
                product(sub_shape@) >= 0,
        ;
        assert(product(shape@) <= product(shape@) * esize) by (nonlinear_arith)
            requires
                esize >= 1,
                product(shape@) >= 0,
        ;
        assert(usize::MAX <= u64::MAX);
        assert(src@.len() == src.len());
    }
    let count: u64 = match checked_num_elements(sub_shape) {
        Some(n) => n,
        None => {
            proof {
                assert(false);
            }
            0
        },
    };
    let mut r: Vec<u8> = Vec::new();
    let mut k: usize = 0;
    while k < count as usize
        invariant
            0 <= k <= count as usize,
            count as nat == product(sub_shape@),
            count <= usize::MAX,
            esize > 0,
            region_in_bounds(start@, sub_shape@, shape@),
            src@.len() == product(shape@) * esize,
            src@.len() <= usize::MAX,
            product(shape@) <= usize::MAX,
            product(sub_shape@) * esize <= usize::MAX,
            gspec == extract_subset(src@, shape@, start@, sub_shape@, esize as nat),
            r@.len() == k * esize,
            forall|p: int| 0 <= p < k * esize ==> r@[p] == gspec[p],
        decreases count - k,
    {
        proof {
            lemma_delinearize(sub_shape@, k as nat);
        }
        let q = delinearize_exec(sub_shape, k as u64);
        let pos = add_index_vectors(start, &q, shape);
        proof {
            assert(valid_index(shape@, pos@));
            lemma_linearize_bound(shape@, pos@);
            assert(usize::MAX <= u64::MAX);
        }
        let off64 = linearize_exec(shape, &pos);
        let off = off64 as usize;
        proof {
            assert((off + 1) * esize <= product(shape@) * esize) by (nonlinear_arith)
                requires
                    off + 1 <= product(shape@),
                    esize >= 0,
            ;
            assert((k + 1) * esize <= product(sub_shape@) * esize) by (nonlinear_arith)
                requires
                    k + 1 <= product(sub_shape@),
                    esize >= 0,
            ;
            assert(off * esize + esize == (off + 1) * esize) by (nonlinear_arith);
            assert(k * esize + esize == (k + 1) * esize) by (nonlinear_arith);
        }
        let mut j: usize = 0;
        while j < esize
            invariant
                0 <= j <= esize,
                off as nat == linearize(shape@, pos@),
                pos@ == vec_add(start@, delinearize(sub_shape@, k as nat)),
                (off + 1) * esize <= src@.len(),
                src@.len() <= usize::MAX,
                off * esize + esize == (off + 1) * esize,
                k * esize + esize == (k + 1) * esize,
                src@.len() == product(shape@) * esize,
                esize > 0,
                k < count,
                count as nat == product(sub_shape@),
                gspec == extract_subset(src@, shape@, start@, sub_shape@, esize as nat),
                (k + 1) * esize <= usize::MAX,
                product(sub_shape@) * esize <= usize::MAX,
                r@.len() == k * esize + j,
                forall|p: int| 0 <= p < k * esize + j ==> r@[p] == gspec[p],
            decreases esize - j,
        {
            let b = src[off * esize + j];
            r.push(b);
            proof {
                let i = k * esize + j;
                lemma_fundamental_div_mod_converse(i as int, esize as int, k as int, j as int);
                assert(i < product(sub_shape@) * esize) by (nonlinear_arith)
                    requires
                        i < (k + 1) * esize,
                        k + 1 <= product(sub_shape@),
                        esize >= 0,
                ;
                assert(gspec[i as int] == src@[byte_index(
                    shape@,
                    vec_add(start@, delinearize(sub_shape@, k as nat)),
                    esize as nat,
                    j as int,
                )]);
                assert(b == gspec[i as int]);
            }
            j += 1;
        }
        k += 1;
    }
    proof {
        assert(r@ =~= gspec);
    }
    r
}

/// The componentwise sum of `a` and `b`, both indexing against `bound`.
fn add_index_vectors(a: &Vec<u64>, b: &Vec<u64>, bound: &Vec<u64>) -> (r: Vec<u64>)
    requires
        a@.len() == b@.len(),
        bound@.len() == a@.len(),
        forall|d: int| 0 <= d < a@.len() ==> a@[d] + b@[d] <= #[trigger] bound@[d],
    ensures
        r@ == vec_add(a@, b@),
{
    let mut r: Vec<u64> = Vec::new();
    let mut d: usize = 0;
    while d < a.len()
        invariant
            0 <= d <= a@.len(),
            a@.len() == b@.len(),
            bound@.len() == a@.len(),
            forall|i: int| 0 <= i < a@.len() ==> a@[i] + b@[i] <= #[trigger] bound@[i],
            r@.len() == d,
            forall|i: int| 0 <= i < d ==> r@[i] == (a@[i] + b@[i]) as u64,
        decreases a@.len() - d,
    {
        proof {
            assert(a@[d as int] + b@[d as int] <= bound@[d as int]);
        }
        r.push(a[d] + b[d]);
        d += 1;
    }
    proof {
        assert(r@ =~= vec_add(a@, b@));
    }
    r
}

/// Overwrite the `esize` bytes of element `off` of `dest` with the bytes of
/// element `k` of `src`.
fn copy_element(dest: &mut Vec<u8>, off: usize, src: &Vec<u8>, k: usize, esize: usize)
    requires
        esize > 0,
        (off + 1) * esize <= old(dest)@.len(),
        (k + 1) * esize <= src@.len(),
    ensures
        final(dest)@.len() == old(dest)@.len(),
        forall|p: int|
            0 <= p < old(dest)@.len() ==> final(dest)@[p] == (if off * esize <= p < off * esize
                + esize {
                src@[k * esize + (p - off * esize)]
            } else {
                old(dest)@[p]
            }),
{
    proof {
        assert(off * esize + esize == (off + 1) * esize) by (nonlinear_arith);
        assert(k * esize + esize == (k + 1) * esize) by (nonlinear_arith);
        assert(src@.len() == src.len());
        assert(old(dest)@.len() == dest.len());
    }
    let mut j: usize = 0;
    while j < esize
        invariant
            0 <= j <= esize,
            esize > 0,
            (off + 1) * esize <= dest@.len(),
            (k + 1) * esize <= src@.len(),
            src@.len() <= usize::MAX,
            dest@.len() <= usize::MAX,
            off * esize + esize == (off + 1) * esize,
            k * esize + esize == (k + 1) * esize,
            dest@.len() == old(dest)@.len(),
            forall|p: int|
                0 <= p < dest@.len() ==> dest@[p] == (if off * esize <= p < off * esize + j {
                    src@[k * esize + (p - off * esize)]
                } else {
                    old(dest)@[p]
                }),
        decreases esize - j,
    {
        let b = src[k * esize + j];
        dest[off * esize + j] = b;
        j += 1;
    }
}

/// Splice the bytes of `src` (the region's contents in its own row-major
/// order) into the region `[start, start + sub_shape)` of `dest`; bytes
/// outside the region keep their old value.
pub fn write_subset_bytes(
    dest: &mut Vec<u8>,
    shape: &Vec<u64>,
    start: &Vec<u64>,
    sub_shape: &Vec<u64>,
    src: &Vec<u8>,
    esize: usize,
)
    requires
        region_in_bounds(start@, sub_shape@, shape@),
        esize > 0,
        old(dest)@.len() == product(shape@) * esize,
        src@.len() == product(sub_shape@) * esize,
    ensures
        final(dest)@.len() == old(dest)@.len(),
        spliced(old(dest)@, final(dest)@, shape@, start@, sub_shape@, src@, esize as nat),
{
    proof {
        assert(product(sub_shape@) <= product(sub_shape@) * esize) by (nonlinear_arith)
            requires
                esize >= 1,
                product(sub_shape@) >= 0,
        ;
        assert(product(shape@) <= product(shape@) * esize) by (nonlinear_arith)
            requires
                esize >= 1,
                product(shape@) >= 0,
        ;
        assert(usize::MAX <= u64::MAX);
        assert(src@.len() == src.len());
        assert(old(dest)@.len() == dest.len());
    }
    let count: u64 = match checked_num_elements(sub_shape) {
        Some(n) => n,
        None => {
            proof {
                assert(false);
            }
            0
        },
    };
    let mut k: usize = 0;
    while k < count as usize
        invariant
            0 <= k <= count as usize,
            count as nat == product(sub_shape@),
            count <= usize::MAX,
            product(shape@) <= usize::MAX,
            esize > 0,
            region_in_bounds(start@, sub_shape@, shape@),
            dest@.len() == old(dest)@.len(),
            old(dest)@.len() == product(shape@) * esize,
            src@.len() == product(sub_shape@) * esize,
            forall|q: Seq<u64>, j: int|
                valid_index(shape@, q) && 0 <= j < esize ==> dest@[#[trigger] byte_index(
                    shape@,
                    q,
                    esize as nat,
                    j,
                )] == (if in_region(start@, sub_shape@, q) && linearize(
                    sub_shape@,
                    vec_sub(q, start@),
                ) < k {
                    src@[byte_index(sub_shape@, vec_sub(q, start@), esize as nat, j)]
                } else {
                    old(dest)@[byte_index(shape@, q, esize as nat, j)]
                }),
        decreases count - k,
    {
        proof {
            lemma_delinearize(sub_shape@, k as nat);
        }
        let ghost pre = dest@;
        let q = delinearize_exec(sub_shape, k as u64);
        let pos = add_index_vectors(start, &q, shape);
        proof {
            assert(valid_index(shape@, pos@));
            lemma_linearize_bound(shape@, pos@);
            assert(usize::MAX <= u64::MAX);
        }
        let off64 = linearize_exec(shape, &pos);
        let off = off64 as usize;
        proof {
            assert((off + 1) * esize <= product(shape@) * esize) by (nonlinear_arith)
                requires
                    off + 1 <= product(shape@),
                    esize >= 0,
            ;
            assert((k + 1) * esize <= product(sub_shape@) * esize) by (nonlinear_arith)
                requires
                    k + 1 <= product(sub_shape@),
                    esize >= 0,
            ;
        }
        copy_element(dest, off, src, k, esize);
        proof {
            lemma_write_step(
                pre,
                dest@,
                old(dest)@,
                shape@,
                start@,
                sub_shape@,
                src@,
                esize as nat,
                k as nat,
                off as nat,
            );
        }
        k += 1;
    }
    proof {
        assert forall|q: Seq<u64>, j: int|
            valid_index(shape@, q) && 0 <= j < esize implies dest@[#[trigger] byte_index(
            shape@,
            q,
            esize as nat,
            j,
        )] == (if in_region(start@, sub_shape@, q) {
            src@[byte_index(sub_shape@, vec_sub(q, start@), esize as nat, j)]
        } else {
            old(dest)@[byte_index(shape@, q, esize as nat, j)]
        }) by {
            if in_region(start@, sub_shape@, q) {
                lemma_region_local_valid(start@, sub_shape@, shape@, q);
                lemma_linearize_bound(sub_shape@, vec_sub(q, start@));
            }
        }
    }
}

/// One step of the splice: after element `k` of the region was copied to
/// element `off` of the buffer, the partial-splice picture advances from `k`
/// to `k + 1`.
proof fn lemma_write_step(
    pre: Seq<u8>,
    post: Seq<u8>,
    orig: Seq<u8>,
    shape: Seq<u64>,
    start: Seq<u64>,
    sub_shape: Seq<u64>,
    src: Seq<u8>,
    esize: nat,
    k: nat,
    off: nat,
)
    requires
        esize > 0,
        k < product(sub_shape),
        region_in_bounds(start, sub_shape, shape),
        orig.len() == product(shape) * esize,
        pre.len() == orig.len(),
        post.len() == pre.len(),
        src.len() == product(sub_shape) * esize,
        off == linearize(shape, vec_add(start, delinearize(sub_shape, k))),
        // the picture before this step
        forall|q: Seq<u64>, j: int|
            valid_index(shape, q) && 0 <= j < esize ==> pre[#[trigger] byte_index(
                shape,
                q,
                esize,
                j,
            )] == (if in_region(start, sub_shape, q) && linearize(sub_shape, vec_sub(q, start))
                < k {
                src[byte_index(sub_shape, vec_sub(q, start), esize, j)]
            } else {
                orig[byte_index(shape, q, esize, j)]
            }),
        // what the copy did
        forall|p: int|
            0 <= p < pre.len() ==> post[p] == (if off * esize <= p < off * esize + esize {
                src[k * esize + (p - off * esize)]
            } else {
                pre[p]
            }),
    ensures
        forall|q: Seq<u64>, j: int|
            valid_index(shape, q) && 0 <= j < esize ==> post[#[trigger] byte_index(
                shape,
                q,
                esize,
                j,
            )] == (if in_region(start, sub_shape, q) && linearize(sub_shape, vec_sub(q, start)) < k
                + 1 {
                src[byte_index(sub_shape, vec_sub(q, start), esize, j)]
            } else {
                orig[byte_index(shape, q, esize, j)]
            }),
{
    lemma_delinearize(sub_shape, k);
    let qk = delinearize(sub_shape, k);
    let pos = vec_add(start, qk);
    assert(valid_index(shape, pos)) by {
        assert(forall|d: int|
            0 <= d < shape.len() ==> #[trigger] pos[d] == start[d] + qk[d] && qk[d] < sub_shape[d]);
    }
    lemma_linearize_bound(shape, pos);
    assert(vec_sub(pos, start) =~= qk);
    assert forall|q: Seq<u64>, j: int|
        valid_index(shape, q) && 0 <= j < esize implies post[#[trigger] byte_index(
        shape,
        q,
        esize,
        j,
    )] == (if in_region(start, sub_shape, q) && linearize(sub_shape, vec_sub(q, start)) < k + 1 {
        src[byte_index(sub_shape, vec_sub(q, start), esize, j)]
    } else {
        orig[byte_index(shape, q, esize, j)]
    }) by {
        let bi = byte_index(shape, q, esize, j);
        lemma_linearize_bound(shape, q);
        assert(0 <= bi < pre.len()) by (nonlinear_arith)
            requires
                bi == linearize(shape, q) * esize + j,
                0 <= j < esize,
                linearize(shape, q) < product(shape),
                pre.len() == product(shape) * esize,
        ;
        if q == pos {
            // this is the element the step wrote
            assert(in_region(start, sub_shape, q)) by {
                assert(forall|d: int|
                    0 <= d < start.len() ==> start[d] <= #[trigger] pos[d] && pos[d] == start[d]
                        + qk[d] && qk[d] < sub_shape[d]);
            }
            assert(linearize(sub_shape, vec_sub(q, start)) == k);
            assert(off * esize <= bi < off * esize + esize);
            assert(post[bi] == src[k * esize + (bi - off * esize)]);
            assert(bi - off * esize == j);
            assert(byte_index(sub_shape, vec_sub(q, start), esize, j) == k * esize + j);
        } else {
            // untouched this step
            assert(linearize(shape, q) != off) by {
                if linearize(shape, q) == off {
                    lemma_linearize_injective(shape, q, pos);
                }
            }
            assert(!(off * esize <= bi < off * esize + esize)) by (nonlinear_arith)
                requires
                    bi == linearize(shape, q) * esize + j,
                    0 <= j < esize,
                    linearize(shape, q) != off,
                    esize > 0,
                    linearize(shape, q) >= 0,
                    off >= 0,
            ;
            assert(post[bi] == pre[bi]);
            if in_region(start, sub_shape, q) && linearize(sub_shape, vec_sub(q, start)) == k {
                // would mean q is exactly the element written
                lemma_region_local_valid(start, sub_shape, shape, q);
                lemma_linearize_injective(sub_shape, vec_sub(q, start), qk);
                assert(q =~= vec_add(start, vec_sub(q, start)));
                assert(false);
            }
        }
    }
}

/// A point of the region corresponds to a valid index of the region's own
/// index space.
pub proof fn lemma_region_local_valid(
    start: Seq<u64>,
    sub_shape: Seq<u64>,
    shape: Seq<u64>,
    q: Seq<u64>,
)
    requires
        region_in_bounds(start, sub_shape, shape),
        in_region(start, sub_shape, q),
    ensures
        valid_index(sub_shape, vec_sub(q, start)),
        vec_add(start, vec_sub(q, start)) == q,
{
    assert(vec_add(start, vec_sub(q, start)) =~= q);
}

/// Splicing a region that covers the whole buffer replaces its contents with
/// the source bytes, whatever the buffer held before: the full-chunk store
/// path and the read-modify-write path agree on full-cover writes.
pub proof fn lemma_full_cover_splice_is_source(
    old_d: Seq<u8>,
    new_d: Seq<u8>,
    shape: Seq<u64>,
    start: Seq<u64>,
    src: Seq<u8>,
    esize: nat,
)
    requires
        esize > 0,
        start.len() == shape.len(),
        forall|d: int| 0 <= d < start.len() ==> start[d] == 0,
        old_d.len() == product(shape) * esize,
        src.len() == product(shape) * esize,
        spliced(old_d, new_d, shape, start, shape, src, esize),
    ensures
        new_d == src,
{
    assert forall|p: int| 0 <= p < new_d.len() implies new_d[p] == src[p] by {
        let k = (p / esize as int) as nat;
        let j = p % esize as int;
        vstd::arithmetic::div_mod::lemma_fundamental_div_mod(p, esize as int);
        vstd::arithmetic::div_mod::lemma_div_pos_is_pos(p, esize as int);
        assert(k as int == p / esize as int);
        assert(k * esize + j == p) by (nonlinear_arith)
            requires
                p == esize as int * (p / esize as int) + j,
                k as int == p / esize as int,
        ;
        assert(k < product(shape)) by (nonlinear_arith)
            requires
                k * esize + j == p,
                0 <= j < esize,
                p < product(shape) * esize,
                esize > 0,
        ;
        lemma_delinearize(shape, k);
        let q = delinearize(shape, k);
        assert(in_region(start, shape, q)) by {
            assert(forall|d: int| 0 <= d < start.len() ==> #[trigger] q[d] < shape[d]);
        }
        assert(vec_sub(q, start) =~= q);
        assert(new_d[byte_index(shape, q, esize, j)] == src[byte_index(shape, q, esize, j)]);
        assert(byte_index(shape, q, esize, j) == p);
    }
    assert(new_d =~= src);
}

/// Splicing leaves every byte outside the region unchanged: a partial write
/// preserves the buffer outside the written sub-region.
pub proof fn lemma_splice_preserves_outside(
    old_d: Seq<u8>,
    new_d: Seq<u8>,
    shape: Seq<u64>,
    start: Seq<u64>,
    sub_shape: Seq<u64>,
    src: Seq<u8>,
    esize: nat,
    q: Seq<u64>,
    j: int,
)
    requires
        spliced(old_d, new_d, shape, start, sub_shape, src, esize),
        valid_index(shape, q),
        !in_region(start, sub_shape, q),
        0 <= j < esize,
    ensures
        new_d[byte_index(shape, q, esize, j)] == old_d[byte_index(shape, q, esize, j)],
{
}

/// Broadcast the fill pattern over the region `[start, start + sub_shape)` of
/// `dest`; bytes outside the region keep their old value.
pub fn fill_subset_bytes(
    dest: &mut Vec<u8>,
    shape: &Vec<u64>,
    start: &Vec<u64>,
    sub_shape: &Vec<u64>,
    fill: &Vec<u8>,
)
    requires
        region_in_bounds(start@, sub_shape@, shape@),
        fill@.len() > 0,
        old(dest)@.len() == product(shape@) * fill@.len(),
        product(sub_shape@) * fill@.len() <= usize::MAX,
    ensures
        final(dest)@.len() == old(dest)@.len(),
        spliced(
            old(dest)@,
            final(dest)@,
            shape@,
            start@,
            sub_shape@,
            fill_seq(product(sub_shape@), fill@),
            fill@.len(),
        ),
{
    proof {
        assert(product(sub_shape@) <= product(sub_shape@) * fill@.len()) by (nonlinear_arith)
            requires
                fill@.len() >= 1,
                product(sub_shape@) >= 0,
        ;
    }
    let count: u64 = match checked_num_elements(sub_shape) {
        Some(n) => n,
        None => {
            proof {
                assert(false);
            }
            0
        },
    };
    let src = repeat_fill(count, fill);
    write_subset_bytes(dest, shape, start, sub_shape, &src, fill.len());
}

/// Every byte of a fill-pattern sequence equals the corresponding fill byte;
/// in particular element `k`, byte `j` is `fill[j]`.
pub proof fn lemma_fill_seq_byte(count: nat, fill: Seq<u8>, k: nat, j: int)
    requires
        fill.len() > 0,
        k < count,
        0 <= j < fill.len(),
    ensures
        0 <= k * fill.len() + j < count * fill.len(),
        fill_seq(count, fill)[k * fill.len() + j] == fill[j],
{
    let e = fill.len() as int;
    assert(k * e + j < count * e) by (nonlinear_arith)
        requires
            k + 1 <= count,
            0 <= j < e,
            0 <= k,
    ;
    lemma_fundamental_div_mod_converse(k * e + j, e, k as int, j);
    assert((k * e + j) % e == j);
}

/// A fill-pattern sequence satisfies the fill-pattern predicate, and anything
/// satisfying the predicate with the right length equals it.
pub proof fn lemma_fill_seq_is_fill(count: nat, fill: Seq<u8>)
    requires
        fill.len() > 0,
    ensures
        is_fill_pattern(fill_seq(count, fill), fill),
        forall|b: Seq<u8>|
            b.len() == count * fill.len() && #[trigger] is_fill_pattern(b, fill) ==> b == fill_seq(
                count,
                fill,
            ),
{
    assert forall|b: Seq<u8>|
        b.len() == count * fill.len() && #[trigger] is_fill_pattern(b, fill) implies b == fill_seq(
        count,
        fill,
    ) by {
        assert(b =~= fill_seq(count, fill));
    }
}

/// Extracting a region that covers the whole buffer returns the buffer.
pub proof fn lemma_full_cover_extract(src: Seq<u8>, shape: Seq<u64>, start: Seq<u64>, esize: nat)
    requires
        esize > 0,
        start.len() == shape.len(),
        forall|d: int| 0 <= d < start.len() ==> start[d] == 0,
        src.len() == product(shape) * esize,
    ensures
        extract_subset(src, shape, start, shape, esize) == src,
{
    let ex = extract_subset(src, shape, start, shape, esize);
    assert forall|i: int| 0 <= i < ex.len() implies ex[i] == src[i] by {
        let k = (i / esize as int) as nat;
        let j = i % esize as int;
        vstd::arithmetic::div_mod::lemma_fundamental_div_mod(i, esize as int);
        vstd::arithmetic::div_mod::lemma_div_pos_is_pos(i, esize as int);
        assert(k as int == i / esize as int);
        assert(k * esize + j == i) by (nonlinear_arith)
            requires
                i == esize as int * (i / esize as int) + j,
                k as int == i / esize as int,
        ;
        assert(k < product(shape)) by (nonlinear_arith)
            requires
                k * esize + j == i,
                0 <= j < esize,
                i < product(shape) * esize,
                esize > 0,
        ;
        lemma_delinearize(shape, k);
        assert(vec_add(start, delinearize(shape, k)) =~= delinearize(shape, k));
        assert(ex[i] == src[byte_index(shape, delinearize(shape, k), esize, j)]);
        assert(byte_index(shape, delinearize(shape, k), esize, j) == i);
    }
    assert(ex =~= src);
}

/// Extracting any region from an all-fill buffer gives an all-fill buffer of
/// the region's element count.
pub proof fn lemma_extract_fill(
    fill: Seq<u8>,
    shape: Seq<u64>,
    start: Seq<u64>,
    sub_shape: Seq<u64>,
)
    requires
        fill.len() > 0,
        region_in_bounds(start, sub_shape, shape),
    ensures
        extract_subset(fill_seq(product(shape), fill), shape, start, sub_shape, fill.len())
            == fill_seq(product(sub_shape), fill),
{
    let esize = fill.len();
    let src = fill_seq(product(shape), fill);
    let ex = extract_subset(src, shape, start, sub_shape, esize);
    let want = fill_seq(product(sub_shape), fill);
    assert(ex.len() == want.len());
    assert forall|i: int| 0 <= i < ex.len() implies ex[i] == want[i] by {
        let k = (i / esize as int) as nat;
        let j = i % esize as int;
        vstd::arithmetic::div_mod::lemma_fundamental_div_mod(i, esize as int);
        vstd::arithmetic::div_mod::lemma_div_pos_is_pos(i, esize as int);
        assert(k as int == i / esize as int);
        assert(k * esize + j == i) by (nonlinear_arith)
            requires
                i == esize as int * (i / esize as int) + j,
                k as int == i / esize as int,
        ;
        assert(k < product(sub_shape)) by (nonlinear_arith)
            requires
                k * esize + j == i,
                0 <= j < esize,
                i < product(sub_shape) * esize,
                esize > 0,
        ;
        lemma_delinearize(sub_shape, k);
        let q = vec_add(start, delinearize(sub_shape, k));
        assert(valid_index(shape, q)) by {
            assert(forall|d: int|
                0 <= d < shape.len() ==> #[trigger] q[d] == start[d] + delinearize(sub_shape, k)[d]
                    && delinearize(sub_shape, k)[d] < sub_shape[d]);
        }
        lemma_linearize_bound(shape, q);
        let p = byte_index(shape, q, esize, j);
        assert(0 <= p < product(shape) * esize) by (nonlinear_arith)
            requires
                p == linearize(shape, q) * esize + j,
                0 <= j < esize,
                linearize(shape, q) < product(shape),
        ;
        assert(ex[i] == src[p]);
        assert(src[p] == fill[p % esize as int]);
        lemma_fundamental_div_mod_converse(p, esize as int, linearize(shape, q) as int, j);
        assert(p % esize as int == j);
        assert(want[i] == fill[i % esize as int]);
        assert(i % esize as int == j);
    }
    assert(ex =~= want);
}


/// The buffer that results from splicing `src` into the region
/// `[start, start + sub_shape)` of `old`: the functional form of [`spliced`].
pub open spec fn splice_spec(
    old: Seq<u8>,
    shape: Seq<u64>,
    start: Seq<u64>,
    sub_shape: Seq<u64>,
    src: Seq<u8>,
    esize: nat,
) -> Seq<u8> {
    Seq::new(
        old.len(),
        |p: int|
            {
                let q = delinearize(shape, (p / esize as int) as nat);
                if in_region(start, sub_shape, q) {
                    src[byte_index(sub_shape, vec_sub(q, start), esize, p % esize as int)]
                } else {
                    old[p]
                }
            },
    )
}

/// A buffer satisfying the splice predicate is exactly the splice function's
/// value: the predicate pins every byte.
pub proof fn lemma_spliced_is_splice_spec(
    old: Seq<u8>,
    new: Seq<u8>,
    shape: Seq<u64>,
    start: Seq<u64>,
    sub_shape: Seq<u64>,
    src: Seq<u8>,
    esize: nat,
)
    requires
        esize > 0,
        region_in_bounds(start, sub_shape, shape),
        old.len() == product(shape) * esize,
        spliced(old, new, shape, start, sub_shape, src, esize),
    ensures
        new == splice_spec(old, shape, start, sub_shape, src, esize),
{
    let want = splice_spec(old, shape, start, sub_shape, src, esize);
    assert forall|p: int| 0 <= p < new.len() implies new[p] == want[p] by {
        let k = (p / esize as int) as nat;
        let j = p % esize as int;
        vstd::arithmetic::div_mod::lemma_fundamental_div_mod(p, esize as int);
        vstd::arithmetic::div_mod::lemma_div_pos_is_pos(p, esize as int);
        assert(k as int == p / esize as int);
        assert(k * esize + j == p) by (nonlinear_arith)
            requires
                p == esize as int * (p / esize as int) + j,
                k as int == p / esize as int,
        ;
        assert(k < product(shape)) by (nonlinear_arith)
            requires
                k * esize + j == p,
                0 <= j < esize,
                p < product(shape) * esize,
                esize > 0,
        ;
        lemma_delinearize(shape, k);
        let q = delinearize(shape, k);
        assert(byte_index(shape, q, esize, j) == p);
        assert(new[byte_index(shape, q, esize, j)] == (if in_region(start, sub_shape, q) {
            src[byte_index(sub_shape, vec_sub(q, start), esize, j)]
        } else {
            old[byte_index(shape, q, esize, j)]
        }));
    }
    assert(new =~= want);
}

} // verus!
