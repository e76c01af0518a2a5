//! Row-major (C order) index arithmetic for N-dimensional arrays.
//!
//! An N-dimensional index is flattened to a linear offset by `linearize`;
//! `delinearize` is its inverse on valid offsets. All byte-level subset
//! operations of the pipeline are specified in terms of these two functions.

use vstd::arithmetic::div_mod::{lemma_fundamental_div_mod, lemma_fundamental_div_mod_converse};
use vstd::prelude::*;

verus! {

/// The number of elements of an array of the given shape.
pub open spec fn product(s: Seq<u64>) -> nat
    decreases s.len(),
{
    if s.len() == 0 {
        1
    } else {
        product(s.drop_last()) * (s.last() as nat)
    }
}

/// Whether `q` is an index into an array of shape `shape`.
pub open spec fn valid_index(shape: Seq<u64>, q: Seq<u64>) -> bool {
    &&& q.len() == shape.len()
    &&& forall|d: int| 0 <= d < shape.len() ==> q[d] < shape[d]
}

/// The row-major linear offset of index `q` in an array of shape `shape`.
pub open spec fn linearize(shape: Seq<u64>, q: Seq<u64>) -> nat
    decreases shape.len(),
{
    if shape.len() == 0 {
        0
    } else {
        linearize(shape.drop_last(), q.drop_last()) * (shape.last() as nat) + (q.last() as nat)
    }
}

/// The index whose row-major linear offset in an array of shape `shape` is `k`.
pub open spec fn delinearize(shape: Seq<u64>, k: nat) -> Seq<u64>
    decreases shape.len(),
{
    if shape.len() == 0 {
        Seq::empty()
    } else {
        delinearize(shape.drop_last(), k / (shape.last() as nat)).push(
            (k % (shape.last() as nat)) as u64,
        )
    }
}

/// Whether `q` lies in the axis-aligned region `[start, start + shape)`.
pub open spec fn in_region(start: Seq<u64>, shape: Seq<u64>, q: Seq<u64>) -> bool {
    &&& q.len() == start.len()
    &&& start.len() == shape.len()
    &&& forall|d: int| 0 <= d < start.len() ==> start[d] <= #[trigger] q[d] < start[d] + shape[d]
}

/// Componentwise sum of two index vectors.
pub open spec fn vec_add(a: Seq<u64>, b: Seq<u64>) -> Seq<u64> {
    Seq::new(a.len(), |i: int| (a[i] + b[i]) as u64)
}

/// Componentwise difference of two index vectors.
pub open spec fn vec_sub(a: Seq<u64>, b: Seq<u64>) -> Seq<u64> {
    Seq::new(a.len(), |i: int| (a[i] - b[i]) as u64)
}

/// A product is positive exactly when every factor is.
pub proof fn lemma_product_pos(s: Seq<u64>)
    ensures
        product(s) > 0 <==> (forall|d: int| 0 <= d < s.len() ==> s[d] > 0),
    decreases s.len(),
{
    if s.len() > 0 {
        lemma_product_pos(s.drop_last());
        let p = product(s.drop_last());
        let l = s.last() as nat;
        assert(product(s) == p * l);
        if p > 0 && l > 0 {
            assert(p * l > 0) by (nonlinear_arith)
                requires
                    p > 0,
                    l > 0,
            ;
            assert(forall|d: int| 0 <= d < s.len() - 1 ==> s.drop_last()[d] == s[d]);
        } else {
            assert(p * l == 0) by (nonlinear_arith)
                requires
                    p == 0 || l == 0,
            ;
            if p == 0 {
                let d = choose|d: int| 0 <= d < s.drop_last().len() && !(s.drop_last()[d] > 0);
                assert(s[d] == 0);
            }
        }
    }
}

/// A product over a prefix never exceeds the whole product when the remaining
/// dimensions are all positive; more precisely the product splits at any cut.
pub proof fn lemma_product_split(s: Seq<u64>, d: int)
    requires
        0 <= d <= s.len(),
    ensures
        product(s) == product(s.take(d)) * product(s.skip(d)),
    decreases s.len() - d,
{
    if d == s.len() {
        assert(s.take(d) =~= s);
        assert(s.skip(d) =~= Seq::<u64>::empty());
        assert(product(s) == product(s) * 1);
    } else {
        let dl = s.drop_last();
        lemma_product_split(dl, d);
        assert(dl.take(d) =~= s.take(d));
        assert(s.skip(d).drop_last() =~= dl.skip(d));
        assert(s.skip(d).last() == s.last());
        assert(product(s.skip(d)) == product(dl.skip(d)) * (s.last() as nat));
        assert(product(s) == product(dl) * (s.last() as nat));
        assert((product(s.take(d)) * product(dl.skip(d))) * (s.last() as nat) == product(s.take(d))
            * (product(dl.skip(d)) * (s.last() as nat))) by (nonlinear_arith);
    }
}

/// A valid index flattens to an offset below the element count.
pub proof fn lemma_linearize_bound(shape: Seq<u64>, q: Seq<u64>)
    requires
        valid_index(shape, q),
    ensures
        linearize(shape, q) < product(shape),
    decreases shape.len(),
{
    if shape.len() == 0 {
    } else {
        assert(valid_index(shape.drop_last(), q.drop_last()));
        lemma_linearize_bound(shape.drop_last(), q.drop_last());
        let lp = linearize(shape.drop_last(), q.drop_last());
        let pp = product(shape.drop_last());
        let l = shape.last() as nat;
        let ql = q.last() as nat;
        assert(lp * l + ql < pp * l) by (nonlinear_arith)
            requires
                lp < pp,
                ql < l,
        ;
    }
}

/// Delinearizing a valid offset gives a valid index that flattens back to it.
pub proof fn lemma_delinearize(shape: Seq<u64>, k: nat)
    requires
        k < product(shape),
    ensures
        valid_index(shape, delinearize(shape, k)),
        linearize(shape, delinearize(shape, k)) == k,
    decreases shape.len(),
{
    if shape.len() == 0 {
        assert(delinearize(shape, k) =~= Seq::<u64>::empty());
    } else {
        lemma_product_pos(shape);
        let l = shape.last() as nat;
        let pp = product(shape.drop_last());
        assert(l > 0);
        lemma_fundamental_div_mod(k as int, l as int);
        let kd = k / l;
        let km = k % l;
        assert(k == l * kd + km);
        assert(km < l);
        assert(kd < pp) by (nonlinear_arith)
            requires
                k == l * kd + km,
                0 <= km,
                k < pp * l,
                l > 0,
                0 <= kd,
        ;
        lemma_delinearize(shape.drop_last(), kd);
        let r = delinearize(shape, k);
        assert(r == delinearize(shape.drop_last(), kd).push(km as u64));
        assert(r.drop_last() =~= delinearize(shape.drop_last(), kd));
        assert(valid_index(shape, r));
        assert(linearize(shape, r) == kd * l + km);
        assert(kd * l + km == k) by (nonlinear_arith)
            requires
                k == l * kd + km,
        ;
    }
}

/// Flattening then delinearizing returns the index unchanged.
pub proof fn lemma_linearize_inverse(shape: Seq<u64>, q: Seq<u64>)
    requires
        valid_index(shape, q),
    ensures
        delinearize(shape, linearize(shape, q)) == q,
    decreases shape.len(),
{
    if shape.len() == 0 {
        assert(q =~= Seq::<u64>::empty());
        assert(delinearize(shape, linearize(shape, q)) =~= Seq::<u64>::empty());
    } else {
        assert(valid_index(shape.drop_last(), q.drop_last()));
        lemma_linearize_inverse(shape.drop_last(), q.drop_last());
        lemma_linearize_bound(shape.drop_last(), q.drop_last());
        let lp = linearize(shape.drop_last(), q.drop_last());
        let l = shape.last() as int;
        let ql = q.last() as int;
        let k = linearize(shape, q);
        assert(k == lp * l + ql);
        lemma_fundamental_div_mod_converse(k as int, l, lp as int, ql);
        assert(k as int / l == lp);
        assert(k as int % l == ql);
        assert(delinearize(shape, k) == delinearize(shape.drop_last(), lp).push(q.last()));
        assert(delinearize(shape, k) =~= q);
    }
}

/// Two distinct valid indices flatten to distinct offsets.
pub proof fn lemma_linearize_injective(shape: Seq<u64>, q1: Seq<u64>, q2: Seq<u64>)
    requires
        valid_index(shape, q1),
        valid_index(shape, q2),
        linearize(shape, q1) == linearize(shape, q2),
    ensures
        q1 == q2,
{
    lemma_linearize_inverse(shape, q1);
    lemma_linearize_inverse(shape, q2);
}

/// The element count of a shape, or `None` when it overflows `u64`.
pub fn checked_num_elements(shape: &Vec<u64>) -> (r: Option<u64>)
    ensures
        match r {
            Some(n) => n as nat == product(shape@),
            None => product(shape@) > u64::MAX,
        },
{
    let mut d: usize = 0;
    while d < shape.len()
        invariant
            0 <= d <= shape.len(),
            forall|i: int| 0 <= i < d ==> shape@[i] > 0,
        decreases shape.len() - d,
    {
        if shape[d] == 0 {
            proof {
                lemma_product_pos(shape@);
            }
            return Some(0);
        }
        d += 1;
    }
    proof {
        lemma_product_pos(shape@);
    }
    let mut acc: u64 = 1;
    d = 0;
    while d < shape.len()
        invariant
            0 <= d <= shape.len(),
            acc as nat == product(shape@.take(d as int)),
            forall|i: int| 0 <= i < shape@.len() ==> shape@[i] > 0,
        decreases shape.len() - d,
    {
        proof {
            assert(shape@.take(d + 1).drop_last() =~= shape@.take(d as int));
            assert(shape@.take(d + 1).last() == shape@[d as int]);
        }
        match acc.checked_mul(shape[d]) {
            Some(next) => {
                acc = next;
            },
            None => {
                proof {
                    lemma_product_split(shape@, d + 1);
                    lemma_product_pos(shape@.skip(d + 1));
                    assert(forall|i: int|
                        0 <= i < shape@.skip(d + 1).len() ==> #[trigger] shape@.skip(d + 1)[i]
                            == shape@[d + 1 + i]);
                    let head = product(shape@.take(d + 1));
                    let tail = product(shape@.skip(d + 1));
                    assert(head == acc as nat * (shape@[d as int] as nat));
                    assert(product(shape@) >= head) by (nonlinear_arith)
                        requires
                            product(shape@) == head * tail,
                            tail >= 1,
                            head >= 0,
                    ;
                }
                return None;
            },
        }
        d += 1;
    }
    proof {
        assert(shape@.take(shape@.len() as int) =~= shape@);
    }
    Some(acc)
}

/// The row-major offset of `q` in an array of shape `shape`.
pub fn linearize_exec(shape: &Vec<u64>, q: &Vec<u64>) -> (r: u64)
    requires
        valid_index(shape@, q@),
        product(shape@) <= u64::MAX,
    ensures
        r as nat == linearize(shape@, q@),
{
    let mut acc: u64 = 0;
    let mut d: usize = 0;
    while d < shape.len()
        invariant
            0 <= d <= shape.len(),
            valid_index(shape@, q@),
            product(shape@) <= u64::MAX,
            acc as nat == linearize(shape@.take(d as int), q@.take(d as int)),

        decreases shape.len() - d,
    {
        proof {
            assert(valid_index(shape@.take(d + 1), q@.take(d + 1))) by {
                assert(forall|i: int|
                    0 <= i < d + 1 ==> q@.take(d + 1)[i] == q@[i] && shape@.take(d + 1)[i]
                        == shape@[i]);
            }
            lemma_linearize_bound(shape@.take(d + 1), q@.take(d + 1));
            lemma_product_split(shape@, d + 1);
            lemma_product_pos(shape@);
            lemma_product_pos(shape@.skip(d + 1));
            assert(forall|i: int|
                0 <= i < shape@.skip(d + 1).len() ==> #[trigger] shape@.skip(d + 1)[i] == shape@[d
                    + 1 + i]);
            let head = product(shape@.take(d + 1));
            let tail = product(shape@.skip(d + 1));
            assert(product(shape@) >= head) by (nonlinear_arith)
                requires
                    product(shape@) == head * tail,
                    tail >= 1,
                    head >= 0,
            ;
            assert(shape@.take(d + 1).drop_last() =~= shape@.take(d as int));
            assert(q@.take(d + 1).drop_last() =~= q@.take(d as int));
            assert(linearize(shape@.take(d + 1), q@.take(d + 1)) == linearize(
                shape@.take(d as int),
                q@.take(d as int),
            ) * (shape@[d as int] as nat) + (q@[d as int] as nat));
        }
        acc = acc * shape[d] + q[d];
        d += 1;
    }
    proof {
        assert(shape@.take(shape@.len() as int) =~= shape@);
        assert(q@.take(q@.len() as int) =~= q@);
    }
    acc
}

/// The index whose row-major offset in an array of shape `shape` is `k`.
pub fn delinearize_exec(shape: &Vec<u64>, k: u64) -> (r: Vec<u64>)
    requires
        (k as nat) < product(shape@),
    ensures
        r@ == delinearize(shape@, k as nat),
{
    proof {
        lemma_product_pos(shape@);
    }
    let n = shape.len();
    let mut idx: Vec<u64> = vec_u64_zeroes(n);
    let mut rem: u64 = k;
    let mut d: usize = n;
    proof {
        assert(shape@.take(n as int) =~= shape@);
        assert(delinearize(shape@, k as nat) + idx@.skip(n as int) =~= delinearize(
            shape@,
            k as nat,
        ));
    }
    while d > 0
        invariant
            0 <= d <= n,
            n == shape.len(),
            idx.len() == n,
            forall|i: int| 0 <= i < shape@.len() ==> shape@[i] > 0,
            delinearize(shape@, k as nat) == delinearize(shape@.take(d as int), rem as nat)
                + idx@.skip(d as int),
        decreases d,
    {
        let ghost old_idx = idx@;
        let ghost old_rem = rem as nat;
        let sd = shape[d - 1];
        proof {
            assert(shape@.take(d as int).drop_last() =~= shape@.take(d - 1));
            assert(shape@.take(d as int).last() == shape@[d - 1]);
        }
        let digit = rem % sd;
        rem = rem / sd;
        idx[d - 1] = digit;
        proof {
            assert(delinearize(shape@.take(d as int), old_rem) == delinearize(
                shape@.take(d - 1),
                rem as nat,
            ).push(digit));
            assert(idx@.skip(d - 1) =~= seq![digit] + old_idx.skip(d as int));
            assert(delinearize(shape@.take(d - 1), rem as nat) + idx@.skip(d - 1)
                =~= delinearize(shape@.take(d - 1), rem as nat).push(digit) + old_idx.skip(
                d as int,
            ));
        }
        d -= 1;
    }
    proof {
        assert(shape@.take(0) =~= Seq::<u64>::empty());
        assert(delinearize(Seq::<u64>::empty(), rem as nat) + idx@.skip(0) =~= idx@);
    }
    idx
}

/// A vector of `n` zeroes.
fn vec_u64_zeroes(n: usize) -> (r: Vec<u64>)
    ensures
        r@.len() == n,
        forall|i: int| 0 <= i < n ==> r@[i] == 0,
{
    let mut r: Vec<u64> = Vec::new();
    let mut i: usize = 0;
    while i < n
        invariant
            0 <= i <= n,
            r@.len() == i,
            forall|j: int| 0 <= j < i ==> r@[j] == 0,
        decreases n - i,
    {
        r.push(0);
        i += 1;
    }
    r
}


/// A componentwise-smaller shape has at most the element count.
pub proof fn lemma_product_monotone(a: Seq<u64>, b: Seq<u64>)
    requires
        a.len() == b.len(),
        forall|d: int| 0 <= d < a.len() ==> a[d] <= #[trigger] b[d],
    ensures
        product(a) <= product(b),
    decreases a.len(),
{
    if a.len() > 0 {
        assert(forall|d: int|
            0 <= d < a.len() - 1 ==> a.drop_last()[d] == a[d] && b.drop_last()[d] == b[d]);
        lemma_product_monotone(a.drop_last(), b.drop_last());
        assert(product(a.drop_last()) * (a.last() as nat) <= product(b.drop_last()) * (
        b.last() as nat)) by (nonlinear_arith)
            requires
                product(a.drop_last()) <= product(b.drop_last()),
                a.last() as nat <= b.last() as nat,
                0 <= product(a.drop_last()),
                0 <= a.last() as nat,
        ;
    }
}

} // verus!
