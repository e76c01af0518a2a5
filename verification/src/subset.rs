//! Axis-aligned rectangular subsets of an N-dimensional index space, and the
//! normalization of caller-supplied selections into such subsets.
//!
//! A selection descriptor carries a raw `(start, stop, step)` triple with
//! Python-style negative indices; normalization resolves a negative bound `i`
//! against a dimension of length `L` as `L + i`, requires the step to be one,
//! and rejects bounds that stay negative.

use crate::error::CodecPipelineError;
use crate::nd::{checked_num_elements, product};
use crate::bytes_nd::region_in_bounds;
use vstd::prelude::*;

verus! {

/// A rectangular region: per dimension a start offset and an extent.
pub struct ArraySubset {
    /// The region's first index, per dimension.
    pub start: Vec<u64>,
    /// The region's extent, per dimension.
    pub shape: Vec<u64>,
}

impl ArraySubset {
    /// A subset is well formed when its vectors agree in length and its upper
    /// bounds do not overflow `u64`.
    pub open spec fn wf(&self) -> bool {
        &&& self.start@.len() == self.shape@.len()
        &&& forall|d: int|
            0 <= d < self.start@.len() ==> #[trigger] self.start@[d] + self.shape@[d] <= u64::MAX
    }

    /// The subset's dimensionality.
    pub open spec fn spec_ndim(&self) -> nat {
        self.start@.len()
    }

    /// The subset's element count.
    pub open spec fn spec_num_elements(&self) -> nat {
        product(self.shape@)
    }

    /// A subset with the given start and extent per dimension.
    pub fn new(start: Vec<u64>, shape: Vec<u64>) -> (r: Result<ArraySubset, CodecPipelineError>)
        ensures
            match r {
                Ok(s) => s.wf() && s.start@ == start@ && s.shape@ == shape@,
                Err(e) => e == CodecPipelineError::SubsetOutOfBounds && (start@.len()
                    != shape@.len() || exists|d: int|
                    0 <= d < start@.len() && #[trigger] start@[d] + shape@[d] > u64::MAX),
            },
    {
        if start.len() != shape.len() {
            return Err(CodecPipelineError::SubsetOutOfBounds);
        }
        let mut d: usize = 0;
        while d < start.len()
            invariant
                0 <= d <= start@.len(),
                start@.len() == shape@.len(),
                forall|i: int| 0 <= i < d ==> #[trigger] start@[i] + shape@[i] <= u64::MAX,
            decreases start@.len() - d,
        {
            if start[d].checked_add(shape[d]).is_none() {
                return Err(CodecPipelineError::SubsetOutOfBounds);
            }
            d += 1;
        }
        Ok(ArraySubset { start, shape })
    }

    /// The all-zero-based subset with the given extent.
    pub fn new_with_shape(shape: Vec<u64>) -> (r: ArraySubset)
        requires
            forall|d: int| 0 <= d < shape@.len() ==> shape@[d] <= u64::MAX,
        ensures
            r.wf(),
            r.shape@ == shape@,
            r.start@.len() == shape@.len(),
            forall|d: int| 0 <= d < shape@.len() ==> r.start@[d] == 0,
    {
        let mut start: Vec<u64> = Vec::new();
        let mut d: usize = 0;
        let n = shape.len();
        while d < n
            invariant
                0 <= d <= n,
                start@.len() == d,
                forall|i: int| 0 <= i < d ==> start@[i] == 0,
            decreases n - d,
        {
            start.push(0);
            d += 1;
        }
        ArraySubset { start, shape }
    }

    /// The subset's element count, or `None` when it overflows `u64`.
    pub fn num_elements_checked(&self) -> (r: Option<u64>)
        ensures
            match r {
                Some(n) => n as nat == self.spec_num_elements(),
                None => self.spec_num_elements() > u64::MAX,
            },
    {
        checked_num_elements(&self.shape)
    }

    /// Whether the subset lies inside an array of the given shape.
    pub fn inbounds(&self, bound_shape: &Vec<u64>) -> (r: bool)
        ensures
            r == region_in_bounds(self.start@, self.shape@, bound_shape@),
    {
        if self.start.len() != bound_shape.len() || self.shape.len() != bound_shape.len() {
            return false;
        }
        let mut d: usize = 0;
        while d < bound_shape.len()
            invariant
                0 <= d <= bound_shape@.len(),
                self.start@.len() == bound_shape@.len(),
                self.shape@.len() == bound_shape@.len(),
                forall|i: int|
                    0 <= i < d ==> #[trigger] self.start@[i] + self.shape@[i]
                        <= bound_shape@[i],
            decreases bound_shape@.len() - d,
        {
            let s = self.start[d];
            let e = self.shape[d];
            if s > u64::MAX - e || s + e > bound_shape[d] {
                return false;
            }
            d += 1;
        }
        true
    }

    /// Whether the subset covers all of an array of the given shape: it
    /// starts at the origin and its extent equals the shape.
    pub fn is_full_cover(&self, bound_shape: &Vec<u64>) -> (r: bool)
        ensures
            r == (self.start@.len() == bound_shape@.len() && self.shape@ == bound_shape@ && (
            forall|d: int| 0 <= d < self.start@.len() ==> self.start@[d] == 0)),
    {
        if self.start.len() != bound_shape.len() || self.shape.len() != bound_shape.len() {
            return false;
        }
        let mut d: usize = 0;
        while d < bound_shape.len()
            invariant
                0 <= d <= bound_shape@.len(),
                self.start@.len() == bound_shape@.len(),
                self.shape@.len() == bound_shape@.len(),
                forall|i: int| 0 <= i < d ==> #[trigger] self.start@[i] == 0,
                forall|i: int| 0 <= i < d ==> #[trigger] self.shape@[i] == bound_shape@[i],
            decreases bound_shape@.len() - d,
        {
            if self.start[d] != 0 {
                return false;
            }
            if self.shape[d] != bound_shape[d] {
                return false;
            }
            proof {
                assert(self.start@[d as int] == 0);
                assert(self.shape@[d as int] == bound_shape@[d as int]);
            }
            d += 1;
        }
        proof {
            assert(self.shape@ =~= bound_shape@);
        }
        true
    }
}

/// A raw per-dimension range descriptor as a host language hands it over:
/// `start`, `stop` and `step`, negative bounds counting from the end.
#[derive(Clone, Copy, PartialEq, Eq, Structural, Debug)]
pub struct SliceRange {
    /// The raw start bound.
    pub start: i64,
    /// The raw stop bound.
    pub stop: i64,
    /// The raw step.
    pub step: i64,
}

/// The normalization of a raw bound against a dimension length: a negative
/// index counts from the end.
pub open spec fn normalize_bound(b: int, length: int) -> int {
    if b < 0 {
        b + length
    } else {
        b
    }
}

/// Whether a raw slice is accepted against a dimension length.
pub open spec fn slice_ok(s: SliceRange, length: int) -> bool {
    &&& normalize_bound(s.start as int, length) >= 0
    &&& normalize_bound(s.stop as int, length) >= 0
    &&& s.step == 1
}

/// The error a rejected raw slice produces.
pub open spec fn slice_err(s: SliceRange, length: int) -> CodecPipelineError {
    if normalize_bound(s.start as int, length) < 0 || normalize_bound(s.stop as int, length) < 0 {
        CodecPipelineError::NegativeSelectionBound
    } else {
        CodecPipelineError::UnsupportedSelectionStep
    }
}

/// The half-open range an accepted raw slice denotes: the normalized start
/// and a stop clamped to at least the start, so an inverted slice denotes an
/// empty range.
pub open spec fn slice_range_spec(s: SliceRange, length: int) -> (u64, u64) {
    let ns = normalize_bound(s.start as int, length);
    let nstop = normalize_bound(s.stop as int, length);
    (ns as u64, (if nstop < ns { ns } else { nstop }) as u64)
}

/// Normalize one raw slice against a dimension length.
///
/// A negative bound has the length added once; a bound still negative after
/// that is rejected, as is any step other than one.
pub fn slice_to_range(slice: &SliceRange, length: u64) -> (r: Result<
    (u64, u64),
    CodecPipelineError,
>)
    requires
        length <= i64::MAX,
    ensures
        match r {
            Ok(range) => slice_ok(*slice, length as int) && range == slice_range_spec(
                *slice,
                length as int,
            ),
            Err(e) => !slice_ok(*slice, length as int) && e == slice_err(*slice, length as int),
        },
{
    let l = length as i64;
    let ns = if slice.start < 0 {
        slice.start + l
    } else {
        slice.start
    };
    let nstop = if slice.stop < 0 {
        slice.stop + l
    } else {
        slice.stop
    };
    if ns < 0 {
        Err(CodecPipelineError::NegativeSelectionBound)
    } else if nstop < 0 {
        Err(CodecPipelineError::NegativeSelectionBound)
    } else if slice.step != 1 {
        Err(CodecPipelineError::UnsupportedSelectionStep)
    } else {
        let stop = if nstop < ns {
            ns
        } else {
            nstop
        };
        Ok((ns as u64, stop as u64))
    }
}

/// The error of the first rejected slice at or after position `d`.
pub open spec fn first_slice_error(
    sel: Seq<SliceRange>,
    shape: Seq<u64>,
    d: int,
) -> CodecPipelineError
    decreases sel.len() - d,
{
    if d < 0 || d >= sel.len() {
        CodecPipelineError::UnsupportedSelectionStep
    } else if !slice_ok(sel[d], shape[d] as int) {
        slice_err(sel[d], shape[d] as int)
    } else {
        first_slice_error(sel, shape, d + 1)
    }
}

/// The error a rejected non-empty selection produces: a dimensionality
/// mismatch, or its first rejected slice's error.
pub open spec fn selection_error(sel: Seq<SliceRange>, shape: Seq<u64>) -> CodecPipelineError {
    if sel.len() != shape.len() {
        CodecPipelineError::SelectionDimensionMismatch
    } else {
        first_slice_error(sel, shape, 0)
    }
}

/// With the slices before `d` accepted and the one at `d` rejected, the first
/// rejected slice is the one at `d`.
proof fn lemma_first_slice_error(sel: Seq<SliceRange>, shape: Seq<u64>, d: int, k: int)
    requires
        sel.len() == shape.len(),
        0 <= k <= d < sel.len(),
        !slice_ok(sel[d], shape[d] as int),
        forall|i: int| 0 <= i < d ==> slice_ok(sel[i], #[trigger] shape[i] as int),
    ensures
        first_slice_error(sel, shape, k) == slice_err(sel[d], shape[d] as int),
    decreases d - k,
{
    if k < d {
        lemma_first_slice_error(sel, shape, d, k + 1);
    }
}

/// Whether a whole selection is accepted against a shape.
pub open spec fn selection_ok(selection: Seq<SliceRange>, shape: Seq<u64>) -> bool {
    &&& selection.len() == shape.len()
    &&& forall|d: int| 0 <= d < selection.len() ==> slice_ok(selection[d], #[trigger] shape[d] as int)
}

/// The subset an accepted non-empty selection denotes, per dimension.
pub open spec fn selection_starts(selection: Seq<SliceRange>, shape: Seq<u64>) -> Seq<u64> {
    Seq::new(selection.len(), |d: int| slice_range_spec(selection[d], shape[d] as int).0)
}

/// The extents of the subset an accepted non-empty selection denotes.
pub open spec fn selection_shape(selection: Seq<SliceRange>, shape: Seq<u64>) -> Seq<u64> {
    Seq::new(
        selection.len(),
        |d: int|
            (slice_range_spec(selection[d], shape[d] as int).1 - slice_range_spec(
                selection[d],
                shape[d] as int,
            ).0) as u64,
    )
}

/// Build the subset a selection denotes against a shape.
///
/// An empty selection denotes the single leading element of every dimension:
/// a subset of all-ones extent, as a scalar array's one element.
pub fn selection_to_array_subset(selection: &Vec<SliceRange>, shape: &Vec<u64>) -> (r: Result<
    ArraySubset,
    CodecPipelineError,
>)
    requires
        forall|d: int| 0 <= d < shape@.len() ==> #[trigger] shape@[d] <= i64::MAX,
    ensures
        match r {
            Ok(s) => {
                &&& s.wf()
                &&& s.spec_ndim() == shape@.len()
                &&& if selection@.len() == 0 {
                    (forall|d: int| 0 <= d < shape@.len() ==> s.start@[d] == 0 && s.shape@[d] == 1)
                } else {
                    &&& selection_ok(selection@, shape@)
                    &&& s.start@ == selection_starts(selection@, shape@)
                    &&& s.shape@ == selection_shape(selection@, shape@)
                }
            },
            Err(e) => {
                &&& selection@.len() > 0
                &&& !selection_ok(selection@, shape@)
                &&& e == selection_error(selection@, shape@)
            },
        },
{
    if selection.len() == 0 {
        let mut ones: Vec<u64> = Vec::new();
        let mut d: usize = 0;
        let n = shape.len();
        while d < n
            invariant
                0 <= d <= n,
                ones@.len() == d,
                forall|i: int| 0 <= i < d ==> ones@[i] == 1,
            decreases n - d,
        {
            ones.push(1);
            d += 1;
        }
        return Ok(ArraySubset::new_with_shape(ones));
    }
    if selection.len() != shape.len() {
        return Err(CodecPipelineError::SelectionDimensionMismatch);
    }
    let mut start: Vec<u64> = Vec::new();
    let mut extent: Vec<u64> = Vec::new();
    let mut d: usize = 0;
    while d < selection.len()
        invariant
            0 <= d <= selection@.len(),
            selection@.len() == shape@.len(),
            forall|i: int| 0 <= i < shape@.len() ==> #[trigger] shape@[i] <= i64::MAX,
            start@.len() == d,
            extent@.len() == d,
            forall|i: int| 0 <= i < d ==> slice_ok(selection@[i], #[trigger] shape@[i] as int),
            forall|i: int|
                0 <= i < d ==> #[trigger] start@[i] == slice_range_spec(
                    selection@[i],
                    shape@[i] as int,
                ).0,
            forall|i: int|
                0 <= i < d ==> #[trigger] extent@[i] == (slice_range_spec(
                    selection@[i],
                    shape@[i] as int,
                ).1 - slice_range_spec(selection@[i], shape@[i] as int).0) as u64,
            forall|i: int|
                0 <= i < d ==> #[trigger] start@[i] + extent@[i] <= u64::MAX,
        decreases selection@.len() - d,
    {
        match slice_to_range(&selection[d], shape[d]) {
            Ok(range) => {
                start.push(range.0);
                extent.push(range.1 - range.0);
            },
            Err(e) => {
                proof {
                    lemma_first_slice_error(selection@, shape@, d as int, 0);
                }
                return Err(e);
            },
        }
        d += 1;
    }
    proof {
        assert(start@ =~= selection_starts(selection@, shape@));
        assert(extent@ =~= selection_shape(selection@, shape@));
    }
    Ok(ArraySubset { start, shape: extent })
}

} // verus!
