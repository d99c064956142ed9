//! View descriptors.
//!
//! A `ShapeTracker` describes, per edge of the computation graph, how a
//! logical tensor maps onto a flat storage buffer: an ordered list of
//! dimensions (concrete or dynamic), a permutation of those dimensions,
//! per-dimension padding and slice bounds, and a broadcast flag that forces
//! a dimension's stride to zero. Transformations always build a new
//! descriptor; none mutates one in place.

use vstd::prelude::*;

verus! {

/// A dimension: either a concrete size or a dynamic symbol whose value is
/// bound at execution time.
#[derive(Clone, Copy, PartialEq, Eq, Structural, Debug)]
pub enum Dim {
    Known(u64),
    Sym(char),
}

/// Slice bound meaning "no upper bound".
pub const NO_SLICE_END: u64 = u64::MAX;

/// Largest concrete extent a dimension, padding or slice bound may carry:
/// it must fit the signed literals of an index expression.
pub const MAX_EXTENT: u64 = 0x7fff_ffff_ffff_ffff;

/// A view descriptor. `dims` holds the underlying (storage-ordered)
/// dimensions; `indexes` permutes them into logical order; `fake` marks
/// broadcast dimensions (stride forced to zero); `padding` holds
/// per-storage-dimension (left, right) padding; `mask` holds
/// per-storage-dimension (start, end) slice bounds over the padded extent.
#[derive(Debug)]
pub struct ShapeTracker {
    pub dims: Vec<Dim>,
    pub indexes: Vec<usize>,
    pub fake: Vec<bool>,
    pub padding: Vec<(u64, u64)>,
    pub mask: Vec<(u64, u64)>,
}

/// The mathematical value of a `ShapeTracker`.
#[verifier::ext_equal]
pub struct ShapeView {
    pub dims: Seq<Dim>,
    pub indexes: Seq<usize>,
    pub fake: Seq<bool>,
    pub padding: Seq<(u64, u64)>,
    pub mask: Seq<(u64, u64)>,
}

impl View for ShapeTracker {
    type V = ShapeView;

    open spec fn view(&self) -> ShapeView {
        ShapeView {
            dims: self.dims@,
            indexes: self.indexes@,
            fake: self.fake@,
            padding: self.padding@,
            mask: self.mask@,
        }
    }
}

impl ShapeView {
    /// All five arrays agree in length, `indexes` is a permutation of the
    /// dimension positions, every slice window is well ordered, and every
    /// concrete extent fits an index-expression literal.
    pub open spec fn wf(self) -> bool {
        &&& self.indexes.len() == self.dims.len()
        &&& self.fake.len() == self.dims.len()
        &&& self.padding.len() == self.dims.len()
        &&& self.mask.len() == self.dims.len()
        &&& forall|i: int|
            0 <= i < self.indexes.len() ==> (#[trigger] self.indexes[i]) < self.dims.len()
        &&& forall|i: int, j: int|
            0 <= i < j < self.indexes.len() ==> self.indexes[i] != self.indexes[j]
        &&& forall|i: int| 0 <= i < self.mask.len() ==> (#[trigger] self.mask[i]).0 <= self.mask[i].1
        &&& forall|i: int|
            0 <= i < self.dims.len() ==> ((#[trigger] self.dims[i]) matches Dim::Known(v) ==> v
                <= MAX_EXTENT)
        &&& forall|i: int|
            0 <= i < self.padding.len() ==> (#[trigger] self.padding[i]).0 <= MAX_EXTENT
                && self.padding[i].1 <= MAX_EXTENT
        &&& forall|i: int|
            0 <= i < self.mask.len() ==> (#[trigger] self.mask[i]).0 <= MAX_EXTENT && (self.mask[
                i
            ].1 == NO_SLICE_END || self.mask[i].1 <= MAX_EXTENT)
    }

    /// Number of dimensions.
    pub open spec fn rank(self) -> nat {
        self.dims.len()
    }

    /// The logical (permuted) dimension at position `i`.
    pub open spec fn logical_dim(self, i: int) -> Dim
        recommends
            self.wf(),
            0 <= i < self.rank(),
    {
        self.dims[self.indexes[i] as int]
    }

    /// The identity permutation with no broadcast dimension: the canonical
    /// row-major layout.
    pub open spec fn is_contiguous(self) -> bool {
        &&& forall|i: int| 0 <= i < self.indexes.len() ==> (#[trigger] self.indexes[i]) == i
        &&& forall|i: int| 0 <= i < self.fake.len() ==> !(#[trigger] self.fake[i])
    }

    /// Some dimension carries nonzero padding.
    pub open spec fn is_padded(self) -> bool {
        exists|i: int|
            0 <= i < self.padding.len() && ((#[trigger] self.padding[i]).0 != 0 || self.padding[
                i
            ].1 != 0)
    }

    /// Some dimension carries a restrictive slice window.
    pub open spec fn is_sliced(self) -> bool {
        exists|i: int|
            0 <= i < self.mask.len() && ((#[trigger] self.mask[i]).0 != 0 || self.mask[i].1
                != NO_SLICE_END)
    }

    /// Safe to inline into a fused kernel: canonical layout, nothing padded
    /// away, nothing sliced away.
    pub open spec fn fusable(self) -> bool {
        self.is_contiguous() && !self.is_padded() && !self.is_sliced()
    }

    /// The dynamic symbols the view mentions.
    pub open spec fn syms(self) -> Set<char> {
        Set::new(|c: char| exists|i: int| 0 <= i < self.dims.len() && self.dims[i] == Dim::Sym(c))
    }
}

/// Copy of a vector of plain copyable values.
pub fn copy_vec<T: Copy>(v: &Vec<T>) -> (r: Vec<T>)
    ensures
        r@ == v@,
{
    let n = v.len();
    let mut r: Vec<T> = Vec::new();
    let mut i: usize = 0;
    while i < n
        invariant
            i <= n,
            n == v@.len(),
            r@ == v@.subrange(0, i as int),
        decreases n - i,
    {
        r.push(v[i]);
        proof {
            assert(r@ =~= v@.subrange(0, i + 1 as int));
        }
        i = i + 1;
    }
    proof {
        assert(r@ =~= v@);
    }
    r
}

impl Clone for ShapeTracker {
    fn clone(&self) -> (r: Self)
        ensures
            r@ == self@,
    {
        ShapeTracker {
            dims: copy_vec(&self.dims),
            indexes: copy_vec(&self.indexes),
            fake: copy_vec(&self.fake),
            padding: copy_vec(&self.padding),
            mask: copy_vec(&self.mask),
        }
    }
}

impl ShapeTracker {
    /// A contiguous, unpadded, unsliced descriptor over `dims`.
    pub fn new_contiguous(dims: Vec<Dim>) -> (r: ShapeTracker)
        requires
            forall|i: int|
                0 <= i < dims@.len() ==> ((#[trigger] dims@[i]) matches Dim::Known(v) ==> v
                    <= MAX_EXTENT),
        ensures
            r@.wf(),
            r@.dims == dims@,
            r@.is_contiguous(),
            !r@.is_padded(),
            !r@.is_sliced(),
    {
        let n = dims.len();
        let mut indexes: Vec<usize> = Vec::new();
        let mut fake: Vec<bool> = Vec::new();
        let mut padding: Vec<(u64, u64)> = Vec::new();
        let mut mask: Vec<(u64, u64)> = Vec::new();
        let mut i: usize = 0;
        while i < n
            invariant
                i <= n,
                indexes@.len() == i,
                fake@.len() == i,
                padding@.len() == i,
                mask@.len() == i,
                forall|k: int| 0 <= k < i ==> (#[trigger] indexes@[k]) == k,
                forall|k: int| 0 <= k < i ==> !(#[trigger] fake@[k]),
                forall|k: int| 0 <= k < i ==> (#[trigger] padding@[k]) == (0u64, 0u64),
                forall|k: int| 0 <= k < i ==> (#[trigger] mask@[k]) == (0u64, NO_SLICE_END),
            decreases n - i,
        {
            indexes.push(i);
            fake.push(false);
            padding.push((0, 0));
            mask.push((0, NO_SLICE_END));
            i = i + 1;
        }
        ShapeTracker { dims, indexes, fake, padding, mask }
    }

    /// Number of dimensions.
    pub fn n_dims(&self) -> (r: usize)
        ensures
            r == self@.rank(),
    {
        self.dims.len()
    }

    /// Whether the view is in canonical row-major order with no broadcast
    /// dimension.
    pub fn is_contiguous(&self) -> (r: bool)
        requires
            self@.wf(),
        ensures
            r == self@.is_contiguous(),
    {
        let n = self.indexes.len();
        let mut i: usize = 0;
        while i < n
            invariant
                i <= n,
                n == self.indexes@.len(),
                self.fake@.len() == n,
                forall|k: int| 0 <= k < i ==> (#[trigger] self.indexes@[k]) == k,
                forall|k: int| 0 <= k < i ==> !(#[trigger] self.fake@[k]),
            decreases n - i,
        {
            if self.indexes[i] != i || self.fake[i] {
                proof {
                    assert(self@.indexes[i as int] != i || self@.fake[i as int]);
                    assert(!self@.is_contiguous());
                }
                return false;
            }
            i = i + 1;
        }
        true
    }

    /// Whether any dimension carries nonzero padding.
    pub fn is_padded(&self) -> (r: bool)
        ensures
            r == self@.is_padded(),
    {
        let n = self.padding.len();
        let mut i: usize = 0;
        while i < n
            invariant
                i <= n,
                n == self.padding@.len(),
                forall|k: int|
                    0 <= k < i ==> (#[trigger] self.padding@[k]).0 == 0 && self.padding@[k].1 == 0,
            decreases n - i,
        {
            let (l, r) = self.padding[i];
            if l != 0 || r != 0 {
                proof {
                    assert(self@.padding[i as int].0 != 0 || self@.padding[i as int].1 != 0);
                    assert(self@.is_padded());
                }
                return true;
            }
            i = i + 1;
        }
        false
    }

    /// Whether any dimension carries a restrictive slice window.
    pub fn is_sliced(&self) -> (r: bool)
        ensures
            r == self@.is_sliced(),
    {
        let n = self.mask.len();
        let mut i: usize = 0;
        while i < n
            invariant
                i <= n,
                n == self.mask@.len(),
                forall|k: int|
                    0 <= k < i ==> (#[trigger] self.mask@[k]).0 == 0 && self.mask@[k].1
                        == NO_SLICE_END,
            decreases n - i,
        {
            let (s, e) = self.mask[i];
            if s != 0 || e != NO_SLICE_END {
                proof {
                    assert(self@.mask[i as int].0 != 0 || self@.mask[i as int].1 != NO_SLICE_END);
                    assert(self@.is_sliced());
                }
                return true;
            }
            i = i + 1;
        }
        false
    }

    /// Whether the view is safe to inline into a fused kernel.
    pub fn is_fusable(&self) -> (r: bool)
        requires
            self@.wf(),
        ensures
            r == self@.fusable(),
    {
        self.is_contiguous() && !self.is_padded() && !self.is_sliced()
    }

    /// The logical (permuted) dimensions.
    pub fn shape(&self) -> (r: Vec<Dim>)
        requires
            self@.wf(),
        ensures
            r@.len() == self@.rank(),
            forall|i: int| 0 <= i < r@.len() ==> (#[trigger] r@[i]) == self@.logical_dim(i),
    {
        let n = self.indexes.len();
        let mut r: Vec<Dim> = Vec::new();
        let mut i: usize = 0;
        while i < n
            invariant
                i <= n,
                n == self.indexes@.len(),
                self@.wf(),
                r@.len() == i,
                forall|k: int| 0 <= k < i ==> (#[trigger] r@[k]) == self@.logical_dim(k),
            decreases n - i,
        {
            r.push(self.dims[self.indexes[i]]);
            i = i + 1;
        }
        r
    }

    /// The logical (permuted) dimension at position `i`.
    pub fn dim_at(&self, i: usize) -> (r: Dim)
        requires
            self@.wf(),
            i < self@.rank(),
        ensures
            r == self@.logical_dim(i as int),
    {
        self.dims[self.indexes[i]]
    }

    /// Reorder the logical dimensions: logical position `i` of the result is
    /// logical position `axes[i]` of `self`. Builds a new descriptor.
    pub fn permute(&self, axes: &Vec<usize>) -> (r: ShapeTracker)
        requires
            self@.wf(),
            axes@.len() == self@.rank(),
            forall|i: int| 0 <= i < axes@.len() ==> (#[trigger] axes@[i]) < axes@.len(),
            forall|i: int, j: int| 0 <= i < j < axes@.len() ==> axes@[i] != axes@[j],
        ensures
            r@.wf(),
            r@.dims == self@.dims,
            r@.fake == self@.fake,
            r@.padding == self@.padding,
            r@.mask == self@.mask,
            r@.indexes.len() == self@.rank(),
            forall|i: int|
                0 <= i < r@.indexes.len() ==> (#[trigger] r@.indexes[i]) == self@.indexes[axes@[i]
                    as int],
    {
        let n = axes.len();
        let mut indexes: Vec<usize> = Vec::new();
        let mut i: usize = 0;
        while i < n
            invariant
                i <= n,
                n == axes@.len(),
                self@.wf(),
                axes@.len() == self@.rank(),
                forall|k: int| 0 <= k < axes@.len() ==> (#[trigger] axes@[k]) < axes@.len(),
                forall|k: int, j: int| 0 <= k < j < axes@.len() ==> axes@[k] != axes@[j],
                indexes@.len() == i,
                forall|k: int|
                    0 <= k < i ==> (#[trigger] indexes@[k]) == self@.indexes[axes@[k] as int],
            decreases n - i,
        {
            indexes.push(self.indexes[axes[i]]);
            i = i + 1;
        }
        let r = ShapeTracker {
            dims: copy_vec(&self.dims),
            indexes,
            fake: copy_vec(&self.fake),
            padding: copy_vec(&self.padding),
            mask: copy_vec(&self.mask),
        };
        proof {
            assert forall|i: int, j: int| 0 <= i < j < r@.indexes.len() implies r@.indexes[i]
                != r@.indexes[j] by {
                assert(axes@[i] != axes@[j]);
            }
        }
        r
    }

    /// Add `(left, right)` padding around logical dimension `d`. Builds a new
    /// descriptor; the previous padding of that dimension is replaced.
    pub fn pad(&self, d: usize, left: u64, right: u64) -> (r: ShapeTracker)
        requires
            self@.wf(),
            d < self@.rank(),
            left <= MAX_EXTENT,
            right <= MAX_EXTENT,
        ensures
            r@.wf(),
            r@.dims == self@.dims,
            r@.indexes == self@.indexes,
            r@.fake == self@.fake,
            r@.mask == self@.mask,
            r@.padding == self@.padding.update(self@.indexes[d as int] as int, (left, right)),
    {
        let mut padding = copy_vec(&self.padding);
        let storage_d = self.indexes[d];
        padding.set(storage_d, (left, right));
        ShapeTracker {
            dims: copy_vec(&self.dims),
            indexes: copy_vec(&self.indexes),
            fake: copy_vec(&self.fake),
            padding,
            mask: copy_vec(&self.mask),
        }
    }

    /// Restrict logical dimension `d` to the window `[start, end)` over its
    /// padded extent. Builds a new descriptor; the previous window of that
    /// dimension is replaced.
    pub fn slice(&self, d: usize, start: u64, end: u64) -> (r: ShapeTracker)
        requires
            self@.wf(),
            d < self@.rank(),
            start <= end,
            start <= MAX_EXTENT,
            end == NO_SLICE_END || end <= MAX_EXTENT,
        ensures
            r@.wf(),
            r@.dims == self@.dims,
            r@.indexes == self@.indexes,
            r@.fake == self@.fake,
            r@.padding == self@.padding,
            r@.mask == self@.mask.update(self@.indexes[d as int] as int, (start, end)),
    {
        let mut mask = copy_vec(&self.mask);
        let storage_d = self.indexes[d];
        mask.set(storage_d, (start, end));
        ShapeTracker {
            dims: copy_vec(&self.dims),
            indexes: copy_vec(&self.indexes),
            fake: copy_vec(&self.fake),
            padding: copy_vec(&self.padding),
            mask,
        }
    }
}

} // verus!
