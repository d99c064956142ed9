//! Type-level permutation facts for statically shaped tensors.
//!
//! A permutation of a dynamically shaped view goes through
//! `ShapeTracker::permute`; for tensors whose shape is carried in the
//! type, this marker trait enumerates which target shape each axis
//! permutation produces, so an ill-shaped permutation fails to compile.

use vstd::prelude::*;

verus! {

/// A dimension of known extent, at the type level.
pub struct Const<const N: usize>;

/// A permutation of two axes, at the type level.
pub struct Axes2<const A: usize, const B: usize>;

/// A permutation of three axes, at the type level.
pub struct Axes3<const A: usize, const B: usize, const C: usize>;

/// Marker: a tensor of shape `Self` may be permuted to shape `Dst` along
/// axes `Ax`.
pub trait PermuteShapeTo<Dst, Ax> {

}

impl<const D1: usize, const D2: usize> PermuteShapeTo<
    (Const<D2>, Const<D1>),
    Axes2<1, 0>,
> for (Const<D1>, Const<D2>) {

}

impl<const D1: usize, const D2: usize, const D3: usize> PermuteShapeTo<
    (Const<D1>, Const<D3>, Const<D2>),
    Axes3<0, 2, 1>,
> for (Const<D1>, Const<D2>, Const<D3>) {

}

impl<const D1: usize, const D2: usize, const D3: usize> PermuteShapeTo<
    (Const<D2>, Const<D1>, Const<D3>),
    Axes3<1, 0, 2>,
> for (Const<D1>, Const<D2>, Const<D3>) {

}

impl<const D1: usize, const D2: usize, const D3: usize> PermuteShapeTo<
    (Const<D2>, Const<D3>, Const<D1>),
    Axes3<1, 2, 0>,
> for (Const<D1>, Const<D2>, Const<D3>) {

}

impl<const D1: usize, const D2: usize, const D3: usize> PermuteShapeTo<
    (Const<D3>, Const<D1>, Const<D2>),
    Axes3<2, 0, 1>,
> for (Const<D1>, Const<D2>, Const<D3>) {

}

impl<const D1: usize, const D2: usize, const D3: usize> PermuteShapeTo<
    (Const<D3>, Const<D2>, Const<D1>),
    Axes3<2, 1, 0>,
> for (Const<D1>, Const<D2>, Const<D3>) {

}

} // verus!
