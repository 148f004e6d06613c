//! Shapes of tensors.

use vstd::prelude::*;

verus! {

/// The shape of a tensor of rank at most 4: its rank and the extent of each
/// dimension. Extents beyond the rank are zero.
pub struct Shape {
    pub rank: usize,
    pub dims: [usize; 4],
}

impl Shape {
    /// The shape of a vector of `dim` elements.
    pub fn r1(dim: usize) -> (shape: Shape)
        ensures
            shape.rank == 1,
            shape.dims@ == seq![dim, 0usize, 0usize, 0usize],
    {
        let shape = Shape { rank: 1, dims: [dim, 0, 0, 0] };
        assert(shape.dims@ =~= seq![dim, 0usize, 0usize, 0usize]);
        shape
    }
}

} // verus!
