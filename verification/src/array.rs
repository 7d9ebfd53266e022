//! Arrays as they are read from a file: flat data with a shape.

use vstd::prelude::*;

verus! {

/// The product of the first `n` extents.
pub open spec fn volume(shape: Seq<usize>, n: int) -> int
    decreases n,
{
    if n <= 0 {
        1
    } else {
        volume(shape, n - 1) * shape[n - 1]
    }
}

/// An array in row-major order.
#[derive(Debug, Clone)]
pub struct Array<T> {
    /// The elements.
    pub data: Vec<T>,
    /// The extents, slowest first.
    pub shape: Vec<usize>,
}

impl<T> Array<T> {
    /// There are as many elements as the shape asks for.
    pub open spec fn wf(&self) -> bool {
        self.data@.len() == volume(self.shape@, self.shape@.len() as int)
    }

    /// Total element count.
    pub fn len(&self) -> (n: usize)
        ensures
            n == self.data@.len(),
    {
        self.data.len()
    }

    /// True when the array holds no elements.
    pub fn is_empty(&self) -> (b: bool)
        ensures
            b == (self.data@.len() == 0),
    {
        self.data.is_empty()
    }

    /// Rows and columns of a two-dimensional array.
    pub fn dims2(&self) -> (d: (usize, usize))
        requires
            self.shape@.len() == 2,
        ensures
            d.0 == self.shape@[0],
            d.1 == self.shape@[1],
    {
        (self.shape[0], self.shape[1])
    }
}

/// A two-dimensional array has rows times columns elements.
pub proof fn lemma_dims2_count<T>(a: Array<T>)
    requires
        a.wf(),
        a.shape@.len() == 2,
    ensures
        a.data@.len() == a.shape@[0] * a.shape@[1],
{
    reveal_with_fuel(volume, 3);
    assert(1 * a.shape@[0] == a.shape@[0]);
}

} // verus!
