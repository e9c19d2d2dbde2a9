//! int8 weight-only quantisation, as it is stored.
//!
//! A weight becomes one byte instead of four, and bytes moved are what sets the
//! ceiling of a decode. Activations stay f32.
use vstd::prelude::*;

verus! {

/// A quantised matrix: int8 values plus one scale per row, of whatever type the
/// arithmetic uses.
#[derive(Debug)]
pub struct QuantTensor<S> {
    pub data: Vec<i8>,
    pub scales: Vec<S>,
    pub rows: usize,
    pub cols: usize,
}

impl<S> QuantTensor<S> {
    /// A value for each element and a scale for each row. The range is
    /// symmetric: the lowest byte, which has no positive twin, does not occur.
    pub open spec fn wf(&self) -> bool {
        &&& self.data@.len() == self.rows * self.cols
        &&& self.scales@.len() == self.rows
        &&& forall|i: int| 0 <= i < self.data@.len() ==> #[trigger] self.data@[i] != i8::MIN
    }

    /// Bytes held, including scales.
    pub fn bytes(&self) -> (n: usize)
        requires
            self.data@.len() + self.scales@.len() * 4 <= usize::MAX,
        ensures
            n == self.data@.len() + self.scales@.len() * 4,
    {
        self.data.len() + self.scales.len() * 4
    }

    /// Where an element is kept: rows are output channels, one after another.
    pub fn index(&self, row: usize, col: usize) -> (i: usize)
        requires
            self.wf(),
            row < self.rows,
            col < self.cols,
        ensures
            i == row * self.cols + col,
            i < self.data@.len(),
    {
        proof {
            let r = self.rows as int;
            let c = self.cols as int;
            assert((row + 1) * c <= r * c) by (nonlinear_arith)
                requires
                    row + 1 <= r,
                    c >= 0,
            ;
            assert((row + 1) * c == row * c + c) by (nonlinear_arith);
            assert(self.data.len() == self.data@.len());
        }
        row * self.cols + col
    }
}

/// A quantised matrix takes a quarter of the f32 bytes and four bytes a row.
pub proof fn law_four_times_smaller<S>(q: QuantTensor<S>)
    requires
        q.wf(),
    ensures
        4 * (q.data@.len() + q.scales@.len() * 4) == q.rows * q.cols * 4 + 16 * q.rows,
{
}

} // verus!
