use vstd::prelude::*;

use crate::element::Element;
use crate::shape::Shape;

verus! {

/// A dense matrix, stored in column-major order.
#[derive(Clone, Debug, PartialEq)]
pub struct Dense<T: Element> {
    /// The number of rows.
    pub rows: usize,
    /// The number of columns.
    pub columns: usize,
    /// The values, column after column.
    pub values: Vec<T>,
}

/// The entry at row `i` and column `j` of a column-major buffer with `rows` rows.
pub open spec fn entry<T>(s: Seq<T>, rows: int, i: int, j: int) -> T {
    s[j * rows + i]
}

/// Two distinct cells of a column-major buffer lie at distinct positions, and
/// every cell lies inside the buffer.
pub proof fn lemma_cell_position(rows: int, columns: int, i: int, j: int, a: int, b: int)
    requires
        0 <= i < rows,
        0 <= j < columns,
        0 <= a < rows,
        0 <= b < columns,
    ensures
        0 <= j * rows + i < rows * columns,
        (i != a || j != b) ==> j * rows + i != b * rows + a,
{
    assert(0 <= j * rows) by (nonlinear_arith)
        requires
            0 <= j,
            0 <= rows,
    ;
    assert(j * rows + i < rows * columns) by (nonlinear_arith)
        requires
            0 <= i < rows,
            0 <= j < columns,
    ;
    if j != b {
        assert(j * rows + i != b * rows + a) by (nonlinear_arith)
            requires
                0 <= i < rows,
                0 <= a < rows,
                j != b,
        ;
    }
}

impl<T: Element> Dense<T> {
    /// The buffer holds one value for each cell.
    pub open spec fn wf(&self) -> bool {
        self.values@.len() == self.rows * self.columns
    }

    /// The entry at row `i` and column `j`.
    pub open spec fn at(&self, i: int, j: int) -> T {
        entry(self.values@, self.rows as int, i, j)
    }

    /// Checks that the buffer holds one value for each cell.
    pub fn is_valid(&self) -> (r: bool)
        ensures
            r == self.wf(),
    {
        assert(self.values.len() == self.values@.len());
        match self.rows.checked_mul(self.columns) {
            Some(cells) => self.values.len() == cells,
            None => false,
        }
    }

    /// Makes a dense matrix of the given shape from its values, column after
    /// column.
    pub fn make(values: Vec<T>, shape: Shape) -> (r: Dense<T>)
        requires
            values@.len() == shape.spec_rows() * shape.spec_columns(),
        ensures
            r.wf(),
            r.rows == shape.spec_rows(),
            r.columns == shape.spec_columns(),
            r.values@ == values@,
    {
        let (rows, columns) = shape.dimensions();
        Dense { rows, columns, values }
    }

    /// A matrix of the given size whose entries are all the additive identity.
    pub fn zeros(rows: usize, columns: usize) -> (r: Dense<T>)
        requires
            rows * columns <= usize::MAX,
        ensures
            r.wf(),
            r.rows == rows,
            r.columns == columns,
            forall|p: int| 0 <= p < r.values@.len() ==> r.values@[p] == T::spec_zero(),
    {
        let n: usize = rows * columns;
        let mut values: Vec<T> = Vec::with_capacity(n);
        let mut p: usize = 0;
        while p < n
            invariant
                p <= n,
                values@.len() == p,
                forall|q: int| 0 <= q < p ==> values@[q] == T::spec_zero(),
            decreases n - p,
        {
            values.push(T::zero());
            p = p + 1;
        }
        Dense { rows, columns, values }
    }
}

} // verus!
