use vstd::prelude::*;

use crate::band::Band;
use crate::compressed::Compressed;
use crate::dense::{entry, lemma_cell_position, Dense};
use crate::element::Element;
use crate::shape::{min_size, Major, Shape};

verus! {

/// A diagonal matrix.
///
/// The storage suits generic diagonal matrices: only the entries of the main
/// diagonal are kept.
#[derive(Clone, Debug, PartialEq)]
pub struct Diagonal<T: Element> {
    /// The number of rows.
    pub rows: usize,
    /// The number of columns.
    pub columns: usize,
    /// The values of the diagonal elements.
    pub values: Vec<T>,
}

/// `n` copies of the additive identity.
pub open spec fn zero_run<T: Element>(n: int) -> Seq<T> {
    Seq::new(n as nat, |_k: int| T::spec_zero())
}

/// The positions `0..n`, as stored indices.
pub open spec fn positions(n: int) -> Seq<usize> {
    Seq::new(n as nat, |k: int| k as usize)
}

/// How many columns a wide matrix has beyond its square part.
pub open spec fn excess_columns(rows: usize, columns: usize) -> int {
    if columns > rows {
        columns - rows
    } else {
        0
    }
}

fn copy_values<T: Copy>(v: &Vec<T>) -> (r: Vec<T>)
    ensures
        r@ == v@,
{
    let mut r: Vec<T> = Vec::with_capacity(v.len());
    let mut k: usize = 0;
    while k < v.len()
        invariant
            k <= v@.len(),
            r@ == v@.subrange(0, k as int),
        decreases v@.len() - k,
    {
        r.push(v[k]);
        k = k + 1;
        assert(r@ =~= v@.subrange(0, k as int));
    }
    assert(r@ =~= v@);
    r
}

impl<T: Element> Diagonal<T> {
    /// The buffer holds one value for each diagonal position.
    pub open spec fn wf(&self) -> bool {
        self.values@.len() == min_size(self.rows, self.columns)
    }

    /// The entry at row `i` and column `j` of the full matrix.
    pub open spec fn spec_get(&self, i: int, j: int) -> T {
        if i == j {
            self.values@[i]
        } else {
            T::spec_zero()
        }
    }

    /// `r` is this matrix in dense form: same shape, the diagonal values in
    /// place, the additive identity everywhere else.
    pub open spec fn unpacked_as(&self, r: Dense<T>) -> bool {
        &&& r.wf()
        &&& r.rows == self.rows
        &&& r.columns == self.columns
        &&& forall|i: int, j: int|
            0 <= i < self.rows && 0 <= j < self.columns ==> #[trigger] r.at(i, j) == self.spec_get(
                i,
                j,
            )
    }

    /// Checks that the buffer holds one value for each diagonal position.
    pub fn is_valid(&self) -> (r: bool)
        ensures
            r == self.wf(),
    {
        self.values.len() == self.nonzeros()
    }

    /// Makes a diagonal matrix of the given shape from its diagonal values.
    pub fn make(values: Vec<T>, shape: Shape) -> (r: Diagonal<T>)
        requires
            values@.len() == min_size(shape.spec_rows(), shape.spec_columns()),
        ensures
            r.wf(),
            r.rows == shape.spec_rows(),
            r.columns == shape.spec_columns(),
            r.values@ == values@,
    {
        let (rows, columns) = shape.dimensions();
        Diagonal { rows, columns, values }
    }

    /// Makes a diagonal matrix of the given shape from a copy of its diagonal
    /// values.
    pub fn make_from_slice(values: &[T], shape: Shape) -> (r: Diagonal<T>)
        requires
            values@.len() == min_size(shape.spec_rows(), shape.spec_columns()),
        ensures
            r.wf(),
            r.rows == shape.spec_rows(),
            r.columns == shape.spec_columns(),
            r.values@ == values@,
    {
        let (rows, columns) = shape.dimensions();
        Diagonal { rows, columns, values: vstd::slice::slice_to_vec(values) }
    }

    /// The number of diagonal positions, whatever their values.
    pub fn nonzeros(&self) -> (r: usize)
        ensures
            r == min_size(self.rows, self.columns),
    {
        if self.rows < self.columns {
            self.rows
        } else {
            self.columns
        }
    }

    /// Converts into a band matrix with no diagonal besides the main one,
    /// padding the values with the additive identity up to the number of
    /// columns.
    pub fn into_band(self) -> (r: Band<T>)
        ensures
            r.rows == self.rows,
            r.columns == self.columns,
            r.superdiagonals == 0,
            r.subdiagonals == 0,
            r.values@ == self.values@ + zero_run::<T>(excess_columns(self.rows, self.columns)),
            self.wf() ==> r.wf(),
    {
        let Diagonal { rows, columns, values } = self;
        let mut values = values;
        let ghost start = values@;
        let mut c: usize = rows;
        while c < columns
            invariant
                rows <= c <= columns || columns <= rows == c,
                c >= rows,
                values@ == start + zero_run::<T>(c - rows),
            decreases columns - c,
        {
            values.push(T::zero());
            c = c + 1;
            assert(values@ =~= start + zero_run::<T>(c - rows));
        }
        assert(values@ =~= start + zero_run::<T>(excess_columns(rows, columns)));
        assert(min_size(rows, columns) + excess_columns(rows, columns) == columns);
        let band = Band { rows, columns, superdiagonals: 0, subdiagonals: 0, values };
        assert((band.superdiagonals + band.subdiagonals + 1) * band.columns == band.columns) by (nonlinear_arith)
            requires
                band.superdiagonals == 0,
                band.subdiagonals == 0,
        ;
        band
    }

    /// Converts a copy into a band matrix; see `into_band`.
    pub fn to_band(&self) -> (r: Band<T>)
        ensures
            r.rows == self.rows,
            r.columns == self.columns,
            r.superdiagonals == 0,
            r.subdiagonals == 0,
            r.values@ == self.values@ + zero_run::<T>(excess_columns(self.rows, self.columns)),
            self.wf() ==> r.wf(),
    {
        let copy = Diagonal { rows: self.rows, columns: self.columns, values: copy_values(&self.values) };
        copy.into_band()
    }

    /// Converts into a compressed matrix grouped by columns, with one stored
    /// value per diagonal position. The value buffer is moved, not copied.
    pub fn into_compressed(self) -> (r: Compressed<T>)
        requires
            self.values@.len() < usize::MAX,
        ensures
            r.rows == self.rows,
            r.columns == self.columns,
            r.nonzeros == self.values@.len(),
            r.format == Major::Column,
            r.values@ == self.values@,
            r.indices@ == positions(self.values@.len() as int),
            r.offsets@ == positions(self.values@.len() + 1 as int),
            self.wf() && self.columns <= self.rows ==> r.wf(),
    {
        let Diagonal { rows, columns, values } = self;
        let nonzeros = values.len();
        let mut indices: Vec<usize> = Vec::with_capacity(nonzeros);
        let mut offsets: Vec<usize> = Vec::with_capacity(nonzeros + 1);
        offsets.push(0);
        let mut k: usize = 0;
        while k < nonzeros
            invariant
                k <= nonzeros < usize::MAX,
                indices@ == positions(k as int),
                offsets@ == positions(k + 1),
            decreases nonzeros - k,
        {
            indices.push(k);
            offsets.push(k + 1);
            k = k + 1;
            assert(indices@ =~= positions(k as int));
            assert(offsets@ =~= positions(k + 1));
        }
        Compressed { rows, columns, nonzeros, format: Major::Column, values, indices, offsets }
    }

    /// Converts a copy into a compressed matrix; see `into_compressed`.
    pub fn to_compressed(&self) -> (r: Compressed<T>)
        requires
            self.values@.len() < usize::MAX,
        ensures
            r.rows == self.rows,
            r.columns == self.columns,
            r.nonzeros == self.values@.len(),
            r.format == Major::Column,
            r.values@ == self.values@,
            r.indices@ == positions(self.values@.len() as int),
            r.offsets@ == positions(self.values@.len() + 1 as int),
            self.wf() && self.columns <= self.rows ==> r.wf(),
    {
        let copy = Diagonal { rows: self.rows, columns: self.columns, values: copy_values(&self.values) };
        copy.into_compressed()
    }

    /// Converts into a dense matrix: the diagonal values in place and the
    /// additive identity everywhere else.
    pub fn to_dense(&self) -> (r: Dense<T>)
        requires
            self.wf(),
            self.rows * self.columns <= usize::MAX,
        ensures
            self.unpacked_as(r),
    {
        let rows = self.rows;
        let columns = self.columns;
        let mut dense = Dense::zeros(rows, columns);
        let ghost (m, n) = (rows as int, columns as int);
        assert forall|a: int, c: int| 0 <= a < m && 0 <= c < n implies #[trigger] entry(
            dense.values@,
            m,
            a,
            c,
        ) == T::spec_zero() by {
            lemma_cell_position(m, n, a, c, 0, 0);
        }
        let count = self.nonzeros();
        let mut i: usize = 0;
        while i < count
            invariant
                self.wf(),
                rows == self.rows,
                columns == self.columns,
                m == rows,
                n == columns,
                count == min_size(rows, columns),
                rows * columns <= usize::MAX,
                i <= count,
                dense.wf(),
                dense.rows == rows,
                dense.columns == columns,
                forall|a: int, c: int|
                    0 <= a < m && 0 <= c < n ==> #[trigger] entry(dense.values@, m, a, c) == (
                    if a == c && a < i {
                        self.values@[a]
                    } else {
                        T::spec_zero()
                    }),
            decreases count - i,
        {
            proof {
                lemma_cell_position(m, n, i as int, i as int, 0, 0);
            }
            let ghost before = dense.values@;
            dense.values[i * rows + i] = self.values[i];
            proof {
                assert forall|a: int, c: int| 0 <= a < m && 0 <= c < n implies #[trigger] entry(
                    dense.values@,
                    m,
                    a,
                    c,
                ) == (if a == c && a < i + 1 {
                    self.values@[a]
                } else {
                    T::spec_zero()
                }) by {
                    lemma_cell_position(m, n, a, c, i as int, i as int);
                    assert(entry(before, m, a, c) == before[c * m + a]);
                }
            }
            i = i + 1;
        }
        dense
    }

    /// Converts into a dense matrix, consuming the diagonal one; see `to_dense`.
    pub fn into_dense(self) -> (r: Dense<T>)
        requires
            self.wf(),
            self.rows * self.columns <= usize::MAX,
        ensures
            self.unpacked_as(r),
    {
        self.to_dense()
    }

    /// Reads the main diagonal of a dense matrix. Nothing is lost where the
    /// dense matrix is diagonal.
    pub fn from_dense(dense: &Dense<T>) -> (r: Diagonal<T>)
        requires
            dense.wf(),
        ensures
            r.wf(),
            r.rows == dense.rows,
            r.columns == dense.columns,
            r.values@ == Seq::new(
                min_size(dense.rows, dense.columns) as nat,
                |k: int| dense.at(k, k),
            ),
    {
        let rows = dense.rows;
        let columns = dense.columns;
        let count: usize = if rows < columns {
            rows
        } else {
            columns
        };
        let ghost (m, n) = (rows as int, columns as int);
        assert(dense.values.len() == dense.values@.len());
        let mut values: Vec<T> = Vec::with_capacity(count);
        let mut k: usize = 0;
        while k < count
            invariant
                dense.wf(),
                rows == dense.rows,
                columns == dense.columns,
                m == rows,
                n == columns,
                m * n <= usize::MAX,
                count == min_size(rows, columns),
                k <= count,
                values@ == Seq::new(k as nat, |c: int| dense.at(c, c)),
            decreases count - k,
        {
            proof {
                lemma_cell_position(m, n, k as int, k as int, 0, 0);
            }
            values.push(dense.values[k * rows + k]);
            k = k + 1;
            assert(values@ =~= Seq::new(k as nat, |c: int| dense.at(c, c)));
        }
        Diagonal { rows, columns, values }
    }

    /// Gives up the matrix and returns its diagonal values.
    pub fn into_values(self) -> (r: Vec<T>)
        ensures
            r@ == self.values@,
    {
        self.values
    }

    /// The diagonal values.
    pub fn as_slice(&self) -> (r: &[T])
        ensures
            r@ == self.values@,
    {
        self.values.as_slice()
    }
}

/// Unpacking a well-formed diagonal matrix into dense form and reading the
/// main diagonal back gives the matrix that was unpacked.
pub proof fn lemma_dense_round_trip<T: Element>(d: Diagonal<T>, dense: Dense<T>, back: Diagonal<T>)
    requires
        d.wf(),
        d.unpacked_as(dense),
        back.rows == dense.rows,
        back.columns == dense.columns,
        back.values@ == Seq::new(
            min_size(dense.rows, dense.columns) as nat,
            |k: int| dense.at(k, k),
        ),
    ensures
        back.rows == d.rows,
        back.columns == d.columns,
        back.values@ == d.values@,
{
    assert forall|k: int| 0 <= k < d.values@.len() implies back.values@[k] == d.values@[k] by {
        assert(dense.at(k, k) == d.spec_get(k, k));
    }
    assert(back.values@ =~= d.values@);
}

} // verus!
