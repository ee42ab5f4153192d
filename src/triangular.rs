use vstd::prelude::*;

use crate::dense::{entry, lemma_cell_position, Dense};
use crate::element::Element;
use crate::shape::Part;

verus! {

/// A triangular matrix.
///
/// Apart from triangular matrices, the storage suits symmetric and Hermitian
/// matrices. The stored half is packed column after column: for the lower
/// part, column `j` holds rows `j` to `size - 1`; for the upper part, column
/// `j` holds rows `0` to `j`.
#[derive(Clone, Debug, PartialEq)]
pub struct Triangular<T: Element> {
    /// The number of rows or columns.
    pub size: usize,
    /// The stored half.
    pub format: Part,
    /// The values of the stored half, packed column after column.
    pub values: Vec<T>,
}

/// Where column `j` starts in the packed lower half of a matrix of size `size`.
pub open spec fn lower_start(size: int, j: int) -> int
    decreases j,
{
    if j <= 0 {
        0
    } else {
        lower_start(size, j - 1) + (size - (j - 1))
    }
}

/// Where column `j` starts in the packed upper half.
pub open spec fn upper_start(j: int) -> int
    decreases j,
{
    if j <= 0 {
        0
    } else {
        upper_start(j - 1) + j
    }
}

/// Whether the cell at row `i` and column `j` lies in the given half.
pub open spec fn in_part(part: Part, i: int, j: int) -> bool {
    match part {
        Part::Lower => i >= j,
        Part::Upper => i <= j,
    }
}

/// Where column `j` of the given half starts in the packed buffer.
pub open spec fn column_start(part: Part, size: int, j: int) -> int {
    match part {
        Part::Lower => lower_start(size, j),
        Part::Upper => upper_start(j),
    }
}

/// Where the cell at row `i` and column `j` of the given half is packed.
pub open spec fn packed_index(part: Part, size: int, i: int, j: int) -> int {
    match part {
        Part::Lower => lower_start(size, j) + (i - j),
        Part::Upper => upper_start(j) + i,
    }
}

/// The number of values that the packed half of a matrix of size `size` holds.
pub open spec fn packed_len(size: int) -> int {
    size * (size + 1) / 2
}

proof fn lemma_lower_start_closed(size: int, j: int)
    requires
        0 <= j,
    ensures
        2 * lower_start(size, j) == j * (2 * size - j + 1),
    decreases j,
{
    if j > 0 {
        lemma_lower_start_closed(size, j - 1);
        assert(2 * lower_start(size, j) == j * (2 * size - j + 1)) by (nonlinear_arith)
            requires
                2 * lower_start(size, j - 1) == (j - 1) * (2 * size - (j - 1) + 1),
                lower_start(size, j) == lower_start(size, j - 1) + (size - (j - 1)),
        ;
    } else {
        assert(j * (2 * size - j + 1) == 0) by (nonlinear_arith)
            requires
                j == 0,
        ;
    }
}

proof fn lemma_upper_start_closed(j: int)
    requires
        0 <= j,
    ensures
        2 * upper_start(j) == j * (j + 1),
    decreases j,
{
    if j > 0 {
        lemma_upper_start_closed(j - 1);
        assert(2 * upper_start(j) == j * (j + 1)) by (nonlinear_arith)
            requires
                2 * upper_start(j - 1) == (j - 1) * j,
                upper_start(j) == upper_start(j - 1) + j,
        ;
    } else {
        assert(j * (j + 1) == 0) by (nonlinear_arith)
            requires
                j == 0,
        ;
    }
}

/// Each column of the lower half ends inside the packed buffer.
proof fn lemma_lower_start_bound(size: int, j: int)
    requires
        0 <= j < size,
    ensures
        lower_start(size, j + 1) <= packed_len(size),
        lower_start(size, j) + (size - j) == lower_start(size, j + 1),
    decreases size - j,
{
    if j + 1 < size {
        lemma_lower_start_bound(size, j + 1);
    } else {
        lemma_lower_start_closed(size, size);
    }
}

/// Each column of the upper half ends inside the packed buffer.
proof fn lemma_upper_start_bound(size: int, j: int)
    requires
        0 <= j < size,
    ensures
        upper_start(j + 1) <= packed_len(size),
    decreases size - j,
{
    if j + 1 < size {
        lemma_upper_start_bound(size, j + 1);
    } else {
        lemma_upper_start_closed(size);
    }
}


/// Each column of the given half is packed right after the one before it.
proof fn lemma_column_step(part: Part, size: int, j: int)
    requires
        0 <= j,
    ensures
        column_start(part, size, j + 1) == column_start(part, size, j) + match part {
            Part::Lower => size - j,
            Part::Upper => j + 1,
        },
{
}

/// Columns start in order.
proof fn lemma_column_start_mono(part: Part, size: int, a: int, b: int)
    requires
        0 <= a <= b <= size,
    ensures
        column_start(part, size, a) <= column_start(part, size, b),
    decreases b - a,
{
    if a < b {
        lemma_column_start_mono(part, size, a, b - 1);
        lemma_column_step(part, size, b - 1);
    }
}

/// The cells of a column of the given half are packed inside that column.
proof fn lemma_packed_in_column(part: Part, size: int, i: int, j: int)
    requires
        0 <= i < size,
        0 <= j < size,
        in_part(part, i, j),
    ensures
        column_start(part, size, j) <= packed_index(part, size, i, j) < column_start(
            part,
            size,
            j + 1,
        ),
{
    lemma_column_step(part, size, j);
}

/// The packed buffer ends where the column after the last would start.
proof fn lemma_column_start_total(part: Part, size: int)
    requires
        0 <= size,
    ensures
        column_start(part, size, size) == packed_len(size),
{
    match part {
        Part::Lower => lemma_lower_start_closed(size, size),
        Part::Upper => lemma_upper_start_closed(size),
    }
}

/// Every place in the packed columns before column `j` holds some cell.
proof fn lemma_packed_cover(part: Part, size: int, j: int, k: int)
    requires
        0 <= j <= size,
        0 <= k < column_start(part, size, j),
    ensures
        exists|a: int, c: int|
            0 <= a < size && 0 <= c < j && in_part(part, a, c) && packed_index(part, size, a, c)
                == k,
    decreases j,
{
    lemma_column_step(part, size, j - 1);
    if k < column_start(part, size, j - 1) {
        lemma_packed_cover(part, size, j - 1, k);
        let (a, c) = choose|a: int, c: int|
            0 <= a < size && 0 <= c < j - 1 && in_part(part, a, c) && packed_index(part, size, a, c)
                == k;
        assert(0 <= a < size && 0 <= c < j && in_part(part, a, c) && packed_index(part, size, a, c)
            == k);
    } else {
        let c = j - 1;
        let a = match part {
            Part::Lower => c + (k - column_start(part, size, c)),
            Part::Upper => k - column_start(part, size, c),
        };
        assert(0 <= a < size && 0 <= c < j && in_part(part, a, c) && packed_index(part, size, a, c)
            == k);
    }
}

impl<T: Element> Triangular<T> {
    /// The packed buffer holds exactly the stored half.
    pub open spec fn wf(&self) -> bool {
        self.values@.len() == packed_len(self.size as int)
    }

    /// The entry at row `i` and column `j` of the full matrix.
    pub open spec fn spec_get(&self, i: int, j: int) -> T {
        if in_part(self.format, i, j) {
            self.values@[packed_index(self.format, self.size as int, i, j)]
        } else {
            T::spec_zero()
        }
    }

    /// `r` is this matrix in dense form: the stored half unpacked and the
    /// additive identity in the other half.
    pub open spec fn unpacked_as(&self, r: Dense<T>) -> bool {
        &&& r.wf()
        &&& r.rows == self.size
        &&& r.columns == self.size
        &&& forall|i: int, j: int|
            0 <= i < self.size && 0 <= j < self.size ==> #[trigger] r.at(i, j) == self.spec_get(
                i,
                j,
            )
    }

    /// Checks that the packed buffer holds exactly the stored half.
    pub fn is_valid(&self) -> (r: bool)
        ensures
            r == self.wf(),
    {
        let size = self.size;
        assert(self.values.len() == self.values@.len());
        let (a, b): (usize, usize) = if size % 2 == 0 {
            (size / 2, size + 1)
        } else {
            (size, size / 2 + 1)
        };
        assert(a * b == packed_len(size as int)) by (nonlinear_arith)
            requires
                size % 2 == 0 ==> a == size / 2 && b == size + 1,
                size % 2 == 1 ==> a == size && b == size / 2 + 1,
                size >= 0,
        ;
        match a.checked_mul(b) {
            Some(count) => self.values.len() == count,
            None => false,
        }
    }

    /// The number of stored entries, whatever their values.
    pub fn nonzeros(&self) -> (r: usize)
        requires
            self.size * (self.size + 1) <= usize::MAX,
        ensures
            r == packed_len(self.size as int),
    {
        assert(self.size + 1 <= usize::MAX) by (nonlinear_arith)
            requires
                self.size * (self.size + 1) <= usize::MAX,
        ;
        self.size * (self.size + 1) / 2
    }

    /// Packs the given half of a square dense matrix. Nothing is lost where
    /// the other half holds only the additive identity.
    pub fn from_dense(dense: &Dense<T>, part: Part) -> (r: Triangular<T>)
        requires
            dense.wf(),
            dense.rows == dense.columns,
        ensures
            r.wf(),
            r.size == dense.rows,
            r.format == part,
            forall|i: int, j: int|
                0 <= i < r.size && 0 <= j < r.size && in_part(part, i, j) ==> #[trigger] r.spec_get(
                    i,
                    j,
                ) == dense.at(i, j),
    {
        let size = dense.rows;
        let ghost n = size as int;
        assert(dense.values.len() == dense.values@.len());
        let mut values: Vec<T> = Vec::new();
        let mut j: usize = 0;
        while j < size
            invariant
                dense.wf(),
                size == dense.rows,
                size == dense.columns,
                n == size,
                n * n <= usize::MAX,
                j <= size,
                values@.len() == column_start(part, n, j as int),
                forall|a: int, c: int|
                    0 <= a < n && 0 <= c < j && in_part(part, a, c) ==> #[trigger] values@[packed_index(
                        part,
                        n,
                        a,
                        c,
                    )] == dense.at(a, c),
            decreases size - j,
        {
            let (first, last): (usize, usize) = match part {
                Part::Lower => (j, size),
                Part::Upper => (0, j + 1),
            };
            let mut i: usize = first;
            while i < last
                invariant
                    dense.wf(),
                    size == dense.rows,
                    size == dense.columns,
                    n == size,
                    n * n <= usize::MAX,
                    j < size,
                    first <= i <= last <= size,
                    first as int == (match part {
                        Part::Lower => j as int,
                        Part::Upper => 0,
                    }),
                    last as int == (match part {
                        Part::Lower => size as int,
                        Part::Upper => j + 1,
                    }),
                    values@.len() == packed_index(part, n, i as int, j as int),
                    forall|a: int, c: int|
                        0 <= a < n && 0 <= c < j && in_part(part, a, c) ==> #[trigger] values@[packed_index(
                            part,
                            n,
                            a,
                            c,
                        )] == dense.at(a, c),
                    forall|a: int|
                        first <= a < i ==> #[trigger] values@[packed_index(part, n, a, j as int)]
                            == dense.at(a, j as int),
                decreases last - i,
            {
                proof {
                    lemma_cell_position(n, n, i as int, j as int, 0, 0);
                }
                let ghost before = values@;
                let v = dense.values[j * size + i];
                values.push(v);
                proof {
                    lemma_packed_in_column(part, n, i as int, j as int);
                    assert(v == dense.at(i as int, j as int));
                    assert(values@ == before.push(v));
                    assert(values@[before.len() as int] == v);
                    assert forall|a: int, c: int|
                        0 <= a < n && 0 <= c < j && in_part(part, a, c) implies #[trigger] values@[packed_index(
                            part,
                            n,
                            a,
                            c,
                        )] == dense.at(a, c) by {
                        lemma_packed_in_column(part, n, a, c);
                        lemma_column_start_mono(part, n, c + 1, j as int);
                        lemma_column_start_mono(part, n, 0, c);
                        let p = packed_index(part, n, a, c);
                        assert(p < before.len());
                        assert(before[p] == dense.at(a, c));
                        assert(values@[p] == before.push(v)[p]);
                    }
                    assert forall|a: int|
                        first <= a < i + 1 implies #[trigger] values@[packed_index(part, n, a, j as int)]
                            == dense.at(a, j as int) by {
                        if a < i {
                            lemma_column_start_mono(part, n, 0, j as int);
                            let p = packed_index(part, n, a, j as int);
                            assert(before[p] == dense.at(a, j as int));
                            assert(values@[p] == before.push(v)[p]);
                        } else {
                            assert(packed_index(part, n, a, j as int) == before.len());
                        }
                    }
                }
                i = i + 1;
            }
            proof {
                lemma_column_step(part, n, j as int);
                assert forall|a: int, c: int|
                    0 <= a < n && 0 <= c < j + 1 && in_part(part, a, c) implies #[trigger] values@[packed_index(
                        part,
                        n,
                        a,
                        c,
                    )] == dense.at(a, c) by {
                    if c == j {
                        assert(values@[packed_index(part, n, a, j as int)] == dense.at(a, j as int));
                    }
                }
            }
            j = j + 1;
        }
        proof {
            lemma_column_start_total(part, n);
        }
        Triangular { size, format: part, values }
    }

    /// Converts into a dense matrix: the stored half is unpacked column after
    /// column and the other half is the additive identity.
    pub fn to_dense(&self) -> (r: Dense<T>)
        requires
            self.wf(),
            self.size * self.size <= usize::MAX,
        ensures
            self.unpacked_as(r),
    {
        let size = self.size;
        let mut dense = Dense::zeros(size, size);
        let ghost n = size as int;
        let mut k: usize = 0;
        let mut j: usize = 0;
        assert(packed_len(n) <= n * n) by (nonlinear_arith)
            requires
                n >= 0,
        ;
        assert forall|a: int, c: int| 0 <= a < n && 0 <= c < n implies #[trigger] entry(
            dense.values@,
            n,
            a,
            c,
        ) == T::spec_zero() by {
            lemma_cell_position(n, n, a, c, 0, 0);
        }
        while j < size
            invariant
                self.wf(),
                size == self.size,
                n == size,
                size * size <= usize::MAX,
                packed_len(n) <= n * n,
                dense.wf(),
                dense.rows == size,
                dense.columns == size,
                j <= size,
                k == (match self.format {
                    Part::Lower => lower_start(n, j as int),
                    Part::Upper => upper_start(j as int),
                }),
                forall|a: int, c: int|
                    0 <= a < n && 0 <= c < n ==> #[trigger] entry(dense.values@, n, a, c) == (
                    if c < j {
                        self.spec_get(a, c)
                    } else {
                        T::spec_zero()
                    }),
            decreases size - j,
        {
            let (first, last): (usize, usize) = match self.format {
                Part::Lower => (j, size),
                Part::Upper => (0, j + 1),
            };
            proof {
                match self.format {
                    Part::Lower => lemma_lower_start_bound(n, j as int),
                    Part::Upper => lemma_upper_start_bound(n, j as int),
                }
            }
            let mut i: usize = first;
            while i < last
                invariant
                    self.wf(),
                    size == self.size,
                    n == size,
                    size * size <= usize::MAX,
                    dense.wf(),
                    dense.rows == size,
                    dense.columns == size,
                    j < size,
                    first <= i <= last <= size,
                    first as int == (match self.format {
                        Part::Lower => j as int,
                        Part::Upper => 0,
                    }),
                    last as int == (match self.format {
                        Part::Lower => size as int,
                        Part::Upper => j + 1,
                    }),
                    k == (match self.format {
                        Part::Lower => lower_start(n, j as int) + (i - j),
                        Part::Upper => upper_start(j as int) + i,
                    }),
                    k + (last - i) <= packed_len(n),
                    packed_len(n) <= n * n,
                    forall|a: int, c: int|
                        0 <= a < n && 0 <= c < n ==> #[trigger] entry(dense.values@, n, a, c) == (
                        if c < j || (c == j && a < i) {
                            self.spec_get(a, c)
                        } else {
                            T::spec_zero()
                        }),
                decreases last - i,
            {
                proof {
                    lemma_cell_position(n, n, i as int, j as int, 0, 0);
                }
                assert(k < self.values@.len());
                let ghost before = dense.values@;
                dense.values[j * size + i] = self.values[k];
                proof {
                    assert forall|a: int, c: int| 0 <= a < n && 0 <= c < n implies #[trigger] entry(
                        dense.values@,
                        n,
                        a,
                        c,
                    ) == (if c < j || (c == j && a < i + 1) {
                        self.spec_get(a, c)
                    } else {
                        T::spec_zero()
                    }) by {
                        lemma_cell_position(n, n, a, c, i as int, j as int);
                        assert(entry(before, n, a, c) == before[c * n + a]);
                    }
                }
                k = k + 1;
                i = i + 1;
            }
            proof {
                if self.format == Part::Upper {
                    assert(upper_start(j + 1) == upper_start(j as int) + j + 1);
                }
            }
            j = j + 1;
        }
        dense
    }

    /// Converts into a dense matrix, consuming the triangular one.
    pub fn into_dense(self) -> (r: Dense<T>)
        requires
            self.wf(),
            self.size * self.size <= usize::MAX,
        ensures
            self.unpacked_as(r),
    {
        self.to_dense()
    }
}

/// Unpacking a well-formed triangular matrix into dense form and packing the
/// same half back gives the matrix that was unpacked.
pub proof fn lemma_dense_round_trip<T: Element>(t: Triangular<T>, dense: Dense<T>, back: Triangular<T>)
    requires
        t.wf(),
        t.unpacked_as(dense),
        back.wf(),
        back.size == dense.rows,
        back.format == t.format,
        forall|i: int, j: int|
            0 <= i < back.size && 0 <= j < back.size && in_part(back.format, i, j)
                ==> #[trigger] back.spec_get(i, j) == dense.at(i, j),
    ensures
        back.size == t.size,
        back.format == t.format,
        back.values@ == t.values@,
{
    let n = t.size as int;
    lemma_column_start_total(t.format, n);
    assert forall|k: int| 0 <= k < t.values@.len() implies back.values@[k] == t.values@[k] by {
        lemma_packed_cover(t.format, n, n, k);
        let (a, c) = choose|a: int, c: int|
            0 <= a < n && 0 <= c < n && in_part(t.format, a, c) && packed_index(t.format, n, a, c)
                == k;
        assert(back.spec_get(a, c) == dense.at(a, c));
        assert(dense.at(a, c) == t.spec_get(a, c));
    }
    assert(back.values@ =~= t.values@);
}

} // verus!
