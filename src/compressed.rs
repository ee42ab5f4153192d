use vstd::prelude::*;

use crate::dense::{entry, lemma_cell_position, Dense};
use crate::element::Element;
use crate::shape::Major;

verus! {

/// A compressed sparse matrix, grouped by rows or by columns.
///
/// The nonzeros of major line `m` are `values[offsets[m]..offsets[m + 1]]`,
/// and `indices` gives, for each of them, its position along the minor axis.
#[derive(Clone, Debug, PartialEq)]
pub struct Compressed<T: Element> {
    /// The number of rows.
    pub rows: usize,
    /// The number of columns.
    pub columns: usize,
    /// The number of stored nonzeros.
    pub nonzeros: usize,
    /// The axis along which the nonzeros are grouped.
    pub format: Major,
    /// The stored values.
    pub values: Vec<T>,
    /// The minor-axis position of each stored value.
    pub indices: Vec<usize>,
    /// Where each major line starts, and after the last one, where it ends.
    pub offsets: Vec<usize>,
}

impl<T: Element> Compressed<T> {
    /// The number of major lines: rows or columns.
    pub open spec fn major_lines(&self) -> int {
        match self.format {
            Major::Row => self.rows as int,
            Major::Column => self.columns as int,
        }
    }

    /// The length of each major line.
    pub open spec fn minor_size(&self) -> int {
        match self.format {
            Major::Row => self.columns as int,
            Major::Column => self.rows as int,
        }
    }

    /// The entry at row `i` and column `j`: the last value stored at that
    /// cell, or the additive identity where none is.
    pub open spec fn spec_get(&self, i: int, j: int) -> T {
        let m = line_of(self.format, i, j);
        match last_stored(
            self.values@,
            self.indices@,
            self.offsets@[m] as int,
            self.offsets@[m + 1] as int,
            position_of(self.format, i, j),
        ) {
            Some(v) => v,
            None => T::spec_zero(),
        }
    }

    /// Grouped by columns, with increasing indices within each column and no
    /// stored additive identity: the form that `from_dense` gives.
    pub open spec fn is_canonical(&self) -> bool {
        &&& self.wf()
        &&& self.format == Major::Column
        &&& forall|j: int|
            0 <= j < self.columns ==> #[trigger] increasing_run(
                self.indices@,
                self.offsets@[j] as int,
                self.offsets@[j + 1] as int,
            )
        &&& forall|k: int| 0 <= k < self.nonzeros ==> #[trigger] self.values@[k] != T::spec_zero()
    }

    /// The buffers agree with the counts, the offsets run from zero to the
    /// number of nonzeros without decreasing, and each index lies inside its
    /// major line.
    pub open spec fn wf(&self) -> bool {
        &&& self.values@.len() == self.nonzeros
        &&& self.indices@.len() == self.nonzeros
        &&& self.offsets@.len() == self.major_lines() + 1
        &&& self.offsets@[0] == 0
        &&& self.offsets@[self.major_lines()] == self.nonzeros
        &&& forall|a: int, b: int|
            0 <= a <= b <= self.major_lines() ==> #[trigger] self.offsets@[a]
                <= #[trigger] self.offsets@[b]
        &&& forall|k: int| 0 <= k < self.nonzeros ==> #[trigger] self.indices@[k] < self.minor_size()
    }
}

/// What the stored entries `lo..hi` put at minor position `i`: the last
/// value stored there, if any.
pub open spec fn last_stored<T>(values: Seq<T>, indices: Seq<usize>, lo: int, hi: int, i: int) -> Option<T>
    decreases hi - lo,
{
    if hi <= lo {
        None
    } else if indices[hi - 1] == i {
        Some(values[hi - 1])
    } else {
        last_stored(values, indices, lo, hi - 1, i)
    }
}

/// The indices `lo..hi` increase strictly.
pub open spec fn increasing_run(indices: Seq<usize>, lo: int, hi: int) -> bool {
    forall|k1: int, k2: int| lo <= k1 < k2 < hi ==> #[trigger] indices[k1] < #[trigger] indices[k2]
}

/// The major line of the cell at row `i` and column `j`.
pub open spec fn line_of(format: Major, i: int, j: int) -> int {
    match format {
        Major::Row => i,
        Major::Column => j,
    }
}

/// The minor position of the cell at row `i` and column `j`.
pub open spec fn position_of(format: Major, i: int, j: int) -> int {
    match format {
        Major::Row => j,
        Major::Column => i,
    }
}

/// The stored values `lo..hi` are exactly the entries of column `j` of `d`,
/// among its first `upto` rows, that are not the additive identity, in
/// increasing row order.
pub open spec fn stores_column<T: Element>(
    values: Seq<T>,
    indices: Seq<usize>,
    lo: int,
    hi: int,
    d: Dense<T>,
    j: int,
    upto: int,
) -> bool {
    &&& forall|k: int|
        lo <= k < hi ==> #[trigger] indices[k] < upto && values[k] == entry(
            d.values@,
            d.rows as int,
            indices[k] as int,
            j,
        ) && values[k] != T::spec_zero()
    &&& forall|k1: int, k2: int|
        lo <= k1 < k2 < hi ==> #[trigger] indices[k1] < #[trigger] indices[k2]
    &&& forall|a: int|
        0 <= a < upto && #[trigger] entry(d.values@, d.rows as int, a, j) != T::spec_zero()
            ==> exists|k: int| lo <= k < hi && indices[k] == a
}

proof fn lemma_stores_column_extend<T: Element>(
    values: Seq<T>,
    indices: Seq<usize>,
    v: T,
    i: usize,
    lo: int,
    hi: int,
    d: Dense<T>,
    j: int,
    upto: int,
)
    requires
        stores_column(values, indices, lo, hi, d, j, upto),
        0 <= lo <= hi <= values.len(),
        hi <= indices.len(),
    ensures
        stores_column(values.push(v), indices.push(i), lo, hi, d, j, upto),
{
    let vs = values.push(v);
    let is = indices.push(i);
    assert forall|k: int| lo <= k < hi implies #[trigger] is[k] < upto && vs[k] == entry(
        d.values@,
        d.rows as int,
        is[k] as int,
        j,
    ) && vs[k] != T::spec_zero() by {
        assert(indices[k] < upto);
    }
    assert forall|k1: int, k2: int| lo <= k1 < k2 < hi implies #[trigger] is[k1] < #[trigger] is[k2] by {
        assert(indices[k1] < indices[k2]);
    }
    assert forall|a: int|
        0 <= a < upto && #[trigger] entry(d.values@, d.rows as int, a, j) != T::spec_zero()
        implies exists|k: int| lo <= k < hi && is[k] == a by {
        let k = choose|k: int| lo <= k < hi && indices[k] == a;
        assert(is[k] == a);
    }
}

proof fn lemma_stores_column_agree<T: Element>(
    values: Seq<T>,
    indices: Seq<usize>,
    values2: Seq<T>,
    indices2: Seq<usize>,
    lo: int,
    hi: int,
    d: Dense<T>,
    j: int,
    upto: int,
)
    requires
        stores_column(values, indices, lo, hi, d, j, upto),
        0 <= lo <= hi <= values.len(),
        hi <= indices.len(),
        values.len() <= values2.len(),
        indices.len() <= indices2.len(),
        values2.subrange(0, values.len() as int) == values,
        indices2.subrange(0, indices.len() as int) == indices,
    ensures
        stores_column(values2, indices2, lo, hi, d, j, upto),
{
    assert forall|k: int| lo <= k < hi implies values2[k] == values[k] && indices2[k] == indices[k] by {
        assert(values2.subrange(0, values.len() as int)[k] == values2[k]);
        assert(indices2.subrange(0, indices.len() as int)[k] == indices2[k]);
    }
    assert forall|k1: int, k2: int| lo <= k1 < k2 < hi implies #[trigger] indices2[k1]
        < #[trigger] indices2[k2] by {
        assert(indices[k1] < indices[k2]);
    }
    assert forall|a: int|
        0 <= a < upto && #[trigger] entry(d.values@, d.rows as int, a, j) != T::spec_zero()
        implies exists|k: int| lo <= k < hi && indices2[k] == a by {
        let k = choose|k: int| lo <= k < hi && indices[k] == a;
        assert(indices2[k] == a);
    }
}

impl<T: Element> Compressed<T> {
    /// Checks the invariant `wf`: buffer lengths, offsets running from zero to
    /// the number of nonzeros without decreasing, and indices inside their
    /// lines.
    pub fn is_valid(&self) -> (r: bool)
        ensures
            r == self.wf(),
    {
        let lines: usize = match self.format {
            Major::Row => self.rows,
            Major::Column => self.columns,
        };
        let minor: usize = match self.format {
            Major::Row => self.columns,
            Major::Column => self.rows,
        };
        if self.values.len() != self.nonzeros || self.indices.len() != self.nonzeros {
            return false;
        }
        if lines == usize::MAX || self.offsets.len() != lines + 1 {
            assert(self.offsets.len() == self.offsets@.len());
            return false;
        }
        if self.offsets[0] != 0 || self.offsets[lines] != self.nonzeros {
            return false;
        }
        let mut t: usize = 0;
        while t < lines
            invariant
                self.offsets@.len() == lines + 1,
                lines == self.major_lines(),
                t <= lines,
                forall|a: int, b: int|
                    0 <= a <= b <= t ==> #[trigger] self.offsets@[a] <= #[trigger] self.offsets@[b],
            decreases lines - t,
        {
            if self.offsets[t] > self.offsets[t + 1] {
                assert(!(self.offsets@[t as int] <= self.offsets@[t + 1]));
                return false;
            }
            proof {
                assert forall|a: int, b: int| 0 <= a <= b <= t + 1 implies #[trigger] self.offsets@[a]
                    <= #[trigger] self.offsets@[b] by {
                    if b == t + 1 && a <= t {
                        assert(self.offsets@[a] <= self.offsets@[t as int]);
                    }
                }
            }
            t = t + 1;
        }
        let mut k: usize = 0;
        while k < self.nonzeros
            invariant
                self.indices@.len() == self.nonzeros,
                minor == self.minor_size(),
                k <= self.nonzeros,
                forall|i: int| 0 <= i < k ==> #[trigger] self.indices@[i] < minor,
            decreases self.nonzeros - k,
        {
            if self.indices[k] >= minor {
                return false;
            }
            k = k + 1;
        }
        true
    }

    /// Converts into a dense matrix: each stored value at its cell, and the
    /// additive identity elsewhere.
    pub fn to_dense(&self) -> (r: Dense<T>)
        requires
            self.wf(),
            self.rows * self.columns <= usize::MAX,
        ensures
            r.wf(),
            r.rows == self.rows,
            r.columns == self.columns,
            forall|i: int, j: int|
                0 <= i < self.rows && 0 <= j < self.columns ==> #[trigger] r.at(i, j)
                    == self.spec_get(i, j),
    {
        let rows = self.rows;
        let columns = self.columns;
        let ghost (mr, nc) = (rows as int, columns as int);
        let mut dense = Dense::zeros(rows, columns);
        assert forall|a: int, c: int| 0 <= a < mr && 0 <= c < nc implies #[trigger] entry(
            dense.values@,
            mr,
            a,
            c,
        ) == T::spec_zero() by {
            lemma_cell_position(mr, nc, a, c, 0, 0);
        }
        let lines: usize = match self.format {
            Major::Row => rows,
            Major::Column => columns,
        };
        let mut m: usize = 0;
        while m < lines
            invariant
                self.wf(),
                rows == self.rows,
                columns == self.columns,
                mr == rows,
                nc == columns,
                mr * nc <= usize::MAX,
                lines == self.major_lines(),
                m <= lines,
                dense.wf(),
                dense.rows == rows,
                dense.columns == columns,
                forall|a: int, c: int|
                    0 <= a < mr && 0 <= c < nc ==> #[trigger] entry(dense.values@, mr, a, c) == (
                    if line_of(self.format, a, c) < m {
                        self.spec_get(a, c)
                    } else {
                        T::spec_zero()
                    }),
            decreases lines - m,
        {
            let first = self.offsets[m];
            let end = self.offsets[m + 1];
            assert(self.offsets@[m as int] <= self.offsets@[m + 1]);
            assert(self.offsets@[m + 1] <= self.offsets@[self.major_lines()]);
            let mut k: usize = first;
            while k < end
                invariant
                    self.wf(),
                    rows == self.rows,
                    columns == self.columns,
                    mr == rows,
                    nc == columns,
                    mr * nc <= usize::MAX,
                    lines == self.major_lines(),
                    m < lines,
                    first == self.offsets@[m as int],
                    end == self.offsets@[m + 1],
                    first <= k <= end <= self.nonzeros,
                    dense.wf(),
                    dense.rows == rows,
                    dense.columns == columns,
                    forall|a: int, c: int|
                        0 <= a < mr && 0 <= c < nc ==> #[trigger] entry(dense.values@, mr, a, c) == (
                        if line_of(self.format, a, c) < m {
                            self.spec_get(a, c)
                        } else if line_of(self.format, a, c) == m {
                            match last_stored(
                                self.values@,
                                self.indices@,
                                first as int,
                                k as int,
                                position_of(self.format, a, c),
                            ) {
                                Some(v) => v,
                                None => T::spec_zero(),
                            }
                        } else {
                            T::spec_zero()
                        }),
                decreases end - k,
            {
                let p = self.indices[k];
                let (i, j): (usize, usize) = match self.format {
                    Major::Row => (m, p),
                    Major::Column => (p, m),
                };
                proof {
                    lemma_cell_position(mr, nc, i as int, j as int, 0, 0);
                }
                let ghost before = dense.values@;
                dense.values[j * rows + i] = self.values[k];
                proof {
                    assert forall|a: int, c: int| 0 <= a < mr && 0 <= c < nc implies #[trigger] entry(
                        dense.values@,
                        mr,
                        a,
                        c,
                    ) == (if line_of(self.format, a, c) < m {
                        self.spec_get(a, c)
                    } else if line_of(self.format, a, c) == m {
                        match last_stored(
                            self.values@,
                            self.indices@,
                            first as int,
                            k + 1,
                            position_of(self.format, a, c),
                        ) {
                            Some(v) => v,
                            None => T::spec_zero(),
                        }
                    } else {
                        T::spec_zero()
                    }) by {
                        lemma_cell_position(mr, nc, a, c, i as int, j as int);
                        assert(entry(before, mr, a, c) == before[c * mr + a]);
                    }
                }
                k = k + 1;
            }
            m = m + 1;
        }
        dense
    }

    /// Converts a dense matrix into a compressed one grouped by columns,
    /// keeping the entries that are not the additive identity, in increasing
    /// row order within each column.
    pub fn from_dense(dense: &Dense<T>) -> (r: Compressed<T>)
        requires
            dense.wf(),
            dense.columns < usize::MAX,
        ensures
            r.wf(),
            r.format == Major::Column,
            r.rows == dense.rows,
            r.columns == dense.columns,
            forall|j: int|
                0 <= j < dense.columns ==> #[trigger] stores_column(
                    r.values@,
                    r.indices@,
                    r.offsets@[j] as int,
                    r.offsets@[j + 1] as int,
                    *dense,
                    j,
                    dense.rows as int,
                ),
    {
        let rows = dense.rows;
        let columns = dense.columns;
        let ghost (m, n) = (rows as int, columns as int);
        let mut values: Vec<T> = Vec::new();
        let mut indices: Vec<usize> = Vec::new();
        let mut offsets: Vec<usize> = Vec::new();
        offsets.push(0);
        assert(dense.values.len() == dense.values@.len());
        let mut j: usize = 0;
        while j < columns
            invariant
                dense.wf(),
                rows == dense.rows,
                columns == dense.columns,
                m == rows,
                n == columns,
                m * n <= usize::MAX,
                j <= columns,
                values@.len() == indices@.len(),
                values@.len() <= j * m,
                offsets@.len() == j + 1,
                offsets@[0] == 0,
                offsets@[j as int] == values@.len(),
                forall|a: int, b: int|
                    0 <= a <= b <= j ==> #[trigger] offsets@[a] <= #[trigger] offsets@[b],
                forall|k: int| 0 <= k < indices@.len() ==> #[trigger] indices@[k] < rows,
                forall|c: int|
                    0 <= c < j ==> #[trigger] stores_column(
                        values@,
                        indices@,
                        offsets@[c] as int,
                        offsets@[c + 1] as int,
                        *dense,
                        c,
                        m,
                    ),
            decreases columns - j,
        {
            let ghost lo = values@.len() as int;
            let ghost column_start_values = values@;
            let ghost column_start_indices = indices@;
            let mut i: usize = 0;
            while i < rows
                invariant
                    dense.wf(),
                    rows == dense.rows,
                    columns == dense.columns,
                    m == rows,
                    n == columns,
                    m * n <= usize::MAX,
                    j < columns,
                    i <= rows,
                    values@.len() == indices@.len(),
                    lo <= values@.len() <= lo + i,
                    lo <= j * m,
                    values@.subrange(0, lo) == column_start_values,
                    indices@.subrange(0, lo) == column_start_indices,
                    forall|k: int| 0 <= k < indices@.len() ==> #[trigger] indices@[k] < rows,
                    stores_column(values@, indices@, lo, values@.len() as int, *dense, j as int, i as int),
                    offsets@.len() == j + 1,
                    offsets@[0] == 0,
                    offsets@[j as int] == lo,
                    forall|a: int, b: int|
                        0 <= a <= b <= j ==> #[trigger] offsets@[a] <= #[trigger] offsets@[b],
                    forall|c: int|
                        0 <= c < j ==> #[trigger] stores_column(
                            column_start_values,
                            column_start_indices,
                            offsets@[c] as int,
                            offsets@[c + 1] as int,
                            *dense,
                            c,
                            m,
                        ),
                decreases rows - i,
            {
                proof {
                    lemma_cell_position(m, n, i as int, j as int, 0, 0);
                }
                let v = dense.values[j * rows + i];
                if !v.is_zero() {
                    let ghost hi = values@.len() as int;
                    proof {
                        lemma_stores_column_extend(values@, indices@, v, i, lo, hi, *dense, j as int, i as int);
                    }
                    values.push(v);
                    indices.push(i);
                    proof {
                        assert(values@.subrange(0, lo) =~= column_start_values);
                        assert(indices@.subrange(0, lo) =~= column_start_indices);
                        assert(values@[hi] == entry(dense.values@, m, i as int, j as int));
                        assert forall|a: int|
                            0 <= a < i + 1 && #[trigger] entry(dense.values@, m, a, j as int)
                                != T::spec_zero() implies exists|k: int|
                            lo <= k < hi + 1 && indices@[k] == a by {
                            if a == i {
                                assert(indices@[hi] == a);
                            } else {
                                let k = choose|k: int| lo <= k < hi && indices@[k] == a;
                                assert(indices@[k] == a);
                            }
                        }
                    }
                }
                i = i + 1;
            }
            proof {
                assert(values@.len() <= (j + 1) * m) by (nonlinear_arith)
                    requires
                        values@.len() <= lo + m,
                        lo <= j * m,
                ;
                assert forall|c: int| 0 <= c < j implies #[trigger] stores_column(
                    values@,
                    indices@,
                    offsets@[c] as int,
                    offsets@[c + 1] as int,
                    *dense,
                    c,
                    m,
                ) by {
                    assert(offsets@[c + 1] <= offsets@[j as int]);
                    lemma_stores_column_agree(
                        column_start_values,
                        column_start_indices,
                        values@,
                        indices@,
                        offsets@[c] as int,
                        offsets@[c + 1] as int,
                        *dense,
                        c,
                        m,
                    );
                }
            }
            offsets.push(values.len());
            j = j + 1;
        }
        let nonzeros = values.len();
        Compressed { rows, columns, nonzeros, format: Major::Column, values, indices, offsets }
    }
}

/// What `last_stored` returns was stored at that position, and nothing is
/// returned only where nothing was stored there.
pub(crate) proof fn lemma_last_stored<T>(values: Seq<T>, indices: Seq<usize>, lo: int, hi: int, i: int)
    ensures
        match last_stored(values, indices, lo, hi, i) {
            Some(v) => exists|k: int| lo <= k < hi && indices[k] == i && values[k] == v,
            None => forall|k: int| lo <= k < hi ==> indices[k] != i,
        },
    decreases hi - lo,
{
    if hi > lo && indices[hi - 1] != i {
        lemma_last_stored(values, indices, lo, hi - 1, i);
        match last_stored(values, indices, lo, hi - 1, i) {
            Some(v) => {
                let k = choose|k: int| lo <= k < hi - 1 && indices[k] == i && values[k] == v;
                assert(lo <= k < hi && indices[k] == i && values[k] == v);
            },
            None => {
                assert forall|k: int| lo <= k < hi implies indices[k] != i by {
                    if k < hi - 1 {
                        assert(indices[k] != i);
                    }
                }
            },
        }
    } else if hi > lo {
        assert(lo <= hi - 1 < hi && indices[hi - 1] == i && values[hi - 1] == values[hi - 1]);
    }
}

/// In a run with strictly increasing indices, the last value stored at the
/// index of entry `k` is the value of entry `k`.
proof fn lemma_last_stored_sorted<T>(values: Seq<T>, indices: Seq<usize>, lo: int, hi: int, k: int)
    requires
        lo <= k < hi,
        forall|k1: int, k2: int| lo <= k1 < k2 < hi ==> #[trigger] indices[k1] < #[trigger] indices[k2],
    ensures
        last_stored(values, indices, lo, hi, indices[k] as int) == Some(values[k]),
{
    lemma_last_stored(values, indices, lo, hi, indices[k] as int);
    match last_stored(values, indices, lo, hi, indices[k] as int) {
        Some(v) => {
            let k2 = choose|k2: int| lo <= k2 < hi && indices[k2] == indices[k] && values[k2] == v;
            if k2 < k {
                assert(indices[k2] < indices[k]);
            } else if k < k2 {
                assert(indices[k] < indices[k2]);
            }
        },
        None => {
            assert(indices[k] != indices[k]);
        },
    }
}

/// The first `t` indices of two runs that both store one column agree.
proof fn lemma_stored_runs_prefix<T: Element>(
    v1: Seq<T>,
    i1: Seq<usize>,
    lo1: int,
    hi1: int,
    v2: Seq<T>,
    i2: Seq<usize>,
    lo2: int,
    hi2: int,
    d: Dense<T>,
    j: int,
    upto: int,
    t: int,
)
    requires
        0 <= t <= hi1 - lo1,
        t <= hi2 - lo2,
        stores_column(v1, i1, lo1, hi1, d, j, upto),
        stores_column(v2, i2, lo2, hi2, d, j, upto),
    ensures
        forall|s: int| 0 <= s < t ==> #[trigger] i1[lo1 + s] == i2[lo2 + s],
    decreases t,
{
    if t > 0 {
        lemma_stored_runs_prefix(v1, i1, lo1, hi1, v2, i2, lo2, hi2, d, j, upto, t - 1);
        let u = t - 1;
        let x = i1[lo1 + u] as int;
        let y = i2[lo2 + u] as int;
        assert(entry(d.values@, d.rows as int, x, j) != T::spec_zero());
        let k2 = choose|k: int| lo2 <= k < hi2 && i2[k] == x;
        if k2 < lo2 + u {
            let s = k2 - lo2;
            assert(i1[lo1 + s] < i1[lo1 + u]);
            assert(i1[lo1 + s] == i2[lo2 + s]);
        }
        if lo2 + u < k2 {
            assert(i2[lo2 + u] < i2[k2]);
        }
        assert(y <= x);
        assert(entry(d.values@, d.rows as int, y, j) != T::spec_zero());
        let k1 = choose|k: int| lo1 <= k < hi1 && i1[k] == y;
        if k1 < lo1 + u {
            let s = k1 - lo1;
            assert(i2[lo2 + s] < i2[lo2 + u]);
            assert(i1[lo1 + s] == i2[lo2 + s]);
        }
        if lo1 + u < k1 {
            assert(i1[lo1 + u] < i1[k1]);
        }
        assert(x == y);
    }
}

/// Two runs that both hold exactly the entries of one column that are not
/// the additive identity, in increasing row order, are the same.
proof fn lemma_stored_runs_agree<T: Element>(
    v1: Seq<T>,
    i1: Seq<usize>,
    lo1: int,
    hi1: int,
    v2: Seq<T>,
    i2: Seq<usize>,
    lo2: int,
    hi2: int,
    d: Dense<T>,
    j: int,
    upto: int,
)
    requires
        lo1 <= hi1,
        lo2 <= hi2,
        stores_column(v1, i1, lo1, hi1, d, j, upto),
        stores_column(v2, i2, lo2, hi2, d, j, upto),
    ensures
        hi1 - lo1 == hi2 - lo2,
        forall|t: int|
            0 <= t < hi1 - lo1 ==> #[trigger] i1[lo1 + t] == i2[lo2 + t] && v1[lo1 + t] == v2[lo2
                + t],
{
    let n1 = hi1 - lo1;
    let n2 = hi2 - lo2;
    let shorter = if n1 < n2 {
        n1
    } else {
        n2
    };
    lemma_stored_runs_prefix(v1, i1, lo1, hi1, v2, i2, lo2, hi2, d, j, upto, shorter);
    if n1 > n2 {
        let x = i1[lo1 + n2] as int;
        assert(entry(d.values@, d.rows as int, x, j) != T::spec_zero());
        let k2 = choose|k: int| lo2 <= k < hi2 && i2[k] == x;
        let s = k2 - lo2;
        assert(i1[lo1 + s] < i1[lo1 + n2]);
        assert(i1[lo1 + s] == i2[lo2 + s]);
    }
    if n2 > n1 {
        let y = i2[lo2 + n1] as int;
        assert(entry(d.values@, d.rows as int, y, j) != T::spec_zero());
        let k1 = choose|k: int| lo1 <= k < hi1 && i1[k] == y;
        let s = k1 - lo1;
        assert(i2[lo2 + s] < i2[lo2 + n1]);
        assert(i1[lo1 + s] == i2[lo2 + s]);
    }
    assert forall|t: int| 0 <= t < hi1 - lo1 implies #[trigger] i1[lo1 + t] == i2[lo2 + t] && v1[lo1
        + t] == v2[lo2 + t] by {
        assert(i1[lo1 + t] == i2[lo2 + t]);
        assert(v1[lo1 + t] == entry(d.values@, d.rows as int, i1[lo1 + t] as int, j));
        assert(v2[lo2 + t] == entry(d.values@, d.rows as int, i2[lo2 + t] as int, j));
    }
}

/// Each column of a canonical compressed matrix stores exactly the entries of
/// that column of its dense form that are not the additive identity.
proof fn lemma_canonical_stores<T: Element>(c: Compressed<T>, d: Dense<T>, j: int)
    requires
        c.is_canonical(),
        d.rows == c.rows,
        forall|i: int, jj: int|
            0 <= i < c.rows && 0 <= jj < c.columns ==> #[trigger] d.at(i, jj) == c.spec_get(i, jj),
        0 <= j < c.columns,
    ensures
        stores_column(
            c.values@,
            c.indices@,
            c.offsets@[j] as int,
            c.offsets@[j + 1] as int,
            d,
            j,
            c.rows as int,
        ),
{
    let lo = c.offsets@[j] as int;
    let hi = c.offsets@[j + 1] as int;
    let m = c.rows as int;
    assert(c.offsets@[j] <= c.offsets@[j + 1]);
    assert(c.offsets@[j + 1] <= c.offsets@[c.major_lines()]);
    assert(c.offsets@[0] <= c.offsets@[j]);
    assert(increasing_run(c.indices@, lo, hi));
    assert forall|k: int| lo <= k < hi implies #[trigger] c.indices@[k] < m && c.values@[k] == entry(
        d.values@,
        d.rows as int,
        c.indices@[k] as int,
        j,
    ) && c.values@[k] != T::spec_zero() by {
        lemma_last_stored_sorted(c.values@, c.indices@, lo, hi, k);
        assert(d.at(c.indices@[k] as int, j) == c.spec_get(c.indices@[k] as int, j));
    }
    assert forall|a: int|
        0 <= a < m && #[trigger] entry(d.values@, d.rows as int, a, j) != T::spec_zero() implies exists|
        k: int,
    | lo <= k < hi && c.indices@[k] == a by {
        assert(d.at(a, j) == c.spec_get(a, j));
        lemma_last_stored(c.values@, c.indices@, lo, hi, a);
    }
}

/// Column by column, the offsets and the stored entries of two matrices that
/// store the same dense columns agree up to column `j`.
proof fn lemma_columns_agree<T: Element>(c: Compressed<T>, back: Compressed<T>, d: Dense<T>, j: int)
    requires
        c.wf(),
        back.wf(),
        c.format == Major::Column,
        back.format == Major::Column,
        back.columns == c.columns,
        0 <= j <= c.columns,
        forall|jj: int|
            0 <= jj < c.columns ==> #[trigger] stores_column(
                c.values@,
                c.indices@,
                c.offsets@[jj] as int,
                c.offsets@[jj + 1] as int,
                d,
                jj,
                c.rows as int,
            ),
        forall|jj: int|
            0 <= jj < c.columns ==> #[trigger] stores_column(
                back.values@,
                back.indices@,
                back.offsets@[jj] as int,
                back.offsets@[jj + 1] as int,
                d,
                jj,
                c.rows as int,
            ),
    ensures
        forall|jj: int| 0 <= jj <= j ==> #[trigger] back.offsets@[jj] == c.offsets@[jj],
        forall|k: int| 0 <= k < c.offsets@[j] ==> #[trigger] back.values@[k] == c.values@[k],
        forall|k: int| 0 <= k < c.offsets@[j] ==> #[trigger] back.indices@[k] == c.indices@[k],
    decreases j,
{
    if j > 0 {
        let u = j - 1;
        lemma_columns_agree(c, back, d, u);
        let lo = c.offsets@[u] as int;
        let hi = c.offsets@[u + 1] as int;
        let back_hi = back.offsets@[u + 1] as int;
        assert(c.offsets@[u] <= c.offsets@[u + 1]);
        assert(back.offsets@[u] <= back.offsets@[u + 1]);
        assert(stores_column(c.values@, c.indices@, lo, hi, d, u, c.rows as int));
        assert(stores_column(back.values@, back.indices@, lo, back_hi, d, u, c.rows as int));
        lemma_stored_runs_agree(
            c.values@,
            c.indices@,
            lo,
            hi,
            back.values@,
            back.indices@,
            lo,
            back_hi,
            d,
            u,
            c.rows as int,
        );
        assert forall|k: int| 0 <= k < hi implies #[trigger] back.values@[k] == c.values@[k] by {
            if k >= lo {
                let t = k - lo;
                assert(c.indices@[lo + t] == back.indices@[lo + t]);
            }
        }
        assert forall|k: int| 0 <= k < hi implies #[trigger] back.indices@[k] == c.indices@[k] by {
            if k >= lo {
                let t = k - lo;
                assert(c.indices@[lo + t] == back.indices@[lo + t]);
            }
        }
    }
}

/// Unpacking a canonical compressed matrix into dense form and compressing
/// that by columns gives the matrix that was unpacked.
pub proof fn lemma_compressed_round_trip<T: Element>(c: Compressed<T>, d: Dense<T>, back: Compressed<T>)
    requires
        c.is_canonical(),
        d.wf(),
        d.rows == c.rows,
        d.columns == c.columns,
        forall|i: int, j: int|
            0 <= i < c.rows && 0 <= j < c.columns ==> #[trigger] d.at(i, j) == c.spec_get(i, j),
        back.wf(),
        back.format == Major::Column,
        back.rows == d.rows,
        back.columns == d.columns,
        forall|j: int|
            0 <= j < d.columns ==> #[trigger] stores_column(
                back.values@,
                back.indices@,
                back.offsets@[j] as int,
                back.offsets@[j + 1] as int,
                d,
                j,
                d.rows as int,
            ),
    ensures
        back.rows == c.rows,
        back.columns == c.columns,
        back.nonzeros == c.nonzeros,
        back.format == c.format,
        back.values@ == c.values@,
        back.indices@ == c.indices@,
        back.offsets@ == c.offsets@,
{
    assert forall|j: int| 0 <= j < c.columns implies #[trigger] stores_column(
        c.values@,
        c.indices@,
        c.offsets@[j] as int,
        c.offsets@[j + 1] as int,
        d,
        j,
        c.rows as int,
    ) by {
        lemma_canonical_stores(c, d, j);
    }
    lemma_columns_agree(c, back, d, c.columns as int);
    assert(back.offsets@ =~= c.offsets@);
    assert(back.values@ =~= c.values@);
    assert(back.indices@ =~= c.indices@);
}

/// Compressing a dense matrix by columns and unpacking the result gives the
/// dense matrix back.
pub proof fn lemma_dense_survives_compression<T: Element>(d: Dense<T>, c: Compressed<T>, back: Dense<T>)
    requires
        d.wf(),
        c.wf(),
        c.format == Major::Column,
        c.rows == d.rows,
        c.columns == d.columns,
        forall|j: int|
            0 <= j < d.columns ==> #[trigger] stores_column(
                c.values@,
                c.indices@,
                c.offsets@[j] as int,
                c.offsets@[j + 1] as int,
                d,
                j,
                d.rows as int,
            ),
        back.wf(),
        back.rows == c.rows,
        back.columns == c.columns,
        forall|i: int, j: int|
            0 <= i < c.rows && 0 <= j < c.columns ==> #[trigger] back.at(i, j) == c.spec_get(i, j),
    ensures
        back.rows == d.rows,
        back.columns == d.columns,
        back.values@ == d.values@,
{
    let (m, n) = (d.rows as int, d.columns as int);
    assert forall|i: int, j: int| 0 <= i < m && 0 <= j < n implies #[trigger] back.at(i, j) == d.at(
        i,
        j,
    ) by {
        let lo = c.offsets@[j] as int;
        let hi = c.offsets@[j + 1] as int;
        assert(stores_column(c.values@, c.indices@, lo, hi, d, j, m));
        assert(back.at(i, j) == c.spec_get(i, j));
        lemma_last_stored(c.values@, c.indices@, lo, hi, i);
        match last_stored(c.values@, c.indices@, lo, hi, i) {
            Some(v) => {
                let k = choose|k: int| lo <= k < hi && c.indices@[k] == i && c.values@[k] == v;
                assert(c.indices@[k] < m);
            },
            None => {
                if entry(d.values@, m, i, j) != T::spec_zero() {
                    let k = choose|k: int| lo <= k < hi && c.indices@[k] == i;
                    assert(c.indices@[k] != i);
                }
            },
        }
    }
    assert forall|p: int| 0 <= p < d.values@.len() implies back.values@[p] == d.values@[p] by {
        let j = p / m;
        let i = p % m;
        assert(m > 0) by (nonlinear_arith)
            requires
                0 <= p < m * n,
                m >= 0,
                n >= 0,
        ;
        assert(p == j * m + i && 0 <= i < m) by (nonlinear_arith)
            requires
                m > 0,
                j == p / m,
                i == p % m,
        ;
        assert(0 <= j < n) by (nonlinear_arith)
            requires
                p == j * m + i,
                0 <= i < m,
                0 <= p < m * n,
        ;
        assert(back.at(i, j) == d.at(i, j));
    }
    assert(back.values@ =~= d.values@);
}

} // verus!
