use vstd::prelude::*;

use crate::compressed::{increasing_run, last_stored, lemma_last_stored, Compressed};
use crate::dense::{entry, lemma_cell_position, Dense};
use crate::diagonal::Diagonal;
use crate::element::{Element, Number};
use crate::shape::{min_size, Major};

verus! {

/// The buffer `c` after the stored values `lo..hi` of `a`, each times `x`,
/// have been added in turn at position `base` plus their index.
pub open spec fn accumulate<T: Number>(
    a: Compressed<T>,
    c: Seq<T>,
    base: int,
    x: T,
    lo: int,
    hi: int,
) -> Seq<T>
    decreases hi - lo,
{
    if hi <= lo {
        c
    } else {
        let prev = accumulate(a, c, base, x, lo, hi - 1);
        let p = base + a.indices@[hi - 1];
        prev.update(p, prev[p].spec_plus(a.values@[hi - 1].spec_times(x)))
    }
}

/// The buffer `c` after the first `j` columns of `a` have been multiplied by
/// the entries of the vector at `bbase` of `b` and added into the vector at
/// `cbase` of `c`, column after column.
pub open spec fn product_lines<T: Number>(
    a: Compressed<T>,
    b: Seq<T>,
    c: Seq<T>,
    bbase: int,
    cbase: int,
    j: int,
) -> Seq<T>
    decreases j,
{
    if j <= 0 {
        c
    } else {
        accumulate(
            a,
            product_lines(a, b, c, bbase, cbase, j - 1),
            cbase,
            b[bbase + j - 1],
            a.offsets@[j - 1] as int,
            a.offsets@[j] as int,
        )
    }
}

/// The buffer `c` of an `m`-row result after the product of `a` with the
/// first `t` columns of the `p`-row dense buffer `b` has been added into it.
pub open spec fn product_columns<T: Number>(
    a: Compressed<T>,
    b: Seq<T>,
    c: Seq<T>,
    m: int,
    p: int,
    t: int,
) -> Seq<T>
    decreases t,
{
    if t <= 0 {
        c
    } else {
        product_lines(a, b, product_columns(a, b, c, m, p, t - 1), (t - 1) * p, (t - 1) * m, p)
    }
}

proof fn lemma_block(t: int, n: int, m: int)
    requires
        0 <= t < n,
        0 <= m,
    ensures
        0 <= t * m,
        t * m + m <= n * m,
{
    assert(0 <= t * m && t * m + m <= n * m) by (nonlinear_arith)
        requires
            0 <= t < n,
            0 <= m,
    ;
}

impl<T: Number> Compressed<T> {
    /// Multiplies by a diagonal matrix on the right, in place.
    ///
    /// The matrix first takes the diagonal's number of columns: columns
    /// beyond it are dropped with their nonzeros, and new columns are empty.
    /// Each remaining nonzero of column `j` is then multiplied by the
    /// diagonal's value `j`.
    ///
    /// The matrix must be grouped by columns. Resizing then only truncates or
    /// extends the offsets; a matrix grouped by rows would have to drop
    /// entries from inside every row instead.
    pub fn multiply_self(&mut self, right: &Diagonal<T>)
        requires
            old(self).wf(),
            old(self).format == Major::Column,
            right.wf(),
            old(self).columns == right.rows,
        ensures
            final(self).wf(),
            final(self).format == Major::Column,
            final(self).rows == old(self).rows,
            final(self).columns == right.columns,
            final(self).nonzeros == (if right.columns < old(self).columns {
                old(self).offsets@[right.columns as int] as int
            } else {
                old(self).nonzeros as int
            }),
            final(self).offsets@ == (if right.columns < old(self).columns {
                old(self).offsets@.subrange(0, right.columns + 1)
            } else {
                old(self).offsets@ + Seq::new(
                    (right.columns - old(self).columns) as nat,
                    |_k: int| old(self).nonzeros,
                )
            }),
            final(self).indices@ == old(self).indices@.subrange(0, final(self).nonzeros as int),
            forall|j: int, k: int|
                #![trigger final(self).offsets@[j], final(self).values@[k]]
                0 <= j < right.columns && final(self).offsets@[j] <= k < final(self).offsets@[j
                    + 1] ==> final(self).values@[k] == old(self).values@[k].spec_times(
                    right.values@[j],
                ),
    {
        let n = right.columns;
        let p = self.columns;
        let ghost start = *self;
        if n < p {
            let kept = self.offsets[n];
            assert(start.offsets@[n as int] <= start.offsets@[p as int]);
            self.values.truncate(kept);
            self.indices.truncate(kept);
            self.offsets.truncate(n + 1);
            self.nonzeros = kept;
            self.columns = n;
            assert forall|a: int, b: int| 0 <= a <= b <= n implies #[trigger] self.offsets@[a]
                <= #[trigger] self.offsets@[b] by {
                assert(start.offsets@[a] <= start.offsets@[b]);
            }
            assert forall|k: int| 0 <= k < self.nonzeros implies #[trigger] self.indices@[k]
                < self.minor_size() by {
                assert(start.indices@[k] < start.minor_size());
            }
        } else {
            let nonzeros = self.nonzeros;
            let mut c: usize = p;
            while c < n
                invariant
                    p <= c <= n,
                    self.offsets@ == start.offsets@ + Seq::new(
                        (c - p) as nat,
                        |_k: int| start.nonzeros,
                    ),
                    nonzeros == start.nonzeros,
                    self.values == start.values,
                    self.indices == start.indices,
                    self.rows == start.rows,
                    self.columns == p,
                    self.nonzeros == nonzeros,
                    self.format == start.format,
                decreases n - c,
            {
                self.offsets.push(nonzeros);
                c = c + 1;
                assert(self.offsets@ =~= start.offsets@ + Seq::new(
                    (c - p) as nat,
                    |_k: int| start.nonzeros,
                ));
            }
            self.columns = n;
            assert forall|a: int, b: int| 0 <= a <= b <= n implies #[trigger] self.offsets@[a]
                <= #[trigger] self.offsets@[b] by {
                if b <= p {
                    assert(start.offsets@[a] <= start.offsets@[b]);
                } else if a <= p {
                    assert(start.offsets@[a] <= start.offsets@[p as int]);
                }
            }
            assert(self.indices@ =~= start.indices@.subrange(0, self.nonzeros as int));
        }
        let ghost resized = *self;
        assert(resized.wf());
        assert(resized.columns == n && resized.format == Major::Column);
        let last = if n < p {
            n
        } else {
            p
        };
        let mut j: usize = 0;
        while j < last
            invariant
                resized.wf(),
                resized.columns == n,
                resized.format == Major::Column,
                self.format == Major::Column,
                self.rows == resized.rows,
                self.columns == n,
                self.nonzeros == resized.nonzeros,
                self.offsets == resized.offsets,
                self.indices == resized.indices,
                right.wf(),
                n == right.columns,
                p == right.rows,
                last == min_size(p, n),
                j <= last,
                self.values@.len() == resized.values@.len(),
                forall|k: int|
                    0 <= k < self.nonzeros && self.offsets@[j as int] <= k ==> #[trigger] self.values@[k]
                        == resized.values@[k],
                forall|a: int, k: int|
                    #![trigger self.offsets@[a], self.values@[k]]
                    0 <= a < j && self.offsets@[a] <= k < self.offsets@[a + 1] ==> self.values@[k]
                        == resized.values@[k].spec_times(right.values@[a]),
            decreases last - j,
        {
            let d = right.values[j];
            let first = self.offsets[j];
            let end = self.offsets[j + 1];
            assert(resized.offsets@[j as int] <= resized.offsets@[j + 1]);
            assert(resized.offsets@[j + 1] <= resized.offsets@[n as int]);
            let ghost before = self.values@;
            assert(forall|i: int|
                0 <= i < before.len() && first <= i ==> #[trigger] before[i] == resized.values@[i]);
            assert(forall|a: int, i: int|
                #![trigger resized.offsets@[a], before[i]]
                0 <= a < j && resized.offsets@[a] <= i < resized.offsets@[a + 1] ==> before[i]
                    == resized.values@[i].spec_times(right.values@[a]));
            scale_run(&mut self.values, first, end, d);
            proof {
                assert forall|i: int|
                    0 <= i < self.nonzeros && self.offsets@[j + 1] <= i implies #[trigger] self.values@[i]
                        == resized.values@[i] by {
                    assert(before[i] == resized.values@[i]);
                }
                assert forall|a: int, i: int|
                    #![trigger self.offsets@[a], self.values@[i]]
                    0 <= a < j + 1 && self.offsets@[a] <= i < self.offsets@[a + 1] implies self.values@[i]
                        == resized.values@[i].spec_times(right.values@[a]) by {
                    if a < j {
                        assert(resized.offsets@[a + 1] <= resized.offsets@[j as int]);
                        assert(before[i] == resized.values@[i].spec_times(right.values@[a]));
                    } else {
                        assert(before[i] == resized.values@[i]);
                    }
                }
            }
            j = j + 1;
        }
        proof {
            assert forall|a: int, k: int|
                #![trigger self.offsets@[a], self.values@[k]]
                0 <= a < n && self.offsets@[a] <= k < self.offsets@[a + 1] implies self.values@[k]
                    == start.values@[k].spec_times(right.values@[a]) by {
                if a >= last {
                    assert(self.offsets@[a] == start.nonzeros);
                    assert(self.offsets@[a + 1] == start.nonzeros);
                }
                assert(resized.values@[k] == start.values@[k]);
            }
        }
    }

    /// Multiplies by a dense matrix on the right and adds the product into
    /// `result`, column after column of the right operand.
    ///
    /// Into a `result` that holds the additive identity everywhere this
    /// writes the plain product.
    pub fn multiply_into(&self, right: &Dense<T>, result: &mut Dense<T>)
        requires
            self.wf(),
            self.format == Major::Column,
            right.wf(),
            old(result).wf(),
            self.rows == old(result).rows,
            self.columns == right.rows,
            right.columns == old(result).columns,
        ensures
            final(result).wf(),
            final(result).rows == old(result).rows,
            final(result).columns == old(result).columns,
            final(result).values@ == product_columns(
                *self,
                right.values@,
                old(result).values@,
                self.rows as int,
                self.columns as int,
                right.columns as int,
            ),
    {
        let m = self.rows;
        let p = self.columns;
        let n = right.columns;
        multiply_matrix(self, &right.values, &mut result.values, m, p, n);
    }
}

fn scale_run<T: Number>(values: &mut Vec<T>, first: usize, end: usize, d: T)
    requires
        first <= end <= old(values)@.len(),
    ensures
        final(values)@.len() == old(values)@.len(),
        forall|i: int|
            0 <= i < old(values)@.len() && (i < first || end <= i) ==> #[trigger] final(values)@[i]
                == old(values)@[i],
        forall|i: int|
            first <= i < end ==> #[trigger] final(values)@[i] == old(values)@[i].spec_times(d),
{
    let ghost before = values@;
    let mut k: usize = first;
    while k < end
        invariant
            first <= k <= end <= before.len(),
            values@.len() == before.len(),
            forall|i: int|
                0 <= i < before.len() && (i < first || k <= i) ==> #[trigger] values@[i] == before[i],
            forall|i: int| first <= i < k ==> #[trigger] values@[i] == before[i].spec_times(d),
        decreases end - k,
    {
        let v = values[k];
        values.set(k, v.times(d));
        k = k + 1;
    }
}

/// Whether some stored value among the first `count` of `a` is added at
/// position `q` when the vector at `base` is updated.
pub open spec fn names_position<T: Element>(a: Compressed<T>, base: int, count: int, q: int) -> bool {
    exists|k: int| 0 <= k < count && base + a.indices@[k] == q
}

proof fn lemma_accumulate_frame<T: Number>(
    a: Compressed<T>,
    c: Seq<T>,
    base: int,
    x: T,
    lo: int,
    hi: int,
    q: int,
)
    requires
        0 <= lo,
        forall|k: int| lo <= k < hi ==> 0 <= base + #[trigger] a.indices@[k] < c.len(),
    ensures
        accumulate(a, c, base, x, lo, hi).len() == c.len(),
        0 <= q < c.len() && (forall|k: int| lo <= k < hi ==> base + #[trigger] a.indices@[k] != q)
            ==> accumulate(
            a,
            c,
            base,
            x,
            lo,
            hi,
        )[q] == c[q],
    decreases hi - lo,
{
    if hi > lo {
        lemma_accumulate_frame(a, c, base, x, lo, hi - 1, q);
    }
}

proof fn lemma_product_lines_frame<T: Number>(
    a: Compressed<T>,
    b: Seq<T>,
    c: Seq<T>,
    bbase: int,
    cbase: int,
    j: int,
    q: int,
)
    requires
        a.wf(),
        a.format == Major::Column,
        0 <= j <= a.columns,
        forall|k: int| 0 <= k < a.nonzeros ==> 0 <= cbase + #[trigger] a.indices@[k] < c.len(),
    ensures
        product_lines(a, b, c, bbase, cbase, j).len() == c.len(),
        0 <= q < c.len() && !names_position(a, cbase, a.nonzeros as int, q) ==> product_lines(
            a,
            b,
            c,
            bbase,
            cbase,
            j,
        )[q] == c[q],
    decreases j,
{
    if j > 0 {
        lemma_product_lines_frame(a, b, c, bbase, cbase, j - 1, q);
        let prev = product_lines(a, b, c, bbase, cbase, j - 1);
        let lo = a.offsets@[j - 1] as int;
        let hi = a.offsets@[j] as int;
        assert(a.offsets@[0] <= a.offsets@[j - 1]);
        assert(a.offsets@[j - 1] <= a.offsets@[j]);
        assert(a.offsets@[j] <= a.offsets@[a.major_lines()]);
        if !names_position(a, cbase, a.nonzeros as int, q) {
            assert forall|k: int| lo <= k < hi implies cbase + #[trigger] a.indices@[k] != q by {
                if cbase + a.indices@[k] == q {
                    assert(names_position(a, cbase, a.nonzeros as int, q));
                }
            }
        }
        lemma_accumulate_frame(a, prev, cbase, b[bbase + j - 1], lo, hi, q);
    }
}

/// Row `i` of `a` times column `t` of `b`, summed in column order over the
/// first `j` columns of `a`.
pub open spec fn dot<T: Number>(a: Compressed<T>, b: Dense<T>, i: int, t: int, j: int) -> T
    decreases j,
{
    if j <= 0 {
        T::spec_zero()
    } else {
        dot(a, b, i, t, j - 1).spec_plus(a.spec_get(i, j - 1).spec_times(b.at(j - 1, t)))
    }
}

proof fn lemma_accumulate_run<T: Number>(
    a: Compressed<T>,
    c: Seq<T>,
    base: int,
    x: T,
    lo: int,
    hi: int,
    i: int,
)
    requires
        0 <= lo,
        increasing_run(a.indices@, lo, hi),
        forall|k: int| lo <= k < hi ==> 0 <= base + #[trigger] a.indices@[k] < c.len(),
        0 <= base + i < c.len(),
    ensures
        accumulate(a, c, base, x, lo, hi)[base + i] == match last_stored(
            a.values@,
            a.indices@,
            lo,
            hi,
            i,
        ) {
            Some(v) => c[base + i].spec_plus(v.spec_times(x)),
            None => c[base + i],
        },
    decreases hi - lo,
{
    if hi > lo {
        lemma_accumulate_run(a, c, base, x, lo, hi - 1, i);
        lemma_accumulate_frame(a, c, base, x, lo, hi - 1, base + i);
        if a.indices@[hi - 1] == i {
            lemma_last_stored(a.values@, a.indices@, lo, hi - 1, i);
            if let Some(v) = last_stored(a.values@, a.indices@, lo, hi - 1, i) {
                let k = choose|k: int| lo <= k < hi - 1 && a.indices@[k] == i && a.values@[k] == v;
                assert(a.indices@[k] < a.indices@[hi - 1]);
            }
        }
    }
}

proof fn lemma_product_lines_dot<T: Number>(
    a: Compressed<T>,
    b: Dense<T>,
    c: Seq<T>,
    t: int,
    cbase: int,
    j: int,
    i: int,
)
    requires
        a.is_canonical(),
        b.wf(),
        a.columns == b.rows,
        0 <= t < b.columns,
        0 <= j <= a.columns,
        0 <= i < a.rows,
        0 <= cbase,
        cbase + a.rows <= c.len(),
        c[cbase + i] == T::spec_zero(),
    ensures
        product_lines(a, b.values@, c, t * b.rows, cbase, j)[cbase + i] == dot(a, b, i, t, j),
    decreases j,
{
    if j > 0 {
        let p = b.rows as int;
        lemma_product_lines_dot(a, b, c, t, cbase, j - 1, i);
        assert forall|k: int| 0 <= k < a.nonzeros implies 0 <= cbase + #[trigger] a.indices@[k] < c.len() by {
            assert(a.indices@[k] < a.rows);
        }
        lemma_product_lines_frame(a, b.values@, c, t * p, cbase, j - 1, cbase + i);
        let prev = product_lines(a, b.values@, c, t * p, cbase, j - 1);
        let u = j - 1;
        let lo = a.offsets@[u] as int;
        let hi = a.offsets@[u + 1] as int;
        assert(a.offsets@[0] <= a.offsets@[u]);
        assert(a.offsets@[u] <= a.offsets@[u + 1]);
        assert(a.offsets@[u + 1] <= a.offsets@[a.major_lines()]);
        assert(increasing_run(a.indices@, lo, hi));
        lemma_cell_position(p, b.columns as int, u, t, 0, 0);
        let x = b.values@[t * p + j - 1];
        assert(x == b.at(j - 1, t));
        lemma_accumulate_run(a, prev, cbase, x, lo, hi, i);
        let d = dot(a, b, i, t, j - 1);
        match last_stored(a.values@, a.indices@, lo, hi, i) {
            Some(_) => {},
            None => {
                T::lemma_zero_times(x);
                T::lemma_plus_zero(d);
            },
        }
    }
}

/// For a canonical compressed matrix and a result that holds the additive
/// identity everywhere, `multiply_into` leaves at each cell `(i, t)` the sum,
/// over the columns `j` in order, of entry `(i, j)` of the matrix times entry
/// `(j, t)` of the right operand: the dense product.
pub proof fn lemma_product_is_dense_product<T: Number>(a: Compressed<T>, b: Dense<T>, c: Dense<T>)
    requires
        a.is_canonical(),
        b.wf(),
        c.wf(),
        a.columns == b.rows,
        a.rows == c.rows,
        b.columns == c.columns,
        forall|q: int| 0 <= q < c.values@.len() ==> #[trigger] c.values@[q] == T::spec_zero(),
    ensures
        forall|i: int, t: int|
            0 <= i < a.rows && 0 <= t < b.columns ==> #[trigger] entry(
                product_columns(
                    a,
                    b.values@,
                    c.values@,
                    a.rows as int,
                    a.columns as int,
                    b.columns as int,
                ),
                a.rows as int,
                i,
                t,
            ) == dot(a, b, i, t, a.columns as int),
{
    let m = a.rows as int;
    let n = b.columns as int;
    lemma_product_columns_dot(a, b, c, n);
}

proof fn lemma_product_columns_dot<T: Number>(a: Compressed<T>, b: Dense<T>, c: Dense<T>, u: int)
    requires
        a.is_canonical(),
        b.wf(),
        c.wf(),
        a.columns == b.rows,
        a.rows == c.rows,
        b.columns == c.columns,
        0 <= u <= b.columns,
        forall|q: int| 0 <= q < c.values@.len() ==> #[trigger] c.values@[q] == T::spec_zero(),
    ensures
        product_columns(a, b.values@, c.values@, a.rows as int, a.columns as int, u).len()
            == c.values@.len(),
        forall|i: int, t: int|
            0 <= i < a.rows && 0 <= t < b.columns ==> #[trigger] entry(
                product_columns(a, b.values@, c.values@, a.rows as int, a.columns as int, u),
                a.rows as int,
                i,
                t,
            ) == if t < u {
                dot(a, b, i, t, a.columns as int)
            } else {
                T::spec_zero()
            },
    decreases u,
{
    let m = a.rows as int;
    let p = a.columns as int;
    let n = b.columns as int;
    if u > 0 {
        lemma_product_columns_dot(a, b, c, u - 1);
        let prev = product_columns(a, b.values@, c.values@, m, p, u - 1);
        let cbase = (u - 1) * m;
        lemma_block(u - 1, n, m);
        assert forall|k: int| 0 <= k < a.nonzeros implies 0 <= cbase + #[trigger] a.indices@[k]
            < prev.len() by {
            assert(a.indices@[k] < a.rows);
        }
        assert forall|i: int, t: int| 0 <= i < m && 0 <= t < n implies #[trigger] entry(
            product_columns(a, b.values@, c.values@, m, p, u),
            m,
            i,
            t,
        ) == if t < u {
            dot(a, b, i, t, p)
        } else {
            T::spec_zero()
        } by {
            lemma_cell_position(m, n, i, t, 0, 0);
            assert(entry(prev, m, i, t) == prev[t * m + i]);
            if t == u - 1 {
                lemma_product_lines_dot(a, b, prev, t, cbase, p, i);
            } else {
                lemma_product_lines_frame(a, b.values@, prev, (u - 1) * p, cbase, p, t * m + i);
                if names_position(a, cbase, a.nonzeros as int, t * m + i) {
                    let k = choose|k: int| 0 <= k < a.nonzeros && cbase + a.indices@[k] == t * m + i;
                    assert(a.indices@[k] < m);
                    lemma_cell_position(m, n, i, t, a.indices@[k] as int, u - 1);
                }
            }
        }
        lemma_product_lines_frame(a, b.values@, prev, (u - 1) * p, cbase, p, 0);
    } else {
        assert forall|i: int, t: int| 0 <= i < m && 0 <= t < n implies #[trigger] entry(
            c.values@,
            m,
            i,
            t,
        ) == T::spec_zero() by {
            lemma_cell_position(m, n, i, t, 0, 0);
        }
    }
}

fn multiply_matrix<T: Number>(
    a: &Compressed<T>,
    b: &Vec<T>,
    c: &mut Vec<T>,
    m: usize,
    p: usize,
    n: usize,
)
    requires
        a.wf(),
        a.format == Major::Column,
        a.rows <= m,
        a.columns == p,
        b@.len() >= p * n,
        old(c)@.len() >= m * n,
    ensures
        final(c)@.len() == old(c)@.len(),
        final(c)@ == product_columns(*a, b@, old(c)@, m as int, p as int, n as int),
        forall|q: int| m * n <= q < old(c)@.len() ==> #[trigger] final(c)@[q] == old(c)@[q],
{
    let ghost start = c@;
    assert(b.len() == b@.len() && c.len() == c@.len());
    let mut i: usize = 0;
    let mut j: usize = 0;
    let mut t: usize = 0;
    while t < n
        invariant
            a.wf(),
            a.format == Major::Column,
            a.rows <= m,
            a.columns == p,
            b@.len() >= p * n,
            c@.len() == start.len(),
            start.len() >= m * n,
            b@.len() <= usize::MAX,
            c@.len() <= usize::MAX,
            t <= n,
            i == t * p,
            j == t * m,
            c@ == product_columns(*a, b@, start, m as int, p as int, t as int),
            forall|q: int| m * n <= q < start.len() ==> #[trigger] c@[q] == start[q],
        decreases n - t,
    {
        proof {
            lemma_block(t as int, n as int, p as int);
            lemma_block(t as int, n as int, m as int);
            assert(p * n == n * p) by (nonlinear_arith);
            assert(m * n == n * m) by (nonlinear_arith);
        }
        let ghost before = c@;
        multiply_vector(a, b, c, i, j, p);
        proof {
            assert forall|q: int| m * n <= q < start.len() implies #[trigger] c@[q] == start[q] by {
                if names_position(*a, j as int, a.nonzeros as int, q) {
                    let k = choose|k: int| 0 <= k < a.nonzeros && j + a.indices@[k] == q;
                    assert(a.indices@[k] < a.rows);
                }
                assert(c@[q] == before[q]);
            }
        }
        assert((t + 1) * p == t * p + p) by (nonlinear_arith);
        assert((t + 1) * m == t * m + m) by (nonlinear_arith);
        i = i + p;
        j = j + m;
        t = t + 1;
    }
}

fn multiply_vector<T: Number>(
    a: &Compressed<T>,
    b: &Vec<T>,
    c: &mut Vec<T>,
    bbase: usize,
    cbase: usize,
    p: usize,
)
    requires
        a.wf(),
        a.format == Major::Column,
        a.columns == p,
        bbase + p <= b@.len(),
        forall|k: int| 0 <= k < a.nonzeros ==> cbase + #[trigger] a.indices@[k] < old(c)@.len(),
    ensures
        final(c)@.len() == old(c)@.len(),
        final(c)@ == product_lines(*a, b@, old(c)@, bbase as int, cbase as int, p as int),
        forall|q: int|
            0 <= q < old(c)@.len() && !names_position(*a, cbase as int, a.nonzeros as int, q)
                ==> #[trigger] final(c)@[q] == old(c)@[q],
{
    let ghost start = c@;
    assert(b.len() == b@.len() && c.len() == c@.len());
    let mut j: usize = 0;
    while j < p
        invariant
            a.wf(),
            a.format == Major::Column,
            a.columns == p,
            bbase + p <= b@.len(),
            forall|k: int| 0 <= k < a.nonzeros ==> cbase + #[trigger] a.indices@[k] < start.len(),
            c@.len() == start.len(),
            b@.len() <= usize::MAX,
            c@.len() <= usize::MAX,
            j <= p,
            c@ == product_lines(*a, b@, start, bbase as int, cbase as int, j as int),
        decreases p - j,
    {
        let x = b[bbase + j];
        let first = a.offsets[j];
        let end = a.offsets[j + 1];
        assert(a.offsets@[j as int] <= a.offsets@[j + 1]);
        assert(a.offsets@[j + 1] <= a.offsets@[p as int]);
        let ghost before = c@;
        let mut k: usize = first;
        while k < end
            invariant
                a.wf(),
                a.format == Major::Column,
                bbase + p <= b@.len(),
                forall|k: int| 0 <= k < a.nonzeros ==> cbase + #[trigger] a.indices@[k] < start.len(),
                c@.len() == start.len(),
                c@.len() <= usize::MAX,
                end <= a.nonzeros,
                first <= k <= end,
                c@ == accumulate(*a, before, cbase as int, x, first as int, k as int),
            decreases end - k,
        {
            let row = a.indices[k];
            let position = cbase + row;
            let current = c[position];
            c.set(position, current.plus(a.values[k].times(x)));
            k = k + 1;
        }
        j = j + 1;
    }
    proof {
        assert forall|q: int|
            0 <= q < start.len() && !names_position(*a, cbase as int, a.nonzeros as int, q)
                implies #[trigger] c@[q] == start[q] by {
            lemma_product_lines_frame(*a, b@, start, bbase as int, cbase as int, p as int, q);
        }
    }
}

} // verus!
