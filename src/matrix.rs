//! Dense row-major matrices.
//!
//! A `Matrix<T>` holds `rows * cols` elements; element `(r, c)` sits at flat
//! index `r * cols + c`. The shape and index logic is generic over the element
//! type; element arithmetic is handed in as closures (`map`, `zip_with`,
//! `dot_with`) or, for `i64`, fixed to two's-complement wrapping arithmetic.
//! `Scalar` names the arithmetic of a number type for generic callers.

use vstd::prelude::*;

verus! {

/// Why a matrix operation refused its operands.
#[derive(Debug, Clone, Copy, PartialEq, Eq, Structural)]
pub enum MatrixError {
    /// The operands' shapes do not fit the operation, or a flat buffer's
    /// length is not `rows * cols`.
    ShapeMismatch,
}

#[derive(Clone, Debug)]
pub struct Matrix<T> {
    pub rows: usize,
    pub cols: usize,
    pub data: Vec<T>,
}

/// Flat position of element `(r, c)` in a row-major buffer with `cols` columns.
pub open spec fn flat(r: int, c: int, cols: int) -> int {
    r * cols + c
}

/// Every in-range `(r, c)` lands inside the buffer.
proof fn lemma_flat_in_bounds(r: int, c: int, rows: int, cols: int)
    requires
        0 <= r < rows,
        0 <= c < cols,
    ensures
        0 <= flat(r, c, cols) < rows * cols,
        flat(r, c, cols) + 1 <= rows * cols,
{
    assert(r * cols + c < rows * cols) by (nonlinear_arith)
        requires
            0 <= r < rows,
            0 <= c < cols,
    ;
    assert(0 <= r * cols) by (nonlinear_arith)
        requires
            0 <= r,
            0 <= c < cols,
    ;
}

proof fn lemma_flat_next_row(i: int, cols: int)
    requires
        0 <= i,
        0 <= cols,
    ensures
        flat(i, cols, cols) == flat(i + 1, 0, cols),
{
    assert(i * cols + cols == (i + 1) * cols) by (nonlinear_arith);
}

/// The mathematical value of a matrix: its shape and its rows.
pub struct Grid<T> {
    pub rows: nat,
    pub cols: nat,
    pub cells: Seq<Seq<T>>,
}

impl<T> Grid<T> {
    /// `cells` holds `rows` rows of `cols` elements each.
    pub open spec fn wf(self) -> bool {
        &&& self.cells.len() == self.rows
        &&& forall|i: int| 0 <= i < self.rows ==> (#[trigger] self.cells[i]).len() == self.cols
    }

    /// Column `j`, top to bottom.
    pub open spec fn column(self, j: int) -> Seq<T> {
        Seq::new(self.rows, |i: int| self.cells[i][j])
    }
}

/// The transpose of `g`.
pub open spec fn transpose_spec<T>(g: Grid<T>) -> Grid<T> {
    Grid {
        rows: g.cols,
        cols: g.rows,
        cells: Seq::new(g.cols, |i: int| Seq::new(g.rows, |j: int| g.cells[j][i])),
    }
}

/// Elementwise combination of two grids of one shape.
pub open spec fn zip_spec<T>(a: Grid<T>, b: Grid<T>, f: spec_fn(T, T) -> T) -> Grid<T> {
    Grid {
        rows: a.rows,
        cols: a.cols,
        cells: Seq::new(
            a.rows,
            |i: int| Seq::new(a.cols, |j: int| f(a.cells[i][j], b.cells[i][j])),
        ),
    }
}

/// Sum of the first `n` products `xs[k] * ys[k]`, in wrapping `i64` arithmetic,
/// accumulated from index 0 upwards.
pub open spec fn dot_spec(xs: Seq<i64>, ys: Seq<i64>, n: nat) -> i64
    decreases n,
{
    if n == 0 {
        0
    } else {
        dot_spec(xs, ys, (n - 1) as nat).wrapping_add(xs[n - 1].wrapping_mul(ys[n - 1]))
    }
}

/// Wrapping sum of two `i64` grids of one shape.
pub open spec fn sum_spec(a: Grid<i64>, b: Grid<i64>) -> Grid<i64> {
    zip_spec(a, b, |x: i64, y: i64| x.wrapping_add(y))
}

/// Wrapping difference `a - b` of two `i64` grids of one shape.
pub open spec fn difference_spec(a: Grid<i64>, b: Grid<i64>) -> Grid<i64> {
    zip_spec(a, b, |x: i64, y: i64| x.wrapping_sub(y))
}

/// Wrapping elementwise (Hadamard) product of two `i64` grids of one shape.
pub open spec fn hadamard_spec(a: Grid<i64>, b: Grid<i64>) -> Grid<i64> {
    zip_spec(a, b, |x: i64, y: i64| x.wrapping_mul(y))
}

/// Matrix product of `a` (n x m) and `b` (m x p), in wrapping `i64` arithmetic.
pub open spec fn product_spec(a: Grid<i64>, b: Grid<i64>) -> Grid<i64> {
    Grid {
        rows: a.rows,
        cols: b.cols,
        cells: Seq::new(
            a.rows,
            |i: int| Seq::new(b.cols, |j: int| dot_spec(a.cells[i], b.column(j), a.cols)),
        ),
    }
}

/// `v` is what `dot_with` accumulates from the first `n` pairs of `xs` and
/// `ys`: starting from `zero`, each step multiplies a pair with `mul` and adds
/// the product to the running value with `add`.
pub open spec fn dot_chain<T, FA: Fn(T, T) -> T, FM: Fn(T, T) -> T>(
    plus: FA,
    times: FM,
    zero: T,
    xs: Seq<T>,
    ys: Seq<T>,
    n: nat,
    v: T,
) -> bool
    decreases n,
{
    if n == 0 {
        v == zero
    } else {
        exists|prev: T, p: T|
            #![trigger plus.ensures((prev, p), v)]
            dot_chain(plus, times, zero, xs, ys, (n - 1) as nat, prev) && times.ensures(
                (xs[n - 1], ys[n - 1]),
                p,
            ) && plus.ensures((prev, p), v)
    }
}

impl<T> Matrix<T> {
    /// The buffer holds exactly `rows * cols` elements.
    pub open spec fn wf(&self) -> bool {
        self.data@.len() == self.rows * self.cols
    }

    /// Element `(r, c)`.
    pub open spec fn at(&self, r: int, c: int) -> T {
        self.data@[flat(r, c, self.cols as int)]
    }

    pub open spec fn view(&self) -> Grid<T> {
        Grid {
            rows: self.rows as nat,
            cols: self.cols as nat,
            cells: Seq::new(
                self.rows as nat,
                |i: int| Seq::new(self.cols as nat, |j: int| self.at(i, j)),
            ),
        }
    }

    pub open spec fn same_shape<U>(&self, other: &Matrix<U>) -> bool {
        self.rows == other.rows && self.cols == other.cols
    }
}

impl<T: Copy> Matrix<T> {
    /// A matrix over a copy of `data`, read row by row.
    pub fn from_vec(data: &Vec<T>, rows: usize, cols: usize) -> (r: Result<Matrix<T>, MatrixError>)
        ensures
            r is Ok <==> data@.len() == rows * cols,
            r matches Ok(m) ==> m.wf() && m.rows == rows && m.cols == cols && m.data@ == data@,
    {
        if rows.checked_mul(cols) != Some(data.len()) {
            return Err(MatrixError::ShapeMismatch);
        }
        let mut buffer: Vec<T> = Vec::with_capacity(data.len());
        let mut i: usize = 0;
        while i < data.len()
            invariant
                i <= data@.len(),
                buffer@ == data@.subrange(0, i as int),
            decreases data@.len() - i,
        {
            buffer.push(data[i]);
            i = i + 1;
            assert(buffer@ =~= data@.subrange(0, i as int));
        }
        assert(buffer@ =~= data@);
        Ok(Matrix { rows, cols, data: buffer })
    }

    /// A matrix whose rows are the given rows; all rows have the length of
    /// the first.
    pub fn from_vec_2d(data: Vec<Vec<T>>) -> (r: Matrix<T>)
        requires
            data@.len() > 0,
            forall|i: int| 0 <= i < data@.len() ==> (#[trigger] data@[i])@.len() == data@[0]@.len(),
            data@.len() * data@[0]@.len() <= usize::MAX,
        ensures
            r.wf(),
            r.rows == data@.len(),
            r.cols == data@[0]@.len(),
            forall|i: int, j: int|
                0 <= i < r.rows && 0 <= j < r.cols ==> #[trigger] r.at(i, j) == data@[i]@[j],
    {
        let rows = data.len();
        let cols = data[0].len();
        let mut buffer: Vec<T> = Vec::new();
        let mut i: usize = 0;
        while i < rows
            invariant
                rows == data@.len(),
                cols == data@[0]@.len(),
                forall|a: int| 0 <= a < data@.len() ==> (#[trigger] data@[a])@.len() == cols,
                i <= rows,
                buffer@.len() == flat(i as int, 0, cols as int),
                forall|a: int, b: int|
                    0 <= a < i && 0 <= b < cols ==> #[trigger] buffer@[flat(a, b, cols as int)]
                        == data@[a]@[b],
            decreases rows - i,
        {
            let row = &data[i];
            let mut j: usize = 0;
            while j < cols
                invariant
                    rows == data@.len(),
                    cols == data@[0]@.len(),
                    row@ == data@[i as int]@,
                    row@.len() == cols,
                    i < rows,
                    j <= cols,
                    buffer@.len() == flat(i as int, j as int, cols as int),
                    forall|a: int, b: int|
                        0 <= a < i && 0 <= b < cols ==> #[trigger] buffer@[flat(a, b, cols as int)]
                            == data@[a]@[b],
                    forall|b: int|
                        0 <= b < j ==> #[trigger] buffer@[flat(i as int, b, cols as int)]
                            == data@[i as int]@[b],
                decreases cols - j,
            {
                proof {
                    assert forall|a: int, b: int|
                        0 <= a < i && 0 <= b < cols implies flat(a, b, cols as int) < buffer@.len() by {
                        lemma_flat_in_bounds(a, b, i as int, cols as int);
                        assert(i * cols == flat(i as int, 0, cols as int));
                    }
                }
                buffer.push(row[j]);
                j = j + 1;
            }
            proof {
                lemma_flat_next_row(i as int, cols as int);
            }
            i = i + 1;
        }
        Matrix { rows, cols, data: buffer }
    }

    /// The elementwise image under `function`; the shape is kept.
    pub fn map<F: Fn(T) -> T>(&self, function: F) -> (r: Matrix<T>)
        requires
            self.wf(),
            forall|x: T| function.requires((x,)),
        ensures
            r.wf(),
            r.same_shape(self),
            forall|k: int|
                0 <= k < r.data@.len() ==> function.ensures((self.data@[k],), #[trigger] r.data@[k]),
    {
        let mut buffer: Vec<T> = Vec::with_capacity(self.data.len());
        let mut k: usize = 0;
        while k < self.data.len()
            invariant
                k <= self.data@.len(),
                buffer@.len() == k,
                forall|x: T| function.requires((x,)),
                forall|a: int|
                    0 <= a < k ==> function.ensures((self.data@[a],), #[trigger] buffer@[a]),
            decreases self.data@.len() - k,
        {
            let y = function(self.data[k]);
            buffer.push(y);
            k = k + 1;
        }
        Matrix { rows: self.rows, cols: self.cols, data: buffer }
    }

    /// Elementwise combination of two matrices of one shape under `function`;
    /// `ShapeMismatch` when the shapes differ.
    pub fn zip_with<F: Fn(T, T) -> T>(&self, other: &Matrix<T>, function: F) -> (r: Result<
        Matrix<T>,
        MatrixError,
    >)
        requires
            self.wf(),
            other.wf(),
            forall|x: T, y: T| function.requires((x, y)),
        ensures
            r is Ok <==> self.same_shape(other),
            r matches Ok(m) ==> {
                &&& m.wf()
                &&& m.same_shape(self)
                &&& forall|k: int|
                    0 <= k < m.data@.len() ==> function.ensures(
                        (self.data@[k], other.data@[k]),
                        #[trigger] m.data@[k],
                    )
            },
    {
        if self.rows != other.rows || self.cols != other.cols {
            return Err(MatrixError::ShapeMismatch);
        }
        let mut buffer: Vec<T> = Vec::with_capacity(self.data.len());
        let mut k: usize = 0;
        while k < self.data.len()
            invariant
                self.data@.len() == other.data@.len(),
                k <= self.data@.len(),
                buffer@.len() == k,
                forall|x: T, y: T| function.requires((x, y)),
                forall|a: int|
                    0 <= a < k ==> function.ensures(
                        (self.data@[a], other.data@[a]),
                        #[trigger] buffer@[a],
                    ),
            decreases self.data@.len() - k,
        {
            let z = function(self.data[k], other.data[k]);
            buffer.push(z);
            k = k + 1;
        }
        Ok(Matrix { rows: self.rows, cols: self.cols, data: buffer })
    }

    /// The matrix product under the given `zero`, `add` and `mul`: entry
    /// `(i, j)` accumulates row `i` of `self` against column `j` of `other`.
    /// `ShapeMismatch` unless `self.cols == other.rows`.
    pub fn dot_with<FA: Fn(T, T) -> T, FM: Fn(T, T) -> T>(
        &self,
        other: &Matrix<T>,
        zero: T,
        plus: FA,
        times: FM,
    ) -> (r: Result<Matrix<T>, MatrixError>)
        requires
            self.wf(),
            other.wf(),
            forall|x: T, y: T| plus.requires((x, y)),
            forall|x: T, y: T| times.requires((x, y)),
        ensures
            r is Ok <==> self.cols == other.rows,
            r matches Ok(m) ==> {
                &&& m.wf()
                &&& m.rows == self.rows
                &&& m.cols == other.cols
                &&& forall|i: int, j: int|
                    0 <= i < m.rows && 0 <= j < m.cols ==> dot_chain(
                        plus,
                        times,
                        zero,
                        self@.cells[i],
                        other@.column(j),
                        self.cols as nat,
                        #[trigger] m.at(i, j),
                    )
            },
    {
        if self.cols != other.rows {
            return Err(MatrixError::ShapeMismatch);
        }
        let n = self.rows;
        let m = self.cols;
        let p = other.cols;
        let self_len = self.data.len();
        let other_len = other.data.len();
        let mut buffer: Vec<T> = Vec::new();
        let mut i: usize = 0;
        while i < n
            invariant
                self.wf(),
                other.wf(),
                n == self.rows,
                m == self.cols,
                m == other.rows,
                p == other.cols,
                self_len == self.data@.len(),
                other_len == other.data@.len(),
                forall|x: T, y: T| plus.requires((x, y)),
                forall|x: T, y: T| times.requires((x, y)),
                i <= n,
                buffer@.len() == flat(i as int, 0, p as int),
                forall|a: int, b: int|
                    0 <= a < i && 0 <= b < p ==> dot_chain(
                        plus,
                        times,
                        zero,
                        self@.cells[a],
                        other@.column(b),
                        m as nat,
                        #[trigger] buffer@[flat(a, b, p as int)],
                    ),
            decreases n - i,
        {
            let mut j: usize = 0;
            while j < p
                invariant
                    self.wf(),
                    other.wf(),
                    n == self.rows,
                    m == self.cols,
                    m == other.rows,
                    p == other.cols,
                    self_len == self.data@.len(),
                    other_len == other.data@.len(),
                    forall|x: T, y: T| plus.requires((x, y)),
                    forall|x: T, y: T| times.requires((x, y)),
                    i < n,
                    j <= p,
                    buffer@.len() == flat(i as int, j as int, p as int),
                    forall|a: int, b: int|
                        0 <= a < i && 0 <= b < p ==> dot_chain(
                            plus,
                            times,
                            zero,
                            self@.cells[a],
                            other@.column(b),
                            m as nat,
                            #[trigger] buffer@[flat(a, b, p as int)],
                        ),
                    forall|b: int|
                        0 <= b < j ==> dot_chain(
                            plus,
                            times,
                            zero,
                            self@.cells[i as int],
                            other@.column(b),
                            m as nat,
                            #[trigger] buffer@[flat(i as int, b, p as int)],
                        ),
                decreases p - j,
            {
                let mut sum = zero;
                let mut k: usize = 0;
                while k < m
                    invariant
                        self.wf(),
                        other.wf(),
                        n == self.rows,
                        m == self.cols,
                        m == other.rows,
                        p == other.cols,
                        self_len == self.data@.len(),
                        other_len == other.data@.len(),
                        forall|x: T, y: T| plus.requires((x, y)),
                        forall|x: T, y: T| times.requires((x, y)),
                        i < n,
                        j < p,
                        k <= m,
                        dot_chain(
                            plus,
                            times,
                            zero,
                            self@.cells[i as int],
                            other@.column(j as int),
                            k as nat,
                            sum,
                        ),
                    decreases m - k,
                {
                    proof {
                        lemma_flat_in_bounds(i as int, k as int, n as int, m as int);
                        lemma_flat_in_bounds(k as int, j as int, m as int, p as int);
                    }
                    let x = self.data[i * m + k];
                    let y = other.data[k * p + j];
                    let prod = times(x, y);
                    let next = plus(sum, prod);
                    proof {
                        let xs = self@.cells[i as int];
                        let ys = other@.column(j as int);
                        assert(xs[k as int] == x);
                        assert(ys[k as int] == y);
                        assert(plus.ensures((sum, prod), next));
                        assert(dot_chain(plus, times, zero, xs, ys, (k + 1) as nat, next));
                    }
                    sum = next;
                    k = k + 1;
                }
                proof {
                    assert forall|a: int, b: int|
                        0 <= a < i && 0 <= b < p implies flat(a, b, p as int) < buffer@.len() by {
                        lemma_flat_in_bounds(a, b, i as int, p as int);
                        assert(i * p == flat(i as int, 0, p as int));
                    }
                }
                buffer.push(sum);
                j = j + 1;
            }
            proof {
                lemma_flat_next_row(i as int, p as int);
            }
            i = i + 1;
        }
        proof {
            assert(flat(n as int, 0, p as int) == n * p);
        }
        Ok(Matrix { rows: n, cols: p, data: buffer })
    }

    /// The transpose: `r.at(i, j) == self.at(j, i)`.
    pub fn transpose(&self) -> (r: Matrix<T>)
        requires
            self.wf(),
        ensures
            r.wf(),
            r.rows == self.cols,
            r.cols == self.rows,
            forall|i: int, j: int|
                0 <= i < r.rows && 0 <= j < r.cols ==> #[trigger] r.at(i, j) == self.at(j, i),
            r@ == transpose_spec(self@),
    {
        let nr = self.cols;
        let nc = self.rows;
        let n = self.data.len();
        let mut buffer: Vec<T> = Vec::with_capacity(self.data.len());
        let mut i: usize = 0;
        while i < nr
            invariant
                nr == self.cols,
                nc == self.rows,
                n == self.data@.len(),
                self.wf(),
                i <= nr,
                buffer@.len() == flat(i as int, 0, nc as int),
                forall|a: int, b: int|
                    0 <= a < i && 0 <= b < nc ==> #[trigger] buffer@[flat(a, b, nc as int)]
                        == self.at(b, a),
            decreases nr - i,
        {
            let mut j: usize = 0;
            while j < nc
                invariant
                    nr == self.cols,
                    nc == self.rows,
                    n == self.data@.len(),
                    self.wf(),
                    i < nr,
                    j <= nc,
                    buffer@.len() == flat(i as int, j as int, nc as int),
                    forall|a: int, b: int|
                        0 <= a < i && 0 <= b < nc ==> #[trigger] buffer@[flat(a, b, nc as int)]
                            == self.at(b, a),
                    forall|b: int|
                        0 <= b < j ==> #[trigger] buffer@[flat(i as int, b, nc as int)]
                            == self.at(b, i as int),
                decreases nc - j,
            {
                proof {
                    lemma_flat_in_bounds(j as int, i as int, self.rows as int, self.cols as int);
                    assert(j * self.cols + i < n);
                }
                let x = self.data[j * self.cols + i];
                proof {
                    assert forall|a: int, b: int|
                        0 <= a < i && 0 <= b < nc implies flat(a, b, nc as int) < buffer@.len() by {
                        lemma_flat_in_bounds(a, b, i as int, nc as int);
                        assert(flat(i as int, 0, nc as int) <= flat(i as int, j as int, nc as int));
                        assert(i * nc == flat(i as int, 0, nc as int));
                    }
                }
                buffer.push(x);
                j = j + 1;
            }
            proof {
                lemma_flat_next_row(i as int, nc as int);
            }
            i = i + 1;
        }
        let r = Matrix { rows: nr, cols: nc, data: buffer };
        proof {
            assert(flat(nr as int, 0, nc as int) == nc * nr) by (nonlinear_arith)
                requires nr >= 0;
            assert forall|i: int, j: int|
                0 <= i < r.rows && 0 <= j < r.cols implies #[trigger] r.at(i, j) == self.at(j, i) by {
                assert(r.at(i, j) == buffer@[flat(i, j, nc as int)]);
            }
            assert(r@.cells =~~= transpose_spec(self@).cells);
        }
        r
    }
}

/// The entries of `m` are those of `a` and `b` combined under `f`, position
/// by position.
proof fn lemma_zip_cells<T>(a: Matrix<T>, b: Matrix<T>, m: Matrix<T>, f: spec_fn(T, T) -> T)
    requires
        a.wf(),
        b.wf(),
        m.wf(),
        a.same_shape(&b),
        m.same_shape(&a),
        forall|k: int| 0 <= k < m.data@.len() ==> #[trigger] m.data@[k] == f(a.data@[k], b.data@[k]),
    ensures
        forall|i: int, j: int|
            0 <= i < m.rows && 0 <= j < m.cols ==> #[trigger] m@.cells[i][j] == f(
                a@.cells[i][j],
                b@.cells[i][j],
            ),
{
    assert forall|i: int, j: int| 0 <= i < m.rows && 0 <= j < m.cols implies #[trigger] m@.cells[i][j]
        == f(a@.cells[i][j], b@.cells[i][j]) by {
        lemma_flat_in_bounds(i, j, m.rows as int, m.cols as int);
    }
}

/// A value accumulated by `dot_with` under exact wrapping addition and
/// multiplication is the wrapping dot product.
proof fn lemma_dot_chain_wrapping<FA: Fn(i64, i64) -> i64, FM: Fn(i64, i64) -> i64>(
    plus: FA,
    times: FM,
    xs: Seq<i64>,
    ys: Seq<i64>,
    n: nat,
    v: i64,
)
    requires
        forall|x: i64, y: i64, z: i64| plus.ensures((x, y), z) ==> z == x.wrapping_add(y),
        forall|x: i64, y: i64, z: i64| times.ensures((x, y), z) ==> z == x.wrapping_mul(y),
        dot_chain(plus, times, 0i64, xs, ys, n, v),
    ensures
        v == dot_spec(xs, ys, n),
    decreases n,
{
    if n > 0 {
        let (prev, p) = choose|prev: i64, p: i64|
            #![trigger plus.ensures((prev, p), v)]
            dot_chain(plus, times, 0i64, xs, ys, (n - 1) as nat, prev) && times.ensures(
                (xs[n - 1], ys[n - 1]),
                p,
            ) && plus.ensures((prev, p), v);
        lemma_dot_chain_wrapping(plus, times, xs, ys, (n - 1) as nat, prev);
    }
}

impl Matrix<i64> {
    /// A `rows` x `cols` matrix of zeros.
    pub fn zero(rows: usize, cols: usize) -> (r: Matrix<i64>)
        requires
            rows * cols <= usize::MAX,
        ensures
            r.wf(),
            r.rows == rows,
            r.cols == cols,
            forall|k: int| 0 <= k < r.data@.len() ==> #[trigger] r.data@[k] == 0,
    {
        let n = rows * cols;
        let mut buffer: Vec<i64> = Vec::with_capacity(n);
        let mut k: usize = 0;
        while k < n
            invariant
                k <= n,
                buffer@.len() == k,
                forall|a: int| 0 <= a < k ==> #[trigger] buffer@[a] == 0,
            decreases n - k,
        {
            buffer.push(0);
            k = k + 1;
        }
        Matrix { rows, cols, data: buffer }
    }

    /// Elementwise wrapping sum; `ShapeMismatch` when the shapes differ.
    pub fn add(&self, other: &Matrix<i64>) -> (r: Result<Matrix<i64>, MatrixError>)
        requires
            self.wf(),
            other.wf(),
        ensures
            r is Ok <==> self.same_shape(other),
            r matches Ok(m) ==> m.wf() && m@ == sum_spec(self@, other@),
    {
        let f = |x: i64, y: i64| -> (z: i64)
            ensures
                z == x.wrapping_add(y),
            { x.wrapping_add(y) };
        let r = self.zip_with(other, f);
        proof {
            if r is Ok {
                let m = r->Ok_0;
                lemma_zip_cells(*self, *other, m, |x: i64, y: i64| x.wrapping_add(y));
                assert(m@.cells =~~= sum_spec(self@, other@).cells);
            }
        }
        r
    }

    /// Elementwise wrapping difference `self - other`; `ShapeMismatch` when
    /// the shapes differ.
    pub fn subtract(&self, other: &Matrix<i64>) -> (r: Result<Matrix<i64>, MatrixError>)
        requires
            self.wf(),
            other.wf(),
        ensures
            r is Ok <==> self.same_shape(other),
            r matches Ok(m) ==> m.wf() && m@ == difference_spec(self@, other@),
    {
        let f = |x: i64, y: i64| -> (z: i64)
            ensures
                z == x.wrapping_sub(y),
            { x.wrapping_sub(y) };
        let r = self.zip_with(other, f);
        proof {
            if r is Ok {
                let m = r->Ok_0;
                lemma_zip_cells(*self, *other, m, |x: i64, y: i64| x.wrapping_sub(y));
                assert(m@.cells =~~= difference_spec(self@, other@).cells);
            }
        }
        r
    }

    /// Elementwise (Hadamard) wrapping product; `ShapeMismatch` when the
    /// shapes differ.
    pub fn multiply(&self, other: &Matrix<i64>) -> (r: Result<Matrix<i64>, MatrixError>)
        requires
            self.wf(),
            other.wf(),
        ensures
            r is Ok <==> self.same_shape(other),
            r matches Ok(m) ==> m.wf() && m@ == hadamard_spec(self@, other@),
    {
        let f = |x: i64, y: i64| -> (z: i64)
            ensures
                z == x.wrapping_mul(y),
            { x.wrapping_mul(y) };
        let r = self.zip_with(other, f);
        proof {
            if r is Ok {
                let m = r->Ok_0;
                lemma_zip_cells(*self, *other, m, |x: i64, y: i64| x.wrapping_mul(y));
                assert(m@.cells =~~= hadamard_spec(self@, other@).cells);
            }
        }
        r
    }

    /// The matrix product in wrapping arithmetic; `ShapeMismatch` unless
    /// `self.cols == other.rows`.
    pub fn dot_multiply(&self, other: &Matrix<i64>) -> (r: Result<Matrix<i64>, MatrixError>)
        requires
            self.wf(),
            other.wf(),
        ensures
            r is Ok <==> self.cols == other.rows,
            r matches Ok(m) ==> m.wf() && m@ == product_spec(self@, other@),
    {
        let plus = |x: i64, y: i64| -> (z: i64)
            ensures
                z == x.wrapping_add(y),
            { x.wrapping_add(y) };
        let times = |x: i64, y: i64| -> (z: i64)
            ensures
                z == x.wrapping_mul(y),
            { x.wrapping_mul(y) };
        let r = self.dot_with(other, 0, plus, times);
        proof {
            if r is Ok {
                let m = r->Ok_0;
                assert forall|i: int, j: int| 0 <= i < m.rows && 0 <= j < m.cols implies #[trigger] m@.cells[i][j]
                    == product_spec(self@, other@).cells[i][j] by {
                    lemma_dot_chain_wrapping(
                        plus,
                        times,
                        self@.cells[i],
                        other@.column(j),
                        self.cols as nat,
                        m.at(i, j),
                    );
                }
                assert(m@.cells =~~= product_spec(self@, other@).cells);
            }
        }
        r
    }
}

/// Addition is commutative: `add(a, b)` and `add(b, a)` are the same matrix.
pub proof fn lemma_add_commutative(a: Matrix<i64>, b: Matrix<i64>)
    requires
        a.wf(),
        b.wf(),
        a.same_shape(&b),
    ensures
        sum_spec(a@, b@) == sum_spec(b@, a@),
{
    assert(sum_spec(a@, b@).cells =~~= sum_spec(b@, a@).cells);
}

/// Subtracting `b` and adding it back gives `a` again, element by element.
pub proof fn lemma_subtract_then_add(a: Matrix<i64>, b: Matrix<i64>)
    requires
        a.wf(),
        b.wf(),
        a.same_shape(&b),
    ensures
        sum_spec(difference_spec(a@, b@), b@) == a@,
{
    assert(sum_spec(difference_spec(a@, b@), b@).cells =~~= a@.cells);
}

/// Transposing twice gives the matrix back.
pub proof fn lemma_transpose_involution<T>(a: Matrix<T>)
    requires
        a.wf(),
    ensures
        transpose_spec(transpose_spec(a@)) == a@,
{
    assert(transpose_spec(transpose_spec(a@)).cells =~~= a@.cells);
}

/// The wrapping dot product is symmetric in its two sequences.
proof fn lemma_dot_symmetric(xs: Seq<i64>, ys: Seq<i64>, n: nat)
    ensures
        dot_spec(xs, ys, n) == dot_spec(ys, xs, n),
    decreases n,
{
    if n > 0 {
        lemma_dot_symmetric(xs, ys, (n - 1) as nat);
        assert(xs[n - 1] * ys[n - 1] == ys[n - 1] * xs[n - 1]) by (nonlinear_arith);
    }
}

/// The dot product reads only the first `n` elements of each sequence.
proof fn lemma_dot_prefix(xs: Seq<i64>, ys: Seq<i64>, us: Seq<i64>, vs: Seq<i64>, n: nat)
    requires
        forall|k: int| 0 <= k < n ==> xs[k] == us[k] && ys[k] == vs[k],
    ensures
        dot_spec(xs, ys, n) == dot_spec(us, vs, n),
    decreases n,
{
    if n > 0 {
        lemma_dot_prefix(xs, ys, us, vs, (n - 1) as nat);
    }
}

/// The transpose of a product is the product of the transposes, in the
/// opposite order: `transpose(dot_multiply(a, b)) ==
/// dot_multiply(transpose(b), transpose(a))`.
pub proof fn lemma_transpose_of_product(a: Matrix<i64>, b: Matrix<i64>)
    requires
        a.wf(),
        b.wf(),
        a.cols == b.rows,
    ensures
        transpose_spec(product_spec(a@, b@)) == product_spec(transpose_spec(b@), transpose_spec(a@)),
{
    let lhs = transpose_spec(product_spec(a@, b@));
    let rhs = product_spec(transpose_spec(b@), transpose_spec(a@));
    assert forall|i: int, j: int| 0 <= i < b.cols && 0 <= j < a.rows implies lhs.cells[i][j]
        == rhs.cells[i][j] by {
        let n = a.cols as nat;
        let row = a@.cells[j];
        let col = b@.column(i);
        assert(lhs.cells[i][j] == dot_spec(row, col, n));
        assert(rhs.cells[i][j] == dot_spec(
            transpose_spec(b@).cells[i],
            transpose_spec(a@).column(j),
            n,
        ));
        lemma_dot_prefix(
            transpose_spec(b@).cells[i],
            transpose_spec(a@).column(j),
            col,
            row,
            n,
        );
        lemma_dot_symmetric(col, row, n);
    }
    assert(lhs.cells =~~= rhs.cells);
}

/// The arithmetic of a number type.
pub trait Scalar: Copy {
    spec fn spec_zero() -> Self;

    spec fn spec_plus(self, other: Self) -> Self;

    spec fn spec_minus(self, other: Self) -> Self;

    spec fn spec_times(self, other: Self) -> Self;

    fn zero() -> (r: Self)
        ensures
            r == Self::spec_zero(),
    ;

    fn plus(self, other: Self) -> (r: Self)
        ensures
            r == self.spec_plus(other),
    ;

    fn minus(self, other: Self) -> (r: Self)
        ensures
            r == self.spec_minus(other),
    ;

    fn times(self, other: Self) -> (r: Self)
        ensures
            r == self.spec_times(other),
    ;

    /// A value drawn uniformly from `[0, 1)`.
    fn unit_random() -> Self;
}

/// The entries of `m` are those of `a` under `f`, position by position.
pub(crate) proof fn lemma_map_cells<T>(a: Matrix<T>, m: Matrix<T>, f: spec_fn(T) -> T)
    requires
        a.wf(),
        m.wf(),
        m.same_shape(&a),
        forall|k: int| 0 <= k < m.data@.len() ==> #[trigger] m.data@[k] == f(a.data@[k]),
    ensures
        forall|i: int, j: int|
            0 <= i < m.rows && 0 <= j < m.cols ==> #[trigger] m@.cells[i][j] == f(a@.cells[i][j]),
{
    assert forall|i: int, j: int| 0 <= i < m.rows && 0 <= j < m.cols implies #[trigger] m@.cells[i][j]
        == f(a@.cells[i][j]) by {
        lemma_flat_in_bounds(i, j, m.rows as int, m.cols as int);
    }
}

/// Sum of the first `n` products `xs[k] * ys[k]` in a `Scalar`'s arithmetic,
/// accumulated from index 0 upwards.
pub open spec fn scalar_dot<T: Scalar>(xs: Seq<T>, ys: Seq<T>, n: nat) -> T
    decreases n,
{
    if n == 0 {
        T::spec_zero()
    } else {
        scalar_dot(xs, ys, (n - 1) as nat).spec_plus(xs[n - 1].spec_times(ys[n - 1]))
    }
}

/// Matrix product in a `Scalar`'s arithmetic.
pub open spec fn scalar_product<T: Scalar>(a: Grid<T>, b: Grid<T>) -> Grid<T> {
    Grid {
        rows: a.rows,
        cols: b.cols,
        cells: Seq::new(
            a.rows,
            |i: int| Seq::new(b.cols, |j: int| scalar_dot(a.cells[i], b.column(j), a.cols)),
        ),
    }
}

/// Elementwise sum in a `Scalar`'s arithmetic.
pub open spec fn scalar_sum<T: Scalar>(a: Grid<T>, b: Grid<T>) -> Grid<T> {
    Grid {
        rows: a.rows,
        cols: a.cols,
        cells: Seq::new(a.rows, |i: int| Seq::new(a.cols, |j: int| a.cells[i][j].spec_plus(b.cells[i][j]))),
    }
}

/// Elementwise difference `a - b` in a `Scalar`'s arithmetic.
pub open spec fn scalar_difference<T: Scalar>(a: Grid<T>, b: Grid<T>) -> Grid<T> {
    Grid {
        rows: a.rows,
        cols: a.cols,
        cells: Seq::new(a.rows, |i: int| Seq::new(a.cols, |j: int| a.cells[i][j].spec_minus(b.cells[i][j]))),
    }
}

/// Elementwise (Hadamard) product in a `Scalar`'s arithmetic.
pub open spec fn scalar_hadamard<T: Scalar>(a: Grid<T>, b: Grid<T>) -> Grid<T> {
    Grid {
        rows: a.rows,
        cols: a.cols,
        cells: Seq::new(a.rows, |i: int| Seq::new(a.cols, |j: int| a.cells[i][j].spec_times(b.cells[i][j]))),
    }
}

/// Every element times `k`.
pub open spec fn scalar_scale<T: Scalar>(a: Grid<T>, k: T) -> Grid<T> {
    Grid {
        rows: a.rows,
        cols: a.cols,
        cells: Seq::new(a.rows, |i: int| Seq::new(a.cols, |j: int| a.cells[i][j].spec_times(k))),
    }
}

proof fn lemma_dot_chain_scalar<T: Scalar, FA: Fn(T, T) -> T, FM: Fn(T, T) -> T>(
    plus: FA,
    times: FM,
    xs: Seq<T>,
    ys: Seq<T>,
    n: nat,
    v: T,
)
    requires
        forall|x: T, y: T, z: T| plus.ensures((x, y), z) ==> z == x.spec_plus(y),
        forall|x: T, y: T, z: T| times.ensures((x, y), z) ==> z == x.spec_times(y),
        dot_chain(plus, times, T::spec_zero(), xs, ys, n, v),
    ensures
        v == scalar_dot(xs, ys, n),
    decreases n,
{
    if n > 0 {
        let (prev, p) = choose|prev: T, p: T|
            #![trigger plus.ensures((prev, p), v)]
            dot_chain(plus, times, T::spec_zero(), xs, ys, (n - 1) as nat, prev) && times.ensures(
                (xs[n - 1], ys[n - 1]),
                p,
            ) && plus.ensures((prev, p), v);
        lemma_dot_chain_scalar(plus, times, xs, ys, (n - 1) as nat, prev);
    }
}

impl<T: Scalar> Matrix<T> {
    /// Elementwise sum; `ShapeMismatch` when the shapes differ.
    pub fn sum(&self, other: &Matrix<T>) -> (r: Result<Matrix<T>, MatrixError>)
        requires
            self.wf(),
            other.wf(),
        ensures
            r is Ok <==> self.same_shape(other),
            r matches Ok(m) ==> m.wf() && m@ == scalar_sum(self@, other@),
    {
        let f = |x: T, y: T| -> (z: T)
            ensures
                z == x.spec_plus(y),
            { x.plus(y) };
        let r = self.zip_with(other, f);
        proof {
            if r is Ok {
                let m = r->Ok_0;
                lemma_zip_cells(*self, *other, m, |x: T, y: T| x.spec_plus(y));
                assert(m@.cells =~~= scalar_sum(self@, other@).cells);
            }
        }
        r
    }

    /// Elementwise difference `self - other`; `ShapeMismatch` when the
    /// shapes differ.
    pub fn difference(&self, other: &Matrix<T>) -> (r: Result<Matrix<T>, MatrixError>)
        requires
            self.wf(),
            other.wf(),
        ensures
            r is Ok <==> self.same_shape(other),
            r matches Ok(m) ==> m.wf() && m@ == scalar_difference(self@, other@),
    {
        let f = |x: T, y: T| -> (z: T)
            ensures
                z == x.spec_minus(y),
            { x.minus(y) };
        let r = self.zip_with(other, f);
        proof {
            if r is Ok {
                let m = r->Ok_0;
                lemma_zip_cells(*self, *other, m, |x: T, y: T| x.spec_minus(y));
                assert(m@.cells =~~= scalar_difference(self@, other@).cells);
            }
        }
        r
    }

    /// Elementwise (Hadamard) product; `ShapeMismatch` when the shapes
    /// differ.
    pub fn hadamard(&self, other: &Matrix<T>) -> (r: Result<Matrix<T>, MatrixError>)
        requires
            self.wf(),
            other.wf(),
        ensures
            r is Ok <==> self.same_shape(other),
            r matches Ok(m) ==> m.wf() && m@ == scalar_hadamard(self@, other@),
    {
        let f = |x: T, y: T| -> (z: T)
            ensures
                z == x.spec_times(y),
            { x.times(y) };
        let r = self.zip_with(other, f);
        proof {
            if r is Ok {
                let m = r->Ok_0;
                lemma_zip_cells(*self, *other, m, |x: T, y: T| x.spec_times(y));
                assert(m@.cells =~~= scalar_hadamard(self@, other@).cells);
            }
        }
        r
    }

    /// Every element times `k`.
    pub fn scale(&self, k: T) -> (r: Matrix<T>)
        requires
            self.wf(),
        ensures
            r.wf(),
            r@ == scalar_scale(self@, k),
    {
        let f = |x: T| -> (z: T)
            ensures
                z == x.spec_times(k),
            { x.times(k) };
        let r = self.map(f);
        proof {
            lemma_map_cells(*self, r, |x: T| x.spec_times(k));
            assert(r@.cells =~~= scalar_scale(self@, k).cells);
        }
        r
    }

    /// The matrix product; `ShapeMismatch` unless `self.cols == other.rows`.
    pub fn product(&self, other: &Matrix<T>) -> (r: Result<Matrix<T>, MatrixError>)
        requires
            self.wf(),
            other.wf(),
        ensures
            r is Ok <==> self.cols == other.rows,
            r matches Ok(m) ==> m.wf() && m@ == scalar_product(self@, other@),
    {
        let plus = |x: T, y: T| -> (z: T)
            ensures
                z == x.spec_plus(y),
            { x.plus(y) };
        let times = |x: T, y: T| -> (z: T)
            ensures
                z == x.spec_times(y),
            { x.times(y) };
        let r = self.dot_with(other, T::zero(), plus, times);
        proof {
            if r is Ok {
                let m = r->Ok_0;
                assert forall|i: int, j: int| 0 <= i < m.rows && 0 <= j < m.cols implies #[trigger] m@.cells[i][j]
                    == scalar_product(self@, other@).cells[i][j] by {
                    lemma_dot_chain_scalar(plus, times, self@.cells[i], other@.column(j), self.cols as nat, m.at(i, j));
                }
                assert(m@.cells =~~= scalar_product(self@, other@).cells);
            }
        }
        r
    }

    /// A `rows` x `cols` matrix of values drawn uniformly from `[0, 1)`.
    pub fn random(rows: usize, cols: usize) -> (r: Matrix<T>)
        requires
            rows * cols <= usize::MAX,
        ensures
            r.wf(),
            r.rows == rows,
            r.cols == cols,
    {
        let n = rows * cols;
        let mut buffer: Vec<T> = Vec::with_capacity(n);
        let mut k: usize = 0;
        while k < n
            invariant
                k <= n,
                buffer@.len() == k,
            decreases n - k,
        {
            buffer.push(T::unit_random());
            k = k + 1;
        }
        Matrix { rows, cols, data: buffer }
    }
}

} // verus!
