//! Dense two-dimensional matrices over a [`Scalar`], stored row by row.
use vstd::prelude::*;
use crate::error::Error;
use crate::random::{seeded_stream, seeded_words, signed_unit, spec_signed_unit};
use crate::scalar::{
    neutral_units, one, sigmoid, sigmoid_slope, spec_sigmoid, spec_sigmoid_slope, zero, Scalar,
};

verus! {

/// The mathematical content of a matrix: its shape and its cells.
pub struct Grid<T> {
    pub rows: nat,
    pub cols: nat,
    pub cells: Seq<Seq<T>>,
}

impl<T> Grid<T> {
    /// There are `rows` rows, each of `cols` cells.
    pub open spec fn wf(self) -> bool {
        &&& self.cells.len() == self.rows
        &&& forall|i: int| 0 <= i < self.rows ==> (#[trigger] self.cells[i]).len() == self.cols
    }

    /// The cell in row `i` and column `j`.
    pub open spec fn at(self, i: int, j: int) -> T {
        self.cells[i][j]
    }

    /// The grid of the given shape whose cell `(i, j)` is `cell(i, j)`.
    pub open spec fn build(rows: nat, cols: nat, cell: spec_fn(int, int) -> T) -> Grid<T> {
        Grid { rows, cols, cells: Seq::new(rows, |i: int| Seq::new(cols, |j: int| cell(i, j))) }
    }

    /// Both grids have the same number of rows and of columns.
    pub open spec fn same_shape(self, other: Grid<T>) -> bool {
        self.rows == other.rows && self.cols == other.cols
    }
}

/// Two well-formed grids of one shape with the same cells are the same grid.
pub proof fn lemma_grid_equal<T>(a: Grid<T>, b: Grid<T>)
    requires
        a.wf(),
        b.wf(),
        a.same_shape(b),
        forall|i: int, j: int| 0 <= i < a.rows && 0 <= j < a.cols ==> a.at(i, j) == b.at(i, j),
    ensures
        a == b,
{
    assert forall|i: int| 0 <= i < a.rows implies a.cells[i] == b.cells[i] by {
        assert forall|j: int| 0 <= j < a.cols implies a.cells[i][j] == b.cells[i][j] by {
            assert(a.at(i, j) == b.at(i, j));
        }
        assert(a.cells[i] =~= b.cells[i]);
    }
    assert(a.cells =~= b.cells);
}

/// A dense matrix of `rows` rows and `cols` columns.
#[derive(Debug, Clone, PartialEq)]
pub struct Matrix<T> {
    pub rows: usize,
    pub cols: usize,
    pub data: Vec<Vec<T>>,
}

impl<T> View for Matrix<T> {
    type V = Grid<T>;

    open spec fn view(&self) -> Grid<T> {
        Grid {
            rows: self.rows as nat,
            cols: self.cols as nat,
            cells: Seq::new(self.data.len() as nat, |i: int| self.data[i]@),
        }
    }
}

impl<T> Matrix<T> {
    /// Every row is stored, each with exactly `cols` elements.
    pub open spec fn wf(&self) -> bool {
        self@.wf()
    }
}

impl<T> Matrix<T> {
    /// Whether every row is stored, each with exactly `cols` elements.
    pub fn is_wf(&self) -> (r: bool)
        ensures
            r == self.wf(),
    {
        if self.data.len() != self.rows {
            return false;
        }
        let mut i: usize = 0;
        while i < self.data.len()
            invariant
                i <= self.data@.len(),
                self.data@.len() == self.rows,
                forall|p: int| 0 <= p < i ==> (#[trigger] self.data@[p])@.len() == self.cols,
            decreases self.data@.len() - i,
        {
            if self.data[i].len() != self.cols {
                assert(self@.cells[i as int] == self.data@[i as int]@);
                return false;
            }
            i = i + 1;
        }
        assert forall|p: int| 0 <= p < self@.rows implies (#[trigger] self@.cells[p]).len()
            == self@.cols by {
            assert(self@.cells[p] == self.data@[p]@);
        }
        true
    }
}

impl<T: Copy> Matrix<T> {
    /// The element in row `i` and column `j`.
    pub fn get(&self, i: usize, j: usize) -> (r: T)
        requires
            self.wf(),
            i < self.rows,
            j < self.cols,
        ensures
            r == self@.at(i as int, j as int),
    {
        assert(self@.cells[i as int] == self.data[i as int]@);
        self.data[i][j]
    }
}

/// Builds the matrix whose element `(i, j)` is what `cell(i, j)` returns.
fn fill<T, F: Fn(usize, usize) -> T>(rows: usize, cols: usize, cell: F) -> (r: Matrix<T>)
    requires
        forall|i: usize, j: usize| i < rows && j < cols ==> call_requires(cell, (i, j)),
    ensures
        r.rows == rows,
        r.cols == cols,
        r.wf(),
        forall|i: usize, j: usize|
            i < rows && j < cols ==> call_ensures(cell, (i, j), #[trigger] r@.at(i as int, j as int)),
{
    let mut data: Vec<Vec<T>> = Vec::new();
    let mut i: usize = 0;
    while i < rows
        invariant
            i <= rows,
            data.len() == i,
            forall|i: usize, j: usize| i < rows && j < cols ==> call_requires(cell, (i, j)),
            forall|p: int| 0 <= p < i ==> (#[trigger] data[p]).len() == cols,
            forall|p: usize, q: usize|
                p < i && q < cols ==> call_ensures(cell, (p, q), #[trigger] data[p as int][q as int]),
        decreases rows - i,
    {
        let mut row: Vec<T> = Vec::new();
        let mut j: usize = 0;
        while j < cols
            invariant
                i < rows,
                j <= cols,
                row.len() == j,
                forall|i: usize, j: usize| i < rows && j < cols ==> call_requires(cell, (i, j)),
                forall|q: usize| q < j ==> call_ensures(cell, (i, q), #[trigger] row[q as int]),
            decreases cols - j,
        {
            row.push(cell(i, j));
            j = j + 1;
        }
        data.push(row);
        i = i + 1;
    }
    let r = Matrix { rows, cols, data };
    proof {
        assert forall|p: usize, q: usize| p < rows && q < cols implies call_ensures(
            cell,
            (p, q),
            #[trigger] r@.at(p as int, q as int),
        ) by {
            assert(r@.at(p as int, q as int) == data[p as int][q as int]);
        }
    }
    r
}

/// The grid of zeros of the given shape.
pub open spec fn zeros<T: Scalar>(rows: nat, cols: nat) -> Grid<T> {
    Grid::build(rows, cols, |i: int, j: int| zero::<T>())
}

/// The grid of the given shape whose cells are drawn, row by row, from the
/// generator seeded with `seed`, each a scalar in `[-1, 1)`.
pub open spec fn seeded<T: Scalar>(rows: nat, cols: nat, seed: u64) -> Grid<T> {
    Grid::build(
        rows,
        cols,
        |i: int, j: int| spec_signed_unit::<T>(seeded_stream(seed, rows * cols)[i * cols + j]),
    )
}

/// The sum of the first `terms` products of row `i` of `a` with column `j`
/// of `b`, added up from the left, starting from zero.
pub open spec fn dot<T: Scalar>(a: Grid<T>, b: Grid<T>, i: int, j: int, terms: nat) -> T
    decreases terms,
{
    if terms == 0 {
        zero::<T>()
    } else {
        dot(a, b, i, j, (terms - 1) as nat).spec_add(a.at(i, terms - 1).spec_mul(b.at(terms - 1, j)))
    }
}

/// The matrix product of `a` and `b`.
pub open spec fn product<T: Scalar>(a: Grid<T>, b: Grid<T>) -> Grid<T> {
    Grid::build(a.rows, b.cols, |i: int, j: int| dot(a, b, i, j, a.cols))
}

/// The element-wise sum.
pub open spec fn sum<T: Scalar>(a: Grid<T>, b: Grid<T>) -> Grid<T> {
    Grid::build(a.rows, a.cols, |i: int, j: int| a.at(i, j).spec_add(b.at(i, j)))
}

/// The element-wise difference `a - b`.
pub open spec fn difference<T: Scalar>(a: Grid<T>, b: Grid<T>) -> Grid<T> {
    Grid::build(a.rows, a.cols, |i: int, j: int| a.at(i, j).spec_sub(b.at(i, j)))
}

/// The element-wise product.
pub open spec fn hadamard<T: Scalar>(a: Grid<T>, b: Grid<T>) -> Grid<T> {
    Grid::build(a.rows, a.cols, |i: int, j: int| a.at(i, j).spec_mul(b.at(i, j)))
}

/// Every cell multiplied by `factor`.
pub open spec fn scaled<T: Scalar>(a: Grid<T>, factor: T) -> Grid<T> {
    Grid::build(a.rows, a.cols, |i: int, j: int| a.at(i, j).spec_mul(factor))
}

/// The logistic function of every cell.
pub open spec fn logistic<T: Scalar>(a: Grid<T>) -> Grid<T> {
    Grid::build(a.rows, a.cols, |i: int, j: int| spec_sigmoid(a.at(i, j)))
}

/// `y * (1 - y)` of every cell `y`: the slope of the logistic function, from
/// its value.
pub open spec fn slopes<T: Scalar>(a: Grid<T>) -> Grid<T> {
    Grid::build(a.rows, a.cols, |i: int, j: int| spec_sigmoid_slope(a.at(i, j)))
}

/// The transpose: cell `(i, j)` is cell `(j, i)` of `a`.
pub open spec fn transposed<T>(a: Grid<T>) -> Grid<T> {
    Grid::build(a.cols, a.rows, |i: int, j: int| a.at(j, i))
}

/// The column vector with the elements of `v`.
pub open spec fn column<T>(v: Seq<T>) -> Grid<T> {
    Grid::build(v.len(), 1, |i: int, j: int| v[i])
}

/// The grid with the rows of `rows`, each cut or filled with zeros to the
/// length of the first.
pub open spec fn padded<T: Scalar>(rows: Seq<Seq<T>>) -> Grid<T> {
    Grid::build(
        rows.len(),
        rows[0].len(),
        |i: int, j: int| if j < rows[i].len() { rows[i][j] } else { zero::<T>() },
    )
}

/// The first `count` rows of `a`, one after another.
pub open spec fn leading_rows<T>(a: Grid<T>, count: nat) -> Seq<T>
    decreases count,
{
    if count == 0 {
        Seq::empty()
    } else {
        leading_rows(a, (count - 1) as nat) + a.cells[count - 1]
    }
}

/// All cells of `a`, row by row.
pub open spec fn flattened<T>(a: Grid<T>) -> Seq<T> {
    leading_rows(a, a.rows)
}

/// The shape of a product is the rows of the left operand by the columns of
/// the right one.
pub proof fn lemma_product_shape<T: Scalar>(a: Grid<T>, b: Grid<T>)
    ensures
        product(a, b).rows == a.rows,
        product(a, b).cols == b.cols,
        product(a, b).wf(),
{
}

/// Transposing twice gives the matrix back, shape and values.
pub proof fn lemma_transpose_involution<T>(m: Grid<T>)
    requires
        m.wf(),
    ensures
        transposed(transposed(m)) == m,
{
    lemma_grid_equal(transposed(transposed(m)), m);
}

/// The identity grid of `n` rows and columns: ones on the diagonal, zeros
/// elsewhere.
pub open spec fn identity<T: Scalar>(n: nat) -> Grid<T> {
    Grid::build(n, n, |i: int, j: int| if i == j { one::<T>() } else { zero::<T>() })
}

/// The product with an identity grid of the fitting size, on either side,
/// is the grid itself, for a scalar type with neutral zero and one.
pub proof fn lemma_identity_product<T: Scalar>(a: Grid<T>)
    requires
        a.wf(),
        neutral_units::<T>(),
    ensures
        product(a, identity::<T>(a.cols)) == a,
        product(identity::<T>(a.rows), a) == a,
{
    let right = identity::<T>(a.cols);
    let left = identity::<T>(a.rows);
    assert forall|i: int, j: int| 0 <= i < a.rows && 0 <= j < a.cols implies product(a, right).at(
        i,
        j,
    ) == a.at(i, j) && product(left, a).at(i, j) == a.at(i, j) by {
        lemma_dot_with_identity(a, i, j, a.cols);
        lemma_identity_dot(a, i, j, a.rows);
    }
    lemma_grid_equal(product(a, right), a);
    lemma_grid_equal(product(left, a), a);
}

proof fn lemma_dot_with_identity<T: Scalar>(a: Grid<T>, i: int, j: int, terms: nat)
    requires
        a.wf(),
        neutral_units::<T>(),
        0 <= i < a.rows,
        0 <= j < a.cols,
        terms <= a.cols,
    ensures
        dot(a, identity::<T>(a.cols), i, j, terms) == (if terms > j {
            a.at(i, j)
        } else {
            zero::<T>()
        }),
    decreases terms,
{
    if terms > 0 {
        lemma_dot_with_identity(a, i, j, (terms - 1) as nat);
        let unit = identity::<T>(a.cols);
        let before = dot(a, unit, i, j, (terms - 1) as nat);
        assert(unit.at(terms - 1, j) == (if terms - 1 == j {
            one::<T>()
        } else {
            zero::<T>()
        }));
        if terms - 1 == j {
            assert(a.at(i, j).spec_mul(one::<T>()) == a.at(i, j));
            assert(zero::<T>().spec_add(a.at(i, j)) == a.at(i, j));
        } else {
            assert(a.at(i, terms - 1).spec_mul(zero::<T>()) == zero::<T>());
            assert(before.spec_add(zero::<T>()) == before);
        }
    }
}

proof fn lemma_identity_dot<T: Scalar>(a: Grid<T>, i: int, j: int, terms: nat)
    requires
        a.wf(),
        neutral_units::<T>(),
        0 <= i < a.rows,
        0 <= j < a.cols,
        terms <= a.rows,
    ensures
        dot(identity::<T>(a.rows), a, i, j, terms) == (if terms > i {
            a.at(i, j)
        } else {
            zero::<T>()
        }),
    decreases terms,
{
    if terms > 0 {
        lemma_identity_dot(a, i, j, (terms - 1) as nat);
        let unit = identity::<T>(a.rows);
        let before = dot(unit, a, i, j, (terms - 1) as nat);
        assert(unit.at(i, terms - 1) == (if i == terms - 1 {
            one::<T>()
        } else {
            zero::<T>()
        }));
        if terms - 1 == i {
            assert(one::<T>().spec_mul(a.at(i, j)) == a.at(i, j));
            assert(zero::<T>().spec_add(a.at(i, j)) == a.at(i, j));
        } else {
            assert(zero::<T>().spec_mul(a.at(terms - 1, j)) == zero::<T>());
            assert(before.spec_add(zero::<T>()) == before);
        }
    }
}

/// Listing the elements of the column of a vector gives the vector back.
pub proof fn lemma_column_round_trip<T>(v: Seq<T>)
    ensures
        flattened(column(v)) == v,
{
    lemma_leading_rows_column(column(v), v.len());
    assert(flattened(column(v)) =~= v);
}

proof fn lemma_leading_rows_column<T>(a: Grid<T>, count: nat)
    requires
        a.wf(),
        a.cols == 1,
        count <= a.rows,
    ensures
        leading_rows(a, count).len() == count,
        forall|i: int| 0 <= i < count ==> #[trigger] leading_rows(a, count)[i] == a.at(i, 0),
    decreases count,
{
    if count > 0 {
        lemma_leading_rows_column(a, (count - 1) as nat);
        assert(a.cells[count - 1].len() == 1);
    }
}

/// Creates the all-zero matrix of the given shape.
pub fn matrix_constructor<T: Scalar>(rows: usize, cols: usize) -> (r: Matrix<T>)
    ensures
        r.wf(),
        r@ == zeros::<T>(rows as nat, cols as nat),
{
    let r = fill(rows, cols, |i: usize, j: usize| -> (v: T)
        ensures v == zero::<T>(),
        { T::from_ratio(0, 1) });
    proof {
        lemma_grid_equal(r@, zeros::<T>(rows as nat, cols as nat));
    }
    r
}

fn dot_product<T: Scalar>(a: &Matrix<T>, b: &Matrix<T>, i: usize, j: usize) -> (r: T)
    requires
        a.wf(),
        b.wf(),
        a.cols == b.rows,
        i < a.rows,
        j < b.cols,
    ensures
        r == dot(a@, b@, i as int, j as int, a.cols as nat),
{
    let mut total = T::from_ratio(0, 1);
    let mut k: usize = 0;
    while k < a.cols
        invariant
            a.wf(),
            b.wf(),
            a.cols == b.rows,
            i < a.rows,
            j < b.cols,
            k <= a.cols,
            total == dot(a@, b@, i as int, j as int, k as nat),
        decreases a.cols - k,
    {
        total = total.add(a.get(i, k).mul(b.get(k, j)));
        k = k + 1;
    }
    total
}

/// The position of cell `(i, j)` in a row-by-row listing of a matrix with
/// `cols` columns.
fn position(rows: usize, cols: usize, i: usize, j: usize) -> (r: usize)
    requires
        rows * cols <= usize::MAX,
        i < rows,
        j < cols,
    ensures
        r == i * cols + j,
        r < rows * cols,
{
    assert(i * cols + j < rows * cols) by (nonlinear_arith)
        requires
            i < rows,
            j < cols,
    ;
    assert(0 <= i * cols) by (nonlinear_arith);
    i * cols + j
}

pub(crate) fn column_from<T: Copy>(arr: &Vec<T>) -> (r: Matrix<T>)
    ensures
        r.wf(),
        r@ == column(arr@),
{
    let r = fill(arr.len(), 1, |i: usize, j: usize| -> (v: T)
        requires i < arr.len(),
        ensures v == arr@[i as int],
        { arr[i] });
    proof {
        lemma_grid_equal(r@, column(arr@));
    }
    r
}

pub(crate) fn product_of<T: Scalar>(a: &Matrix<T>, b: &Matrix<T>) -> (r: Matrix<T>)
    requires
        a.wf(),
        b.wf(),
        a.cols == b.rows,
    ensures
        r.wf(),
        r@ == product(a@, b@),
{
    let r = fill(a.rows, b.cols, |i: usize, j: usize| -> (v: T)
        requires i < a.rows, j < b.cols,
        ensures v == dot(a@, b@, i as int, j as int, a.cols as nat),
        { dot_product(a, b, i, j) });
    proof {
        lemma_grid_equal(r@, product(a@, b@));
    }
    r
}

pub(crate) fn subtracted<T: Scalar>(a: &Matrix<T>, b: &Matrix<T>) -> (r: Matrix<T>)
    requires
        a.wf(),
        b.wf(),
        a@.same_shape(b@),
    ensures
        r.wf(),
        r@ == difference(a@, b@),
{
    let r = fill(a.rows, a.cols, |i: usize, j: usize| -> (v: T)
        requires i < a.rows, j < a.cols,
        ensures v == a@.at(i as int, j as int).spec_sub(b@.at(i as int, j as int)),
        { a.get(i, j).sub(b.get(i, j)) });
    proof {
        lemma_grid_equal(r@, difference(a@, b@));
    }
    r
}

pub(crate) fn added<T: Scalar>(a: &Matrix<T>, b: &Matrix<T>) -> (r: Matrix<T>)
    requires
        a.wf(),
        b.wf(),
        a@.same_shape(b@),
    ensures
        r.wf(),
        r@ == sum(a@, b@),
{
    let r = fill(a.rows, a.cols, |i: usize, j: usize| -> (v: T)
        requires i < a.rows, j < a.cols,
        ensures v == a@.at(i as int, j as int).spec_add(b@.at(i as int, j as int)),
        { a.get(i, j).add(b.get(i, j)) });
    proof {
        lemma_grid_equal(r@, sum(a@, b@));
    }
    r
}

pub(crate) fn multiplied_cells<T: Scalar>(a: &Matrix<T>, b: &Matrix<T>) -> (r: Matrix<T>)
    requires
        a.wf(),
        b.wf(),
        a@.same_shape(b@),
    ensures
        r.wf(),
        r@ == hadamard(a@, b@),
{
    let r = fill(a.rows, a.cols, |i: usize, j: usize| -> (v: T)
        requires i < a.rows, j < a.cols,
        ensures v == a@.at(i as int, j as int).spec_mul(b@.at(i as int, j as int)),
        { a.get(i, j).mul(b.get(i, j)) });
    proof {
        lemma_grid_equal(r@, hadamard(a@, b@));
    }
    r
}

pub(crate) fn multiplied_by<T: Scalar>(a: &Matrix<T>, factor: T) -> (r: Matrix<T>)
    requires
        a.wf(),
    ensures
        r.wf(),
        r@ == scaled(a@, factor),
{
    let r = fill(a.rows, a.cols, |i: usize, j: usize| -> (v: T)
        requires i < a.rows, j < a.cols,
        ensures v == a@.at(i as int, j as int).spec_mul(factor),
        { a.get(i, j).mul(factor) });
    proof {
        lemma_grid_equal(r@, scaled(a@, factor));
    }
    r
}

pub(crate) fn squashed<T: Scalar>(a: &Matrix<T>) -> (r: Matrix<T>)
    requires
        a.wf(),
    ensures
        r.wf(),
        r@ == logistic(a@),
{
    let r = fill(a.rows, a.cols, |i: usize, j: usize| -> (v: T)
        requires i < a.rows, j < a.cols,
        ensures v == spec_sigmoid(a@.at(i as int, j as int)),
        { sigmoid(a.get(i, j)) });
    proof {
        lemma_grid_equal(r@, logistic(a@));
    }
    r
}

impl<T: Scalar> Default for Matrix<T> {
    /// The matrix without rows or columns.
    fn default() -> (r: Matrix<T>)
        ensures
            r.wf(),
            r@ == zeros::<T>(0, 0),
    {
        matrix_constructor(0, 0)
    }
}

impl<T: Scalar> Matrix<T> {
    /// Creates the matrix of the given shape whose elements are drawn from
    /// `[-1, 1)` with the generator seeded by `seed`: the same seed gives the
    /// same matrix.
    pub fn new(rows: usize, cols: usize, seed: i32) -> (r: Matrix<T>)
        requires
            rows * cols <= usize::MAX,
        ensures
            r.wf(),
            r@ == seeded::<T>(rows as nat, cols as nat, seed as u64),
    {
        assert(0 <= rows * cols) by (nonlinear_arith);
        let words = seeded_words(seed as u64, rows * cols);
        let r = fill(rows, cols, |i: usize, j: usize| -> (v: T)
            requires i < rows, j < cols,
            ensures v == spec_signed_unit::<T>(words@[i * cols + j]),
            { signed_unit(words[position(rows, cols, i, j)]) });
        proof {
            lemma_grid_equal(r@, seeded::<T>(rows as nat, cols as nat, seed as u64));
        }
        r
    }

    /// The matrix product `a * b`, or `DimensionMismatch` where the columns
    /// of `a` are not as many as the rows of `b`.
    pub fn multiply(a: &Matrix<T>, b: &Matrix<T>) -> (r: Result<Matrix<T>, Error>)
        requires
            a.wf(),
            b.wf(),
        ensures
            a.cols != b.rows ==> r == Err::<Matrix<T>, Error>(Error::DimensionMismatch),
            a.cols == b.rows ==> r is Ok && r->Ok_0.wf() && r->Ok_0@ == product(a@, b@)
                && r->Ok_0.rows == a.rows && r->Ok_0.cols == b.cols,
    {
        if a.cols != b.rows {
            return Err(Error::DimensionMismatch);
        }
        Ok(product_of(a, b))
    }

    /// The matrix of `y * (1 - y)` for every element `y` of `x`: the
    /// derivative of the logistic function where `x` holds its values.
    pub fn dsigmoid(x: &Matrix<T>) -> (r: Matrix<T>)
        requires
            x.wf(),
        ensures
            r.wf(),
            r@ == slopes(x@),
    {
        let r = fill(x.rows, x.cols, |i: usize, j: usize| -> (v: T)
            requires i < x.rows, j < x.cols,
            ensures v == spec_sigmoid_slope(x@.at(i as int, j as int)),
            { sigmoid_slope(x.get(i, j)) });
        proof {
            lemma_grid_equal(r@, slopes(x@));
        }
        r
    }

    /// Multiplies every element by `scaler`.
    pub fn scale(&mut self, scaler: T)
        requires
            old(self).wf(),
        ensures
            final(self).wf(),
            final(self)@ == scaled(old(self)@, scaler),
    {
        let r = multiplied_by(self, scaler);
        *self = r;
    }

    /// Adds `m` to this matrix, element by element, or leaves it as it is and
    /// returns `DimensionMismatch` where the shapes differ.
    pub fn add_matrix(&mut self, m: &Matrix<T>) -> (r: Result<(), Error>)
        requires
            old(self).wf(),
            m.wf(),
        ensures
            final(self).wf(),
            old(self)@.same_shape(m@) ==> r is Ok && final(self)@ == sum(old(self)@, m@),
            !old(self)@.same_shape(m@) ==> r == Err::<(), Error>(Error::DimensionMismatch)
                && *final(self) == *old(self),
    {
        if self.rows != m.rows || self.cols != m.cols {
            return Err(Error::DimensionMismatch);
        }
        let r = added(self, m);
        *self = r;
        Ok(())
    }

    /// The element-wise difference `m1 - m2`, or `DimensionMismatch` where
    /// the shapes differ.
    pub fn subtract(m1: &Matrix<T>, m2: &Matrix<T>) -> (r: Result<Matrix<T>, Error>)
        requires
            m1.wf(),
            m2.wf(),
        ensures
            m1@.same_shape(m2@) ==> r is Ok && r->Ok_0.wf() && r->Ok_0@ == difference(m1@, m2@),
            !m1@.same_shape(m2@) ==> r == Err::<Matrix<T>, Error>(Error::DimensionMismatch),
    {
        if m1.rows != m2.rows || m1.cols != m2.cols {
            return Err(Error::DimensionMismatch);
        }
        Ok(subtracted(m1, m2))
    }

    /// The transpose of `m1`.
    pub fn transpose(m1: &Matrix<T>) -> (r: Matrix<T>)
        requires
            m1.wf(),
        ensures
            r.wf(),
            r@ == transposed(m1@),
    {
        let m = fill(m1.cols, m1.rows, |i: usize, j: usize| -> (v: T)
            requires i < m1.cols, j < m1.rows,
            ensures v == m1@.at(j as int, i as int),
            { m1.get(j, i) });
        proof {
            lemma_grid_equal(m@, transposed(m1@));
        }
        m
    }

    /// The element-wise product of `a` and `b`, or `DimensionMismatch` where
    /// the shapes differ.
    pub fn multiply_1to1(a: &Matrix<T>, b: &Matrix<T>) -> (r: Result<Matrix<T>, Error>)
        requires
            a.wf(),
            b.wf(),
        ensures
            a@.same_shape(b@) ==> r is Ok && r->Ok_0.wf() && r->Ok_0@ == hadamard(a@, b@),
            !a@.same_shape(b@) ==> r == Err::<Matrix<T>, Error>(Error::DimensionMismatch),
    {
        if a.rows != b.rows || a.cols != b.cols {
            return Err(Error::DimensionMismatch);
        }
        Ok(multiplied_cells(a, b))
    }

    /// Multiplies this matrix by `m`, element by element, or leaves it as it
    /// is and returns `DimensionMismatch` where the shapes differ.
    pub fn multiply_with_matrix(&mut self, m: &Matrix<T>) -> (r: Result<(), Error>)
        requires
            old(self).wf(),
            m.wf(),
        ensures
            final(self).wf(),
            old(self)@.same_shape(m@) ==> r is Ok && final(self)@ == hadamard(old(self)@, m@),
            !old(self)@.same_shape(m@) ==> r == Err::<(), Error>(Error::DimensionMismatch)
                && *final(self) == *old(self),
    {
        if self.rows != m.rows || self.cols != m.cols {
            return Err(Error::DimensionMismatch);
        }
        let r = multiplied_cells(self, m);
        *self = r;
        Ok(())
    }

    /// Multiplies every element by `d`.
    pub fn multiply_with_double(&mut self, d: T)
        requires
            old(self).wf(),
        ensures
            final(self).wf(),
            final(self)@ == scaled(old(self)@, d),
    {
        let r = multiplied_by(self, d);
        *self = r;
    }

    /// Replaces every element `x` by `1 / (1 + e^(-x))`.
    pub fn sigmoid(&mut self)
        requires
            old(self).wf(),
        ensures
            final(self).wf(),
            final(self)@ == logistic(old(self)@),
    {
        let r = squashed(self);
        *self = r;
    }

    /// The matrix of `y * (1 - y)` for every element `y` of this matrix,
    /// which is taken to hold values of the logistic function.
    pub fn sigmoid_derivative(&self) -> (r: Matrix<T>)
        requires
            self.wf(),
        ensures
            r.wf(),
            r@ == slopes(self@),
    {
        Matrix::dsigmoid(self)
    }

    /// The column vector with the elements of `arr`.
    pub fn from_array(arr: Vec<T>) -> (r: Matrix<T>)
        ensures
            r.wf(),
            r@ == column(arr@),
    {
        column_from(&arr)
    }

    /// The matrix with the rows of `arr`. The first row gives the number of
    /// columns; a shorter row is filled with zeros.
    pub fn from_2d_array(arr: Vec<Vec<T>>) -> (r: Matrix<T>)
        requires
            arr@.len() > 0,
            forall|i: int| 0 <= i < arr@.len() ==> (#[trigger] arr@[i]).len() <= arr@[0].len(),
        ensures
            r.wf(),
            r@ == padded(Seq::new(arr@.len(), |i: int| arr@[i]@)),
    {
        let r = fill(arr.len(), arr[0].len(), |i: usize, j: usize| -> (v: T)
            requires i < arr.len(),
            ensures v == (if j < arr@[i as int].len() { arr@[i as int][j as int] } else { zero::<T>() }),
            { if j < arr[i].len() { arr[i][j] } else { T::from_ratio(0, 1) } });
        proof {
            lemma_grid_equal(r@, padded(Seq::new(arr@.len(), |i: int| arr@[i]@)));
        }
        r
    }

    /// All elements, row by row.
    pub fn to_array(&self) -> (arr: Vec<T>)
        requires
            self.wf(),
        ensures
            arr@ == flattened(self@),
    {
        let mut arr: Vec<T> = Vec::new();
        let mut i: usize = 0;
        while i < self.rows
            invariant
                self.wf(),
                i <= self.rows,
                arr@ == leading_rows(self@, i as nat),
            decreases self.rows - i,
        {
            let mut j: usize = 0;
            while j < self.cols
                invariant
                    self.wf(),
                    i < self.rows,
                    j <= self.cols,
                    arr@ == leading_rows(self@, i as nat) + self@.cells[i as int].subrange(0, j as int),
                decreases self.cols - j,
            {
                arr.push(self.get(i, j));
                assert(self@.cells[i as int].subrange(0, j + 1) =~= self@.cells[i as int].subrange(
                    0,
                    j as int,
                ).push(self@.at(i as int, j as int)));
                j = j + 1;
            }
            assert(self@.cells[i as int].subrange(0, self.cols as int) =~= self@.cells[i as int]);
            i = i + 1;
        }
        arr
    }
}

} // verus!
