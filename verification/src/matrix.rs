//! The feature matrix: a two-dimensional `ndarray` array of fixed-point
//! coordinates, read through a small trusted interface.

use crate::error::ClusterError;
use ndarray::Array2;
use vstd::prelude::*;

verus! {

/// `ndarray::ShapeError`, the error of a shape that does not fit its buffer.
/// It is carried through unread.
#[verifier::external_type_specification]
#[verifier::external_body]
pub struct ExShapeError(ndarray::ShapeError);

/// A dense matrix of fixed-point coordinates, one row per point. The cells
/// live in an `ndarray::Array2<i64>`, so every row has the same width. The
/// array is opaque to the verifier: what it holds is named by `matrix_rows`
/// and `matrix_width`, and read through the functions below.
#[verifier::external_body]
#[derive(Debug)]
pub struct FeatureMatrix {
    cells: Array2<i64>,
}

/// The cells of a matrix, row by row: `matrix_rows(m)[i][j]` is the cell in
/// row `i` and column `j`.
pub uninterp spec fn matrix_rows(m: FeatureMatrix) -> Seq<Seq<i64>>;

/// The length of the second axis of a matrix: the number of cells in each of
/// its rows, defined also when it has no rows.
pub uninterp spec fn matrix_width(m: FeatureMatrix) -> nat;

/// Every row of `rows` has exactly `width` cells.
pub open spec fn rectangular(rows: Seq<Seq<i64>>, width: int) -> bool {
    forall|i: int| 0 <= i < rows.len() ==> (#[trigger] rows[i]).len() == width
}

/// The width that a list of rows asks for: that of its first row, or zero
/// when there is none.
pub open spec fn first_width(rows: Seq<Seq<i64>>) -> int {
    if rows.len() == 0 {
        0
    } else {
        rows[0].len() as int
    }
}

/// The product of the axis lengths that are not zero. An array can be
/// addressed only while this stays within `isize::MAX`.
pub open spec fn axis_product(nrows: int, ncols: int) -> int {
    (if nrows == 0 { 1 } else { nrows }) * (if ncols == 0 { 1 } else { ncols })
}

/// When a shape is accepted for a buffer of `len` cells: the buffer is filled
/// exactly and the array can be addressed.
pub open spec fn shape_accepted(nrows: int, ncols: int, len: int) -> bool {
    nrows * ncols == len && axis_product(nrows, ncols) <= isize::MAX
}

/// `rows` is the row-major reading of `cells` with the shape
/// `(nrows, ncols)`.
pub open spec fn laid_out(rows: Seq<Seq<i64>>, nrows: int, ncols: int, cells: Seq<i64>) -> bool {
    &&& rows.len() == nrows
    &&& rectangular(rows, ncols)
    &&& forall|i: int, j: int|
        0 <= i < nrows && 0 <= j < ncols ==> (#[trigger] rows[i][j]) == cells[i * ncols + j]
}

/// The rows of a vector of vectors as a sequence of sequences.
pub open spec fn rows_view(rows: Seq<Vec<i64>>) -> Seq<Seq<i64>> {
    Seq::new(rows.len(), |i: int| rows[i]@)
}

/// Calls `ArrayBase::nrows`: the length of the first axis, which is the
/// number of rows that the matrix holds.
#[verifier::external_body]
pub(crate) fn row_count(m: &FeatureMatrix) -> (n: usize)
    ensures
        n == matrix_rows(*m).len(),
{
    m.cells.nrows()
}

/// Calls `ArrayBase::ncols`: the length of the second axis, which is the
/// number of cells in each row of the matrix.
#[verifier::external_body]
pub(crate) fn column_count(m: &FeatureMatrix) -> (c: usize)
    ensures
        c == matrix_width(*m),
        rectangular(matrix_rows(*m), c as int),
{
    m.cells.ncols()
}

/// Calls `Index::index` of the array with `[row, col]`, which yields the cell
/// at that place. It panics when the index is out of bounds, so both
/// coordinates must be in range.
#[verifier::external_body]
pub(crate) fn cell(m: &FeatureMatrix, row: usize, col: usize) -> (v: i64)
    requires
        row < matrix_rows(*m).len(),
        col < matrix_rows(*m)[row as int].len(),
    ensures
        v == matrix_rows(*m)[row as int][col as int],
{
    m.cells[[row, col]]
}

/// Calls `Array2::from_shape_vec` with the shape `(nrows, ncols)` and the
/// default row-major layout. It succeeds exactly when the vector holds
/// `nrows * ncols` cells and the product of the non-zero axis lengths fits in
/// `isize`; the cell at `[i, j]` is then the vector's item `i * ncols + j`.
#[verifier::external_body]
fn assemble(nrows: usize, ncols: usize, cells: Vec<i64>) -> (r: Result<
    FeatureMatrix,
    ndarray::ShapeError,
>)
    ensures
        r is Ok == shape_accepted(nrows as int, ncols as int, cells@.len() as int),
        r matches Ok(m) ==> laid_out(matrix_rows(m), nrows as int, ncols as int, cells@),
        r matches Ok(m) ==> matrix_width(m) == ncols,
{
    Array2::from_shape_vec((nrows, ncols), cells).map(|cells| FeatureMatrix { cells })
}

impl View for FeatureMatrix {
    type V = Seq<Seq<i64>>;

    open spec fn view(&self) -> Seq<Seq<i64>> {
        matrix_rows(*self)
    }
}

proof fn lemma_row_offset(r: int, i: int, width: int, c: int)
    requires
        0 <= r < i,
        0 <= c < width,
    ensures
        0 <= r * width + c < i * width,
{
    assert(r * width + width == (r + 1) * width) by (nonlinear_arith);
    assert((r + 1) * width <= i * width) by (nonlinear_arith)
        requires
            r + 1 <= i,
            0 <= width,
    ;
    assert(0 <= r * width) by (nonlinear_arith)
        requires
            0 <= r,
            0 <= width,
    ;
}

impl FeatureMatrix {
    /// The number of cells in each row.
    pub open spec fn width(&self) -> nat {
        matrix_width(*self)
    }

    /// Builds a matrix from its rows. The rows must all have the width of the
    /// first one, and the matrix must be small enough to be addressed;
    /// otherwise the shape is refused.
    pub fn from_rows(rows: &Vec<Vec<i64>>) -> (r: Result<FeatureMatrix, ClusterError>)
        ensures
            r is Ok <==> rectangular(rows_view(rows@), first_width(rows_view(rows@)))
                && axis_product(rows@.len() as int, first_width(rows_view(rows@))) <= isize::MAX,
            r matches Ok(m) ==> m@ == rows_view(rows@) && m.width() == first_width(
                rows_view(rows@),
            ),
            r matches Err(e) ==> e == ClusterError::ShapeMismatch,
    {
        let n = rows.len();
        let width: usize = if n == 0 {
            0
        } else {
            rows[0].len()
        };
        let ghost model = rows_view(rows@);
        let mut flat: Vec<i64> = Vec::new();
        let mut i: usize = 0;
        while i < n
            invariant
                i <= n,
                n == rows@.len(),
                model == rows_view(rows@),
                width == first_width(model),
                forall|r: int| 0 <= r < i ==> (#[trigger] model[r]).len() == width,
                flat@.len() == i * width,
                forall|r: int, c: int|
                    0 <= r < i && 0 <= c < width ==> flat@[r * width + c] == #[trigger] model[r][c],
            decreases n - i,
        {
            let row = &rows[i];
            assert(row@ == model[i as int]);
            if row.len() != width {
                return Err(ClusterError::ShapeMismatch);
            }
            let mut j: usize = 0;
            while j < width
                invariant
                    j <= width,
                    i < n,
                    row@ == model[i as int],
                    row@.len() == width,
                    flat@.len() == i * width + j,
                    forall|r: int, c: int|
                        0 <= r < i && 0 <= c < width ==> flat@[r * width + c]
                            == #[trigger] model[r][c],
                    forall|c: int| 0 <= c < j ==> flat@[i * width + c] == #[trigger] row@[c],
                decreases width - j,
            {
                let ghost before = flat@;
                flat.push(row[j]);
                proof {
                    assert forall|r: int, c: int| 0 <= r < i && 0 <= c < width implies flat@[r
                        * width + c] == #[trigger] model[r][c] by {
                        lemma_row_offset(r, i as int, width as int, c);
                        assert(before[r * width + c] == model[r][c]);
                    }
                }
                j += 1;
            }
            proof {
                assert((i + 1) * width == i * width + width) by (nonlinear_arith);
                assert forall|r: int, c: int| 0 <= r < i + 1 && 0 <= c < width implies flat@[r
                    * width + c] == #[trigger] model[r][c] by {
                    if r == i {
                        assert(flat@[i * width + c] == row@[c]);
                    }
                }
            }
            i += 1;
        }
        assert(rectangular(model, width as int));
        match assemble(n, width, flat) {
            Ok(m) => {
                proof {
                    assert forall|r: int| 0 <= r < n implies #[trigger] m@[r] == model[r] by {
                        assert(m@[r].len() == width);
                        assert(model[r].len() == width);
                        assert forall|c: int| 0 <= c < width implies m@[r][c] == model[r][c] by {
                            assert(matrix_rows(m)[r][c] == flat@[r * width + c]);
                        }
                        assert(m@[r] =~= model[r]);
                    }
                    assert(m@ =~= model);
                }
                Ok(m)
            },
            Err(_) => Err(ClusterError::ShapeMismatch),
        }
    }

    /// The number of rows.
    pub fn nrows(&self) -> (n: usize)
        ensures
            n == self@.len(),
    {
        row_count(self)
    }

    /// The number of cells in every row.
    pub fn ncols(&self) -> (c: usize)
        ensures
            c == self.width(),
            rectangular(self@, c as int),
    {
        column_count(self)
    }

    /// The cell in row `row` and column `col`, if there is one.
    pub fn get(&self, row: usize, col: usize) -> (v: Option<i64>)
        ensures
            v is Some <==> row < self@.len() && col < self.width(),
            v matches Some(x) ==> x == self@[row as int][col as int],
    {
        if row < row_count(self) && col < column_count(self) {
            Some(cell(self, row, col))
        } else {
            None
        }
    }
}

} // verus!
