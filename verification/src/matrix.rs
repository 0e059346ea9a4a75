use vstd::prelude::*;

use simple_matrix::Matrix;

use crate::lines::column_of;

verus! {

#[verifier::external_type_specification]
#[verifier::external_body]
#[verifier::reject_recursive_types(T)]
pub struct ExMatrix<T>(Matrix<T>);

/// What a character matrix holds: its rows, top to bottom, each one the
/// cells of that row from left to right.
pub uninterp spec fn mat_cells(m: &Matrix<char>) -> Seq<Seq<char>>;

/// The column count the matrix was built with.
pub uninterp spec fn mat_width(m: &Matrix<char>) -> nat;

/// Relies on simple_matrix's Matrix::new: a rows-by-cols matrix whose
/// cells hold char's default, the NUL character. It panics when either
/// dimension is zero, and builds its backing store from the product of
/// the dimensions, so both cases are ruled out here.
#[verifier::external_body]
pub(crate) fn mat_new(rows: usize, cols: usize) -> (m: Matrix<char>)
    requires
        rows >= 1,
        cols >= 1,
        rows * cols <= usize::MAX,
    ensures
        mat_cells(&m).len() == rows,
        mat_width(&m) == cols,
        forall|r: int| 0 <= r < rows ==> (#[trigger] mat_cells(&m)[r]).len() == cols,
        forall|r: int, c: int|
            0 <= r < rows && 0 <= c < cols ==> #[trigger] mat_cells(&m)[r][c] == '\0',
{
    Matrix::new(rows, cols)
}

/// Relies on Matrix::rows: the row count the matrix was built with.
#[verifier::external_body]
pub(crate) fn mat_rows(m: &Matrix<char>) -> (r: usize)
    ensures
        r == mat_cells(m).len(),
{
    m.rows()
}

/// Relies on Matrix::cols: the column count the matrix was built with.
#[verifier::external_body]
pub(crate) fn mat_cols(m: &Matrix<char>) -> (r: usize)
    ensures
        r == mat_width(m),
{
    m.cols()
}

/// Relies on Matrix::get: the cell when both indices are in bounds, and
/// nothing otherwise.
#[verifier::external_body]
pub(crate) fn mat_get(m: &Matrix<char>, row: usize, col: usize) -> (r: Option<char>)
    ensures
        (match r {
            Some(c) => row < mat_cells(m).len() && col < mat_width(m) && c == mat_cells(
                m,
            )[row as int][col as int],
            None => row >= mat_cells(m).len() || col >= mat_width(m),
        }),
{
    m.get(row, col).copied()
}

/// Relies on Matrix::set: writes the cell when both indices are in bounds
/// and does nothing otherwise.
#[verifier::external_body]
pub(crate) fn mat_set(m: &mut Matrix<char>, row: usize, col: usize, val: char)
    ensures
        mat_width(final(m)) == mat_width(old(m)),
        row < mat_cells(old(m)).len() && col < mat_width(old(m)) ==> mat_cells(final(m))
            == mat_cells(old(m)).update(
            row as int,
            mat_cells(old(m))[row as int].update(col as int, val),
        ),
        !(row < mat_cells(old(m)).len() && col < mat_width(old(m))) ==> mat_cells(final(m))
            == mat_cells(old(m)),
{
    m.set(row, col, val);
}

/// Relies on Matrix::get_row: an iterator over the cells of the row when
/// it is in bounds, collected here into a string.
#[verifier::external_body]
pub(crate) fn mat_get_row(m: &Matrix<char>, row: usize) -> (r: Option<String>)
    ensures
        (match r {
            Some(s) => row < mat_cells(m).len() && s@ == mat_cells(m)[row as int],
            None => row >= mat_cells(m).len(),
        }),
{
    m.get_row(row).map(|it| it.collect())
}

/// Relies on Matrix::get_col: an iterator over the cells of the column
/// when it is in bounds, collected here into a string.
#[verifier::external_body]
pub(crate) fn mat_get_col(m: &Matrix<char>, col: usize) -> (r: Option<String>)
    ensures
        (match r {
            Some(s) => col < mat_width(m) && s@ == column_of(mat_cells(m), col as int),
            None => col >= mat_width(m),
        }),
{
    m.get_col(col).map(|it| it.collect())
}

/// Relies on the derived Clone of Matrix: a field-for-field copy, so the
/// dimensions and the cells are kept.
#[verifier::external_body]
pub(crate) fn mat_clone(m: &Matrix<char>) -> (r: Matrix<char>)
    ensures
        mat_cells(&r) == mat_cells(m),
        mat_width(&r) == mat_width(m),
{
    m.clone()
}

} // verus!
