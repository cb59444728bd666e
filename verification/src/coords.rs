//! The mapping from the indices of an `n x n` grid to coordinates in the
//! square from -1 to 1.

use vstd::prelude::*;
use crate::region::lemma_fraction;
use crate::region::lemma_scaled_order;

verus! {

/// The largest grid size: the cells of a larger grid could not all carry
/// distinct 32-bit labels.
pub const MAX_SIZE: usize = 65535;

/// The coordinate `x` of a row: +1 at row 0, falling to -1 at row `n - 1`.
pub open spec fn row_coordinate(n: int, row: int) -> real {
    (n - 1 - 2 * row) as real / (n - 1) as real
}

/// The coordinate `y` of a column: -1 at column 0, rising to +1 at column
/// `n - 1`.
pub open spec fn column_coordinate(n: int, col: int) -> real {
    (2 * col - (n - 1)) as real / (n - 1) as real
}

/// The number of steps along one axis of a grid, by which every coordinate
/// is divided.
pub fn axis_steps(n: usize) -> (m: i64)
    requires
        2 <= n <= MAX_SIZE,
    ensures
        m == n - 1,
{
    (n - 1) as i64
}

/// The coordinate of a row as an exact fraction: its numerator over
/// `axis_steps(n)`.
pub fn row_numerator(n: usize, row: usize) -> (a: i64)
    requires
        2 <= n <= MAX_SIZE,
        row < n,
    ensures
        a == n - 1 - 2 * row,
        -(n - 1) <= a <= n - 1,
        a as real / (n - 1) as real == row_coordinate(n as int, row as int),
{
    (n as i64) - 1 - 2 * (row as i64)
}

/// The coordinate of a column as an exact fraction: its numerator over
/// `axis_steps(n)`.
pub fn column_numerator(n: usize, col: usize) -> (b: i64)
    requires
        2 <= n <= MAX_SIZE,
        col < n,
    ensures
        b == 2 * col - (n - 1),
        -(n - 1) <= b <= n - 1,
        b as real / (n - 1) as real == column_coordinate(n as int, col as int),
{
    2 * (col as i64) - ((n as i64) - 1)
}

/// The rows run from `x = 1` at row 0 down to `x = -1` at the last row, and
/// the columns from `y = -1` at column 0 up to `y = 1` at the last column;
/// in between the coordinates stay within the square, and a row and a
/// column of the same index lie opposite each other.
pub proof fn law_coordinates_span(n: int, i: int)
    requires
        2 <= n,
        0 <= i < n,
    ensures
        row_coordinate(n, 0) == 1real,
        row_coordinate(n, n - 1) == -1real,
        column_coordinate(n, 0) == -1real,
        column_coordinate(n, n - 1) == 1real,
        -1real <= row_coordinate(n, i) <= 1real,
        column_coordinate(n, i) == -row_coordinate(n, i),
{
    let m = n - 1;
    let mr = m as real;
    lemma_fraction(m, m);
    lemma_fraction(-m, m);
    lemma_fraction(m - 2 * i, m);
    lemma_fraction(2 * i - m, m);
    assert(1real * mr == mr && -1real * mr == -mr) by (nonlinear_arith);
    lemma_scaled_order(row_coordinate(n, 0), 1real, mr);
    lemma_scaled_order(row_coordinate(n, n - 1), -1real, mr);
    lemma_scaled_order(column_coordinate(n, 0), -1real, mr);
    lemma_scaled_order(column_coordinate(n, n - 1), 1real, mr);
    lemma_scaled_order(row_coordinate(n, i), 1real, mr);
    lemma_scaled_order(-1real, row_coordinate(n, i), mr);
    let x = row_coordinate(n, i);
    let y = column_coordinate(n, i);
    assert((-x) * mr == -(x * mr)) by (nonlinear_arith);
    lemma_scaled_order(y, -x, mr);
}

/// The coordinates fall from each row to the next and rise from each column
/// to the next.
pub proof fn law_coordinates_ordered(n: int, i: int, j: int)
    requires
        2 <= n,
        i < j,
    ensures
        row_coordinate(n, i) > row_coordinate(n, j),
        column_coordinate(n, i) < column_coordinate(n, j),
{
    let m = n - 1;
    let mr = m as real;
    lemma_fraction(m - 2 * i, m);
    lemma_fraction(m - 2 * j, m);
    lemma_fraction(2 * i - m, m);
    lemma_fraction(2 * j - m, m);
    lemma_scaled_order(row_coordinate(n, j), row_coordinate(n, i), mr);
    lemma_scaled_order(column_coordinate(n, i), column_coordinate(n, j), mr);
}

} // verus!
