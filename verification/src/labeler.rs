//! The scan order of a square grid and the sequential labeling pass.

use vstd::prelude::*;
use vstd::arithmetic::div_mod::lemma_fundamental_div_mod;
use vstd::arithmetic::div_mod::lemma_fundamental_div_mod_converse;

verus! {

/// Index in the buffer of the cell at (`row`, `col`): the row index varies
/// fastest.
pub open spec fn cell_index(n: int, row: int, col: int) -> int {
    row + col * n
}

/// Row of the cell stored at `index`.
pub open spec fn row_of(n: int, index: int) -> int {
    index % n
}

/// Column of the cell stored at `index`.
pub open spec fn col_of(n: int, index: int) -> int {
    index / n
}

/// Position in the scan of the cell at (`row`, `col`): the scan walks the rows
/// in its outer loop and the columns in its inner loop.
pub open spec fn scan_position(n: int, row: int, col: int) -> int {
    row * n + col
}

/// Position in the scan of the cell stored at `index`.
pub open spec fn scan_position_of(n: int, index: int) -> int {
    scan_position(n, row_of(n, index), col_of(n, index))
}

/// Buffer index of the cell that the scan visits at position `k`.
pub open spec fn scan_index(n: int, k: int) -> int {
    cell_index(n, k / n, k % n)
}

/// Number of selected cells among the first `k` cells of the scan.
pub open spec fn selected_before(mask: Seq<bool>, n: int, k: int) -> nat
    decreases k,
{
    if k <= 0 {
        0
    } else {
        selected_before(mask, n, k - 1) + if mask[scan_index(n, k - 1)] {
            1nat
        } else {
            0nat
        }
    }
}

/// Number of selected cells of an `n x n` mask.
pub open spec fn selected_count(mask: Seq<bool>, n: int) -> nat {
    selected_before(mask, n, n * n)
}

/// Label of the cell stored at `index`: zero for an unselected cell, for a
/// selected one its rank among the selected cells in scan order, from 1.
pub open spec fn label_at(mask: Seq<bool>, n: int, index: int) -> nat {
    if mask[index] {
        selected_before(mask, n, scan_position_of(n, index)) + 1
    } else {
        0
    }
}

/// The labeled buffer of an `n x n` mask.
pub open spec fn labels(mask: Seq<bool>, n: int) -> Seq<u32> {
    Seq::new(mask.len(), |index: int| label_at(mask, n, index) as u32)
}

/// A cell's row and column are recovered from its buffer index.
pub proof fn lemma_cell_index(n: int, row: int, col: int)
    requires
        0 <= row < n,
        0 <= col < n,
    ensures
        0 <= cell_index(n, row, col) < n * n,
        row_of(n, cell_index(n, row, col)) == row,
        col_of(n, cell_index(n, row, col)) == col,
        scan_position_of(n, cell_index(n, row, col)) == scan_position(n, row, col),
        scan_index(n, scan_position(n, row, col)) == cell_index(n, row, col),
        0 <= scan_position(n, row, col) < n * n,
{
    lemma_fundamental_div_mod_converse(row + col * n, n, col, row);
    lemma_fundamental_div_mod_converse(row * n + col, n, row, col);
    assert(col * n + n <= n * n) by (nonlinear_arith)
        requires
            0 <= col < n,
    ;
    assert(row * n + n <= n * n) by (nonlinear_arith)
        requires
            0 <= row < n,
    ;
    assert(0 <= col * n && 0 <= row * n) by (nonlinear_arith)
        requires
            0 <= col,
            0 <= row,
            0 < n,
    ;
}

/// Every buffer index is the index of exactly one cell.
pub proof fn lemma_index_cell(n: int, index: int)
    requires
        0 < n,
        0 <= index < n * n,
    ensures
        0 <= row_of(n, index) < n,
        0 <= col_of(n, index) < n,
        cell_index(n, row_of(n, index), col_of(n, index)) == index,
        0 <= scan_position_of(n, index) < n * n,
        scan_index(n, scan_position_of(n, index)) == index,
{
    lemma_fundamental_div_mod(index, n);
    let r = index % n;
    let c = index / n;
    assert(n * c == c * n) by (nonlinear_arith);
    assert(0 <= c < n) by (nonlinear_arith)
        requires
            0 <= index < n * n,
            index == c * n + r,
            0 <= r < n,
    ;
    lemma_cell_index(n, r, c);
}

/// The count of selected cells grows along the scan.
pub proof fn lemma_selected_before_monotone(mask: Seq<bool>, n: int, j: int, k: int)
    requires
        j <= k,
    ensures
        selected_before(mask, n, j) <= selected_before(mask, n, k),
    decreases k,
{
    if k > j && k > 0 {
        lemma_selected_before_monotone(mask, n, j, k - 1);
    }
}

/// No more cells are selected than the scan has visited.
pub proof fn lemma_selected_before_bound(mask: Seq<bool>, n: int, k: int)
    requires
        0 <= k,
    ensures
        selected_before(mask, n, k) <= k,
    decreases k,
{
    if k > 0 {
        lemma_selected_before_bound(mask, n, k - 1);
    }
}

/// Labels every cell of an `n x n` selection mask: a selected cell receives
/// its rank among the selected cells in scan order, counted from 1, and an
/// unselected cell receives zero.
pub fn label_mask(mask: &[bool], n: usize) -> (out: Vec<u32>)
    requires
        mask@.len() == n * n,
        selected_count(mask@, n as int) <= u32::MAX,
    ensures
        out@ == labels(mask@, n as int),
{
    let len: usize = mask.len();
    let mut out: Vec<u32> = vec![0u32; len];
    let mut count: u32 = 0;
    let mut row: usize = 0;
    while row < n
        invariant
            row <= n,
            len == n * n,
            mask@.len() == len,
            out@.len() == len,
            selected_count(mask@, n as int) <= u32::MAX,
            count == selected_before(mask@, n as int, row * n),
            forall|i: int|
                0 <= i < len ==> out@[i] == if scan_position_of(n as int, i) < row * n {
                    label_at(mask@, n as int, i) as u32
                } else {
                    0u32
                },
        decreases n - row,
    {
        let mut col: usize = 0;
        while col < n
            invariant
                row < n,
                col <= n,
                len == n * n,
                mask@.len() == len,
                out@.len() == len,
                selected_count(mask@, n as int) <= u32::MAX,
                count == selected_before(mask@, n as int, row * n + col),
                forall|i: int|
                    0 <= i < len ==> out@[i] == if scan_position_of(n as int, i) < row * n + col {
                        label_at(mask@, n as int, i) as u32
                    } else {
                        0u32
                    },
            decreases n - col,
        {
            proof {
                lemma_cell_index(n as int, row as int, col as int);
                lemma_selected_before_monotone(mask@, n as int, row * n + col + 1, n * n);
            }
            let index: usize = row + col * n;
            let ghost before = out@;
            if mask[index] {
                count += 1;
                out[index] = count;
            } else {
                out[index] = 0;
            }
            proof {
                assert forall|i: int| 0 <= i < len implies out@[i] == if scan_position_of(
                    n as int,
                    i,
                ) < row * n + col + 1 {
                    label_at(mask@, n as int, i) as u32
                } else {
                    0u32
                } by {
                    lemma_index_cell(n as int, i);
                    if i != index {
                        assert(out@[i] == before[i]);
                        assert(scan_position_of(n as int, i) != row * n + col);
                    }
                }
            }
            col += 1;
        }
        proof {
            assert(row * n + n == (row + 1) * n) by (nonlinear_arith);
        }
        row += 1;
    }
    proof {
        assert forall|i: int| 0 <= i < len implies out@[i] == label_at(mask@, n as int, i) as u32 by {
            lemma_index_cell(n as int, i);
        }
        assert(out@ =~= labels(mask@, n as int));
    }
    out
}

} // verus!
