//! The grid generator: the border pass, the labeling pass over a region, the
//! selection mask computed column by column in parallel, and `generate`.

use vstd::prelude::*;
use rayon::iter::IndexedParallelIterator;
use rayon::iter::ParallelIterator;
use rayon::slice::ParallelSliceMut;
use crate::coords::MAX_SIZE;
use crate::labeler::cell_index;
use crate::labeler::col_of;
use crate::labeler::label_at;
use crate::labeler::label_mask;
use crate::labeler::lemma_cell_index;
use crate::labeler::lemma_index_cell;
use crate::labeler::lemma_selected_before_bound;
use crate::labeler::row_of;
use crate::labeler::selected_before;
use crate::shape::cell_selected;
use crate::shape::eligible;
use crate::shape::grid;
use crate::shape::on_border;
use crate::shape::region_contains;
use crate::shape::selects;
use crate::shape::shape_mask;
use crate::shape::shape_of_tag;
use crate::shape::valid_size;
use crate::shape::GridError;
use crate::shape::Shape;

verus! {

/// A grid size squared fits the machine's index type and a 32-bit label.
pub proof fn lemma_size_square(n: int)
    requires
        0 <= n <= MAX_SIZE,
    ensures
        0 <= n * n <= 0xfffe_0001,
{
    assert(0 <= n * n <= 0xfffe_0001) by (nonlinear_arith)
        requires
            0 <= n <= 65535,
    ;
}

/// The buffer after the border pass: zero on the outermost ring, unchanged
/// elsewhere.
pub open spec fn border_zeroed(before: Seq<u32>, n: int) -> Seq<u32> {
    Seq::new(
        before.len(),
        |index: int|
            if on_border(n, row_of(n, index), col_of(n, index)) {
                0u32
            } else {
                before[index]
            },
    )
}

/// Writes zero to the first and last row and the first and last column of
/// an `n x n` buffer, and leaves the other cells as they are.
pub fn set_array_border_zero(n: usize, buffer: &mut [u32])
    requires
        old(buffer)@.len() == n * n,
    ensures
        final(buffer)@ == border_zeroed(old(buffer)@, n as int),
{
    let mut i: usize = 0;
    proof {
        assert forall|index: int| 0 <= index < n * n implies row_of(n as int, index) >= 0
            && col_of(n as int, index) >= 0 by {
            assert(n > 0) by (nonlinear_arith)
                requires
                    0 <= index < n * n,
            ;
            lemma_index_cell(n as int, index);
        }
    }
    while i < n
        invariant
            i <= n,
            buffer@.len() == n * n,
            buffer@.len() == old(buffer)@.len(),
            forall|index: int|
                0 <= index < n * n ==> buffer@[index] == if (row_of(n as int, index) < i && (col_of(
                    n as int,
                    index,
                ) == 0 || col_of(n as int, index) == n - 1)) || (col_of(n as int, index) < i && (
                row_of(n as int, index) == 0 || row_of(n as int, index) == n - 1)) {
                    0u32
                } else {
                    old(buffer)@[index]
                },
        decreases n - i,
    {
        proof {
            lemma_cell_index(n as int, i as int, 0);
            lemma_cell_index(n as int, 0, i as int);
            lemma_cell_index(n as int, n - 1, i as int);
            lemma_cell_index(n as int, i as int, n - 1);
            assert(n * (i + 1) - 1 == n - 1 + i * n) by (nonlinear_arith);
            assert(n * (n - 1) + i == i + (n - 1) * n) by (nonlinear_arith);
            assert(n * (i + 1) <= n * n) by (nonlinear_arith)
                requires
                    i < n,
            ;
        }
        let ghost before = buffer@;
        buffer[i] = 0;
        buffer[i * n] = 0;
        buffer[n * (i + 1) - 1] = 0;
        buffer[n * (n - 1) + i] = 0;
        proof {
            assert forall|index: int| 0 <= index < n * n implies buffer@[index] == if (row_of(
                n as int,
                index,
            ) < i + 1 && (col_of(n as int, index) == 0 || col_of(n as int, index) == n - 1)) || (
            col_of(n as int, index) < i + 1 && (row_of(n as int, index) == 0 || row_of(
                n as int,
                index,
            ) == n - 1)) {
                0u32
            } else {
                old(buffer)@[index]
            } by {
                lemma_index_cell(n as int, index);
                if index != i && index != i * n && index != n * (i + 1) - 1 && index != n * (n - 1)
                    + i {
                    assert(buffer@[index] == before[index]);
                }
            }
        }
        i += 1;
    }
    proof {
        assert forall|index: int| 0 <= index < n * n implies buffer@[index] == border_zeroed(
            old(buffer)@,
            n as int,
        )[index] by {
            assert(n > 0) by (nonlinear_arith)
                requires
                    0 <= index < n * n,
            ;
            lemma_index_cell(n as int, index);
        }
        assert(buffer@ =~= border_zeroed(old(buffer)@, n as int));
    }
}

/// A buffer of `n x n` cells, all of them zero, with the border pass done.
pub fn generate_padded_array(n: usize) -> (out: Vec<u32>)
    requires
        n <= MAX_SIZE,
    ensures
        out@ == Seq::new((n * n) as nat, |index: int| 0u32),
{
    proof {
        lemma_size_square(n as int);
    }
    let mut out: Vec<u32> = vec![0u32; n * n];
    set_array_border_zero(n, out.as_mut_slice());
    assert(out@ =~= Seq::new((n * n) as nat, |index: int| 0u32));
    out
}

/// The selection mask holds, at the index of each cell, whether the region
/// selects the cell.
pub proof fn lemma_mask_at(shape: Shape, n: int, row: int, col: int)
    requires
        0 <= row < n,
        0 <= col < n,
    ensures
        shape_mask(shape, n)[cell_index(n, row, col)] == selects(shape, n, row, col),
{
    lemma_cell_index(n, row, col);
}

/// Passing an unselected cell leaves the count of selected cells as it was.
proof fn lemma_skip_cell(shape: Shape, n: int, row: int, col: int)
    requires
        0 <= row < n,
        0 <= col < n,
        !selects(shape, n, row, col),
    ensures
        selected_before(shape_mask(shape, n), n, row * n + col + 1) == selected_before(
            shape_mask(shape, n),
            n,
            row * n + col,
        ),
{
    lemma_cell_index(n, row, col);
}

/// No cell of the first row of a padded region is selected.
proof fn lemma_skip_first_row(shape: Shape, n: int, col: int)
    requires
        shape.padded(),
        0 <= col <= n,
    ensures
        selected_before(shape_mask(shape, n), n, col) == 0,
    decreases col,
{
    if col > 0 {
        lemma_skip_first_row(shape, n, col - 1);
        lemma_skip_cell(shape, n, 0, col - 1);
        assert(0 * n == 0) by (nonlinear_arith);
    }
}

/// Labels the cells of a region in scan order: walks the eligible cells, the
/// rows in the outer loop and the columns in the inner one, and writes the
/// next label to each cell that the region holds and zero to each one that
/// it does not. For a padded region the outermost ring of the buffer has to
/// be zero already; the pass does not visit it.
pub fn fill_labels(shape: Shape, n: usize, buffer: &mut [u32])
    requires
        valid_size(n as int),
        old(buffer)@.len() == n * n,
        shape.padded() ==> forall|index: int|
            0 <= index < n * n && on_border(n as int, row_of(n as int, index), col_of(n as int, index))
                ==> old(buffer)@[index] == 0,
    ensures
        final(buffer)@ == grid(shape, n as int),
{
    let edge: usize = if shape.is_padded() {
        1
    } else {
        0
    };
    let ghost mask = shape_mask(shape, n as int);
    let mut count: u32 = 0;
    let mut row: usize = edge;
    proof {
        lemma_size_square(n as int);
        if edge == 1 {
            lemma_skip_first_row(shape, n as int, n as int);
            assert(1 * n == n) by (nonlinear_arith);
        } else {
            assert(0 * n == 0) by (nonlinear_arith);
        }
        assert forall|index: int|
            0 <= index < n * n && (row_of(n as int, index) < row || !eligible(
                shape,
                n as int,
                row_of(n as int, index),
                col_of(n as int, index),
            )) implies buffer@[index] == label_at(mask, n as int, index) as u32 by {
            lemma_index_cell(n as int, index);
        }
    }
    while row < n - edge
        invariant
            edge <= row <= n - edge,
            edge <= 1,
            (edge == 1) == shape.padded(),
            valid_size(n as int),
            buffer@.len() == n * n,
            n * n <= 0xfffe_0001,
            mask == shape_mask(shape, n as int),
            count == selected_before(mask, n as int, row * n),
            forall|index: int|
                0 <= index < n * n && (row_of(n as int, index) < row || !eligible(
                    shape,
                    n as int,
                    row_of(n as int, index),
                    col_of(n as int, index),
                )) ==> buffer@[index] == label_at(mask, n as int, index) as u32,
        decreases n - row,
    {
        let mut col: usize = edge;
        proof {
            if edge == 1 {
                lemma_skip_cell(shape, n as int, row as int, 0);
            }
        }
        while col < n - edge
            invariant
                edge <= row < n - edge,
                edge <= col <= n - edge,
                edge <= 1,
                (edge == 1) == shape.padded(),
                valid_size(n as int),
                buffer@.len() == n * n,
                n * n <= 0xfffe_0001,
                mask == shape_mask(shape, n as int),
                count == selected_before(mask, n as int, row * n + col),
                forall|index: int|
                    0 <= index < n * n && (row_of(n as int, index) < row || (row_of(
                        n as int,
                        index,
                    ) == row && col_of(n as int, index) < col) || !eligible(
                        shape,
                        n as int,
                        row_of(n as int, index),
                        col_of(n as int, index),
                    )) ==> buffer@[index] == label_at(mask, n as int, index) as u32,
            decreases n - col,
        {
            proof {
                lemma_cell_index(n as int, row as int, col as int);
                lemma_mask_at(shape, n as int, row as int, col as int);
                lemma_selected_before_bound(mask, n as int, row * n + col);
            }
            let index: usize = row + col * n;
            let ghost before = buffer@;
            if region_contains(shape, n, row, col) {
                count += 1;
                buffer[index] = count;
            } else {
                buffer[index] = 0;
            }
            proof {
                assert forall|i: int|
                    0 <= i < n * n && (row_of(n as int, i) < row || (row_of(n as int, i) == row
                        && col_of(n as int, i) < col + 1) || !eligible(
                        shape,
                        n as int,
                        row_of(n as int, i),
                        col_of(n as int, i),
                    )) implies buffer@[i] == label_at(mask, n as int, i) as u32 by {
                    lemma_index_cell(n as int, i);
                    if i != index {
                        assert(buffer@[i] == before[i]);
                    }
                }
            }
            col += 1;
        }
        proof {
            if edge == 1 {
                lemma_skip_cell(shape, n as int, row as int, n - 1);
            }
            assert(row * n + n == (row + 1) * n) by (nonlinear_arith);
            assert forall|index: int|
                0 <= index < n * n && (row_of(n as int, index) < row + 1 || !eligible(
                    shape,
                    n as int,
                    row_of(n as int, index),
                    col_of(n as int, index),
                )) implies buffer@[index] == label_at(mask, n as int, index) as u32 by {
                lemma_index_cell(n as int, index);
            }
        }
        row += 1;
    }
    proof {
        assert forall|index: int| 0 <= index < n * n implies buffer@[index] == label_at(
            mask,
            n as int,
            index,
        ) as u32 by {
            lemma_index_cell(n as int, index);
        }
        assert(buffer@ =~= grid(shape, n as int));
    }
}

/// Fills one column of a selection mask: the entry of each row says whether
/// the region selects the cell of that row in column `col`.
pub fn mask_column(shape: Shape, n: usize, col: usize, column: &mut [bool])
    requires
        valid_size(n as int),
        col < n,
        old(column)@.len() == n,
    ensures
        final(column)@.len() == n,
        forall|row: int|
            0 <= row < n ==> final(column)@[row] == selects(shape, n as int, row, col as int),
{
    let mut row: usize = 0;
    while row < n
        invariant
            row <= n,
            col < n,
            valid_size(n as int),
            column@.len() == n,
            forall|r: int| 0 <= r < row ==> column@[r] == selects(shape, n as int, r, col as int),
        decreases n - row,
    {
        column[row] = cell_selected(shape, n, row, col);
        row += 1;
    }
}

/// Fills the selection mask of a region, its columns in parallel.
///
/// Calls rayon's `par_chunks_mut`, `enumerate` and `for_each`: the mask is
/// cut into consecutive chunks of `n` entries that do not overlap, chunk
/// `col` holding the entries `col * n` to `col * n + n - 1`, and
/// `mask_column` runs once on each chunk with its number, on some thread.
/// The contract is what `mask_column` ensures of every chunk.
#[verifier::external_body]
fn fill_mask_parallel(shape: Shape, n: usize, mask: &mut Vec<bool>)
    requires
        valid_size(n as int),
        old(mask)@.len() == n * n,
    ensures
        final(mask)@.len() == n * n,
        forall|row: int, col: int|
            0 <= row < n && 0 <= col < n ==> final(mask)@[#[trigger] cell_index(n as int, row, col)]
                == selects(shape, n as int, row, col),
{
    mask.par_chunks_mut(n).enumerate().for_each(
        |(col, column)| mask_column(shape, n, col, column),
    );
}

/// The selection mask of a region, computed column by column in parallel.
pub fn parallel_mask(shape: Shape, n: usize) -> (out: Vec<bool>)
    requires
        valid_size(n as int),
    ensures
        out@ == shape_mask(shape, n as int),
{
    proof {
        lemma_size_square(n as int);
    }
    let mut mask: Vec<bool> = vec![false; n * n];
    fill_mask_parallel(shape, n, &mut mask);
    proof {
        assert forall|index: int| 0 <= index < n * n implies mask@[index] == shape_mask(
            shape,
            n as int,
        )[index] by {
            lemma_index_cell(n as int, index);
        }
        assert(mask@ =~= shape_mask(shape, n as int));
    }
    mask
}

/// What `generate` returns for a region and a size: the labeled grid for a
/// valid size, the error `InvalidSize` for any other.
pub open spec fn generated(shape: Shape, size: int, out: Result<Vec<u32>, GridError>) -> bool {
    if valid_size(size) {
        out.is_ok() && out.unwrap()@ == grid(shape, size)
    } else {
        out == Err::<Vec<u32>, GridError>(GridError::InvalidSize)
    }
}

/// Generates the labeled grid of a region.
///
/// The result holds `size * size` cells, the cell at (`row`, `col`) at index
/// `row + col * size`. Each cell that the region selects carries its rank
/// among the selected cells in scan order, counted from 1; every other cell
/// carries zero. With `parallel` set, the selection mask of the rose is
/// computed in parallel before the labels are assigned in order; the result
/// is the same. For the other regions `parallel` has no effect.
///
/// A size below 2 or above `MAX_SIZE` is refused before anything is
/// computed.
pub fn generate(shape: Shape, size: i64, parallel: bool) -> (out: Result<Vec<u32>, GridError>)
    ensures
        generated(shape, size as int, out),
{
    if size < 2 || size > MAX_SIZE as i64 {
        return Err(GridError::InvalidSize);
    }
    let n: usize = size as usize;
    proof {
        lemma_size_square(n as int);
    }
    if parallel && shape == Shape::Rose {
        let mask: Vec<bool> = parallel_mask(shape, n);
        proof {
            lemma_selected_before_bound(mask@, n as int, n * n);
        }
        Ok(label_mask(mask.as_slice(), n))
    } else {
        let mut buffer: Vec<u32> = if shape.is_padded() {
            generate_padded_array(n)
        } else {
            vec![0u32; n * n]
        };
        fill_labels(shape, n, buffer.as_mut_slice());
        Ok(buffer)
    }
}

/// Generates the labeled grid of the region that a tag names.
///
/// A tag that names no region is refused, whatever the size; for a tag of
/// the catalog the call is `generate` on its region.
pub fn generate_tagged(tag: char, size: i64, parallel: bool) -> (out: Result<Vec<u32>, GridError>)
    ensures
        match shape_of_tag(tag) {
            Some(shape) => generated(shape, size as int, out),
            None => out == Err::<Vec<u32>, GridError>(GridError::UnsupportedShape),
        },
{
    match Shape::from_tag(tag) {
        Ok(shape) => generate(shape, size, parallel),
        Err(error) => Err(error),
    }
}

} // verus!
