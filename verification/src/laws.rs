//! What holds of every labeled grid.

use vstd::prelude::*;
use crate::cardioid::lemma_rim_outside_cardioid;
use crate::coords::column_coordinate;
use crate::coords::law_coordinates_span;
use crate::coords::row_coordinate;
use crate::generator::generated;
use crate::generator::lemma_size_square;
use crate::labeler::col_of;
use crate::labeler::label_at;
use crate::labeler::labels;
use crate::labeler::lemma_index_cell;
use crate::labeler::lemma_selected_before_bound;
use crate::labeler::lemma_selected_before_monotone;
use crate::labeler::row_of;
use crate::region::lemma_rim_outside_disk;
use crate::labeler::scan_index;
use crate::labeler::scan_position_of;
use crate::labeler::selected_before;
use crate::labeler::selected_count;
use crate::shape::eligible;
use crate::shape::grid;
use crate::shape::on_border;
use crate::shape::selects;
use crate::shape::shape_mask;
use crate::shape::valid_size;
use crate::shape::GridError;
use crate::shape::Shape;

verus! {

/// A selected cell carries a label from 1 to the number of selected cells,
/// and an unselected cell carries zero.
pub proof fn law_label_range(mask: Seq<bool>, n: int, index: int)
    requires
        0 < n,
        mask.len() == n * n,
        selected_count(mask, n) <= u32::MAX,
        0 <= index < n * n,
    ensures
        mask[index] ==> 1 <= labels(mask, n)[index] <= selected_count(mask, n),
        !mask[index] ==> labels(mask, n)[index] == 0,
        labels(mask, n)[index] == label_at(mask, n, index),
{
    lemma_index_cell(n, index);
    let k = scan_position_of(n, index);
    lemma_selected_before_monotone(mask, n, k + 1, n * n);
}

/// Of two selected cells, the one that the scan visits first carries the
/// smaller label.
pub proof fn law_labels_increase(mask: Seq<bool>, n: int, first: int, second: int)
    requires
        0 < n,
        mask.len() == n * n,
        selected_count(mask, n) <= u32::MAX,
        0 <= first < n * n,
        0 <= second < n * n,
        mask[first],
        mask[second],
        scan_position_of(n, first) < scan_position_of(n, second),
    ensures
        labels(mask, n)[first] < labels(mask, n)[second],
{
    law_label_range(mask, n, first);
    law_label_range(mask, n, second);
    lemma_index_cell(n, first);
    lemma_index_cell(n, second);
    lemma_selected_before_monotone(
        mask,
        n,
        scan_position_of(n, first) + 1,
        scan_position_of(n, second),
    );
}

/// No label is carried by two cells.
pub proof fn law_labels_distinct(mask: Seq<bool>, n: int, first: int, second: int)
    requires
        0 < n,
        mask.len() == n * n,
        selected_count(mask, n) <= u32::MAX,
        0 <= first < n * n,
        0 <= second < n * n,
        mask[first],
        mask[second],
        first != second,
    ensures
        labels(mask, n)[first] != labels(mask, n)[second],
{
    lemma_index_cell(n, first);
    lemma_index_cell(n, second);
    if scan_position_of(n, first) < scan_position_of(n, second) {
        law_labels_increase(mask, n, first, second);
    } else {
        law_labels_increase(mask, n, second, first);
    }
}

/// Among the first `k` cells of the scan, some selected cell has exactly
/// `label - 1` selected cells before it.
proof fn lemma_label_position(mask: Seq<bool>, n: int, k: int, label: int) -> (position: int)
    requires
        1 <= label <= selected_before(mask, n, k),
    ensures
        0 <= position < k,
        mask[scan_index(n, position)],
        selected_before(mask, n, position) + 1 == label,
    decreases k,
{
    if label <= selected_before(mask, n, k - 1) {
        lemma_label_position(mask, n, k - 1, label)
    } else {
        k - 1
    }
}

/// Every label from 1 to the number of selected cells is carried by some
/// cell: the labels have no gap.
pub proof fn law_label_taken(mask: Seq<bool>, n: int, label: int) -> (index: int)
    requires
        0 < n,
        mask.len() == n * n,
        selected_count(mask, n) <= u32::MAX,
        1 <= label <= selected_count(mask, n),
    ensures
        0 <= index < n * n,
        mask[index],
        labels(mask, n)[index] == label,
{
    let position = lemma_label_position(mask, n, n * n, label);
    let row = position / n;
    let col = position % n;
    vstd::arithmetic::div_mod::lemma_fundamental_div_mod(position, n);
    assert(0 <= row < n) by (nonlinear_arith)
        requires
            0 <= position < n * n,
            position == n * row + col,
            0 <= col < n,
    ;
    crate::labeler::lemma_cell_index(n, row, col);
    assert(n * row == row * n) by (nonlinear_arith);
    let index = scan_index(n, position);
    law_label_range(mask, n, index);
    index
}

/// The selection mask of a region at a valid size can be labeled: it has
/// `n * n` cells, and no more of them are selected than a 32-bit label can
/// count.
pub proof fn lemma_mask_fits(shape: Shape, n: int)
    requires
        valid_size(n),
    ensures
        shape_mask(shape, n).len() == n * n,
        selected_count(shape_mask(shape, n), n) <= n * n <= u32::MAX,
{
    lemma_size_square(n);
    lemma_selected_before_bound(shape_mask(shape, n), n, n * n);
}

/// A cell of a grid carries a label other than zero exactly when the region
/// selects it. So only an eligible cell carries one, and every cell on the
/// outermost ring of a padded region carries zero.
pub proof fn law_label_only_where_selected(shape: Shape, n: int, index: int)
    requires
        valid_size(n),
        0 <= index < n * n,
    ensures
        grid(shape, n).len() == n * n,
        grid(shape, n)[index] != 0 <==> selects(shape, n, row_of(n, index), col_of(n, index)),
        grid(shape, n)[index] != 0 ==> eligible(shape, n, row_of(n, index), col_of(n, index)),
        shape.padded() && on_border(n, row_of(n, index), col_of(n, index)) ==> grid(
            shape,
            n,
        )[index] == 0,
{
    lemma_mask_fits(shape, n);
    law_label_range(shape_mask(shape, n), n, index);
}

/// Every cell on the outermost ring of a grid carries zero: a padded region
/// by its padding, and an unpadded one because its region holds no point on
/// the rim of the square.
pub proof fn law_border_is_zero(shape: Shape, n: int, index: int)
    requires
        valid_size(n),
        0 <= index < n * n,
        on_border(n, row_of(n, index), col_of(n, index)),
    ensures
        grid(shape, n)[index] == 0,
{
    let row = row_of(n, index);
    let col = col_of(n, index);
    law_label_only_where_selected(shape, n, index);
    lemma_index_cell(n, index);
    if !shape.padded() {
        law_coordinates_span(n, row);
        law_coordinates_span(n, col);
        let x = row_coordinate(n, row);
        let y = column_coordinate(n, col);
        lemma_rim_outside_disk(x, y);
        lemma_rim_outside_cardioid(x, y);
    }
}

/// At size 2 every cell lies on the outermost ring, so the grid of every
/// region is all zero.
pub proof fn law_grid_of_two(shape: Shape, index: int)
    requires
        0 <= index < 4,
    ensures
        grid(shape, 2)[index] == 0,
{
    law_border_is_zero(shape, 2, index);
}

/// Two runs of `generate` on the same region and size end alike, whether or
/// not either computed its mask in parallel: both fail with the same error,
/// or both succeed with the same cells.
pub proof fn law_generate_deterministic(
    shape: Shape,
    size: int,
    first: Result<Vec<u32>, GridError>,
    second: Result<Vec<u32>, GridError>,
)
    requires
        generated(shape, size, first),
        generated(shape, size, second),
    ensures
        first.is_ok() <==> second.is_ok(),
        first.is_ok() ==> first.unwrap()@ == second.unwrap()@,
        first.is_err() ==> first.unwrap_err() == second.unwrap_err(),
{
}

} // verus!
