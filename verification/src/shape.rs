//! The catalog of regions, and which cells of a grid each one selects.

use vstd::prelude::*;
use crate::cardioid::cardioid_contains;
use crate::cardioid::in_cardioid;
use crate::coords::axis_steps;
use crate::coords::column_coordinate;
use crate::coords::column_numerator;
use crate::coords::row_coordinate;
use crate::coords::row_numerator;
use crate::coords::MAX_SIZE;
use crate::labeler::col_of;
use crate::labeler::labels;
use crate::labeler::row_of;
use crate::region::annulus_contains;
use crate::region::crescent_contains;
use crate::region::disk_contains;
use crate::region::in_annulus;
use crate::region::in_crescent;
use crate::region::in_disk;
use crate::rose::in_rose;
use crate::rose::rose_contains;

verus! {

/// One of the seven regions.
#[derive(Clone, Copy, Debug, PartialEq, Eq, Structural)]
pub enum Shape {
    /// The whole square, tag `S`.
    Square,
    /// The square without one quadrant, tag `L`.
    LShape,
    /// The square without a disk around one corner, tag `C`.
    Crescent,
    /// The unit disk, tag `D`.
    Disk,
    /// The unit disk without a smaller disk, tag `A`.
    Annulus,
    /// The heart-shaped region, tag `H`.
    Cardioid,
    /// The rose, tag `B`.
    Rose,
}

/// Why a grid was not generated.
#[derive(Clone, Copy, Debug, PartialEq, Eq, Structural)]
pub enum GridError {
    /// The grid size is below 2 or above `MAX_SIZE`.
    InvalidSize,
    /// The tag names no region of the catalog.
    UnsupportedShape,
}

/// The region that a tag names, if any.
pub open spec fn shape_of_tag(tag: char) -> Option<Shape> {
    if tag == 'S' {
        Some(Shape::Square)
    } else if tag == 'L' {
        Some(Shape::LShape)
    } else if tag == 'C' {
        Some(Shape::Crescent)
    } else if tag == 'D' {
        Some(Shape::Disk)
    } else if tag == 'A' {
        Some(Shape::Annulus)
    } else if tag == 'H' {
        Some(Shape::Cardioid)
    } else if tag == 'B' {
        Some(Shape::Rose)
    } else {
        None
    }
}

impl Shape {
    /// Whether the outermost ring of cells is set to zero before the region
    /// is tested.
    pub open spec fn padded(self) -> bool {
        self == Shape::Square || self == Shape::LShape || self == Shape::Crescent || self
            == Shape::Rose
    }

    /// Whether the outermost ring of cells is set to zero before the region
    /// is tested.
    pub fn is_padded(self) -> (out: bool)
        ensures
            out == self.padded(),
    {
        match self {
            Shape::Square | Shape::LShape | Shape::Crescent | Shape::Rose => true,
            Shape::Disk | Shape::Annulus | Shape::Cardioid => false,
        }
    }

    /// The tag of the region.
    pub open spec fn spec_tag(self) -> char {
        match self {
            Shape::Square => 'S',
            Shape::LShape => 'L',
            Shape::Crescent => 'C',
            Shape::Disk => 'D',
            Shape::Annulus => 'A',
            Shape::Cardioid => 'H',
            Shape::Rose => 'B',
        }
    }

    /// The tag of the region.
    pub fn tag(self) -> (out: char)
        ensures
            out == self.spec_tag(),
            shape_of_tag(out) == Some(self),
    {
        match self {
            Shape::Square => 'S',
            Shape::LShape => 'L',
            Shape::Crescent => 'C',
            Shape::Disk => 'D',
            Shape::Annulus => 'A',
            Shape::Cardioid => 'H',
            Shape::Rose => 'B',
        }
    }

    /// The region that a tag names: one of the capital letters `S`, `L`,
    /// `C`, `D`, `A`, `H`, `B`. Any other tag is unsupported.
    pub fn from_tag(tag: char) -> (out: Result<Shape, GridError>)
        ensures
            match shape_of_tag(tag) {
                Some(shape) => out == Ok::<Shape, GridError>(shape),
                None => out == Err::<Shape, GridError>(GridError::UnsupportedShape),
            },
    {
        if tag == 'S' {
            Ok(Shape::Square)
        } else if tag == 'L' {
            Ok(Shape::LShape)
        } else if tag == 'C' {
            Ok(Shape::Crescent)
        } else if tag == 'D' {
            Ok(Shape::Disk)
        } else if tag == 'A' {
            Ok(Shape::Annulus)
        } else if tag == 'H' {
            Ok(Shape::Cardioid)
        } else if tag == 'B' {
            Ok(Shape::Rose)
        } else {
            Err(GridError::UnsupportedShape)
        }
    }
}

/// Whether a size is one that a grid can have.
pub open spec fn valid_size(n: int) -> bool {
    2 <= n <= MAX_SIZE
}

/// Whether the cell at (`row`, `col`) lies on the outermost ring of the grid.
pub open spec fn on_border(n: int, row: int, col: int) -> bool {
    row == 0 || row == n - 1 || col == 0 || col == n - 1
}

/// Whether the cell at (`row`, `col`) may carry a label: any cell of the grid
/// for an unpadded region, any cell off the outermost ring for a padded one.
pub open spec fn eligible(shape: Shape, n: int, row: int, col: int) -> bool {
    0 <= row < n && 0 <= col < n && !(shape.padded() && on_border(n, row, col))
}

/// The width of the lower arm of the L-shape.
pub open spec fn l_width(n: int) -> int {
    (n - 2) / 2
}

/// Whether the region holds the cell at (`row`, `col`): the square and the
/// L-shape are tested on the indices, the other regions on the cell's
/// coordinates.
pub open spec fn in_region(shape: Shape, n: int, row: int, col: int) -> bool {
    let x = row_coordinate(n, row);
    let y = column_coordinate(n, col);
    match shape {
        Shape::Square => true,
        Shape::LShape => row > l_width(n) || col <= l_width(n),
        Shape::Crescent => in_crescent(x, y),
        Shape::Disk => in_disk(x, y),
        Shape::Annulus => in_annulus(x, y),
        Shape::Cardioid => in_cardioid(x, y),
        Shape::Rose => in_rose(x, y),
    }
}

/// Whether the cell at (`row`, `col`) is selected: it is eligible and the
/// region holds it.
pub open spec fn selects(shape: Shape, n: int, row: int, col: int) -> bool {
    eligible(shape, n, row, col) && in_region(shape, n, row, col)
}

/// The selection mask of a region on a grid of size `n`, indexed as the
/// buffer is.
pub open spec fn shape_mask(shape: Shape, n: int) -> Seq<bool> {
    Seq::new((n * n) as nat, |index: int| selects(shape, n, row_of(n, index), col_of(n, index)))
}

/// The labeled grid of a region at size `n`.
pub open spec fn grid(shape: Shape, n: int) -> Seq<u32> {
    labels(shape_mask(shape, n), n)
}

/// Whether the region holds the cell at (`row`, `col`).
pub fn region_contains(shape: Shape, n: usize, row: usize, col: usize) -> (out: bool)
    requires
        valid_size(n as int),
        row < n,
        col < n,
    ensures
        out == in_region(shape, n as int, row as int, col as int),
{
    match shape {
        Shape::Square => true,
        Shape::LShape => {
            let width: usize = (n - 2) / 2;
            row > width || col <= width
        },
        Shape::Crescent => crescent_contains(
            row_numerator(n, row),
            column_numerator(n, col),
            axis_steps(n),
        ),
        Shape::Disk => disk_contains(row_numerator(n, row), column_numerator(n, col), axis_steps(n)),
        Shape::Annulus => annulus_contains(
            row_numerator(n, row),
            column_numerator(n, col),
            axis_steps(n),
        ),
        Shape::Cardioid => cardioid_contains(
            row_numerator(n, row),
            column_numerator(n, col),
            axis_steps(n),
        ),
        Shape::Rose => rose_contains(row_numerator(n, row), column_numerator(n, col), axis_steps(n)),
    }
}

/// Whether the cell at (`row`, `col`) is selected.
pub fn cell_selected(shape: Shape, n: usize, row: usize, col: usize) -> (out: bool)
    requires
        valid_size(n as int),
        row < n,
        col < n,
    ensures
        out == selects(shape, n as int, row as int, col as int),
{
    if shape.is_padded() && (row == 0 || row == n - 1 || col == 0 || col == n - 1) {
        false
    } else {
        region_contains(shape, n, row, col)
    }
}

} // verus!
