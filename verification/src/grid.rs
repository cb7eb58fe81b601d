//! Cells of the occupancy grid, and which of them a region covers.

use crate::region::{DomainRegion, RegionView, TargetRegionView};
use crate::single::Single;
use vstd::prelude::*;

verus! {

/// `f32::MAX`.
pub const LARGEST: u32 = 0x7f7f_ffff;

/// `f32::MIN`.
pub const SMALLEST: u32 = 0xff7f_ffff;

/// A block of cells, both ends included.
pub struct CellRange {
    pub start_x: int,
    pub end_x: int,
    pub start_y: int,
    pub end_y: int,
}

impl CellRange {
    /// The block holds the cell.
    pub open spec fn contains(self, cell: (int, int)) -> bool {
        self.start_x <= cell.0 <= self.end_x && self.start_y <= cell.1 <= self.end_y
    }

    /// The block holds no cell.
    pub open spec fn empty(self) -> bool {
        self.start_x > self.end_x || self.start_y > self.end_y
    }

    /// How many cells there are in a row.
    pub open spec fn width(self) -> nat {
        if self.start_x > self.end_x {
            0
        } else {
            (self.end_x - self.start_x + 1) as nat
        }
    }

    /// The cells of one row, as they are entered for a session: 32 bits for each coordinate.
    pub open spec fn row(self, y: int) -> Seq<(u32, u32)> {
        Seq::new(self.width(), |i: int| ((self.start_x + i) as u32, y as u32))
    }

    /// The rows before the row `y`.
    pub open spec fn rows_before(self, y: int) -> CellRange {
        CellRange { end_y: y - 1, ..self }
    }

    /// The cells of the block, row by row.
    pub open spec fn cell_list(self) -> Seq<(u32, u32)>
        decreases self.end_y - self.start_y + 1,
    {
        if self.end_y < self.start_y {
            Seq::empty()
        } else {
            self.rows_before(self.end_y).cell_list() + self.row(self.end_y)
        }
    }

    /// The block can be laid out in memory: the number of its rows, and of the cells in a row,
    /// is a machine integer.
    pub open spec fn fits(self) -> bool {
        self.end_y < usize::MAX && (self.start_y <= self.end_y ==> self.end_x < usize::MAX)
    }

    /// Every coordinate of the block is a 32-bit integer.
    pub open spec fn narrow(self) -> bool {
        0 <= self.start_x && 0 <= self.start_y && self.end_x <= u32::MAX && self.end_y <= u32::MAX
    }
}

/// The least of the coordinates at the places `axis`, `axis + 2` and so on, up to `n` of them.
pub open spec fn least(points: Seq<Single>, axis: int, n: nat) -> Single
    decreases n,
{
    if n == 0 {
        Single { bits: LARGEST }
    } else {
        least(points, axis, (n - 1) as nat).lesser(points[2 * (n - 1) + axis])
    }
}

/// The greatest of the coordinates at the places `axis`, `axis + 2` and so on, up to `n` of
/// them.
pub open spec fn greatest(points: Seq<Single>, axis: int, n: nat) -> Single
    decreases n,
{
    if n == 0 {
        Single { bits: SMALLEST }
    } else {
        greatest(points, axis, (n - 1) as nat).greater(points[2 * (n - 1) + axis])
    }
}

/// The hint is one of the supported ones, and there are as many coordinates as it calls for.
pub open spec fn well_shaped(region: RegionView) -> bool {
    if region.hint == DomainRegion::HINT_AXIS_ALIGNED_RECTANGLE {
        region.points.len() >= 2 && region.points.len() % 2 == 0
    } else {
        region.hint == DomainRegion::HINT_POINT && region.points.len() == 2
    }
}

/// The cells that a region covers on a grid with cells of the given size: those from the one
/// that holds its least corner up to the one at or after its greatest corner. What lies at
/// negative coordinates is cut off. None where the region is not well shaped, or where one of
/// its coordinates is negative throughout.
pub open spec fn region_bounds(region: RegionView, cell_size: Single) -> Option<CellRange> {
    let n: nat = (region.points.len() / 2) as nat;
    let zero: Single = Single { bits: 0 };
    let min_x: Single = least(region.points, 0, n);
    let max_x: Single = greatest(region.points, 0, n);
    let min_y: Single = least(region.points, 1, n);
    let max_y: Single = greatest(region.points, 1, n);
    let cut: bool = min_x.below(zero) || min_y.below(zero);
    if !well_shaped(region) || (cut && (max_x.below(zero) || max_y.below(zero))) {
        None
    } else {
        let low_x: Single = if cut {
            min_x.greater(zero)
        } else {
            min_x
        };
        let low_y: Single = if cut {
            min_y.greater(zero)
        } else {
            min_y
        };
        Some(
            CellRange {
                start_x: low_x.quotient(cell_size).floor_index(),
                end_x: max_x.quotient(cell_size).ceil_index(usize::MAX as int),
                start_y: low_y.quotient(cell_size).floor_index(),
                end_y: max_y.quotient(cell_size).ceil_index(usize::MAX as int),
            },
        )
    }
}

/// The block of cells that four machine integers delimit.
pub open spec fn range_of(bounds: (usize, usize, usize, usize)) -> CellRange {
    CellRange {
        start_x: bounds.0 as int,
        end_x: bounds.1 as int,
        start_y: bounds.2 as int,
        end_y: bounds.3 as int,
    }
}

/// All the regions can be laid out in memory.
pub open spec fn regions_fit(regions: Seq<TargetRegionView>, cell_size: Single) -> bool {
    forall|i: int|
        0 <= i < regions.len() ==> ((#[trigger] region_bounds(
            regions[i].region,
            cell_size,
        )) matches Some(range) ==> range.fits())
}

/// Computes the cells that a region covers.
pub(crate) fn compute_bounds(region: &DomainRegion, cell_size: Single) -> (r: Option<
    (usize, usize, usize, usize),
>)
    ensures
        match r {
            Some(bounds) => region_bounds(region@, cell_size) == Some(range_of(bounds)),
            None => region_bounds(region@, cell_size) is None,
        },
{
    if region.hint == DomainRegion::HINT_AXIS_ALIGNED_RECTANGLE {
        if region.points.len() < 2 || region.points.len() % 2 != 0 {
            return None;
        }
    } else if region.hint == DomainRegion::HINT_POINT {
        if region.points.len() != 2 {
            return None;
        }
    } else {
        return None;
    }
    let mut min_x: Single = Single { bits: LARGEST };
    let mut max_x: Single = Single { bits: SMALLEST };
    let mut min_y: Single = Single { bits: LARGEST };
    let mut max_y: Single = Single { bits: SMALLEST };
    let n: usize = region.points.len() / 2;
    let mut i: usize = 0;
    while i < n
        invariant
            i <= n,
            2 * n == region.points.len(),
            min_x == least(region.points@, 0, i as nat),
            max_x == greatest(region.points@, 0, i as nat),
            min_y == least(region.points@, 1, i as nat),
            max_y == greatest(region.points@, 1, i as nat),
        decreases n - i,
    {
        let x: Single = region.points[2 * i];
        let y: Single = region.points[2 * i + 1];
        min_x = min_x.min(x);
        max_x = max_x.max(x);
        min_y = min_y.min(y);
        max_y = max_y.max(y);
        i = i + 1;
    }
    let zero: Single = Single { bits: 0 };
    if min_x.less_than(zero) || min_y.less_than(zero) {
        if max_x.less_than(zero) || max_y.less_than(zero) {
            return None;
        }
        min_x = min_x.max(zero);
        min_y = min_y.max(zero);
    }
    let start_x: usize = min_x.over(cell_size).floor_to_usize();
    let end_x: usize = max_x.over(cell_size).ceil_to_usize();
    let start_y: usize = min_y.over(cell_size).floor_to_usize();
    let end_y: usize = max_y.over(cell_size).ceil_to_usize();
    Some((start_x, end_x, start_y, end_y))
}

/// One row more: the list grows by that row.
pub proof fn lemma_rows_grow(range: CellRange, y: int)
    requires
        range.start_y <= y,
    ensures
        range.rows_before(y + 1).cell_list() == range.rows_before(y).cell_list() + range.row(y),
{
    let grown: CellRange = range.rows_before(y + 1);
    assert(grown.rows_before(y) == range.rows_before(y));
    assert(grown.row(y) =~= range.row(y));
}

} // verus!
