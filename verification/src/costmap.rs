//! A square occupancy grid centred on the robot, filled cell by cell from range readings.
use vstd::prelude::*;
use crate::cells::{
    all_cell_values, count_cells, count_value, lemma_count_constant, lemma_count_update, OCCUPIED,
    UNKNOWN,
};
use crate::static_map::lemma_cell_index;

verus! {

/// An `n` by `n` occupancy grid: each cell is occupied (`1`), free (`0`) or unknown (`-1`),
/// and cell `(x, y)` is stored at index `y * width_cells + x`.
pub struct OccupancyGrid {
    pub width_cells: usize,
    pub height_cells: usize,
    pub cells: Vec<i8>,
}

impl OccupancyGrid {
    /// The grid holds one cell per column and row.
    pub open spec fn wf(&self) -> bool {
        self.cells@.len() == self.width_cells * self.height_cells
    }

    /// Cell `(x, y)` lies inside the grid.
    pub open spec fn in_bounds(&self, x: int, y: int) -> bool {
        0 <= x < self.width_cells && 0 <= y < self.height_cells
    }

    /// The index of cell `(x, y)`.
    pub open spec fn index_of(&self, x: int, y: int) -> int {
        y * self.width_cells + x
    }

    /// An `n` by `n` grid of unknown cells.
    pub fn new(n: usize) -> (grid: OccupancyGrid)
        requires
            n * n <= usize::MAX,
        ensures
            grid.width_cells == n,
            grid.height_cells == n,
            grid.wf(),
            forall|i: int| 0 <= i < grid.cells@.len() ==> #[trigger] grid.cells@[i] == UNKNOWN,
    {
        let cells = vec![UNKNOWN; n * n];
        OccupancyGrid { width_cells: n, height_cells: n, cells }
    }

    /// The cell at column `cx` and row `cy`, if it lies inside the grid.
    pub fn checked_cell(&self, cx: isize, cy: isize) -> (r: Option<(usize, usize)>)
        ensures
            r == (if self.in_bounds(cx as int, cy as int) {
                Some((cx as usize, cy as usize))
            } else {
                None
            }),
            r is Some <==> (0 <= cx < self.width_cells && 0 <= cy < self.height_cells),
            r is Some ==> r->Some_0.0 == cx && r->Some_0.1 == cy,
    {
        if cx < 0 || cy < 0 || cx as usize >= self.width_cells || cy as usize >= self.height_cells {
            return None;
        }
        Some((cx as usize, cy as usize))
    }

    /// Marks cell `(cx, cy)` occupied where it lies inside the grid; elsewhere nothing changes.
    pub fn mark_occupied_at(&mut self, cx: isize, cy: isize)
        requires
            old(self).wf(),
        ensures
            final(self).width_cells == old(self).width_cells,
            final(self).height_cells == old(self).height_cells,
            final(self).wf(),
            old(self).in_bounds(cx as int, cy as int) ==> final(self).cells@ == old(
                self,
            ).cells@.update(old(self).index_of(cx as int, cy as int), OCCUPIED),
            !old(self).in_bounds(cx as int, cy as int) ==> final(self).cells@ == old(self).cells@,
            0 <= cx < old(self).width_cells && 0 <= cy < old(self).height_cells ==> final(self).cells@ == old(self).cells@.update(cy * old(self).width_cells + cx, OCCUPIED),
            !(0 <= cx < old(self).width_cells && 0 <= cy < old(self).height_cells) ==> final(self).cells@ == old(self).cells@,
            0 <= cx < old(self).width_cells && 0 <= cy < old(self).height_cells ==> final(self).cells@[cy * old(self).width_cells + cx] == OCCUPIED,
    {
        if let Some((x, y)) = self.checked_cell(cx, cy) {
            proof {
                lemma_cell_index(
                    self.width_cells as int,
                    self.height_cells as int,
                    x as int,
                    y as int,
                );
                assert(self.height_cells * self.width_cells == self.width_cells
                    * self.height_cells) by (nonlinear_arith);
            }
            let _len = self.cells.len();
            self.cells.set(y * self.width_cells + x, OCCUPIED);
        }
    }

    /// The number of occupied cells.
    pub fn occupied_count(&self) -> (n: usize)
        ensures
            n == count_value(self.cells@, OCCUPIED),
    {
        count_cells(self.cells.as_slice(), OCCUPIED)
    }
}

/// Cells are stored row by row: cell `(x, y)` is entry `y * width_cells + x`, so marking an
/// inside cell sets exactly that entry.
pub proof fn lemma_row_major(grid: &OccupancyGrid, x: int, y: int)
    ensures
        grid.index_of(x, y) == y * grid.width_cells + x,
        grid.in_bounds(x, y) <==> (0 <= x < grid.width_cells && 0 <= y < grid.height_cells),
{
}

/// A new grid has no occupied cell, and all its cells are unknown.
pub proof fn lemma_new_grid_empty(grid: &OccupancyGrid)
    requires
        grid.wf(),
        forall|i: int| 0 <= i < grid.cells@.len() ==> #[trigger] grid.cells@[i] == UNKNOWN,
    ensures
        count_value(grid.cells@, OCCUPIED) == 0,
        count_value(grid.cells@, UNKNOWN) == grid.cells@.len(),
        all_cell_values(grid.cells@),
{
    let n = grid.cells@.len();
    assert(grid.cells@ =~= Seq::new(n, |i: int| UNKNOWN));
    lemma_count_constant(n, UNKNOWN, OCCUPIED);
    lemma_count_constant(n, UNKNOWN, UNKNOWN);
}

/// Marking a cell inside the grid adds one to the occupied count if the cell was not occupied
/// yet, and nothing if it was; marking it again changes nothing.
pub proof fn lemma_mark_counts(before: &OccupancyGrid, after: &OccupancyGrid, x: int, y: int)
    requires
        before.wf(),
        before.in_bounds(x, y),
        after.cells@ == before.cells@.update(before.index_of(x, y), OCCUPIED),
    ensures
        count_value(after.cells@, OCCUPIED) == count_value(before.cells@, OCCUPIED) + if before.cells@[before.index_of(x, y)]
            == OCCUPIED {
            0int
        } else {
            1int
        },
        after.cells@.update(before.index_of(x, y), OCCUPIED) == after.cells@,
{
    lemma_cell_index(before.width_cells as int, before.height_cells as int, x, y);
    assert(before.height_cells * before.width_cells == before.width_cells * before.height_cells)
        by (nonlinear_arith);
    lemma_count_update(before.cells@, before.index_of(x, y), OCCUPIED, OCCUPIED);
    assert(after.cells@.update(before.index_of(x, y), OCCUPIED) =~= after.cells@);
}

} // verus!
