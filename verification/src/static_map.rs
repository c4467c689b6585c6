//! A static occupancy grid built from a map image.
//!
//! Cell `(x, y)` is stored at index `y * width + x`; row `0` is the bottom of the map
//! (lowest y), while the rows of the image run from the top down.
use vstd::prelude::*;
use crate::cells::{
    all_cell_values, count_cells, count_value, is_cell_value, lemma_counts_partition, FREE,
    OCCUPIED, UNKNOWN,
};

verus! {

/// A static occupancy grid: `width * height` cells, each occupied (`1`), free (`0`)
/// or unknown (`-1`).
pub struct StaticMap {
    pub width: usize,
    pub height: usize,
    pub cells: Vec<i8>,
}

/// Proof that the index of a cell inside a `width` by `height` grid lies inside the grid.
pub proof fn lemma_cell_index(width: int, height: int, x: int, y: int)
    requires
        0 <= x < width,
        0 <= y < height,
    ensures
        0 <= y * width + x < height * width,
        y * width + x < (y + 1) * width,
{
    assert(y * width >= 0) by (nonlinear_arith)
        requires
            y >= 0,
            width >= 0,
    ;
    assert((y + 1) * width <= height * width) by (nonlinear_arith)
        requires
            y + 1 <= height,
            width >= 0,
    ;
    assert((y + 1) * width == y * width + width) by (nonlinear_arith);
}

/// Proof that cells of lower rows come at lower indices.
pub proof fn lemma_row_order(width: int, y1: int, x1: int, y2: int, x2: int)
    requires
        0 <= x1 < width,
        0 <= x2,
        0 <= y1 < y2,
    ensures
        y1 * width + x1 < y2 * width + x2,
{
    assert((y1 + 1) * width <= y2 * width) by (nonlinear_arith)
        requires
            y1 + 1 <= y2,
            width >= 0,
    ;
    assert((y1 + 1) * width == y1 * width + width) by (nonlinear_arith);
}

/// Proof that two cells of one grid with the same index are the same cell.
pub proof fn lemma_cell_index_injective(width: int, x1: int, y1: int, x2: int, y2: int)
    requires
        0 <= x1 < width,
        0 <= x2 < width,
        0 <= y1,
        0 <= y2,
        y1 * width + x1 == y2 * width + x2,
    ensures
        x1 == x2,
        y1 == y2,
{
    if y1 < y2 {
        lemma_row_order(width, y1, x1, y2, x2);
    } else if y2 < y1 {
        lemma_row_order(width, y2, x2, y1, x1);
    }
}

impl StaticMap {
    /// The grid holds one cell per column and row.
    pub open spec fn wf(&self) -> bool {
        self.cells@.len() == self.width * self.height
    }

    /// The index of cell `(x, y)`.
    pub open spec fn index_of(&self, x: int, y: int) -> int {
        y * self.width + x
    }

    /// Cell `(x, y)` lies inside the grid.
    pub open spec fn in_bounds(&self, x: int, y: int) -> bool {
        0 <= x < self.width && 0 <= y < self.height
    }

    /// The value stored for cell `(x, y)`.
    pub open spec fn cell(&self, x: int, y: int) -> i8 {
        self.cells@[self.index_of(x, y)]
    }

    /// The cell that image pixel row `height - 1 - y` holds for `(x, y)`, through the class
    /// table `classes` of the 256 pixel values.
    pub open spec fn pixel_class(
        width: int,
        height: int,
        raw: Seq<u8>,
        classes: Seq<i8>,
        x: int,
        y: int,
    ) -> i8 {
        classes[raw[(height - 1 - y) * width + x] as int]
    }

    /// Builds the grid of a `width` by `height` image whose pixels `raw` run row by row from
    /// the top. `classes[p]` is the cell value of pixel value `p`. Rows are flipped, so that
    /// row `0` of the grid is the bottom row of the image.
    pub fn from_pixels(width: usize, height: usize, raw: &[u8], classes: &[i8]) -> (map:
        StaticMap)
        requires
            raw@.len() == width * height,
            classes@.len() == 256,
        ensures
            map.width == width,
            map.height == height,
            map.wf(),
            forall|x: int, y: int|
                0 <= x < width && 0 <= y < height ==> #[trigger] map.cell(x, y)
                    == Self::pixel_class(width as int, height as int, raw@, classes@, x, y),
            all_cell_values(classes@) ==> all_cell_values(map.cells@),
            forall|x: int, y: int|
                #![trigger map.cells@[y * width + x]]
                0 <= x < width && 0 <= y < height ==> map.cells@[y * width + x] == classes@[raw@[(
                height - 1 - y) * width + x] as int],
    {
        let raw_len = raw.len();
        assert(height * width == width * height) by (nonlinear_arith);
        let mut cells: Vec<i8> = Vec::with_capacity(raw_len);
        let mut y: usize = 0;
        while y < height
            invariant
                y <= height,
                raw_len == raw@.len(),
                height * width == width * height,
                raw@.len() == width * height,
                classes@.len() == 256,
                cells@.len() == y * width,
                forall|xx: int, yy: int|
                    0 <= xx < width && 0 <= yy < y ==> #[trigger] cells@[yy * width + xx]
                        == Self::pixel_class(width as int, height as int, raw@, classes@, xx, yy),
                all_cell_values(classes@) ==> all_cell_values(cells@),
            decreases height - y,
        {
            let src_row = height - 1 - y;
            let mut x: usize = 0;
            while x < width
                invariant
                    y < height,
                    raw_len == raw@.len(),
                    height * width == width * height,
                    src_row == height - 1 - y,
                    x <= width,
                    raw@.len() == width * height,
                    classes@.len() == 256,
                    cells@.len() == y * width + x,
                    forall|xx: int, yy: int|
                        0 <= xx < width && 0 <= yy < y ==> #[trigger] cells@[yy * width + xx]
                            == Self::pixel_class(
                            width as int,
                            height as int,
                            raw@,
                            classes@,
                            xx,
                            yy,
                        ),
                    forall|xx: int|
                        0 <= xx < x ==> #[trigger] cells@[y * width + xx] == Self::pixel_class(
                            width as int,
                            height as int,
                            raw@,
                            classes@,
                            xx,
                            y as int,
                        ),
                    all_cell_values(classes@) ==> all_cell_values(cells@),
                decreases width - x,
            {
                proof {
                    lemma_cell_index(width as int, height as int, x as int, src_row as int);
                    lemma_cell_index(width as int, height as int, x as int, y as int);
                }
                let p = raw[src_row * width + x];
                let c = classes[p as usize];
                let ghost before = cells@;
                cells.push(c);
                proof {
                    assert forall|xx: int, yy: int|
                        0 <= xx < width && 0 <= yy < y implies #[trigger] cells@[yy * width + xx]
                        == Self::pixel_class(
                        width as int,
                        height as int,
                        raw@,
                        classes@,
                        xx,
                        yy,
                    ) by {
                        lemma_row_order(width as int, yy, xx, y as int, x as int);
                        assert(cells@[yy * width + xx] == before[yy * width + xx]);
                    }
                    assert forall|xx: int| 0 <= xx < x + 1 implies #[trigger] cells@[y * width + xx]
                        == Self::pixel_class(
                        width as int,
                        height as int,
                        raw@,
                        classes@,
                        xx,
                        y as int,
                    ) by {
                        if xx < x {
                            assert(cells@[y * width + xx] == before[y * width + xx]);
                        }
                    }
                    if all_cell_values(classes@) {
                        assert forall|i: int| 0 <= i < cells@.len() implies is_cell_value(
                            #[trigger] cells@[i],
                        ) by {
                            if i < before.len() {
                                assert(cells@[i] == before[i]);
                            } else {
                                assert(cells@[i] == classes@[p as int]);
                            }
                        }
                    }
                }
                x = x + 1;
            }
            proof {
                assert((y + 1) * width == y * width + width) by (nonlinear_arith);
                assert forall|xx: int, yy: int|
                    0 <= xx < width && 0 <= yy < y + 1 implies #[trigger] cells@[yy * width + xx]
                    == Self::pixel_class(width as int, height as int, raw@, classes@, xx, yy) by {}
            }
            y = y + 1;
        }
        proof {
            assert(height * width == width * height) by (nonlinear_arith);
        }
        let map = StaticMap { width, height, cells };
        assert forall|x: int, y: int|
            0 <= x < width && 0 <= y < height implies #[trigger] map.cell(x, y)
            == Self::pixel_class(width as int, height as int, raw@, classes@, x, y) by {
            assert(map.cell(x, y) == map.cells@[y * width + x]);
        }
        assert forall|x: int, y: int|
            #![trigger map.cells@[y * width + x]]
            0 <= x < width && 0 <= y < height implies map.cells@[y * width + x] == classes@[raw@[(
            height - 1 - y) * width + x] as int] by {
            assert(map.cell(x, y) == Self::pixel_class(
                width as int,
                height as int,
                raw@,
                classes@,
                x,
                y,
            ));
        }
        map
    }

    /// Whether cell `(cx, cy)` is occupied. Index `cy * width + cx` must lie inside the cells.
    pub fn is_occupied(&self, cx: usize, cy: usize) -> (r: bool)
        requires
            cy * self.width + cx < self.cells@.len(),
        ensures
            r == (self.cells@[cy * self.width + cx] == OCCUPIED),
    {
        // The number of cells bounds the index arithmetic below.
        let _len = self.cells.len();
        assert(cy * self.width >= 0) by (nonlinear_arith)
            requires
                cy >= 0,
                self.width >= 0,
        ;
        self.cells[cy * self.width + cx] == OCCUPIED
    }

    /// Whether cell `(cx, cy)` is free. Index `cy * width + cx` must lie inside the cells.
    pub fn is_free(&self, cx: usize, cy: usize) -> (r: bool)
        requires
            cy * self.width + cx < self.cells@.len(),
        ensures
            r == (self.cells@[cy * self.width + cx] == FREE),
    {
        // The number of cells bounds the index arithmetic below.
        let _len = self.cells.len();
        assert(cy * self.width >= 0) by (nonlinear_arith)
            requires
                cy >= 0,
                self.width >= 0,
        ;
        self.cells[cy * self.width + cx] == FREE
    }

    /// The number of occupied cells.
    pub fn occupied_count(&self) -> (n: usize)
        ensures
            n == count_value(self.cells@, OCCUPIED),
    {
        count_cells(self.cells.as_slice(), OCCUPIED)
    }

    /// The number of free cells.
    pub fn free_count(&self) -> (n: usize)
        ensures
            n == count_value(self.cells@, FREE),
    {
        count_cells(self.cells.as_slice(), FREE)
    }

    /// The number of unknown cells.
    pub fn unknown_count(&self) -> (n: usize)
        ensures
            n == count_value(self.cells@, UNKNOWN),
    {
        count_cells(self.cells.as_slice(), UNKNOWN)
    }

    /// The character that draws cell `(cx, cy)`: `#` occupied, `.` free, `?` otherwise.
    /// Index `cy * width + cx` must lie inside the cells.
    pub fn cell_symbol(&self, cx: usize, cy: usize) -> (c: char)
        requires
            cy * self.width + cx < self.cells@.len(),
        ensures
            c == (if self.cells@[cy * self.width + cx] == OCCUPIED {
                '#'
            } else if self.cells@[cy * self.width + cx] == FREE {
                '.'
            } else {
                '?'
            }),
    {
        if self.is_occupied(cx, cy) {
            '#'
        } else if self.is_free(cx, cy) {
            '.'
        } else {
            '?'
        }
    }

    /// The cell at column `cx` and row `cy`, if it lies inside the grid.
    pub fn checked_cell(&self, cx: isize, cy: isize) -> (r: Option<(usize, usize)>)
        ensures
            r == (if self.in_bounds(cx as int, cy as int) {
                Some((cx as usize, cy as usize))
            } else {
                None
            }),
            r is Some <==> (0 <= cx < self.width && 0 <= cy < self.height),
            r is Some ==> r->Some_0.0 == cx && r->Some_0.1 == cy,
    {
        if cx < 0 || cy < 0 || cx as usize >= self.width || cy as usize >= self.height {
            return None;
        }
        Some((cx as usize, cy as usize))
    }
}

/// Where every cell holds one of the three values, the occupied, free and unknown counts add
/// up to the number of cells, `width * height`.
pub proof fn lemma_counts_cover_map(map: &StaticMap)
    requires
        map.wf(),
        all_cell_values(map.cells@),
    ensures
        count_value(map.cells@, OCCUPIED) + count_value(map.cells@, FREE) + count_value(
            map.cells@,
            UNKNOWN,
        ) == map.width * map.height,
{
    lemma_counts_partition(map.cells@);
}

/// Cells are stored row by row from the bottom: cell `(x, y)` is entry `y * width + x`, and
/// the cell built from the image for `(x, y)` comes from image row `height - 1 - y`
/// (the rows of the image run from the top down).
pub proof fn lemma_row_major_flipped(
    map: &StaticMap,
    raw: Seq<u8>,
    classes: Seq<i8>,
    x: int,
    y: int,
)
    ensures
        map.index_of(x, y) == y * map.width + x,
        map.cell(x, y) == map.cells@[y * map.width + x],
        StaticMap::pixel_class(map.width as int, map.height as int, raw, classes, x, y)
            == classes[raw[(map.height - 1 - y) * map.width + x] as int],
{
}

/// A cell that `checked_cell` returns can be read: its index lies inside the cells.
pub proof fn lemma_checked_cell_readable(map: &StaticMap, cx: isize, cy: isize)
    requires
        map.wf(),
        map.in_bounds(cx as int, cy as int),
    ensures
        map.index_of(cx as int, cy as int) < map.cells@.len(),
{
    lemma_cell_index(map.width as int, map.height as int, cx as int, cy as int);
    assert(map.height * map.width == map.width * map.height) by (nonlinear_arith);
}

} // verus!
