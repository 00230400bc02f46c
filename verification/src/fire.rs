//! The fire cellular automaton: a `cols` x `rows` grid of heat values, stored
//! row by row, with row 0 at the top and the fire source on the bottom row.
use vstd::prelude::*;
use crate::palette::MAX_HEAT;

verus! {

/// Position of column `x`, row `y` in a row-major grid `cols` wide.
pub open spec fn flat(cols: int, x: int, y: int) -> int {
    y * cols + x
}

/// A cell inside a `cols` x `rows` grid has its flat position inside the grid.
pub proof fn lemma_flat_in_bounds(cols: int, rows: int, x: int, y: int)
    requires
        0 <= x < cols,
        0 <= y < rows,
    ensures
        0 <= flat(cols, x, y) < cols * rows,
{
    assert(0 <= y * cols + x < cols * rows) by (nonlinear_arith)
        requires
            0 <= x < cols,
            0 <= y < rows,
    ;
}

/// Two cells of a grid `cols` wide share a flat position only if they are the same cell.
pub proof fn lemma_flat_injective(cols: int, x1: int, y1: int, x2: int, y2: int)
    requires
        0 <= x1 < cols,
        0 <= x2 < cols,
        0 <= y1,
        0 <= y2,
        flat(cols, x1, y1) == flat(cols, x2, y2),
    ensures
        x1 == x2,
        y1 == y2,
{
    if y1 < y2 {
        assert(y1 * cols + cols <= y2 * cols) by (nonlinear_arith)
            requires
                y1 < y2,
                0 <= cols,
        ;
    } else if y2 < y1 {
        assert(y2 * cols + cols <= y1 * cols) by (nonlinear_arith)
            requires
                y2 < y1,
                0 <= cols,
        ;
    }
}

/// Every flat position inside a `cols` x `rows` grid is the position of one cell.
pub proof fn lemma_flat_cover(cols: int, rows: int, i: int)
    requires
        0 <= cols,
        0 <= rows,
        0 <= i < cols * rows,
    ensures
        0 < cols,
        0 <= i % cols < cols,
        0 <= i / cols < rows,
        flat(cols, i % cols, i / cols) == i,
{
    if cols <= 0 {
        assert(cols * rows <= 0) by (nonlinear_arith)
            requires
                cols == 0,
                0 <= i < cols * rows,
        ;
    }
    vstd::arithmetic::div_mod::lemma_fundamental_div_mod(i, cols);
    assert(0 <= i / cols < rows) by (nonlinear_arith)
        requires
            0 <= i < cols * rows,
            0 < cols,
            i == cols * (i / cols) + i % cols,
            0 <= i % cols < cols,
    ;
    assert(cols * (i / cols) == (i / cols) * cols) by (nonlinear_arith);
}

/// A heat sample clamped to the hottest level.
pub open spec fn capped(v: u8) -> u8 {
    if v < MAX_HEAT {
        v
    } else {
        MAX_HEAT
    }
}

/// Heat left in a rising cell of heat `v` after cooling by `decay` (at least 1).
pub open spec fn cooled(v: u8, decay: u8) -> u8 {
    let step: u8 = if decay < 1 {
        1
    } else {
        decay
    };
    if v > step {
        (v - step) as u8
    } else {
        0
    }
}

/// Column that heat from column `x` drifts into, when shifted by `d` and kept inside
/// a grid `cols` wide.
pub open spec fn drift_target(cols: int, x: int, d: int) -> int {
    if x + d < 0 {
        0
    } else if x + d > cols - 1 {
        cols - 1
    } else {
        x + d
    }
}

/// The last of the columns `0..k` of row `y` whose heat drifts into column `xd`
/// of the row above, or -1 when none does.
pub open spec fn last_source(cols: int, drift: Seq<i32>, y: int, xd: int, k: int) -> int
    decreases k,
{
    if k <= 0 {
        -1
    } else if drift_target(cols, k - 1, drift[flat(cols, k - 1, y)] as int) == xd {
        k - 1
    } else {
        last_source(cols, drift, y, xd, k - 1)
    }
}

/// Distance between two columns (or two rows).
pub open spec fn gap(a: int, b: int) -> int {
    if a >= b {
        a - b
    } else {
        b - a
    }
}

/// Whether a heat value is glowing embers, from which sparks fly.
pub open spec fn is_ember(v: u8) -> bool {
    6 <= v <= 24
}

/// Whether `(x, y)` lies in the blast of radius 4 around `(ex, ey)`.
pub open spec fn in_blast(ex: int, ey: int, x: int, y: int) -> bool {
    &&& -4 <= x - ex <= 4
    &&& -4 <= y - ey <= 4
    &&& (x - ex) * (x - ex) + (y - ey) * (y - ey) <= 16
}

/// The fire: heat values from 0 (no fire) to `MAX_HEAT`, one per cell.
pub struct FireGrid {
    cols: usize,
    rows: usize,
    cells: Vec<u8>,
}

impl FireGrid {
    /// Width of the grid.
    pub closed spec fn width(&self) -> nat {
        self.cols as nat
    }

    /// Height of the grid.
    pub closed spec fn height(&self) -> nat {
        self.rows as nat
    }

    /// The heat values, row by row.
    pub closed spec fn cells(&self) -> Seq<u8> {
        self.cells@
    }

    /// Heat of column `x`, row `y`.
    pub open spec fn at(&self, x: int, y: int) -> u8 {
        self.cells()[flat(self.width() as int, x, y)]
    }

    /// Whether `(x, y)` lies inside the grid.
    pub open spec fn contains(&self, x: int, y: int) -> bool {
        0 <= x < self.width() && 0 <= y < self.height()
    }

    /// The grid holds one heat value per cell, none above `MAX_HEAT`.
    pub open spec fn wf(&self) -> bool {
        &&& self.cells().len() == self.width() * self.height()
        &&& self.width() * self.height() <= usize::MAX
        &&& forall|i: int| 0 <= i < self.cells().len() ==> #[trigger] self.cells()[i] <= MAX_HEAT
    }

    /// Same size as `other`.
    pub open spec fn same_shape(&self, other: &FireGrid) -> bool {
        self.width() == other.width() && self.height() == other.height()
    }

    /// A cold (all zero) grid of the given size.
    pub fn new(cols: usize, rows: usize) -> (grid: FireGrid)
        requires
            cols * rows <= usize::MAX,
        ensures
            grid.wf(),
            grid.width() == cols,
            grid.height() == rows,
            forall|x: int, y: int| grid.contains(x, y) ==> #[trigger] grid.at(x, y) == 0,
    {
        let n = cols * rows;
        let mut cells: Vec<u8> = Vec::new();
        let mut i: usize = 0;
        while i < n
            invariant
                i <= n,
                n == cols * rows,
                cells@.len() == i,
                forall|j: int| 0 <= j < i ==> #[trigger] cells@[j] == 0,
            decreases n - i,
        {
            cells.push(0);
            i = i + 1;
        }
        let grid = FireGrid { cols, rows, cells };
        assert forall|x: int, y: int| grid.contains(x, y) implies #[trigger] grid.at(x, y) == 0 by {
            lemma_flat_in_bounds(cols as int, rows as int, x, y);
        }
        grid
    }

    /// Width of the grid.
    pub fn cols(&self) -> (c: usize)
        ensures
            c == self.width(),
    {
        self.cols
    }

    /// Height of the grid.
    pub fn rows(&self) -> (r: usize)
        ensures
            r == self.height(),
    {
        self.rows
    }

    /// Heat of column `x`, row `y`.
    pub fn heat(&self, x: usize, y: usize) -> (h: u8)
        requires
            self.wf(),
            self.contains(x as int, y as int),
        ensures
            h == self.at(x as int, y as int),
    {
        proof {
            lemma_flat_in_bounds(self.cols as int, self.rows as int, x as int, y as int);
        }
        self.cells[y * self.cols + x]
    }

    /// Heat of the `i`-th cell, counting row by row.
    pub fn heat_index(&self, i: usize) -> (h: u8)
        requires
            self.wf(),
            i < self.width() * self.height(),
        ensures
            h == self.cells()[i as int],
    {
        self.cells[i]
    }

    /// Sets the heat of one cell.
    fn set_cell(&mut self, x: usize, y: usize, v: u8)
        requires
            old(self).wf(),
            old(self).contains(x as int, y as int),
            v <= MAX_HEAT,
        ensures
            final(self).wf(),
            final(self).same_shape(old(self)),
            forall|x2: int, y2: int|
                final(self).contains(x2, y2) ==> #[trigger] final(self).at(x2, y2) == if x2 == x
                    && y2 == y {
                    v
                } else {
                    old(self).at(x2, y2)
                },
    {
        proof {
            lemma_flat_in_bounds(self.cols as int, self.rows as int, x as int, y as int);
        }
        let i = y * self.cols + x;
        self.cells.set(i, v);
        proof {
            assert forall|x2: int, y2: int| self.contains(x2, y2) implies #[trigger] self.at(x2, y2)
                == if x2 == x && y2 == y {
                v
            } else {
                old(self).at(x2, y2)
            } by {
                lemma_flat_in_bounds(self.cols as int, self.rows as int, x2, y2);
                if flat(self.cols as int, x2, y2) == i as int {
                    lemma_flat_injective(self.cols as int, x2, y2, x as int, y as int);
                }
            }
        }
    }
}


impl FireGrid {
    /// Heat of cell `(x, y)` once the fire has risen one row: the cooled heat of the
    /// last cell of the row below that drifts into it, or its own heat when none does
    /// (and always on the bottom row).
    pub open spec fn risen(&self, drift: Seq<i32>, decay: Seq<u8>, x: int, y: int) -> u8 {
        let cols = self.width() as int;
        if y + 1 < self.height() {
            let w = last_source(cols, drift, y + 1, x, cols);
            if w >= 0 {
                cooled(self.at(w, y + 1), decay[flat(cols, w, y + 1)])
            } else {
                self.at(x, y)
            }
        } else {
            self.at(x, y)
        }
    }

    /// Sum of the heat in the `depth` cells below `(x, y)` that lie inside the grid.
    pub open spec fn heat_below(&self, x: int, y: int, depth: int) -> int
        decreases depth,
    {
        if depth <= 0 {
            0
        } else {
            self.heat_below(x, y, depth - 1) + if y + depth < self.height() {
                self.at(x, y + depth) as int
            } else {
                0
            }
        }
    }

    /// Reallocates a cold grid when the screen size differs from the grid's size.
    /// Returns whether it did.
    pub fn resize(&mut self, cols: usize, rows: usize) -> (changed: bool)
        requires
            old(self).wf(),
            cols * rows <= usize::MAX,
        ensures
            final(self).wf(),
            changed == (cols != old(self).width() || rows != old(self).height()),
            changed ==> final(self).width() == cols && final(self).height() == rows && forall|
                x: int,
                y: int,
            | final(self).contains(x, y) ==> #[trigger] final(self).at(x, y) == 0,
            !changed ==> *final(self) == *old(self),
    {
        if cols != self.cols || rows != self.rows {
            *self = FireGrid::new(cols, rows);
            true
        } else {
            false
        }
    }

    /// Feeds the fire source: the bottom row takes the new heat samples, capped at
    /// `MAX_HEAT`.
    pub fn seed_source(&mut self, heat: &Vec<u8>)
        requires
            old(self).wf(),
            old(self).height() >= 1,
            heat@.len() == old(self).width(),
        ensures
            final(self).wf(),
            final(self).same_shape(old(self)),
            forall|x: int, y: int|
                final(self).contains(x, y) ==> #[trigger] final(self).at(x, y) == if y
                    == old(self).height() - 1 {
                    capped(heat@[x])
                } else {
                    old(self).at(x, y)
                },
    {
        let ghost g0 = *self;
        let cols = self.cols;
        let bottom = self.rows - 1;
        let mut x: usize = 0;
        while x < cols
            invariant
                x <= cols,
                cols == g0.width(),
                bottom == g0.height() - 1,
                heat@.len() == cols,
                self.wf(),
                self.same_shape(&g0),
                forall|x2: int, y2: int|
                    self.contains(x2, y2) ==> #[trigger] self.at(x2, y2) == if y2 == bottom && x2
                        < x {
                        capped(heat@[x2])
                    } else {
                        g0.at(x2, y2)
                    },
            decreases cols - x,
        {
            let h = heat[x];
            let v = if h < MAX_HEAT {
                h
            } else {
                MAX_HEAT
            };
            self.set_cell(x, bottom, v);
            x = x + 1;
        }
    }

    /// Thickens the fire: on grids taller than two rows, each cell of the second row
    /// from the bottom that has a sample takes it, capped at `MAX_HEAT`.
    pub fn seed_second_row(&mut self, samples: &Vec<Option<u8>>)
        requires
            old(self).wf(),
            samples@.len() == old(self).width(),
        ensures
            final(self).wf(),
            final(self).same_shape(old(self)),
            forall|x: int, y: int|
                final(self).contains(x, y) ==> #[trigger] final(self).at(x, y) == if old(
                    self,
                ).height() > 2 && y == old(self).height() - 2 && samples@[x] is Some {
                    capped(samples@[x]->0)
                } else {
                    old(self).at(x, y)
                },
    {
        if self.rows <= 2 {
            return ;
        }
        let ghost g0 = *self;
        let cols = self.cols;
        let row = self.rows - 2;
        let mut x: usize = 0;
        while x < cols
            invariant
                x <= cols,
                cols == g0.width(),
                g0.height() > 2,
                row == g0.height() - 2,
                samples@.len() == cols,
                self.wf(),
                self.same_shape(&g0),
                forall|x2: int, y2: int|
                    self.contains(x2, y2) ==> #[trigger] self.at(x2, y2) == if y2 == row && x2 < x
                        && samples@[x2] is Some {
                        capped(samples@[x2]->0)
                    } else {
                        g0.at(x2, y2)
                    },
            decreases cols - x,
        {
            match samples[x] {
                Some(h) => {
                    let v = if h < MAX_HEAT {
                        h
                    } else {
                        MAX_HEAT
                    };
                    self.set_cell(x, row, v);
                },
                None => {},
            }
            x = x + 1;
        }
    }

    /// A fire plume: the bottom three rows of the `width` columns from `flare_x`
    /// that lie inside the grid flare to `MAX_HEAT`.
    pub fn ignite_plume(&mut self, flare_x: usize, width: usize)
        requires
            old(self).wf(),
            old(self).height() >= 1,
            flare_x + width <= usize::MAX,
            width == 0 || flare_x >= old(self).width() || old(self).height() >= 3,
        ensures
            final(self).wf(),
            final(self).same_shape(old(self)),
            forall|x: int, y: int|
                final(self).contains(x, y) ==> #[trigger] final(self).at(x, y) == if flare_x <= x
                    < flare_x + width && y >= old(self).height() - 3 {
                    MAX_HEAT
                } else {
                    old(self).at(x, y)
                },
    {
        let ghost g0 = *self;
        let cols = self.cols;
        let bottom = self.rows - 1;
        let mut dx: usize = 0;
        while dx < width
            invariant
                dx <= width,
                flare_x + width <= usize::MAX,
                cols == g0.width(),
                bottom == g0.height() - 1,
                width == 0 || flare_x >= cols || g0.height() >= 3,
                self.wf(),
                self.same_shape(&g0),
                forall|x2: int, y2: int|
                    self.contains(x2, y2) ==> #[trigger] self.at(x2, y2) == if flare_x <= x2
                        < flare_x + dx && y2 >= g0.height() - 3 {
                        MAX_HEAT
                    } else {
                        g0.at(x2, y2)
                    },
            decreases width - dx,
        {
            let x = flare_x + dx;
            if x < cols {
                let mut dy: usize = 0;
                while dy < 3
                    invariant
                        dy <= 3,
                        x == flare_x + dx,
                        dx < width,
                        x < cols,
                        cols == g0.width(),
                        bottom == g0.height() - 1,
                        g0.height() >= 3,
                        self.wf(),
                        self.same_shape(&g0),
                        forall|x2: int, y2: int|
                            self.contains(x2, y2) ==> #[trigger] self.at(x2, y2) == if (flare_x
                                <= x2 < flare_x + dx && y2 >= g0.height() - 3) || (x2 == x && y2
                                > bottom - dy) {
                                MAX_HEAT
                            } else {
                                g0.at(x2, y2)
                            },
                    decreases 3 - dy,
                {
                    self.set_cell(x, bottom - dy, MAX_HEAT);
                    dy = dy + 1;
                }
            }
            dx = dx + 1;
        }
    }

    /// The fire rises one row: for every row from the top down to the second from
    /// the bottom, each cell is overwritten in turn (row by row, left to right) by the
    /// cooled heat of the cell below it, shifted sideways by that cell's drift.
    /// `drift` and `decay` hold one entry per cell; those of row 0 are not used.
    pub fn propagate(&mut self, drift: &Vec<i32>, decay: &Vec<u8>)
        requires
            old(self).wf(),
            old(self).width() <= i32::MAX,
            drift@.len() == old(self).width() * old(self).height(),
            decay@.len() == old(self).width() * old(self).height(),
        ensures
            final(self).wf(),
            final(self).same_shape(old(self)),
            forall|x: int, y: int|
                final(self).contains(x, y) ==> #[trigger] final(self).at(x, y) == old(
                    self,
                ).risen(drift@, decay@, x, y),
    {
        let ghost g0 = *self;
        let cols = self.cols;
        let rows = self.rows;
        if rows == 0 {
            return ;
        }
        let mut y: usize = 1;
        while y < rows
            invariant
                1 <= y <= rows,
                cols == g0.width(),
                rows == g0.height(),
                cols <= i32::MAX,
                drift@.len() == cols * rows,
                decay@.len() == cols * rows,
                self.wf(),
                self.same_shape(&g0),
                forall|x2: int, y2: int|
                    self.contains(x2, y2) ==> #[trigger] self.at(x2, y2) == if y2 < y - 1 {
                        g0.risen(drift@, decay@, x2, y2)
                    } else {
                        g0.at(x2, y2)
                    },
            decreases rows - y,
        {
            let mut x: usize = 0;
            while x < cols
                invariant
                    x <= cols,
                    1 <= y < rows,
                    cols == g0.width(),
                    rows == g0.height(),
                    cols <= i32::MAX,
                    drift@.len() == cols * rows,
                    decay@.len() == cols * rows,
                    self.wf(),
                    self.same_shape(&g0),
                    forall|x2: int, y2: int|
                        self.contains(x2, y2) ==> #[trigger] self.at(x2, y2) == if y2 < y - 1 {
                            g0.risen(drift@, decay@, x2, y2)
                        } else if y2 == y - 1 {
                            if last_source(cols as int, drift@, y as int, x2, x as int) >= 0 {
                                cooled(
                                    g0.at(last_source(cols as int, drift@, y as int, x2, x as int), y as int),
                                    decay@[flat(cols as int, last_source(cols as int, drift@, y as int, x2, x as int), y as int)],
                                )
                            } else {
                                g0.at(x2, y2)
                            }
                        } else {
                            g0.at(x2, y2)
                        },
                decreases cols - x,
            {
                proof {
                    lemma_flat_in_bounds(cols as int, rows as int, x as int, y as int);
                }
                let i = y * cols + x;
                let v = self.heat(x, y);
                let d = drift[i];
                let t: i64 = x as i64 + d as i64;
                let dst: usize = if t < 0 {
                    0
                } else if t > cols as i64 - 1 {
                    cols - 1
                } else {
                    t as usize
                };
                let nv: u8 = if v == 0 {
                    0
                } else {
                    let dec = decay[i];
                    let step: u8 = if dec < 1 {
                        1
                    } else {
                        dec
                    };
                    if v > step {
                        v - step
                    } else {
                        0
                    }
                };
                assert(dst as int == drift_target(cols as int, x as int, d as int));
                assert(nv == cooled(g0.at(x as int, y as int), decay@[flat(cols as int, x as int, y as int)]));
                self.set_cell(dst, y - 1, nv);
                x = x + 1;
            }
            y = y + 1;
        }
    }

    /// Total heat in the 12 cells directly below `(x, y)` that lie inside the grid:
    /// how strongly the fire heats a logo cell there.
    pub fn column_heat(&self, x: usize, y: usize) -> (total: u32)
        requires
            self.wf(),
            x < self.width(),
            y + 12 <= usize::MAX,
        ensures
            total == self.heat_below(x as int, y as int, 12),
            total <= 12 * MAX_HEAT,
    {
        let mut total: u32 = 0;
        let mut dy: usize = 1;
        while dy <= 12
            invariant
                1 <= dy <= 13,
                self.wf(),
                x < self.width(),
                y + 12 <= usize::MAX,
                total == self.heat_below(x as int, y as int, dy - 1),
                total <= (dy - 1) * MAX_HEAT,
            decreases 13 - dy,
        {
            let check_y = y + dy;
            if check_y < self.rows {
                proof {
                    lemma_flat_in_bounds(self.cols as int, self.rows as int, x as int, check_y as int);
                }
                let h = self.heat(x, check_y);
                total = total + h as u32;
            }
            dy = dy + 1;
        }
        total
    }

    /// Where a spark leaves the fire in column `x`: the lowest row from the middle of
    /// the grid down to the third row from the bottom whose heat is glowing embers.
    pub fn find_spark_row(&self, x: usize) -> (row: Option<usize>)
        requires
            self.wf(),
            x < self.width(),
            self.height() >= 2,
        ensures
            match row {
                Some(y) => {
                    &&& self.height() / 2 <= y < self.height() - 2
                    &&& is_ember(self.at(x as int, y as int))
                    &&& forall|y2: int|
                        y < y2 < self.height() - 2 ==> !is_ember(#[trigger] self.at(x as int, y2))
                },
                None => forall|y2: int|
                    self.height() / 2 <= y2 < self.height() - 2 ==> !is_ember(
                        #[trigger] self.at(x as int, y2),
                    ),
            },
    {
        let low = self.rows / 2;
        let mut y: usize = self.rows - 2;
        while y > low
            invariant
                low == self.height() / 2,
                y <= self.height() - 2,
                self.wf(),
                x < self.width(),
                forall|y2: int| y <= y2 < self.height() - 2 ==> !is_ember(#[trigger] self.at(x as int, y2)),
            decreases y,
        {
            let v = self.heat(x, y - 1);
            if 6 <= v && v <= 24 {
                return Some(y - 1);
            }
            y = y - 1;
        }
        None
    }

    /// A glob bursts at `(ex, ey)`: every cell of the grid within distance 4 of it
    /// flares to `MAX_HEAT`.
    pub fn ignite_blast(&mut self, ex: i32, ey: i32)
        requires
            old(self).wf(),
            old(self).width() <= i32::MAX,
            old(self).height() <= i32::MAX,
            i32::MIN + 4 <= ex <= i32::MAX - 4,
            i32::MIN + 4 <= ey <= i32::MAX - 4,
        ensures
            final(self).wf(),
            final(self).same_shape(old(self)),
            forall|x: int, y: int|
                final(self).contains(x, y) ==> #[trigger] final(self).at(x, y) == if in_blast(
                    ex as int,
                    ey as int,
                    x,
                    y,
                ) {
                    MAX_HEAT
                } else {
                    old(self).at(x, y)
                },
    {
        let ghost g0 = *self;
        let cols = self.cols;
        let rows = self.rows;
        let mut dy: i32 = -4;
        while dy <= 4
            invariant
                -4 <= dy <= 5,
                cols == g0.width(),
                rows == g0.height(),
                cols <= i32::MAX,
                rows <= i32::MAX,
                i32::MIN + 4 <= ex <= i32::MAX - 4,
                i32::MIN + 4 <= ey <= i32::MAX - 4,
                self.wf(),
                self.same_shape(&g0),
                forall|x2: int, y2: int|
                    self.contains(x2, y2) ==> #[trigger] self.at(x2, y2) == if in_blast(
                        ex as int,
                        ey as int,
                        x2,
                        y2,
                    ) && y2 - ey < dy {
                        MAX_HEAT
                    } else {
                        g0.at(x2, y2)
                    },
            decreases 5 - dy,
        {
            let mut dx: i32 = -4;
            while dx <= 4
                invariant
                    -4 <= dy <= 4,
                    -4 <= dx <= 5,
                    cols == g0.width(),
                    rows == g0.height(),
                    cols <= i32::MAX,
                    rows <= i32::MAX,
                    i32::MIN + 4 <= ex <= i32::MAX - 4,
                    i32::MIN + 4 <= ey <= i32::MAX - 4,
                    self.wf(),
                    self.same_shape(&g0),
                    forall|x2: int, y2: int|
                        self.contains(x2, y2) ==> #[trigger] self.at(x2, y2) == if in_blast(
                            ex as int,
                            ey as int,
                            x2,
                            y2,
                        ) && (y2 - ey < dy || (y2 - ey == dy && x2 - ex < dx)) {
                            MAX_HEAT
                        } else {
                            g0.at(x2, y2)
                        },
                decreases 5 - dx,
            {
                let px = ex + dx;
                let py = ey + dy;
                assert(0 <= dx * dx <= 16 && 0 <= dy * dy <= 16) by (nonlinear_arith)
                    requires
                        -4 <= dx <= 4,
                        -4 <= dy <= 4,
                ;
                if px >= 0 && (px as usize) < cols && py >= 0 && (py as usize) < rows && dx * dx
                    + dy * dy <= 16 {
                    self.set_cell(px as usize, py as usize, MAX_HEAT);
                }
                dx = dx + 1;
            }
            dy = dy + 1;
        }
    }
}


/// The column found by `last_source` is one of the first `k` columns, and its heat
/// drifts into column `xd`.
proof fn lemma_last_source(cols: int, drift: Seq<i32>, y: int, xd: int, k: int)
    ensures
        last_source(cols, drift, y, xd, k) >= 0 ==> {
            let w = last_source(cols, drift, y, xd, k);
            &&& w < k
            &&& drift_target(cols, w, drift[flat(cols, w, y)] as int) == xd
        },
        last_source(cols, drift, y, xd, k) >= -1,
    decreases k,
{
    if k > 0 {
        lemma_last_source(cols, drift, y, xd, k - 1);
    }
}

/// Fire rises and cools: when no cell drifts more than one column, each cell above
/// the bottom row either keeps its heat or takes the heat of one of the (at most)
/// three cells diagonally or directly below it, and then holds strictly less heat
/// than that cell had, unless both are cold. The bottom row never changes.
pub proof fn rising_fire_cools(g: FireGrid, drift: Seq<i32>, decay: Seq<u8>)
    requires
        g.wf(),
        drift.len() == g.width() * g.height(),
        decay.len() == g.width() * g.height(),
        forall|i: int| 0 <= i < drift.len() ==> -1 <= #[trigger] drift[i] <= 1,
    ensures
        forall|x: int|
            0 <= x < g.width() ==> #[trigger] g.risen(drift, decay, x, g.height() - 1) == g.at(
                x,
                g.height() - 1,
            ),
        forall|x: int, y: int|
            g.contains(x, y) && y + 1 < g.height() ==> {
                let h = #[trigger] g.risen(drift, decay, x, y);
                ||| h == g.at(x, y)
                ||| exists|x2: int|
                    0 <= x2 < g.width() && gap(x2, x) <= 1 && (h < #[trigger] g.at(x2, y + 1) || (h
                        == 0 && g.at(x2, y + 1) == 0))
            },
{
    let cols = g.width() as int;
    assert forall|x: int, y: int| g.contains(x, y) && y + 1 < g.height() implies {
        let h = #[trigger] g.risen(drift, decay, x, y);
        ||| h == g.at(x, y)
        ||| exists|x2: int|
            0 <= x2 < g.width() && gap(x2, x) <= 1 && (h < #[trigger] g.at(x2, y + 1) || (h == 0
                && g.at(x2, y + 1) == 0))
    } by {
        lemma_last_source(cols, drift, y + 1, x, cols);
        let w = last_source(cols, drift, y + 1, x, cols);
        if w >= 0 {
            lemma_flat_in_bounds(cols, g.height() as int, w, y + 1);
            let d = drift[flat(cols, w, y + 1)];
            assert(-1 <= d <= 1);
            assert(gap(w, x) <= 1);
            assert(g.at(w, y + 1) == 0 ==> g.risen(drift, decay, x, y) == 0);
        }
    }
}

impl FireGrid {
    /// Whether a plume (its first column and its width) can be ignited on this grid.
    pub open spec fn plume_fits(&self, plume: Option<(usize, usize)>) -> bool {
        match plume {
            Some((fx, w)) => fx + w <= usize::MAX && (w == 0 || fx >= self.width()
                || self.height() >= 3),
            None => true,
        }
    }

    /// Heat of cell `(x, y)` once the fire is fed: the bottom row takes the source
    /// samples, the second row from the bottom (on grids taller than two rows) takes
    /// the samples it has, each capped at `MAX_HEAT`, and a plume flares the bottom three
    /// rows of its columns to `MAX_HEAT`.
    pub open spec fn seeded_heat(
        &self,
        source: Seq<u8>,
        second: Seq<Option<u8>>,
        plume: Option<(usize, usize)>,
        x: int,
        y: int,
    ) -> u8 {
        let h = self.height() as int;
        let in_plume = match plume {
            Some((fx, w)) => fx <= x < fx + w && y >= h - 3,
            None => false,
        };
        if in_plume {
            MAX_HEAT
        } else if y == h - 1 {
            capped(source[x])
        } else if h > 2 && y == h - 2 && second[x] is Some {
            capped(second[x]->0)
        } else {
            self.at(x, y)
        }
    }

    /// `mid` is this grid fed with the given samples and plume.
    pub open spec fn feeds(
        &self,
        mid: &FireGrid,
        source: Seq<u8>,
        second: Seq<Option<u8>>,
        plume: Option<(usize, usize)>,
    ) -> bool {
        &&& mid.wf()
        &&& mid.same_shape(self)
        &&& forall|x: int, y: int|
            mid.contains(x, y) ==> #[trigger] mid.at(x, y) == self.seeded_heat(
                source,
                second,
                plume,
                x,
                y,
            )
    }

    /// `next` is this grid after one fire step: fed with the given samples and plume,
    /// then risen one row with the given drift and decay.
    pub open spec fn steps_to(
        &self,
        next: &FireGrid,
        source: Seq<u8>,
        second: Seq<Option<u8>>,
        plume: Option<(usize, usize)>,
        drift: Seq<i32>,
        decay: Seq<u8>,
    ) -> bool {
        exists|mid: FireGrid|
            {
                &&& #[trigger] self.feeds(&mid, source, second, plume)
                &&& next.wf()
                &&& next.same_shape(self)
                &&& forall|x: int, y: int|
                    next.contains(x, y) ==> #[trigger] next.at(x, y) == mid.risen(
                        drift,
                        decay,
                        x,
                        y,
                    )
            }
    }

    /// A copy of the grid.
    fn duplicate(&self) -> (copy: FireGrid)
        requires
            self.wf(),
        ensures
            copy.wf(),
            copy.same_shape(self),
            copy.cells() == self.cells(),
    {
        let n = self.cells.len();
        let mut cells: Vec<u8> = Vec::new();
        let mut i: usize = 0;
        while i < n
            invariant
                i <= n,
                n == self.cells().len(),
                cells@ == self.cells().subrange(0, i as int),
            decreases n - i,
        {
            cells.push(self.cells[i]);
            i = i + 1;
            assert(cells@ =~= self.cells().subrange(0, i as int));
        }
        assert(cells@ =~= self.cells());
        FireGrid { cols: self.cols, rows: self.rows, cells }
    }

    /// The grid fed for the next step: the source samples on the bottom row, the
    /// samples of the second row from the bottom (on grids taller than two rows), and
    /// the plume, if any. The grid itself is left as it is.
    pub fn seeded(
        &self,
        source: &Vec<u8>,
        second: &Vec<Option<u8>>,
        plume: Option<(usize, usize)>,
    ) -> (mid: FireGrid)
        requires
            self.wf(),
            self.height() >= 1,
            source@.len() == self.width(),
            second@.len() == self.width(),
            self.plume_fits(plume),
        ensures
            self.feeds(&mid, source@, second@, plume),
    {
        let mut mid = self.duplicate();
        assert forall|x: int, y: int| mid.contains(x, y) implies #[trigger] mid.at(x, y) == self.at(
            x,
            y,
        ) by {}
        mid.seed_source(source);
        mid.seed_second_row(second);
        match plume {
            Some((fx, w)) => {
                mid.ignite_plume(fx, w);
            },
            None => {},
        }
        mid
    }

    /// One step of the fire: the grid is fed with the source samples, the second-row
    /// samples and the plume, then rises one row with the given drift and decay.
    /// Afterwards every heat is still at most `MAX_HEAT`, and the bottom row holds the
    /// capped source samples, or `MAX_HEAT` under the plume.
    pub fn step(
        &mut self,
        source: &Vec<u8>,
        second: &Vec<Option<u8>>,
        plume: Option<(usize, usize)>,
        drift: &Vec<i32>,
        decay: &Vec<u8>,
    )
        requires
            old(self).wf(),
            old(self).height() >= 1,
            old(self).width() <= i32::MAX,
            source@.len() == old(self).width(),
            second@.len() == old(self).width(),
            old(self).plume_fits(plume),
            drift@.len() == old(self).width() * old(self).height(),
            decay@.len() == old(self).width() * old(self).height(),
        ensures
            old(self).steps_to(final(self), source@, second@, plume, drift@, decay@),
            final(self).wf(),
            final(self).same_shape(old(self)),
            forall|x: int|
                0 <= x < old(self).width() ==> #[trigger] final(self).at(x, old(self).height() - 1)
                    == old(self).seeded_heat(
                    source@,
                    second@,
                    plume,
                    x,
                    old(self).height() - 1,
                ),
    {
        let mut mid = self.seeded(source, second, plume);
        let ghost fed = mid;
        mid.propagate(drift, decay);
        proof {
            assert(old(self).feeds(&fed, source@, second@, plume));
            assert forall|x: int|
                0 <= x < old(self).width() implies #[trigger] mid.at(x, old(self).height() - 1)
                == old(self).seeded_heat(source@, second@, plume, x, old(self).height() - 1) by {
                assert(mid.contains(x, old(self).height() - 1));
                assert(fed.contains(x, old(self).height() - 1));
            }
        }
        *self = mid;
    }
}

/// A hotter source burns hotter: two steps of the same grid with the same plume,
/// where each source sample of the first is at most that of the second, leave every
/// cell of the bottom row of the first at most as hot as in the second (whatever the
/// drift and decay of either).
pub proof fn hotter_source_burns_hotter(
    g: FireGrid,
    next1: FireGrid,
    next2: FireGrid,
    cooler: Seq<u8>,
    hotter: Seq<u8>,
    second: Seq<Option<u8>>,
    plume: Option<(usize, usize)>,
    drift1: Seq<i32>,
    decay1: Seq<u8>,
    drift2: Seq<i32>,
    decay2: Seq<u8>,
)
    requires
        g.wf(),
        g.height() >= 1,
        cooler.len() == g.width(),
        hotter.len() == g.width(),
        forall|x: int| 0 <= x < g.width() ==> #[trigger] cooler[x] <= hotter[x],
        g.steps_to(&next1, cooler, second, plume, drift1, decay1),
        g.steps_to(&next2, hotter, second, plume, drift2, decay2),
    ensures
        forall|x: int|
            0 <= x < g.width() ==> #[trigger] next1.at(x, g.height() - 1) <= next2.at(
                x,
                g.height() - 1,
            ),
{
    let mid1 = choose|mid: FireGrid|
        {
            &&& #[trigger] g.feeds(&mid, cooler, second, plume)
            &&& next1.wf()
            &&& next1.same_shape(&g)
            &&& forall|x: int, y: int|
                next1.contains(x, y) ==> #[trigger] next1.at(x, y) == mid.risen(drift1, decay1, x, y)
        };
    let mid2 = choose|mid: FireGrid|
        {
            &&& #[trigger] g.feeds(&mid, hotter, second, plume)
            &&& next2.wf()
            &&& next2.same_shape(&g)
            &&& forall|x: int, y: int|
                next2.contains(x, y) ==> #[trigger] next2.at(x, y) == mid.risen(drift2, decay2, x, y)
        };
    let b = g.height() - 1;
    assert forall|x: int| 0 <= x < g.width() implies #[trigger] next1.at(x, b) <= next2.at(x, b) by {
        assert(next1.contains(x, b));
        assert(next2.contains(x, b));
        assert(mid1.contains(x, b));
        assert(mid2.contains(x, b));
        assert(next1.at(x, b) == mid1.at(x, b));
        assert(next2.at(x, b) == mid2.at(x, b));
        assert(cooler[x] <= hotter[x]);
    }
}


/// A plume flares all of its columns: feeding a grid with the plume `(fx, w)` leaves
/// every cell of the bottom three rows in columns `fx` to `fx + w - 1` at `MAX_HEAT`,
/// whatever the source and second-row samples are; every other bottom-row cell holds
/// its source sample, held to `MAX_HEAT`.
pub proof fn plume_flares_its_columns(
    g: FireGrid,
    mid: FireGrid,
    source: Seq<u8>,
    second: Seq<Option<u8>>,
    fx: usize,
    w: usize,
)
    requires
        g.feeds(&mid, source, second, Some((fx, w))),
        g.height() >= 1,
        source.len() == g.width(),
    ensures
        forall|x: int, y: int|
            mid.contains(x, y) && fx <= x < fx + w && y >= mid.height() - 3 ==> #[trigger] mid.at(
                x,
                y,
            ) == 35,
        forall|x: int|
            0 <= x < mid.width() && !(fx <= x < fx + w) ==> #[trigger] mid.at(x, mid.height() - 1)
                == if source[x] < 35 {
                source[x]
            } else {
                35
            },
{
    assert forall|x: int| 0 <= x < mid.width() && !(fx <= x < fx + w) implies #[trigger] mid.at(
        x,
        mid.height() - 1,
    ) == if source[x] < 35 {
        source[x]
    } else {
        35
    } by {
        assert(mid.contains(x, mid.height() - 1));
    }
}

/// After a step with the plume `(fx, w)`, the bottom-row cells of the plume's columns
/// hold `MAX_HEAT`, whatever the source and second-row samples, the drift and the
/// decay are.
pub proof fn plume_shows_after_step(
    g: FireGrid,
    next: FireGrid,
    source: Seq<u8>,
    second: Seq<Option<u8>>,
    fx: usize,
    w: usize,
    drift: Seq<i32>,
    decay: Seq<u8>,
)
    requires
        g.wf(),
        g.height() >= 1,
        source.len() == g.width(),
        g.steps_to(&next, source, second, Some((fx, w)), drift, decay),
    ensures
        forall|x: int|
            0 <= x < g.width() && fx <= x < fx + w ==> #[trigger] next.at(x, g.height() - 1) == 35,
{
    let mid = choose|mid: FireGrid|
        {
            &&& #[trigger] g.feeds(&mid, source, second, Some((fx, w)))
            &&& next.wf()
            &&& next.same_shape(&g)
            &&& forall|x: int, y: int|
                next.contains(x, y) ==> #[trigger] next.at(x, y) == mid.risen(drift, decay, x, y)
        };
    plume_flares_its_columns(g, mid, source, second, fx, w);
    assert forall|x: int| 0 <= x < g.width() && fx <= x < fx + w implies #[trigger] next.at(
        x,
        g.height() - 1,
    ) == 35 by {
        assert(next.contains(x, g.height() - 1));
        assert(mid.contains(x, g.height() - 1));
    }
}

} // verus!
