//! The character screen the scene is drawn into, and the drawing steps that
//! need no floating point: the fire itself, lens-flare streaks, sparks and
//! volcanic globs.
use vstd::prelude::*;
use crate::fire::{flat, gap, lemma_flat_in_bounds, lemma_flat_injective, FireGrid};
use crate::palette::{Rgb, MAX_HEAT};

verus! {

/// One character cell of the screen.
#[derive(Clone, Copy)]
pub struct Cell {
    pub ch: char,
    pub fg: Rgb,
    pub bg: Rgb,
    pub bold: bool,
}

/// An empty cell: a space, black on black, not bold.
pub open spec fn blank_cell() -> Cell {
    Cell { ch: ' ', fg: (0, 0, 0), bg: (0, 0, 0), bold: false }
}

impl Cell {
    /// An empty cell: a space, black on black, not bold.
    pub fn blank() -> (c: Cell)
        ensures
            c == blank_cell(),
    {
        Cell { ch: ' ', fg: (0, 0, 0), bg: (0, 0, 0), bold: false }
    }
}

/// Glyph for a fire cell: heat `v` picks one of 15 glyphs, from a space to a full block.
pub open spec fn fire_glyph_spec(v: int) -> char {
    let i = v * 14 / 35;
    if i <= 0 {
        ' '
    } else if i == 1 {
        '.'
    } else if i == 2 {
        ':'
    } else if i == 3 {
        '-'
    } else if i == 4 {
        '='
    } else if i == 5 {
        '+'
    } else if i == 6 {
        '*'
    } else if i == 7 {
        'o'
    } else if i == 8 {
        's'
    } else if i == 9 {
        'x'
    } else if i == 10 {
        'z'
    } else if i == 11 {
        '#'
    } else if i == 12 {
        'A'
    } else if i == 13 {
        '@'
    } else {
        '\u{2588}'
    }
}

/// The cell that shows fire of heat `v` (`1 <= v <= MAX_HEAT`) with the given palette.
pub open spec fn fire_cell(v: int, palette: Seq<Rgb>) -> Cell {
    Cell { ch: fire_glyph_spec(v), fg: palette[v], bg: (0, 0, 0), bold: v > 14 }
}

/// Brightness of a flare streak `d` cells from its star: it fades by `step` per cell.
pub open spec fn flare_fade(alpha: u8, step: int, d: int) -> u8 {
    if alpha - d * step < 0 {
        0
    } else {
        (alpha - d * step) as u8
    }
}

/// Four fifths of a colour channel, rounded down.
pub open spec fn dim(c: u8) -> u8 {
    (c as int * 4 / 5) as u8
}

/// Colour of a flare streak of brightness `fade`, tinted by the star's colour;
/// `boost` is added to the blue channel.
pub open spec fn flare_rgb(fade: u8, color: Rgb, boost: u8) -> Rgb {
    (
        fade.saturating_add(dim(color.0)),
        ((fade as int * 3 / 4) as u8).saturating_add(dim(color.1)),
        fade.saturating_add(boost).saturating_add(dim(color.2)),
    )
}

/// Glyph of the horizontal flare streak.
pub open spec fn h_streak() -> char {
    '\u{2500}'
}

/// Glyph of the vertical flare streak.
pub open spec fn v_streak() -> char {
    '\u{2502}'
}

/// `c` redrawn as a flare streak: the streak glyph, coloured by brightness `fade`,
/// keeping the cell's background and weight.
pub open spec fn streaked(c: Cell, fade: u8, color: Rgb, boost: u8, glyph: char) -> Cell {
    Cell { ch: glyph, fg: flare_rgb(fade, color, boost), bg: c.bg, bold: c.bold }
}

/// The bright core of a volcanic glob.
pub open spec fn glob_core() -> Cell {
    Cell { ch: '\u{25cf}', fg: (255, 255, 200), bg: (0, 0, 0), bold: true }
}

/// The glowing envelope around a volcanic glob's core.
pub open spec fn glob_shell() -> Cell {
    Cell { ch: 'o', fg: (255, 130, 0), bg: (0, 0, 0), bold: true }
}

/// The character grid: `cols` x `rows` screen positions, row by row, held in a
/// terminal grid that may have more cells after the last row.
pub struct Screen {
    cols: usize,
    rows: usize,
    cells: Vec<Cell>,
}

impl Screen {
    /// Width of the screen.
    pub closed spec fn width(&self) -> nat {
        self.cols as nat
    }

    /// Height of the screen.
    pub closed spec fn height(&self) -> nat {
        self.rows as nat
    }

    /// The cells, row by row.
    pub closed spec fn cells(&self) -> Seq<Cell> {
        self.cells@
    }

    /// The cell at column `x`, row `y`.
    pub open spec fn at(&self, x: int, y: int) -> Cell {
        self.cells()[flat(self.width() as int, x, y)]
    }

    /// Whether `(x, y)` lies on the screen.
    pub open spec fn contains(&self, x: int, y: int) -> bool {
        0 <= x < self.width() && 0 <= y < self.height()
    }

    /// One cell per screen position, and possibly more cells past the last row
    /// (a terminal grid longer than the screen).
    pub open spec fn wf(&self) -> bool {
        &&& self.width() * self.height() <= self.cells().len()
        &&& self.cells().len() <= usize::MAX
    }

    /// Same size and cell count as `other`.
    pub open spec fn same_shape(&self, other: &Screen) -> bool {
        &&& self.width() == other.width()
        &&& self.height() == other.height()
        &&& self.cells().len() == other.cells().len()
    }

    /// The cells past the last row are those of `other`.
    pub open spec fn keeps_tail(&self, other: &Screen) -> bool {
        forall|i: int|
            self.width() * self.height() <= i < self.cells().len() ==> #[trigger] self.cells()[i]
                == other.cells()[i]
    }

    /// The fire grid `fire` holds a heat value for every screen position.
    pub open spec fn fits(&self, fire: &FireGrid) -> bool {
        self.width() * self.height() <= fire.width() * fire.height()
    }

    /// Heat of the fire under screen position `(x, y)`: the fire grid read row by
    /// row with the screen's width.
    pub open spec fn fire_under(&self, fire: &FireGrid, x: int, y: int) -> u8 {
        fire.cells()[flat(self.width() as int, x, y)]
    }

    /// A blank `cols` x `rows` screen held in `len` cells (`len >= cols * rows`).
    pub fn new(cols: usize, rows: usize, len: usize) -> (s: Screen)
        requires
            cols * rows <= len,
        ensures
            s.wf(),
            s.width() == cols,
            s.height() == rows,
            s.cells().len() == len,
            forall|i: int| 0 <= i < len ==> #[trigger] s.cells()[i] == blank_cell(),
            forall|x: int, y: int| s.contains(x, y) ==> #[trigger] s.at(x, y) == blank_cell(),
    {
        let mut cells: Vec<Cell> = Vec::new();
        let mut i: usize = 0;
        while i < len
            invariant
                i <= len,
                cells@.len() == i,
                forall|j: int| 0 <= j < i ==> #[trigger] cells@[j] == blank_cell(),
            decreases len - i,
        {
            cells.push(Cell::blank());
            i = i + 1;
        }
        let s = Screen { cols, rows, cells };
        assert forall|x: int, y: int| s.contains(x, y) implies #[trigger] s.at(x, y)
            == blank_cell() by {
            lemma_flat_in_bounds(cols as int, rows as int, x, y);
        }
        s
    }

    /// Width of the screen.
    pub fn cols(&self) -> (c: usize)
        ensures
            c == self.width(),
    {
        self.cols
    }

    /// Height of the screen.
    pub fn rows(&self) -> (r: usize)
        ensures
            r == self.height(),
    {
        self.rows
    }

    /// Number of cells held, including those past the last row.
    pub fn len(&self) -> (n: usize)
        ensures
            n == self.cells().len(),
    {
        self.cells.len()
    }

    /// The `i`-th cell, counting row by row.
    pub fn cell(&self, i: usize) -> (c: Cell)
        requires
            i < self.cells().len(),
        ensures
            c == self.cells()[i as int],
    {
        self.cells[i]
    }

    /// The cell at column `x`, row `y`.
    pub fn get(&self, x: usize, y: usize) -> (c: Cell)
        requires
            self.wf(),
            self.contains(x as int, y as int),
        ensures
            c == self.at(x as int, y as int),
    {
        proof {
            lemma_flat_in_bounds(self.cols as int, self.rows as int, x as int, y as int);
        }
        self.cells[y * self.cols + x]
    }

    /// Writes `c` at column `x` of row `y`, counting cells row by row with the
    /// screen's width: a column past the right edge runs on into the next row, and a
    /// row past the last reaches the cells held past it.
    pub fn put(&mut self, x: usize, y: usize, c: Cell)
        requires
            old(self).wf(),
            flat(old(self).width() as int, x as int, y as int) < old(self).cells().len(),
        ensures
            final(self).wf(),
            final(self).same_shape(old(self)),
            forall|i: int|
                0 <= i < final(self).cells().len() ==> #[trigger] final(self).cells()[i] == if i
                    == flat(old(self).width() as int, x as int, y as int) {
                    c
                } else {
                    old(self).cells()[i]
                },
    {
        proof {
            assert(0 <= y as int * self.cols as int) by (nonlinear_arith);
        }
        let i = y * self.cols + x;
        self.cells.set(i, c);
    }

    /// Writes `c` at `(x, y)`, a position on the screen.
    fn set_cell(&mut self, x: usize, y: usize, c: Cell)
        requires
            old(self).wf(),
            old(self).contains(x as int, y as int),
        ensures
            final(self).wf(),
            final(self).same_shape(old(self)),
            final(self).keeps_tail(old(self)),
            forall|x2: int, y2: int|
                final(self).contains(x2, y2) ==> #[trigger] final(self).at(x2, y2) == if x2 == x
                    && y2 == y {
                    c
                } else {
                    old(self).at(x2, y2)
                },
    {
        proof {
            lemma_flat_in_bounds(self.cols as int, self.rows as int, x as int, y as int);
        }
        self.put(x, y, c);
        proof {
            assert forall|x2: int, y2: int| self.contains(x2, y2) implies #[trigger] self.at(x2, y2)
                == if x2 == x && y2 == y {
                c
            } else {
                old(self).at(x2, y2)
            } by {
                lemma_flat_in_bounds(self.cols as int, self.rows as int, x2, y2);
                if flat(self.cols as int, x2, y2) == flat(self.cols as int, x as int, y as int) {
                    lemma_flat_injective(self.cols as int, x2, y2, x as int, y as int);
                }
            }
        }
    }

    /// Blanks every cell.
    pub fn clear(&mut self)
        requires
            old(self).wf(),
        ensures
            final(self).wf(),
            final(self).same_shape(old(self)),
            forall|i: int| 0 <= i < final(self).cells().len() ==> #[trigger] final(self).cells()[i] == blank_cell(),
            forall|x: int, y: int|
                final(self).contains(x, y) ==> #[trigger] final(self).at(x, y) == blank_cell(),
    {
        let n = self.cells.len();
        let mut i: usize = 0;
        while i < n
            invariant
                i <= n,
                n == self.cells().len(),
                self.wf(),
                self.same_shape(old(self)),
                forall|j: int| 0 <= j < i ==> #[trigger] self.cells()[j] == blank_cell(),
            decreases n - i,
        {
            self.cells.set(i, Cell::blank());
            i = i + 1;
        }
        proof {
            assert forall|x: int, y: int| self.contains(x, y) implies #[trigger] self.at(x, y)
                == blank_cell() by {
                lemma_flat_in_bounds(self.cols as int, self.rows as int, x, y);
            }
        }
    }
}


/// Glyph for a fire cell of heat `v`.
pub fn fire_glyph(v: u8) -> (c: char)
    requires
        v <= MAX_HEAT,
    ensures
        c == fire_glyph_spec(v as int),
{
    let i = (v as usize) * 14 / 35;
    if i == 0 {
        ' '
    } else if i == 1 {
        '.'
    } else if i == 2 {
        ':'
    } else if i == 3 {
        '-'
    } else if i == 4 {
        '='
    } else if i == 5 {
        '+'
    } else if i == 6 {
        '*'
    } else if i == 7 {
        'o'
    } else if i == 8 {
        's'
    } else if i == 9 {
        'x'
    } else if i == 10 {
        'z'
    } else if i == 11 {
        '#'
    } else if i == 12 {
        'A'
    } else if i == 13 {
        '@'
    } else {
        '\u{2588}'
    }
}

/// Colour of a flare streak of brightness `fade`, tinted by `color`, with `boost`
/// added to blue.
fn flare_color(fade: u8, color: Rgb, boost: u8) -> (c: Rgb)
    ensures
        c == flare_rgb(fade, color, boost),
{
    let r4 = (color.0 as u16 * 4 / 5) as u8;
    let g4 = (color.1 as u16 * 4 / 5) as u8;
    let b4 = (color.2 as u16 * 4 / 5) as u8;
    let g = (fade as u16 * 3 / 4) as u8;
    (fade.saturating_add(r4), g.saturating_add(g4), fade.saturating_add(boost).saturating_add(b4))
}

impl Screen {
    /// Heat of the fire under screen position `(x, y)`.
    fn fire_at(&self, fire: &FireGrid, x: usize, y: usize) -> (h: u8)
        requires
            self.wf(),
            fire.wf(),
            self.fits(fire),
            self.contains(x as int, y as int),
        ensures
            h == self.fire_under(fire, x as int, y as int),
    {
        proof {
            lemma_flat_in_bounds(self.cols as int, self.rows as int, x as int, y as int);
        }
        fire.heat_index(y * self.cols + x)
    }

    /// What a horizontal flare streak of the star at `(sx, sy)` makes of cell `(x, y)`:
    /// on the star's row, up to 11 cells either side, a cell that is empty or already a
    /// streak, with no fire under it, becomes a streak while the streak is still brighter
    /// than 10.
    pub open spec fn h_flared(
        &self,
        fire: &FireGrid,
        sx: int,
        sy: int,
        alpha: u8,
        color: Rgb,
        x: int,
        y: int,
    ) -> Cell {
        let d = gap(x, sx);
        let f = flare_fade(alpha, 9, d);
        let c = self.at(x, y);
        if y == sy && 1 <= d <= 11 && f > 10 && self.fire_under(fire, x, y) == 0 && (c.ch == ' ' || c.ch
            == h_streak()) {
            streaked(c, f, color, 45, h_streak())
        } else {
            c
        }
    }

    /// What a vertical flare streak of the star at `(sx, sy)` makes of cell `(x, y)`:
    /// as `h_flared`, along the star's column, up to 4 cells above and below.
    pub open spec fn v_flared(
        &self,
        fire: &FireGrid,
        sx: int,
        sy: int,
        alpha: u8,
        color: Rgb,
        x: int,
        y: int,
    ) -> Cell {
        let d = gap(y, sy);
        let f = flare_fade(alpha, 16, d);
        let c = self.at(x, y);
        if x == sx && 1 <= d <= 4 && f > 10 && self.fire_under(fire, x, y) == 0 && (c.ch == ' ' || c.ch
            == v_streak()) {
            streaked(c, f, color, 30, v_streak())
        } else {
            c
        }
    }

    /// Draws the fire over the screen: each cell with heat shows the fire glyph and
    /// the palette colour of its heat; cells without fire are left as they are.
    pub fn render_fire(&mut self, fire: &FireGrid, palette: &[Rgb; 36])
        requires
            old(self).wf(),
            fire.wf(),
            old(self).fits(fire),
        ensures
            final(self).wf(),
            final(self).same_shape(old(self)),
            final(self).keeps_tail(old(self)),
            forall|x: int, y: int|
                final(self).contains(x, y) ==> #[trigger] final(self).at(x, y) == if old(
                    self,
                ).fire_under(fire, x, y) > 0 {
                    fire_cell(old(self).fire_under(fire, x, y) as int, palette@)
                } else {
                    old(self).at(x, y)
                },
    {
        let ghost s0 = *self;
        let cols = self.cols;
        let rows = self.rows;
        let mut y: usize = 0;
        while y < rows
            invariant
                y <= rows,
                cols == s0.width(),
                rows == s0.height(),
                self.wf(),
                fire.wf(),
                s0.fits(fire),
                self.same_shape(&s0),
                self.keeps_tail(&s0),
                forall|x2: int, y2: int|
                    self.contains(x2, y2) ==> #[trigger] self.at(x2, y2) == if y2 < y
                        && s0.fire_under(fire, x2, y2) > 0 {
                        fire_cell(s0.fire_under(fire, x2, y2) as int, palette@)
                    } else {
                        s0.at(x2, y2)
                    },
            decreases rows - y,
        {
            let mut x: usize = 0;
            while x < cols
                invariant
                    x <= cols,
                    y < rows,
                    cols == s0.width(),
                    rows == s0.height(),
                    self.wf(),
                    fire.wf(),
                    s0.fits(fire),
                    self.same_shape(&s0),
                self.keeps_tail(&s0),
                    forall|x2: int, y2: int|
                        self.contains(x2, y2) ==> #[trigger] self.at(x2, y2) == if (y2 < y || (y2
                            == y && x2 < x)) && s0.fire_under(fire, x2, y2) > 0 {
                            fire_cell(s0.fire_under(fire, x2, y2) as int, palette@)
                        } else {
                            s0.at(x2, y2)
                        },
                decreases cols - x,
            {
                let h = self.fire_at(fire, x, y);
                if h > 0 {
                    proof {
                        lemma_flat_in_bounds(cols as int, rows as int, x as int, y as int);
                    }
                    let v = if h > MAX_HEAT {
                        MAX_HEAT
                    } else {
                        h
                    };
                    let c = Cell {
                        ch: fire_glyph(v),
                        fg: palette[v as usize],
                        bg: (0, 0, 0),
                        bold: v > 14,
                    };
                    self.set_cell(x, y, c);
                }
                x = x + 1;
            }
            y = y + 1;
        }
    }

    /// A spark at `(x, y)`: if that position is on the screen and the fire there is
    /// cooler than 10, the cell takes the spark's glyph, colour and weight.
    pub fn overlay_spark(&mut self, fire: &FireGrid, x: i32, y: i32, ch: char, fg: Rgb, bold: bool)
        requires
            old(self).wf(),
            fire.wf(),
            old(self).fits(fire),
            old(self).width() <= i32::MAX,
            old(self).height() <= i32::MAX,
        ensures
            final(self).wf(),
            final(self).same_shape(old(self)),
            final(self).keeps_tail(old(self)),
            forall|x2: int, y2: int|
                final(self).contains(x2, y2) ==> #[trigger] final(self).at(x2, y2) == if x2 == x
                    && y2 == y && old(self).fire_under(fire, x2, y2) < 10 {
                    Cell { ch, fg, bg: old(self).at(x2, y2).bg, bold }
                } else {
                    old(self).at(x2, y2)
                },
    {
        if x >= 0 && (x as usize) < self.cols && y >= 0 && (y as usize) < self.rows {
            let ux = x as usize;
            let uy = y as usize;
            if self.fire_at(fire, ux, uy) < 10 {
                let cur = self.get(ux, uy);
                self.set_cell(ux, uy, Cell { ch, fg, bg: cur.bg, bold });
            }
        }
    }

    /// Writes `c` at `(px, py)` when that position is on the screen.
    fn stamp(&mut self, px: i32, py: i32, c: Cell)
        requires
            old(self).wf(),
            old(self).width() <= i32::MAX,
            old(self).height() <= i32::MAX,
        ensures
            final(self).wf(),
            final(self).same_shape(old(self)),
            final(self).keeps_tail(old(self)),
            forall|x2: int, y2: int|
                final(self).contains(x2, y2) ==> #[trigger] final(self).at(x2, y2) == if x2 == px
                    && y2 == py {
                    c
                } else {
                    old(self).at(x2, y2)
                },
    {
        if px >= 0 && (px as usize) < self.cols && py >= 0 && (py as usize) < self.rows {
            self.set_cell(px as usize, py as usize, c);
        }
    }

    /// Draws a volcanic glob centred on `(gx, gy)`: a bright core with a glowing cell
    /// on each of its four sides, clipped to the screen.
    pub fn overlay_glob(&mut self, gx: i32, gy: i32)
        requires
            old(self).wf(),
            old(self).width() <= i32::MAX,
            old(self).height() <= i32::MAX,
            i32::MIN < gx < i32::MAX,
            i32::MIN < gy < i32::MAX,
        ensures
            final(self).wf(),
            final(self).same_shape(old(self)),
            final(self).keeps_tail(old(self)),
            forall|x: int, y: int|
                final(self).contains(x, y) ==> #[trigger] final(self).at(x, y) == if x == gx && y
                    == gy {
                    glob_core()
                } else if gap(x, gx as int) + gap(y, gy as int) == 1 {
                    glob_shell()
                } else {
                    old(self).at(x, y)
                },
    {
        let core = Cell { ch: '\u{25cf}', fg: (255, 255, 200), bg: (0, 0, 0), bold: true };
        let shell = Cell { ch: 'o', fg: (255, 130, 0), bg: (0, 0, 0), bold: true };
        self.stamp(gx, gy, core);
        self.stamp(gx - 1, gy, shell);
        self.stamp(gx + 1, gy, shell);
        self.stamp(gx, gy - 1, shell);
        self.stamp(gx, gy + 1, shell);
    }

    /// Draws the horizontal lens-flare streak of a star at `(sx, sy)` whose flare has
    /// brightness `alpha` and colour `color`.
    pub fn draw_h_flare(&mut self, fire: &FireGrid, sx: usize, sy: usize, alpha: u8, color: Rgb)
        requires
            old(self).wf(),
            fire.wf(),
            old(self).fits(fire),
            old(self).contains(sx as int, sy as int),
            sx + 11 <= usize::MAX,
        ensures
            final(self).wf(),
            final(self).same_shape(old(self)),
            final(self).keeps_tail(old(self)),
            forall|x: int, y: int|
                final(self).contains(x, y) ==> #[trigger] final(self).at(x, y) == old(
                    self,
                ).h_flared(fire, sx as int, sy as int, alpha, color, x, y),
    {
        let ghost s0 = *self;
        let cols = self.cols;
        let mut dx: usize = 1;
        while dx < 12
            invariant
                1 <= dx <= 12,
                cols == s0.width(),
                s0.contains(sx as int, sy as int),
                sx + 11 <= usize::MAX,
                self.wf(),
                fire.wf(),
                s0.fits(fire),
                self.same_shape(&s0),
                self.keeps_tail(&s0),
                forall|x2: int, y2: int|
                    self.contains(x2, y2) ==> #[trigger] self.at(x2, y2) == if gap(x2, sx as int)
                        < dx {
                        s0.h_flared(fire, sx as int, sy as int, alpha, color, x2, y2)
                    } else {
                        s0.at(x2, y2)
                    },
            decreases 12 - dx,
        {
            let fade = alpha.saturating_sub((dx * 9) as u8);
            if fade > 10 {
                if sx + dx < cols {
                    let x = sx + dx;
                    let cur = self.get(x, sy);
                    if self.fire_at(fire, x, sy) == 0 && (cur.ch == ' ' || cur.ch == '\u{2500}') {
                        let c = Cell {
                            ch: '\u{2500}',
                            fg: flare_color(fade, color, 45),
                            bg: cur.bg,
                            bold: cur.bold,
                        };
                        self.set_cell(x, sy, c);
                    }
                }
                if sx >= dx {
                    let x = sx - dx;
                    let cur = self.get(x, sy);
                    if self.fire_at(fire, x, sy) == 0 && (cur.ch == ' ' || cur.ch == '\u{2500}') {
                        let c = Cell {
                            ch: '\u{2500}',
                            fg: flare_color(fade, color, 45),
                            bg: cur.bg,
                            bold: cur.bold,
                        };
                        self.set_cell(x, sy, c);
                    }
                }
            }
            dx = dx + 1;
        }
    }

    /// Draws the vertical lens-flare streak of a star at `(sx, sy)` whose flare has
    /// brightness `alpha` and colour `color`.
    pub fn draw_v_flare(&mut self, fire: &FireGrid, sx: usize, sy: usize, alpha: u8, color: Rgb)
        requires
            old(self).wf(),
            fire.wf(),
            old(self).fits(fire),
            old(self).contains(sx as int, sy as int),
            sy + 4 <= usize::MAX,
        ensures
            final(self).wf(),
            final(self).same_shape(old(self)),
            final(self).keeps_tail(old(self)),
            forall|x: int, y: int|
                final(self).contains(x, y) ==> #[trigger] final(self).at(x, y) == old(
                    self,
                ).v_flared(fire, sx as int, sy as int, alpha, color, x, y),
    {
        let ghost s0 = *self;
        let rows = self.rows;
        let mut dy: usize = 1;
        while dy < 5
            invariant
                1 <= dy <= 5,
                rows == s0.height(),
                s0.contains(sx as int, sy as int),
                sy + 4 <= usize::MAX,
                self.wf(),
                fire.wf(),
                s0.fits(fire),
                self.same_shape(&s0),
                self.keeps_tail(&s0),
                forall|x2: int, y2: int|
                    self.contains(x2, y2) ==> #[trigger] self.at(x2, y2) == if gap(y2, sy as int)
                        < dy {
                        s0.v_flared(fire, sx as int, sy as int, alpha, color, x2, y2)
                    } else {
                        s0.at(x2, y2)
                    },
            decreases 5 - dy,
        {
            let fade = alpha.saturating_sub((dy * 16) as u8);
            if fade > 10 {
                if sy + dy < rows {
                    let y = sy + dy;
                    let cur = self.get(sx, y);
                    if self.fire_at(fire, sx, y) == 0 && (cur.ch == ' ' || cur.ch == '\u{2502}') {
                        let c = Cell {
                            ch: '\u{2502}',
                            fg: flare_color(fade, color, 30),
                            bg: cur.bg,
                            bold: cur.bold,
                        };
                        self.set_cell(sx, y, c);
                    }
                }
                if sy >= dy {
                    let y = sy - dy;
                    let cur = self.get(sx, y);
                    if self.fire_at(fire, sx, y) == 0 && (cur.ch == ' ' || cur.ch == '\u{2502}') {
                        let c = Cell {
                            ch: '\u{2502}',
                            fg: flare_color(fade, color, 30),
                            bg: cur.bg,
                            bold: cur.bold,
                        };
                        self.set_cell(sx, y, c);
                    }
                }
            }
            dy = dy + 1;
        }
    }
}


impl Screen {
    /// Same size and the same cells as `other`.
    pub open spec fn same_as(&self, other: &Screen) -> bool {
        &&& self.width() == other.width()
        &&& self.height() == other.height()
        &&& self.cells() == other.cells()
    }

    /// A blank `cols` x `rows` screen held in `len` cells.
    pub open spec fn is_blank(&self, cols: nat, rows: nat, len: nat) -> bool {
        &&& self.wf()
        &&& self.width() == cols
        &&& self.height() == rows
        &&& self.cells().len() == len
        &&& forall|i: int| 0 <= i < len ==> #[trigger] self.cells()[i] == blank_cell()
    }

    /// This screen is `a` with `c` put at column `x` of row `y` (counting row by row).
    pub open spec fn put_of(&self, a: &Screen, x: int, y: int, c: Cell) -> bool {
        &&& self.wf()
        &&& self.same_shape(a)
        &&& forall|i: int|
            0 <= i < self.cells().len() ==> #[trigger] self.cells()[i] == if i == flat(
                a.width() as int,
                x,
                y,
            ) {
                c
            } else {
                a.cells()[i]
            }
    }

    /// This screen is `a` with the horizontal flare of the star at `(sx, sy)` drawn.
    pub open spec fn h_flare_of(
        &self,
        a: &Screen,
        fire: &FireGrid,
        sx: int,
        sy: int,
        alpha: u8,
        color: Rgb,
    ) -> bool {
        &&& self.wf()
        &&& self.same_shape(a)
        &&& self.keeps_tail(a)
        &&& forall|x: int, y: int|
            self.contains(x, y) ==> #[trigger] self.at(x, y) == a.h_flared(
                fire,
                sx,
                sy,
                alpha,
                color,
                x,
                y,
            )
    }

    /// This screen is `a` with the vertical flare of the star at `(sx, sy)` drawn.
    pub open spec fn v_flare_of(
        &self,
        a: &Screen,
        fire: &FireGrid,
        sx: int,
        sy: int,
        alpha: u8,
        color: Rgb,
    ) -> bool {
        &&& self.wf()
        &&& self.same_shape(a)
        &&& self.keeps_tail(a)
        &&& forall|x: int, y: int|
            self.contains(x, y) ==> #[trigger] self.at(x, y) == a.v_flared(
                fire,
                sx,
                sy,
                alpha,
                color,
                x,
                y,
            )
    }

    /// This screen is `a` with the fire drawn over it.
    pub open spec fn fire_of(&self, a: &Screen, fire: &FireGrid, palette: Seq<Rgb>) -> bool {
        &&& self.wf()
        &&& self.same_shape(a)
        &&& self.keeps_tail(a)
        &&& forall|x: int, y: int|
            self.contains(x, y) ==> #[trigger] self.at(x, y) == if a.fire_under(fire, x, y) > 0 {
                fire_cell(a.fire_under(fire, x, y) as int, palette)
            } else {
                a.at(x, y)
            }
    }

    /// This screen is `a` with a spark at `(x, y)` drawn.
    pub open spec fn spark_of(
        &self,
        a: &Screen,
        fire: &FireGrid,
        x: int,
        y: int,
        ch: char,
        fg: Rgb,
        bold: bool,
    ) -> bool {
        &&& self.wf()
        &&& self.same_shape(a)
        &&& self.keeps_tail(a)
        &&& forall|x2: int, y2: int|
            self.contains(x2, y2) ==> #[trigger] self.at(x2, y2) == if x2 == x && y2 == y
                && a.fire_under(fire, x2, y2) < 10 {
                Cell { ch, fg, bg: a.at(x2, y2).bg, bold }
            } else {
                a.at(x2, y2)
            }
    }

    /// This screen is `a` with a volcanic glob centred on `(gx, gy)` drawn.
    pub open spec fn glob_of(&self, a: &Screen, gx: int, gy: int) -> bool {
        &&& self.wf()
        &&& self.same_shape(a)
        &&& self.keeps_tail(a)
        &&& forall|x: int, y: int|
            self.contains(x, y) ==> #[trigger] self.at(x, y) == if x == gx && y == gy {
                glob_core()
            } else if gap(x, gx) + gap(y, gy) == 1 {
                glob_shell()
            } else {
                a.at(x, y)
            }
    }
}


/// `n` held to a channel: 255 when larger.
pub open spec fn channel(n: int) -> int {
    if n > 255 {
        255
    } else {
        n
    }
}

/// A horizontal flare streak reaches 11 cells either side of its star and fades by 9
/// per cell: a blank cell with no fire under it, on the star's row at distance `d`
/// (1 to 11) where `alpha - 9 d` is still above 10, becomes a horizontal streak of
/// brightness `f = alpha - 9 d`, coloured `f` plus four fifths of the tint in red,
/// three quarters of `f` plus four fifths of the tint in green, and `f + 45` plus
/// four fifths of the tint in blue (each held to 255).
pub proof fn h_flare_streaks_blank_cells(
    a: Screen,
    b: Screen,
    fire: FireGrid,
    sx: int,
    sy: int,
    alpha: u8,
    color: Rgb,
    x: int,
)
    requires
        b.h_flare_of(&a, &fire, sx, sy, alpha, color),
        a.contains(x, sy),
        1 <= gap(x, sx) <= 11,
        alpha - 9 * gap(x, sx) > 10,
        a.at(x, sy) == blank_cell(),
        a.fire_under(&fire, x, sy) == 0,
    ensures
        b.at(x, sy).ch == '\u{2500}',
        b.at(x, sy).bg == (0u8, 0u8, 0u8),
        b.at(x, sy).fg.0 == channel(alpha - 9 * gap(x, sx) + color.0 as int * 4 / 5),
        b.at(x, sy).fg.1 == channel((alpha - 9 * gap(x, sx)) * 3 / 4 + color.1 as int * 4 / 5),
        b.at(x, sy).fg.2 == channel(
            channel(alpha - 9 * gap(x, sx) + 45) + color.2 as int * 4 / 5,
        ),
{
    assert(b.contains(x, sy));
}

/// A vertical flare streak reaches 4 cells above and below its star and fades by 16
/// per cell: a blank cell with no fire under it, on the star's column at distance `d`
/// (1 to 4) where `alpha - 16 d` is still above 10, becomes a vertical streak of
/// brightness `f = alpha - 16 d`, coloured as a horizontal streak but with 30 added
/// to blue.
pub proof fn v_flare_streaks_blank_cells(
    a: Screen,
    b: Screen,
    fire: FireGrid,
    sx: int,
    sy: int,
    alpha: u8,
    color: Rgb,
    y: int,
)
    requires
        b.v_flare_of(&a, &fire, sx, sy, alpha, color),
        a.contains(sx, y),
        1 <= gap(y, sy) <= 4,
        alpha - 16 * gap(y, sy) > 10,
        a.at(sx, y) == blank_cell(),
        a.fire_under(&fire, sx, y) == 0,
    ensures
        b.at(sx, y).ch == '\u{2502}',
        b.at(sx, y).bg == (0u8, 0u8, 0u8),
        b.at(sx, y).fg.0 == channel(alpha - 16 * gap(y, sy) + color.0 as int * 4 / 5),
        b.at(sx, y).fg.1 == channel((alpha - 16 * gap(y, sy)) * 3 / 4 + color.1 as int * 4 / 5),
        b.at(sx, y).fg.2 == channel(
            channel(alpha - 16 * gap(y, sy) + 30) + color.2 as int * 4 / 5,
        ),
{
    assert(b.contains(sx, y));
}

} // verus!
