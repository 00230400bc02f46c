//! Integer parts of laying out the scene: where the logo sits, and how many
//! background stars there are and what they look like.
use vstd::prelude::*;

verus! {

/// The placement of `ch` at column `x`, row `y`.
pub open spec fn placed(x: int, y: int, ch: char) -> LogoPlacement {
    LogoPlacement { x: x as usize, y: y as usize, ch }
}

/// A character of the logo and the screen position it is drawn at.
#[derive(Clone, Copy)]
pub struct LogoPlacement {
    pub x: usize,
    pub y: usize,
    pub ch: char,
}

/// Length of the longest of the first `n` lines (0 when there are none).
pub open spec fn widest(lines: Seq<Seq<char>>, n: int) -> int
    decreases n,
{
    if n <= 0 {
        0
    } else {
        let w = widest(lines, n - 1);
        if lines[n - 1].len() > w {
            lines[n - 1].len() as int
        } else {
            w
        }
    }
}

/// Offset that centres something of size `size` in a span of size `span`
/// (0 when it does not fit).
pub open spec fn centre_offset(span: int, size: int) -> int {
    if span > size {
        (span - size) / 2
    } else {
        0
    }
}

/// The placements of the non-space characters among the first `n` characters of
/// `line`, drawn on row `y` from column `ox`, left to right.
pub open spec fn row_placements(line: Seq<char>, ox: int, y: int, n: int) -> Seq<LogoPlacement>
    decreases n,
{
    if n <= 0 {
        seq![]
    } else {
        let prev = row_placements(line, ox, y, n - 1);
        if line[n - 1] != ' ' {
            prev.push(placed(ox + n - 1, y, line[n - 1]))
        } else {
            prev
        }
    }
}

/// The placements of the non-space characters of the first `n` lines, line `r`
/// drawn on row `oy + r` from column `ox`, in reading order.
pub open spec fn logo_placements(lines: Seq<Seq<char>>, ox: int, oy: int, n: int) -> Seq<
    LogoPlacement,
>
    decreases n,
{
    if n <= 0 {
        seq![]
    } else {
        logo_placements(lines, ox, oy, n - 1) + row_placements(
            lines[n - 1],
            ox,
            oy + n - 1,
            lines[n - 1].len() as int,
        )
    }
}

/// Every placement of a row lies on that row, within the line's length from `ox`.
proof fn lemma_row_placements_bounds(line: Seq<char>, ox: int, y: int, n: int)
    requires
        0 <= ox,
        0 <= y <= usize::MAX,
        0 <= n <= line.len(),
        ox + n <= usize::MAX + 1,
    ensures
        forall|i: int|
            0 <= i < row_placements(line, ox, y, n).len() ==> {
                let p = #[trigger] row_placements(line, ox, y, n)[i];
                &&& p.y == y
                &&& ox <= p.x < ox + n
            },
    decreases n,
{
    if n > 0 {
        lemma_row_placements_bounds(line, ox, y, n - 1);
        let prev = row_placements(line, ox, y, n - 1);
        if line[n - 1] != ' ' {
            let p = placed(ox + n - 1, y, line[n - 1]);
            assert forall|i: int| 0 <= i < prev.push(p).len() implies {
                let q = #[trigger] prev.push(p)[i];
                &&& q.y == y
                &&& ox <= q.x < ox + n
            } by {
                if i < prev.len() {
                    assert(prev.push(p)[i] == prev[i]);
                }
            }
        }
    }
}

/// Every placement of the first `n` lines lies in the box the logo spans from `(ox, oy)`.
proof fn lemma_logo_placements_bounds(lines: Seq<Seq<char>>, ox: int, oy: int, n: int)
    requires
        0 <= ox,
        0 <= oy,
        0 <= n <= lines.len(),
        ox + widest(lines, lines.len() as int) <= usize::MAX + 1,
        oy + lines.len() <= usize::MAX + 1,
    ensures
        forall|i: int|
            0 <= i < logo_placements(lines, ox, oy, n).len() ==> {
                let p = #[trigger] logo_placements(lines, ox, oy, n)[i];
                &&& oy <= p.y < oy + n
                &&& ox <= p.x < ox + widest(lines, lines.len() as int)
            },
    decreases n,
{
    if n > 0 {
        lemma_logo_placements_bounds(lines, ox, oy, n - 1);
        lemma_widest_bounds(lines, lines.len() as int, n - 1);
        let line = lines[n - 1];
        lemma_row_placements_bounds(line, ox, oy + n - 1, line.len() as int);
        let a = logo_placements(lines, ox, oy, n - 1);
        let b = row_placements(line, ox, oy + n - 1, line.len() as int);
        assert forall|i: int| 0 <= i < (a + b).len() implies {
            let p = #[trigger] (a + b)[i];
            &&& oy <= p.y < oy + n
            &&& ox <= p.x < ox + widest(lines, lines.len() as int)
        } by {
            if i >= a.len() {
                assert((a + b)[i] == b[i - a.len()]);
            }
        }
    }
}

/// No line among the first `n` is longer than `widest(lines, n)`, which is never negative.
proof fn lemma_widest_bounds(lines: Seq<Seq<char>>, n: int, i: int)
    requires
        0 <= i < n <= lines.len(),
    ensures
        lines[i].len() <= widest(lines, n),
        0 <= widest(lines, n),
    decreases n,
{
    if i < n - 1 {
        lemma_widest_bounds(lines, n - 1, i);
    } else if n > 1 {
        lemma_widest_bounds(lines, n - 1, 0);
    }
}

/// Lays the logo out centred on a `cols` x `rows` screen (against the top-left corner
/// along an axis where it does not fit): one placement per non-space character, in
/// reading order.
pub fn layout_logo(lines: &Vec<Vec<char>>, cols: usize, rows: usize) -> (cells: Vec<
    LogoPlacement,
>)
    requires
        centre_offset(cols as int, widest(lines.deep_view(), lines@.len() as int)) + widest(
            lines.deep_view(),
            lines@.len() as int,
        ) <= usize::MAX + 1,
        centre_offset(rows as int, lines@.len() as int) + lines@.len() <= usize::MAX + 1,
    ensures
        cells@ == logo_placements(
            lines.deep_view(),
            centre_offset(cols as int, widest(lines.deep_view(), lines@.len() as int)),
            centre_offset(rows as int, lines@.len() as int),
            lines@.len() as int,
        ),
{
    let ghost lv = lines.deep_view();
    let h = lines.len();
    let mut w: usize = 0;
    let mut i: usize = 0;
    while i < h
        invariant
            i <= h,
            h == lv.len(),
            lv == lines.deep_view(),
            w == widest(lv, i as int),
        decreases h - i,
    {
        assert(lines@[i as int]@ == lv[i as int]);
        if lines[i].len() > w {
            w = lines[i].len();
        }
        i = i + 1;
    }
    let ox = cols.saturating_sub(w) / 2;
    let oy = rows.saturating_sub(h) / 2;
    let mut cells: Vec<LogoPlacement> = Vec::new();
    let mut r: usize = 0;
    while r < h
        invariant
            r <= h,
            h == lv.len(),
            lv == lines.deep_view(),
            w == widest(lv, h as int),
            ox == centre_offset(cols as int, w as int),
            oy == centre_offset(rows as int, h as int),
            ox + w <= usize::MAX + 1,
            oy + h <= usize::MAX + 1,
            cells@ == logo_placements(lv, ox as int, oy as int, r as int),
        decreases h - r,
    {
        let line = &lines[r];
        assert(line@ == lv[r as int]);
        proof {
            lemma_widest_bounds(lv, h as int, r as int);
        }
        let n = line.len();
        let mut c: usize = 0;
        while c < n
            invariant
                c <= n,
                r < h,
                n == line@.len(),
                line@ == lv[r as int],
                lv.len() == h,
                n <= w,
                ox + w <= usize::MAX + 1,
                oy + h <= usize::MAX + 1,
                cells@ == logo_placements(lv, ox as int, oy as int, r as int) + row_placements(
                    line@,
                    ox as int,
                    (oy + r) as int,
                    c as int,
                ),
            decreases n - c,
        {
            let ch = line[c];
            let ghost before = cells@;
            let ghost a = logo_placements(lv, ox as int, oy as int, r as int);
            let ghost b = row_placements(line@, ox as int, (oy + r) as int, c as int);
            if ch != ' ' {
                let p = LogoPlacement { x: ox + c, y: oy + r, ch };
                assert(p == placed((ox + c) as int, (oy + r) as int, line@[c as int]));
                cells.push(p);
                assert(cells@ =~= a + b.push(p));
            }
            assert(row_placements(line@, ox as int, (oy + r) as int, (c + 1) as int) == if ch
                != ' ' {
                b.push(placed((ox + c) as int, (oy + r) as int, line@[c as int]))
            } else {
                b
            });
            c = c + 1;
        }
        r = r + 1;
    }
    cells
}

/// Number of background stars a `cols` x `rows` screen asks for before quality
/// scaling: one per 20 cells, at least 10 and at most 80.
pub open spec fn base_star_count_spec(cols: int, rows: int) -> int {
    let n = cols * rows / 20;
    if n < 10 {
        10
    } else if n > 80 {
        80
    } else {
        n
    }
}

/// Number of background stars a `cols` x `rows` screen asks for before quality scaling.
pub fn base_star_count(cols: usize, rows: usize) -> (n: usize)
    requires
        cols * rows <= usize::MAX,
    ensures
        n == base_star_count_spec(cols as int, rows as int),
        10 <= n <= 80,
{
    let n = cols * rows / 20;
    if n < 10 {
        10
    } else if n > 80 {
        80
    } else {
        n
    }
}

/// Glyph of the `i`-th background star: a four-pointed star for every seventh, a
/// bullet for the other multiples of three, and a dot for the rest.
pub open spec fn star_glyph_spec(i: int) -> char {
    if i % 7 == 0 {
        '\u{2726}'
    } else if i % 3 == 0 {
        '\u{2022}'
    } else {
        '.'
    }
}

/// Glyph of the `i`-th background star.
pub fn star_glyph(i: usize) -> (c: char)
    ensures
        c == star_glyph_spec(i as int),
{
    if i % 7 == 0 {
        '\u{2726}'
    } else if i % 3 == 0 {
        '\u{2022}'
    } else {
        '.'
    }
}

/// A logo that fits on the screen is drawn entirely on the screen: every placement
/// `layout_logo` produces for it lies inside the `cols` x `rows` screen.
pub proof fn fitting_logo_stays_on_screen(lines: Seq<Seq<char>>, cols: int, rows: int)
    requires
        0 <= cols <= usize::MAX,
        0 <= rows <= usize::MAX,
        widest(lines, lines.len() as int) <= cols,
        lines.len() <= rows,
    ensures
        forall|i: int|
            0 <= i < logo_placements(
                lines,
                centre_offset(cols, widest(lines, lines.len() as int)),
                centre_offset(rows, lines.len() as int),
                lines.len() as int,
            ).len() ==> {
                let p = #[trigger] logo_placements(
                    lines,
                    centre_offset(cols, widest(lines, lines.len() as int)),
                    centre_offset(rows, lines.len() as int),
                    lines.len() as int,
                )[i];
                p.x < cols && p.y < rows
            },
{
    let w = widest(lines, lines.len() as int);
    if lines.len() > 0 {
        lemma_widest_bounds(lines, lines.len() as int, 0);
    }
    lemma_logo_placements_bounds(
        lines,
        centre_offset(cols, w),
        centre_offset(rows, lines.len() as int),
        lines.len() as int,
    );
}

} // verus!
