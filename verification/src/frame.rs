//! A whole frame of the scene, drawn in order onto a fresh screen: stars and their
//! lens flares, the fire over them, then sparks, volcanic globs and the logo. The
//! colours and positions that come out of the floating-point animation are handed
//! in as marks.
use vstd::prelude::*;
use crate::fire::{flat, gap, lemma_flat_cover, lemma_flat_in_bounds, lemma_flat_injective, FireGrid};
use crate::palette::Rgb;
use crate::screen::{
    blank_cell, channel, fire_cell, glob_core, glob_shell, h_flare_streaks_blank_cells, streaked,
    v_flare_streaks_blank_cells, Cell, Screen,
};

verus! {

/// The lens flare of a star: brightness of its horizontal and vertical streaks, and
/// their tint.
#[derive(Clone, Copy)]
pub struct Flare {
    pub h_alpha: u8,
    pub v_alpha: u8,
    pub color: Rgb,
}

/// A background star: where it is, how it looks, and its flare if it has one.
#[derive(Clone, Copy)]
pub struct StarMark {
    pub x: usize,
    pub y: usize,
    pub ch: char,
    pub fg: Rgb,
    pub bold: bool,
    pub flare: Option<Flare>,
}

/// A spark: its rounded position and how it looks.
#[derive(Clone, Copy)]
pub struct SparkMark {
    pub x: i32,
    pub y: i32,
    pub ch: char,
    pub fg: Rgb,
    pub bold: bool,
}

/// A logo character: its position and how it looks.
#[derive(Clone, Copy)]
pub struct LogoMark {
    pub x: usize,
    pub y: usize,
    pub ch: char,
    pub fg: Rgb,
    pub bold: bool,
}

/// Each screen of `states` is the one before it with one more step of `step` applied
/// (step `j` leads from `states[j]` to `states[j + 1]`).
pub open spec fn runs(states: Seq<Screen>, step: spec_fn(Screen, Screen, int) -> bool) -> bool {
    forall|j: int| 0 <= j < states.len() - 1 ==> #[trigger] step(states[j], states[j + 1], j)
}

/// `b` is `a` with steps `0..n` of `step` applied in turn.
pub open spec fn chain(a: Screen, b: Screen, n: nat, step: spec_fn(Screen, Screen, int) -> bool) -> bool {
    exists|states: Seq<Screen>|
        #[trigger] runs(states, step) && states.len() == n + 1 && states[0] == a && states[n as int] == b
}

/// `b` is `a` with star `m` drawn: a star on the screen with no fire under it is put
/// there on a black background, then its flare streaks, if any, are drawn.
pub open spec fn star_drawn(a: Screen, b: Screen, fire: FireGrid, m: StarMark) -> bool {
    if m.x < a.width() && m.y < a.height() && a.fire_under(&fire, m.x as int, m.y as int) == 0 {
        let c = Cell { ch: m.ch, fg: m.fg, bg: (0, 0, 0), bold: m.bold };
        match m.flare {
            None => b.put_of(&a, m.x as int, m.y as int, c),
            Some(f) => exists|p: Screen, q: Screen|
                #[trigger] p.put_of(&a, m.x as int, m.y as int, c) && #[trigger] q.h_flare_of(
                    &p,
                    &fire,
                    m.x as int,
                    m.y as int,
                    f.h_alpha,
                    f.color,
                ) && b.v_flare_of(&q, &fire, m.x as int, m.y as int, f.v_alpha, f.color),
        }
    } else {
        b.same_as(&a)
    }
}

/// `b` is `a` with logo character `m` put on a black background.
pub open spec fn logo_drawn(a: Screen, b: Screen, m: LogoMark) -> bool {
    b.put_of(&a, m.x as int, m.y as int, Cell { ch: m.ch, fg: m.fg, bg: (0, 0, 0), bold: m.bold })
}

/// Drawing star `k` of `stars`.
pub open spec fn star_step(fire: FireGrid, stars: Seq<StarMark>) -> spec_fn(Screen, Screen, int) -> bool {
    |a: Screen, b: Screen, k: int| star_drawn(a, b, fire, stars[k])
}

/// Drawing spark `k` of `sparks`.
pub open spec fn spark_step(fire: FireGrid, sparks: Seq<SparkMark>) -> spec_fn(Screen, Screen, int) -> bool {
    |a: Screen, b: Screen, k: int|
        b.spark_of(&a, &fire, sparks[k].x as int, sparks[k].y as int, sparks[k].ch, sparks[k].fg, sparks[k].bold)
}

/// Drawing glob `k` of `globs`.
pub open spec fn glob_step(globs: Seq<(i32, i32)>) -> spec_fn(Screen, Screen, int) -> bool {
    |a: Screen, b: Screen, k: int| b.glob_of(&a, globs[k].0 as int, globs[k].1 as int)
}

/// Drawing logo character `k` of `logo`.
pub open spec fn logo_step(logo: Seq<LogoMark>) -> spec_fn(Screen, Screen, int) -> bool {
    |a: Screen, b: Screen, k: int| logo_drawn(a, b, logo[k])
}

/// `result` is the frame drawn from the given fire, palette and marks: a blank
/// `cols` x `rows` screen of `len` cells, then the stars, the fire, the sparks, the
/// globs and the logo, each in the order given.
pub open spec fn frame_of(
    result: Screen,
    cols: nat,
    rows: nat,
    len: nat,
    fire: FireGrid,
    palette: Seq<Rgb>,
    stars: Seq<StarMark>,
    sparks: Seq<SparkMark>,
    globs: Seq<(i32, i32)>,
    logo: Seq<LogoMark>,
) -> bool {
    exists|s0: Screen, s1: Screen, s2: Screen, s3: Screen, s4: Screen|
        {
            &&& #[trigger] s0.is_blank(cols, rows, len)
            &&& #[trigger] chain(s0, s1, stars.len(), star_step(fire, stars))
            &&& #[trigger] s2.fire_of(&s1, &fire, palette)
            &&& #[trigger] chain(s2, s3, sparks.len(), spark_step(fire, sparks))
            &&& #[trigger] chain(s3, s4, globs.len(), glob_step(globs))
            &&& chain(s4, result, logo.len(), logo_step(logo))
        }
}


/// Draws one frame onto a fresh `cols` x `rows` screen held in `len` cells (the
/// terminal grid's length): the stars with their flares, then the fire over them, then
/// the sparks, the globs and the logo, each in the order given.
pub fn draw_frame(
    cols: usize,
    rows: usize,
    len: usize,
    fire: &FireGrid,
    palette: &[Rgb; 36],
    stars: &Vec<StarMark>,
    sparks: &Vec<SparkMark>,
    globs: &Vec<(i32, i32)>,
    logo: &Vec<LogoMark>,
) -> (frame: Screen)
    requires
        fire.wf(),
        cols * rows <= len,
        cols * rows <= fire.width() * fire.height(),
        cols <= i32::MAX,
        rows <= i32::MAX,
        forall|k: int|
            0 <= k < stars@.len() && (#[trigger] stars@[k]).flare is Some && stars@[k].x < cols
                && stars@[k].y < rows ==> stars@[k].x + 11 <= usize::MAX && stars@[k].y + 4
                <= usize::MAX,
        forall|k: int|
            0 <= k < globs@.len() ==> i32::MIN < (#[trigger] globs@[k]).0 < i32::MAX && i32::MIN
                < globs@[k].1 < i32::MAX,
        forall|k: int|
            0 <= k < logo@.len() ==> flat(cols as int, (#[trigger] logo@[k]).x as int, logo@[k].y as int)
                < len,
    ensures
        frame.wf(),
        frame.width() == cols,
        frame.height() == rows,
        frame.cells().len() == len,
        frame_of(frame, cols as nat, rows as nat, len as nat, *fire, palette@, stars@, sparks@, globs@, logo@),
{
    let mut screen = Screen::new(cols, rows, len);
    let ghost s0 = screen;
    let ghost fire_v = *fire;
    let ghost mut states: Seq<Screen> = seq![screen];
    let mut k: usize = 0;
    while k < stars.len()
        invariant
            k <= stars@.len(),
            fire.wf(),
            fire_v == *fire,
            s0.is_blank(cols as nat, rows as nat, len as nat),
            screen.wf(),
            screen.width() == cols,
            screen.height() == rows,
            screen.cells().len() == len,
            cols * rows <= fire.width() * fire.height(),
            forall|j: int|
                0 <= j < stars@.len() && (#[trigger] stars@[j]).flare is Some && stars@[j].x < cols
                    && stars@[j].y < rows ==> stars@[j].x + 11 <= usize::MAX && stars@[j].y + 4
                    <= usize::MAX,
            states.len() == k + 1,
            states[0] == s0,
            states[k as int] == screen,
            runs(states, star_step(fire_v, stars@)),
        decreases stars@.len() - k,
    {
        let m = stars[k];
        let ghost prev = screen;
        let ghost old_states = states;
        if m.x < cols && m.y < rows {
            proof {
                lemma_flat_in_bounds(cols as int, rows as int, m.x as int, m.y as int);
            }
            if fire.heat_index(m.y * cols + m.x) == 0 {
                let c = Cell { ch: m.ch, fg: m.fg, bg: (0, 0, 0), bold: m.bold };
                screen.put(m.x, m.y, c);
                match m.flare {
                    Some(f) => {
                        let ghost p = screen;
                        screen.draw_h_flare(fire, m.x, m.y, f.h_alpha, f.color);
                        let ghost q = screen;
                        screen.draw_v_flare(fire, m.x, m.y, f.v_alpha, f.color);
                        assert(p.put_of(&prev, m.x as int, m.y as int, c));
                        assert(q.h_flare_of(&p, &fire_v, m.x as int, m.y as int, f.h_alpha, f.color));
                    },
                    None => {},
                }
            }
        }
        assert(star_drawn(prev, screen, fire_v, stars@[k as int]));
        proof {
            assert(star_step(fire_v, stars@)(prev, screen, k as int));
            states = states.push(screen);
            assert(runs(states, star_step(fire_v, stars@))) by {
                assert forall|j: int| 0 <= j < states.len() - 1 implies #[trigger] star_step(fire_v, stars@)(states[j], states[j + 1], j) by {
                    if j < k {
                        assert(states[j] == old_states[j] && states[j + 1] == old_states[j + 1]);
                    }
                }
            }
        }
        k = k + 1;
    }
    assert(chain(s0, screen, stars@.len(), star_step(fire_v, stars@)));
    let ghost s1 = screen;
    screen.render_fire(fire, palette);
    let ghost s2 = screen;
    let ghost mut states: Seq<Screen> = seq![screen];
    let mut k: usize = 0;
    while k < sparks.len()
        invariant
            k <= sparks@.len(),
            fire.wf(),
            fire_v == *fire,
            screen.wf(),
            screen.width() == cols,
            screen.height() == rows,
            screen.cells().len() == len,
            cols <= i32::MAX,
            rows <= i32::MAX,
            cols * rows <= fire.width() * fire.height(),
            states.len() == k + 1,
            states[0] == s2,
            states[k as int] == screen,
            runs(states, spark_step(fire_v, sparks@)),
        decreases sparks@.len() - k,
    {
        let m = sparks[k];
        let ghost prev = screen;
        let ghost old_states = states;
        screen.overlay_spark(fire, m.x, m.y, m.ch, m.fg, m.bold);
        proof {
            assert(spark_step(fire_v, sparks@)(prev, screen, k as int));
            states = states.push(screen);
            assert(runs(states, spark_step(fire_v, sparks@))) by {
                assert forall|j: int| 0 <= j < states.len() - 1 implies #[trigger] spark_step(fire_v, sparks@)(states[j], states[j + 1], j) by {
                    if j < k {
                        assert(states[j] == old_states[j] && states[j + 1] == old_states[j + 1]);
                    }
                }
            }
        }
        k = k + 1;
    }
    assert(chain(s2, screen, sparks@.len(), spark_step(fire_v, sparks@)));
    let ghost s3 = screen;
    let ghost mut states: Seq<Screen> = seq![screen];
    let mut k: usize = 0;
    while k < globs.len()
        invariant
            k <= globs@.len(),
            screen.wf(),
            screen.width() == cols,
            screen.height() == rows,
            screen.cells().len() == len,
            cols <= i32::MAX,
            rows <= i32::MAX,
            forall|j: int|
                0 <= j < globs@.len() ==> i32::MIN < (#[trigger] globs@[j]).0 < i32::MAX
                    && i32::MIN < globs@[j].1 < i32::MAX,
            states.len() == k + 1,
            states[0] == s3,
            states[k as int] == screen,
            runs(states, glob_step(globs@)),
        decreases globs@.len() - k,
    {
        let g = globs[k];
        let ghost prev = screen;
        let ghost old_states = states;
        screen.overlay_glob(g.0, g.1);
        proof {
            assert(glob_step(globs@)(prev, screen, k as int));
            states = states.push(screen);
            assert(runs(states, glob_step(globs@))) by {
                assert forall|j: int| 0 <= j < states.len() - 1 implies #[trigger] glob_step(globs@)(states[j], states[j + 1], j) by {
                    if j < k {
                        assert(states[j] == old_states[j] && states[j + 1] == old_states[j + 1]);
                    }
                }
            }
        }
        k = k + 1;
    }
    assert(chain(s3, screen, globs@.len(), glob_step(globs@)));
    let ghost s4 = screen;
    let ghost mut states: Seq<Screen> = seq![screen];
    let mut k: usize = 0;
    while k < logo.len()
        invariant
            k <= logo@.len(),
            screen.wf(),
            screen.width() == cols,
            screen.height() == rows,
            screen.cells().len() == len,
            forall|j: int|
                0 <= j < logo@.len() ==> flat(cols as int, (#[trigger] logo@[j]).x as int, logo@[j].y as int)
                    < len,
            states.len() == k + 1,
            states[0] == s4,
            states[k as int] == screen,
            runs(states, logo_step(logo@)),
        decreases logo@.len() - k,
    {
        let m = logo[k];
        let ghost prev = screen;
        let ghost old_states = states;
        screen.put(m.x, m.y, Cell { ch: m.ch, fg: m.fg, bg: (0, 0, 0), bold: m.bold });
        assert(logo_drawn(prev, screen, logo@[k as int]));
        proof {
            assert(logo_step(logo@)(prev, screen, k as int));
            states = states.push(screen);
            assert(runs(states, logo_step(logo@))) by {
                assert forall|j: int| 0 <= j < states.len() - 1 implies #[trigger] logo_step(logo@)(states[j], states[j + 1], j) by {
                    if j < k {
                        assert(states[j] == old_states[j] && states[j + 1] == old_states[j + 1]);
                    }
                }
            }
        }
        k = k + 1;
    }
    assert(s2.fire_of(&s1, &fire_v, palette@));
    assert(chain(s4, screen, logo@.len(), logo_step(logo@)));
    screen
}


/// Every cell of the screen has a black background.
pub open spec fn on_black(s: Screen) -> bool {
    forall|i: int| 0 <= i < s.cells().len() ==> (#[trigger] s.cells()[i]).bg == (0u8, 0u8, 0u8)
}

/// Every cell past the screen's last row is blank.
pub open spec fn tail_blank(s: Screen) -> bool {
    forall|i: int|
        s.width() * s.height() <= i < s.cells().len() ==> #[trigger] s.cells()[i] == blank_cell()
}

/// Whether `step` gives screens alike (same size and cells) from screens alike.
pub open spec fn determined(step: spec_fn(Screen, Screen, int) -> bool) -> bool {
    forall|x1: Screen, x2: Screen, y1: Screen, y2: Screen, k: int|
        x1.same_as(&x2) && #[trigger] step(x1, y1, k) && #[trigger] step(x2, y2, k) ==> y1.same_as(
            &y2,
        )
}

/// Whether `step` keeps the property `inv` of screens.
pub open spec fn keeps(step: spec_fn(Screen, Screen, int) -> bool, inv: spec_fn(Screen) -> bool) -> bool {
    forall|x: Screen, y: Screen, k: int| inv(x) && #[trigger] step(x, y, k) ==> inv(y)
}

/// Two runs of a determined step from alike screens pass through alike screens.
proof fn lemma_runs_determined(
    st1: Seq<Screen>,
    st2: Seq<Screen>,
    step: spec_fn(Screen, Screen, int) -> bool,
    j: int,
)
    requires
        runs(st1, step),
        runs(st2, step),
        st1.len() == st2.len(),
        0 <= j < st1.len(),
        st1[0].same_as(&st2[0]),
        determined(step),
    ensures
        st1[j].same_as(&st2[j]),
    decreases j,
{
    if j > 0 {
        lemma_runs_determined(st1, st2, step, j - 1);
        assert(step(st1[j - 1], st1[j - 1 + 1], j - 1));
        assert(step(st2[j - 1], st2[j - 1 + 1], j - 1));
    }
}

/// A chain of a determined step from alike screens ends in alike screens.
proof fn lemma_chain_determined(
    a1: Screen,
    a2: Screen,
    b1: Screen,
    b2: Screen,
    n: nat,
    step: spec_fn(Screen, Screen, int) -> bool,
)
    requires
        a1.same_as(&a2),
        chain(a1, b1, n, step),
        chain(a2, b2, n, step),
        determined(step),
    ensures
        b1.same_as(&b2),
{
    let st1 = choose|st: Seq<Screen>|
        #[trigger] runs(st, step) && st.len() == n + 1 && st[0] == a1 && st[n as int] == b1;
    let st2 = choose|st: Seq<Screen>|
        #[trigger] runs(st, step) && st.len() == n + 1 && st[0] == a2 && st[n as int] == b2;
    lemma_runs_determined(st1, st2, step, n as int);
}

/// Every screen of a run of a step that keeps `inv`, from a screen with `inv`, has `inv`.
proof fn lemma_runs_keep(
    st: Seq<Screen>,
    step: spec_fn(Screen, Screen, int) -> bool,
    inv: spec_fn(Screen) -> bool,
    j: int,
)
    requires
        runs(st, step),
        0 <= j < st.len(),
        inv(st[0]),
        keeps(step, inv),
    ensures
        inv(st[j]),
    decreases j,
{
    if j > 0 {
        lemma_runs_keep(st, step, inv, j - 1);
        assert(step(st[j - 1], st[j - 1 + 1], j - 1));
    }
}

/// A chain of a step that keeps `inv`, from a screen with `inv`, ends with `inv`.
proof fn lemma_chain_keeps(
    a: Screen,
    b: Screen,
    n: nat,
    step: spec_fn(Screen, Screen, int) -> bool,
    inv: spec_fn(Screen) -> bool,
)
    requires
        chain(a, b, n, step),
        inv(a),
        keeps(step, inv),
    ensures
        inv(b),
{
    let st = choose|st: Seq<Screen>|
        #[trigger] runs(st, step) && st.len() == n + 1 && st[0] == a && st[n as int] == b;
    lemma_runs_keep(st, step, inv, n as int);
}

/// Two screens of the same size whose positions and cells past the last row agree
/// are alike.
proof fn lemma_alike(b1: Screen, b2: Screen)
    requires
        b1.wf(),
        b2.wf(),
        b1.same_shape(&b2),
        forall|x: int, y: int| b1.contains(x, y) ==> #[trigger] b1.at(x, y) == b2.at(x, y),
        forall|i: int|
            b1.width() * b1.height() <= i < b1.cells().len() ==> #[trigger] b1.cells()[i]
                == b2.cells()[i],
    ensures
        b1.same_as(&b2),
{
    let w = b1.width() as int;
    let h = b1.height() as int;
    assert forall|i: int| 0 <= i < b1.cells().len() implies #[trigger] b1.cells()[i]
        == b2.cells()[i] by {
        if i < w * h {
            lemma_flat_cover(w, h, i);
            assert(b1.contains(i % w, i / w));
            assert(b1.at(i % w, i / w) == b2.at(i % w, i / w));
        }
    }
    assert(b1.cells() =~= b2.cells());
}

/// A cell of the screen is the cell at its position, or a cell past the last row.
proof fn lemma_cell_at(b: Screen, i: int)
    requires
        b.wf(),
        0 <= i < b.width() * b.height(),
    ensures
        b.contains(i % (b.width() as int), i / (b.width() as int)),
        b.cells()[i] == b.at(i % (b.width() as int), i / (b.width() as int)),
{
    lemma_flat_cover(b.width() as int, b.height() as int, i);
}


/// A screen derived cell by cell from `a` is on black when `a` is and every position
/// of it has a black background.
proof fn lemma_black_from(a: Screen, b: Screen)
    requires
        a.wf(),
        b.wf(),
        b.same_shape(&a),
        b.keeps_tail(&a),
        on_black(a),
        forall|x: int, y: int| b.contains(x, y) ==> (#[trigger] b.at(x, y)).bg == (0u8, 0u8, 0u8),
    ensures
        on_black(b),
{
    assert forall|i: int| 0 <= i < b.cells().len() implies (#[trigger] b.cells()[i]).bg == (
        0u8,
        0u8,
        0u8,
    ) by {
        if i < b.width() * b.height() {
            lemma_cell_at(b, i);
        }
    }
}

/// The cell at a position of a screen on black has a black background.
proof fn lemma_black_at(a: Screen, x: int, y: int)
    requires
        a.wf(),
        on_black(a),
        a.contains(x, y),
    ensures
        a.at(x, y).bg == (0u8, 0u8, 0u8),
{
    lemma_flat_in_bounds(a.width() as int, a.height() as int, x, y);
}

/// Putting a cell alike on alike screens gives alike screens.
proof fn lemma_put_determined(a1: Screen, a2: Screen, b1: Screen, b2: Screen, x: int, y: int, c: Cell)
    requires
        a1.same_as(&a2),
        b1.put_of(&a1, x, y, c),
        b2.put_of(&a2, x, y, c),
    ensures
        b1.same_as(&b2),
{
    assert(b1.cells() =~= b2.cells());
}

/// Drawing the same star on alike screens gives alike screens.
proof fn lemma_star_determined(a1: Screen, a2: Screen, b1: Screen, b2: Screen, fire: FireGrid, m: StarMark)
    requires
        a1.same_as(&a2),
        star_drawn(a1, b1, fire, m),
        star_drawn(a2, b2, fire, m),
    ensures
        b1.same_as(&b2),
{
    if m.x < a1.width() && m.y < a1.height() && a1.fire_under(&fire, m.x as int, m.y as int) == 0 {
        let c = Cell { ch: m.ch, fg: m.fg, bg: (0, 0, 0), bold: m.bold };
        match m.flare {
            None => {
                lemma_put_determined(a1, a2, b1, b2, m.x as int, m.y as int, c);
            },
            Some(f) => {
                let (p1, q1) = choose|p: Screen, q: Screen|
                    #[trigger] p.put_of(&a1, m.x as int, m.y as int, c) && #[trigger] q.h_flare_of(
                        &p,
                        &fire,
                        m.x as int,
                        m.y as int,
                        f.h_alpha,
                        f.color,
                    ) && b1.v_flare_of(&q, &fire, m.x as int, m.y as int, f.v_alpha, f.color);
                let (p2, q2) = choose|p: Screen, q: Screen|
                    #[trigger] p.put_of(&a2, m.x as int, m.y as int, c) && #[trigger] q.h_flare_of(
                        &p,
                        &fire,
                        m.x as int,
                        m.y as int,
                        f.h_alpha,
                        f.color,
                    ) && b2.v_flare_of(&q, &fire, m.x as int, m.y as int, f.v_alpha, f.color);
                lemma_put_determined(a1, a2, p1, p2, m.x as int, m.y as int, c);
                lemma_alike(q1, q2);
                lemma_alike(b1, b2);
            },
        }
    }
}

/// Drawing a star keeps a screen on black with its tail blank.
proof fn lemma_star_keeps(a: Screen, b: Screen, fire: FireGrid, m: StarMark)
    requires
        a.wf(),
        on_black(a),
        tail_blank(a),
        star_drawn(a, b, fire, m),
    ensures
        b.wf(),
        on_black(b),
        tail_blank(b),
{
    if m.x < a.width() && m.y < a.height() && a.fire_under(&fire, m.x as int, m.y as int) == 0 {
        let c = Cell { ch: m.ch, fg: m.fg, bg: (0, 0, 0), bold: m.bold };
        lemma_flat_in_bounds(a.width() as int, a.height() as int, m.x as int, m.y as int);
        match m.flare {
            None => {},
            Some(f) => {
                let (p, q) = choose|p: Screen, q: Screen|
                    #[trigger] p.put_of(&a, m.x as int, m.y as int, c) && #[trigger] q.h_flare_of(
                        &p,
                        &fire,
                        m.x as int,
                        m.y as int,
                        f.h_alpha,
                        f.color,
                    ) && b.v_flare_of(&q, &fire, m.x as int, m.y as int, f.v_alpha, f.color);
                assert forall|x: int, y: int| q.contains(x, y) implies (#[trigger] q.at(x, y)).bg
                    == (0u8, 0u8, 0u8) by {
                    lemma_black_at(p, x, y);
                }
                lemma_black_from(p, q);
                assert forall|x: int, y: int| b.contains(x, y) implies (#[trigger] b.at(x, y)).bg
                    == (0u8, 0u8, 0u8) by {
                    lemma_black_at(q, x, y);
                }
                lemma_black_from(q, b);
            },
        }
    }
}

/// Drawing the same logo character on alike screens gives alike screens, and keeps
/// a screen on black.
proof fn lemma_logo_step(a1: Screen, a2: Screen, b1: Screen, b2: Screen, m: LogoMark)
    requires
        a1.same_as(&a2),
        logo_drawn(a1, b1, m),
        logo_drawn(a2, b2, m),
    ensures
        b1.same_as(&b2),
        on_black(a1) ==> on_black(b1),
{
    lemma_put_determined(
        a1,
        a2,
        b1,
        b2,
        m.x as int,
        m.y as int,
        Cell { ch: m.ch, fg: m.fg, bg: (0, 0, 0), bold: m.bold },
    );
}

/// A frame is determined by what it is drawn from: two frames drawn from the same
/// size, fire, palette and marks are alike, whatever was on the terminal before.
pub proof fn frame_is_determined(
    r1: Screen,
    r2: Screen,
    cols: nat,
    rows: nat,
    len: nat,
    fire: FireGrid,
    palette: Seq<Rgb>,
    stars: Seq<StarMark>,
    sparks: Seq<SparkMark>,
    globs: Seq<(i32, i32)>,
    logo: Seq<LogoMark>,
)
    requires
        frame_of(r1, cols, rows, len, fire, palette, stars, sparks, globs, logo),
        frame_of(r2, cols, rows, len, fire, palette, stars, sparks, globs, logo),
    ensures
        r1.same_as(&r2),
{
    let (a0, a1, a2, a3, a4) = choose|s0: Screen, s1: Screen, s2: Screen, s3: Screen, s4: Screen|
        {
            &&& #[trigger] s0.is_blank(cols, rows, len)
            &&& #[trigger] chain(s0, s1, stars.len(), star_step(fire, stars))
            &&& #[trigger] s2.fire_of(&s1, &fire, palette)
            &&& #[trigger] chain(s2, s3, sparks.len(), spark_step(fire, sparks))
            &&& #[trigger] chain(s3, s4, globs.len(), glob_step(globs))
            &&& chain(s4, r1, logo.len(), logo_step(logo))
        };
    let (b0, b1, b2, b3, b4) = choose|s0: Screen, s1: Screen, s2: Screen, s3: Screen, s4: Screen|
        {
            &&& #[trigger] s0.is_blank(cols, rows, len)
            &&& #[trigger] chain(s0, s1, stars.len(), star_step(fire, stars))
            &&& #[trigger] s2.fire_of(&s1, &fire, palette)
            &&& #[trigger] chain(s2, s3, sparks.len(), spark_step(fire, sparks))
            &&& #[trigger] chain(s3, s4, globs.len(), glob_step(globs))
            &&& chain(s4, r2, logo.len(), logo_step(logo))
        };
    assert(a0.cells() =~= b0.cells());
    assert forall|x1: Screen, x2: Screen, y1: Screen, y2: Screen, k: int|
        x1.same_as(&x2) && #[trigger] star_step(fire, stars)(x1, y1, k) && #[trigger] star_step(
            fire,
            stars,
        )(x2, y2, k) implies y1.same_as(&y2) by {
        lemma_star_determined(x1, x2, y1, y2, fire, stars[k]);
    }
    lemma_chain_determined(a0, b0, a1, b1, stars.len(), star_step(fire, stars));
    lemma_alike(a2, b2);
    assert forall|x1: Screen, x2: Screen, y1: Screen, y2: Screen, k: int|
        x1.same_as(&x2) && #[trigger] spark_step(fire, sparks)(x1, y1, k) && #[trigger] spark_step(
            fire,
            sparks,
        )(x2, y2, k) implies y1.same_as(&y2) by {
        lemma_alike(y1, y2);
    }
    lemma_chain_determined(a2, b2, a3, b3, sparks.len(), spark_step(fire, sparks));
    assert forall|x1: Screen, x2: Screen, y1: Screen, y2: Screen, k: int|
        x1.same_as(&x2) && #[trigger] glob_step(globs)(x1, y1, k) && #[trigger] glob_step(globs)(
            x2,
            y2,
            k,
        ) implies y1.same_as(&y2) by {
        lemma_alike(y1, y2);
    }
    lemma_chain_determined(a3, b3, a4, b4, globs.len(), glob_step(globs));
    assert forall|x1: Screen, x2: Screen, y1: Screen, y2: Screen, k: int|
        x1.same_as(&x2) && #[trigger] logo_step(logo)(x1, y1, k) && #[trigger] logo_step(logo)(
            x2,
            y2,
            k,
        ) implies y1.same_as(&y2) by {
        lemma_logo_step(x1, x2, y1, y2, logo[k]);
    }
    lemma_chain_determined(a4, b4, r1, r2, logo.len(), logo_step(logo));
}


/// A screen of the given size, on black, with its tail blank.
pub open spec fn plain(s: Screen, cols: nat, rows: nat, len: nat) -> bool {
    &&& s.wf()
    &&& s.width() == cols
    &&& s.height() == rows
    &&& s.cells().len() == len
    &&& on_black(s)
    &&& tail_blank(s)
}

/// The logo characters among the first `n` that are put at cell `i` (counting row by
/// row with width `cols`): none when this is false.
pub open spec fn logo_hits(logo: Seq<LogoMark>, cols: int, n: int, i: int) -> bool {
    exists|l: int| 0 <= l < n && flat(cols, (#[trigger] logo[l]).x as int, logo[l].y as int) == i
}

/// Along a run of logo steps from a plain screen, every screen is on black, and a cell
/// past the last row that no logo character so far was put at is blank.
proof fn lemma_logo_run(st: Seq<Screen>, logo: Seq<LogoMark>, cols: nat, rows: nat, len: nat, j: int)
    requires
        runs(st, logo_step(logo)),
        0 <= j < st.len(),
        plain(st[0], cols, rows, len),
    ensures
        st[j].wf(),
        st[j].width() == cols,
        st[j].height() == rows,
        st[j].cells().len() == len,
        on_black(st[j]),
        forall|i: int|
            cols * rows <= i < len && !logo_hits(logo, cols as int, j, i) ==> #[trigger] st[j].cells()[i]
                == blank_cell(),
    decreases j,
{
    if j > 0 {
        lemma_logo_run(st, logo, cols, rows, len, j - 1);
        assert(logo_step(logo)(st[j - 1], st[j - 1 + 1], j - 1));
        let m = logo[j - 1];
        assert forall|i: int|
            cols * rows <= i < len && !logo_hits(logo, cols as int, j, i) implies #[trigger] st[j].cells()[i]
            == blank_cell() by {
            if flat(cols as int, m.x as int, m.y as int) == i {
                assert(logo_hits(logo, cols as int, j, i));
            }
            if logo_hits(logo, cols as int, j - 1, i) {
                let l = choose|l: int| 0 <= l < j - 1 && flat(cols as int, (#[trigger] logo[l]).x as int, logo[l].y as int) == i;
                assert(logo_hits(logo, cols as int, j, i));
            }
        }
    }
}

/// Every frame is drawn on black, and every cell of the terminal grid past the
/// screen's last row is blank unless a logo character was put there.
pub proof fn frame_is_on_black_with_blank_tail(
    r: Screen,
    cols: nat,
    rows: nat,
    len: nat,
    fire: FireGrid,
    palette: Seq<Rgb>,
    stars: Seq<StarMark>,
    sparks: Seq<SparkMark>,
    globs: Seq<(i32, i32)>,
    logo: Seq<LogoMark>,
)
    requires
        frame_of(r, cols, rows, len, fire, palette, stars, sparks, globs, logo),
    ensures
        on_black(r),
        forall|i: int|
            cols * rows <= i < len && !logo_hits(logo, cols as int, logo.len() as int, i)
                ==> #[trigger] r.cells()[i] == blank_cell(),
{
    let (s0, s1, s2, s3, s4) = choose|s0: Screen, s1: Screen, s2: Screen, s3: Screen, s4: Screen|
        {
            &&& #[trigger] s0.is_blank(cols, rows, len)
            &&& #[trigger] chain(s0, s1, stars.len(), star_step(fire, stars))
            &&& #[trigger] s2.fire_of(&s1, &fire, palette)
            &&& #[trigger] chain(s2, s3, sparks.len(), spark_step(fire, sparks))
            &&& #[trigger] chain(s3, s4, globs.len(), glob_step(globs))
            &&& chain(s4, r, logo.len(), logo_step(logo))
        };
    let inv = |s: Screen| plain(s, cols, rows, len);
    assert(inv(s0));
    assert forall|x: Screen, y: Screen, k: int| inv(x) && #[trigger] star_step(fire, stars)(x, y, k) implies inv(y) by {
        lemma_star_keeps(x, y, fire, stars[k]);
    }
    lemma_chain_keeps(s0, s1, stars.len(), star_step(fire, stars), inv);
    assert forall|x: int, y: int| s2.contains(x, y) implies (#[trigger] s2.at(x, y)).bg == (0u8, 0u8, 0u8) by {
        lemma_black_at(s1, x, y);
    }
    lemma_black_from(s1, s2);
    assert(inv(s2));
    assert forall|x: Screen, y: Screen, k: int| inv(x) && #[trigger] spark_step(fire, sparks)(x, y, k) implies inv(y) by {
        assert forall|x2: int, y2: int| y.contains(x2, y2) implies (#[trigger] y.at(x2, y2)).bg == (0u8, 0u8, 0u8) by {
            lemma_black_at(x, x2, y2);
        }
        lemma_black_from(x, y);
    }
    lemma_chain_keeps(s2, s3, sparks.len(), spark_step(fire, sparks), inv);
    assert forall|x: Screen, y: Screen, k: int| inv(x) && #[trigger] glob_step(globs)(x, y, k) implies inv(y) by {
        assert forall|x2: int, y2: int| y.contains(x2, y2) implies (#[trigger] y.at(x2, y2)).bg == (0u8, 0u8, 0u8) by {
            lemma_black_at(x, x2, y2);
        }
        lemma_black_from(x, y);
    }
    lemma_chain_keeps(s3, s4, globs.len(), glob_step(globs), inv);
    let st = choose|st: Seq<Screen>|
        #[trigger] runs(st, logo_step(logo)) && st.len() == logo.len() + 1 && st[0] == s4 && st[logo.len() as int] == r;
    lemma_logo_run(st, logo, cols, rows, len, logo.len() as int);
}


/// The last of the first `n` logo characters whose position is cell `i` (counting row
/// by row with width `cols`), or -1 when none is.
pub open spec fn last_logo_at(logo: Seq<LogoMark>, cols: int, n: int, i: int) -> int
    decreases n,
{
    if n <= 0 {
        -1
    } else if flat(cols, logo[n - 1].x as int, logo[n - 1].y as int) == i {
        n - 1
    } else {
        last_logo_at(logo, cols, n - 1, i)
    }
}

/// Along a run of logo steps, each cell holds the last logo character put there so
/// far, on a black background, or what it held before the logo.
proof fn lemma_logo_on_top_run(st: Seq<Screen>, logo: Seq<LogoMark>, j: int)
    requires
        runs(st, logo_step(logo)),
        0 <= j < st.len(),
        st.len() <= logo.len() + 1,
        st[0].wf(),
    ensures
        st[j].cells().len() == st[0].cells().len(),
        st[j].width() == st[0].width(),
        forall|i: int|
            0 <= i < st[j].cells().len() ==> #[trigger] st[j].cells()[i] == if last_logo_at(
                logo,
                st[0].width() as int,
                j,
                i,
            ) >= 0 {
                Cell {
                    ch: logo[last_logo_at(logo, st[0].width() as int, j, i)].ch,
                    fg: logo[last_logo_at(logo, st[0].width() as int, j, i)].fg,
                    bg: (0, 0, 0),
                    bold: logo[last_logo_at(logo, st[0].width() as int, j, i)].bold,
                }
            } else {
                st[0].cells()[i]
            },
    decreases j,
{
    if j > 0 {
        lemma_logo_on_top_run(st, logo, j - 1);
        assert(logo_step(logo)(st[j - 1], st[j - 1 + 1], j - 1));
    }
}

/// The logo is drawn on top: in every frame, each cell that a logo character was put
/// at shows the last such character, on a black background, whatever stars, fire,
/// sparks or globs lie there.
pub proof fn logo_is_on_top(
    r: Screen,
    cols: nat,
    rows: nat,
    len: nat,
    fire: FireGrid,
    palette: Seq<Rgb>,
    stars: Seq<StarMark>,
    sparks: Seq<SparkMark>,
    globs: Seq<(i32, i32)>,
    logo: Seq<LogoMark>,
    i: int,
)
    requires
        frame_of(r, cols, rows, len, fire, palette, stars, sparks, globs, logo),
        0 <= i < len,
        last_logo_at(logo, cols as int, logo.len() as int, i) >= 0,
    ensures
        r.cells()[i] == (Cell {
            ch: logo[last_logo_at(logo, cols as int, logo.len() as int, i)].ch,
            fg: logo[last_logo_at(logo, cols as int, logo.len() as int, i)].fg,
            bg: (0, 0, 0),
            bold: logo[last_logo_at(logo, cols as int, logo.len() as int, i)].bold,
        }),
{
    let (s0, s1, s2, s3, s4) = choose|s0: Screen, s1: Screen, s2: Screen, s3: Screen, s4: Screen|
        {
            &&& #[trigger] s0.is_blank(cols, rows, len)
            &&& #[trigger] chain(s0, s1, stars.len(), star_step(fire, stars))
            &&& #[trigger] s2.fire_of(&s1, &fire, palette)
            &&& #[trigger] chain(s2, s3, sparks.len(), spark_step(fire, sparks))
            &&& #[trigger] chain(s3, s4, globs.len(), glob_step(globs))
            &&& chain(s4, r, logo.len(), logo_step(logo))
        };
    let inv = |s: Screen| plain(s, cols, rows, len);
    assert forall|x: Screen, y: Screen, k: int| inv(x) && #[trigger] star_step(fire, stars)(x, y, k) implies inv(y) by {
        lemma_star_keeps(x, y, fire, stars[k]);
    }
    lemma_chain_keeps(s0, s1, stars.len(), star_step(fire, stars), inv);
    assert forall|x: Screen, y: Screen, k: int| inv(x) && #[trigger] spark_step(fire, sparks)(x, y, k) implies inv(y) by {
        assert forall|x2: int, y2: int| y.contains(x2, y2) implies (#[trigger] y.at(x2, y2)).bg == (0u8, 0u8, 0u8) by {
            lemma_black_at(x, x2, y2);
        }
        lemma_black_from(x, y);
    }
    assert forall|x2: int, y2: int| s2.contains(x2, y2) implies (#[trigger] s2.at(x2, y2)).bg == (0u8, 0u8, 0u8) by {
        lemma_black_at(s1, x2, y2);
    }
    lemma_black_from(s1, s2);
    lemma_chain_keeps(s2, s3, sparks.len(), spark_step(fire, sparks), inv);
    assert forall|x: Screen, y: Screen, k: int| inv(x) && #[trigger] glob_step(globs)(x, y, k) implies inv(y) by {
        assert forall|x2: int, y2: int| y.contains(x2, y2) implies (#[trigger] y.at(x2, y2)).bg == (0u8, 0u8, 0u8) by {
            lemma_black_at(x, x2, y2);
        }
        lemma_black_from(x, y);
    }
    lemma_chain_keeps(s3, s4, globs.len(), glob_step(globs), inv);
    let st = choose|st: Seq<Screen>|
        #[trigger] runs(st, logo_step(logo)) && st.len() == logo.len() + 1 && st[0] == s4 && st[logo.len() as int] == r;
    lemma_logo_on_top_run(st, logo, logo.len() as int);
}

/// A star with a flare streaks the blank, fire-free cells around it: on its row, a cell
/// at distance `d` (1 to 11) becomes a horizontal streak of brightness
/// `h_alpha - 9 d` while that is above 10; on its column, a cell at distance `d`
/// (1 to 4) becomes a vertical streak of brightness `v_alpha - 16 d` while that is
/// above 10.
pub proof fn star_flare_streaks(a: Screen, b: Screen, fire: FireGrid, m: StarMark, x: int, y: int)
    requires
        a.wf(),
        star_drawn(a, b, fire, m),
        m.flare is Some,
        m.x < a.width(),
        m.y < a.height(),
        a.fire_under(&fire, m.x as int, m.y as int) == 0,
        a.contains(x, y),
        a.at(x, y) == blank_cell(),
        a.fire_under(&fire, x, y) == 0,
    ensures
        ({
            let f = m.flare->0;
            let d = gap(x, m.x as int);
            y == m.y && 1 <= d <= 11 && f.h_alpha - 9 * d > 10 ==> {
                &&& b.at(x, y).ch == '\u{2500}'
                &&& b.at(x, y).fg.0 == channel(f.h_alpha - 9 * d + f.color.0 as int * 4 / 5)
                &&& b.at(x, y).fg.1 == channel((f.h_alpha - 9 * d) * 3 / 4 + f.color.1 as int * 4 / 5)
                &&& b.at(x, y).fg.2 == channel(
                    channel(f.h_alpha - 9 * d + 45) + f.color.2 as int * 4 / 5,
                )
            }
        }),
        ({
            let f = m.flare->0;
            let d = gap(y, m.y as int);
            x == m.x && 1 <= d <= 4 && f.v_alpha - 16 * d > 10 ==> {
                &&& b.at(x, y).ch == '\u{2502}'
                &&& b.at(x, y).fg.0 == channel(f.v_alpha - 16 * d + f.color.0 as int * 4 / 5)
                &&& b.at(x, y).fg.1 == channel((f.v_alpha - 16 * d) * 3 / 4 + f.color.1 as int * 4 / 5)
                &&& b.at(x, y).fg.2 == channel(
                    channel(f.v_alpha - 16 * d + 30) + f.color.2 as int * 4 / 5,
                )
            }
        }),
{
    let f = m.flare->0;
    let c = Cell { ch: m.ch, fg: m.fg, bg: (0, 0, 0), bold: m.bold };
    let (p, q) = choose|p: Screen, q: Screen|
        #[trigger] p.put_of(&a, m.x as int, m.y as int, c) && #[trigger] q.h_flare_of(
            &p,
            &fire,
            m.x as int,
            m.y as int,
            f.h_alpha,
            f.color,
        ) && b.v_flare_of(&q, &fire, m.x as int, m.y as int, f.v_alpha, f.color);
    let w = a.width() as int;
    lemma_flat_in_bounds(w, a.height() as int, x, y);
    lemma_flat_in_bounds(w, a.height() as int, m.x as int, m.y as int);
    if x != m.x || y != m.y {
        if flat(w, x, y) == flat(w, m.x as int, m.y as int) {
            lemma_flat_injective(w, x, y, m.x as int, m.y as int);
        }
        assert(p.at(x, y) == a.at(x, y));
    }
    if y == m.y && 1 <= gap(x, m.x as int) <= 11 && f.h_alpha - 9 * gap(x, m.x as int) > 10 {
        h_flare_streaks_blank_cells(p, q, fire, m.x as int, m.y as int, f.h_alpha, f.color, x);
        assert(b.contains(x, y));
    }
    if x == m.x && 1 <= gap(y, m.y as int) <= 4 && f.v_alpha - 16 * gap(y, m.y as int) > 10 {
        assert(q.contains(x, y));
        assert(q.at(x, y) == p.at(x, y));
        v_flare_streaks_blank_cells(q, b, fire, m.x as int, m.y as int, f.v_alpha, f.color, y);
    }
}

} // verus!
