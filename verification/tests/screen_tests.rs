use lib::fire::FireGrid;
use lib::palette::get_palette;
use lib::screen::{fire_glyph, Cell, Screen};

const FIRE_CHARS: [char; 15] = [
    ' ', '.', ':', '-', '=', '+', '*', 'o', 's', 'x', 'z', '#', 'A', '@', '█',
];

fn blank() -> Cell {
    Cell { ch: ' ', fg: (0, 0, 0), bg: (0, 0, 0), bold: false }
}

fn same(a: Cell, b: Cell) -> bool {
    a.ch == b.ch && a.fg == b.fg && a.bg == b.bg && a.bold == b.bold
}

fn flare_rgb_float(fade: u8, color: (u8, u8, u8), boost: u8) -> (u8, u8, u8) {
    (
        fade.saturating_add((color.0 as f32 * 0.8) as u8),
        ((fade as f32 * 0.75) as u8).saturating_add((color.1 as f32 * 0.8) as u8),
        fade.saturating_add(boost).saturating_add((color.2 as f32 * 0.8) as u8),
    )
}

#[test]
fn new_screen_is_blank() {
    let s = Screen::new(5, 2, 10);
    assert_eq!((s.cols(), s.rows()), (5, 2));
    for y in 0..2 {
        for x in 0..5 {
            assert!(same(s.get(x, y), blank()));
        }
    }
    assert!(same(Cell::blank(), blank()));
}

#[test]
fn fire_glyph_follows_heat() {
    for v in 0..=35u8 {
        let idx = (v as usize * (FIRE_CHARS.len() - 1)) / 35;
        assert_eq!(fire_glyph(v), FIRE_CHARS[idx], "heat {}", v);
    }
}

#[test]
fn render_fire_draws_only_hot_cells() {
    let mut fire = FireGrid::new(3, 2);
    fire.seed_source(&vec![10, 0, 35]);
    let palette = get_palette((0, 0, 0));
    let mut s = Screen::new(3, 2, 6);
    let marker = Cell { ch: 'q', fg: (1, 2, 3), bg: (4, 5, 6), bold: true };
    s.put(1, 1, marker);
    s.render_fire(&fire, &palette);
    assert!(same(s.get(0, 1), Cell { ch: '=', fg: palette[10], bg: (0, 0, 0), bold: false }));
    assert!(same(s.get(1, 1), marker));
    assert!(same(s.get(2, 1), Cell { ch: '█', fg: (255, 255, 240), bg: (0, 0, 0), bold: true }));
    assert!(same(s.get(0, 0), blank()));
}

#[test]
fn clear_blanks_everything() {
    let mut s = Screen::new(2, 2, 4);
    s.put(1, 1, Cell { ch: 'x', fg: (9, 9, 9), bg: (9, 9, 9), bold: true });
    s.clear();
    assert!(same(s.get(1, 1), blank()));
}

#[test]
fn put_past_right_edge_runs_into_next_row() {
    let mut s = Screen::new(4, 3, 12);
    let c = Cell { ch: 'L', fg: (1, 1, 1), bg: (0, 0, 0), bold: false };
    s.put(5, 0, c);
    assert!(same(s.get(1, 1), c));
}

#[test]
fn horizontal_flare_streaks_and_fades() {
    let fire = FireGrid::new(30, 3);
    let mut s = Screen::new(30, 3, 90);
    s.draw_h_flare(&fire, 15, 1, 50, (255, 200, 0));
    for dx in 1..5usize {
        let fade = 50 - 9 * dx as u8;
        let expect = Cell { ch: '─', fg: flare_rgb_float(fade, (255, 200, 0), 45), bg: (0, 0, 0), bold: false };
        assert!(same(s.get(15 + dx, 1), expect), "right {}", dx);
        assert!(same(s.get(15 - dx, 1), expect), "left {}", dx);
    }
    assert!(same(s.get(20, 1), blank()));
    assert!(same(s.get(10, 1), blank()));
    assert!(same(s.get(15, 1), blank()));
    assert!(same(s.get(16, 0), blank()));
}

#[test]
fn flare_colour_matches_float_tint() {
    let fire = FireGrid::new(3, 1);
    for c in 0..=255u8 {
        let mut s = Screen::new(3, 1, 3);
        s.draw_h_flare(&fire, 0, 0, 120, (c, c, c));
        assert_eq!(s.get(1, 0).fg, flare_rgb_float(111, (c, c, c), 45), "channel {}", c);
    }
}

#[test]
fn flare_respects_fire_and_other_glyphs() {
    let mut fire = FireGrid::new(6, 1);
    fire.seed_source(&vec![0, 0, 0, 0, 7, 0]);
    let mut s = Screen::new(6, 1, 6);
    s.put(2, 0, Cell { ch: '*', fg: (1, 1, 1), bg: (0, 0, 0), bold: false });
    s.put(3, 0, Cell { ch: '─', fg: (1, 1, 1), bg: (0, 0, 0), bold: true });
    s.draw_h_flare(&fire, 0, 0, 120, (0, 0, 0));
    assert_eq!(s.get(1, 0).ch, '─');
    assert_eq!(s.get(2, 0).ch, '*');
    assert_eq!(s.get(3, 0).fg, flare_rgb_float(120 - 27, (0, 0, 0), 45));
    assert!(s.get(3, 0).bold);
    assert_eq!(s.get(4, 0).ch, ' ');
    assert_eq!(s.get(5, 0).ch, '─');
}

#[test]
fn vertical_flare_streaks_and_fades() {
    let fire = FireGrid::new(3, 12);
    let mut s = Screen::new(3, 12, 36);
    s.draw_v_flare(&fire, 1, 5, 90, (255, 180, 0));
    for dy in 1..5usize {
        let fade = 90 - 16 * dy as u8;
        let expect = Cell { ch: '│', fg: flare_rgb_float(fade, (255, 180, 0), 30), bg: (0, 0, 0), bold: false };
        assert!(same(s.get(1, 5 + dy), expect), "below {}", dy);
        assert!(same(s.get(1, 5 - dy), expect), "above {}", dy);
    }
    assert!(same(s.get(1, 10), blank()));
    assert!(same(s.get(0, 6), blank()));
    let mut dim = Screen::new(3, 12, 36);
    dim.draw_v_flare(&fire, 1, 5, 40, (0, 0, 0));
    assert_eq!(dim.get(1, 6).ch, '│');
    assert_eq!(dim.get(1, 7).ch, ' ');
}

#[test]
fn glob_has_core_and_envelope() {
    let mut s = Screen::new(4, 4, 16);
    s.overlay_glob(0, 0);
    assert!(same(s.get(0, 0), Cell { ch: '●', fg: (255, 255, 200), bg: (0, 0, 0), bold: true }));
    let shell = Cell { ch: 'o', fg: (255, 130, 0), bg: (0, 0, 0), bold: true };
    assert!(same(s.get(1, 0), shell));
    assert!(same(s.get(0, 1), shell));
    assert!(same(s.get(1, 1), blank()));
    s.overlay_glob(-5, 2);
    assert!(same(s.get(0, 2), blank()));
}

#[test]
fn spark_hidden_by_hot_fire() {
    let mut fire = FireGrid::new(3, 1);
    fire.seed_source(&vec![9, 10, 0]);
    let mut s = Screen::new(3, 1, 3);
    s.put(0, 0, Cell { ch: ' ', fg: (0, 0, 0), bg: (7, 7, 7), bold: false });
    s.overlay_spark(&fire, 0, 0, '*', (255, 200, 50), true);
    s.overlay_spark(&fire, 1, 0, '*', (255, 200, 50), true);
    s.overlay_spark(&fire, 3, 0, '*', (255, 200, 50), true);
    s.overlay_spark(&fire, -1, 0, '*', (255, 200, 50), true);
    assert!(same(s.get(0, 0), Cell { ch: '*', fg: (255, 200, 50), bg: (7, 7, 7), bold: true }));
    assert!(same(s.get(1, 0), blank()));
    assert!(same(s.get(2, 0), blank()));
}

#[test]
fn longer_terminal_grid_is_cleared_and_kept() {
    let mut s = Screen::new(3, 2, 9);
    assert_eq!(s.len(), 9);
    let c = Cell { ch: 'L', fg: (1, 1, 1), bg: (0, 0, 0), bold: false };
    s.put(1, 2, c);
    assert!(same(s.cell(7), c));
    let mut fire = FireGrid::new(3, 2);
    fire.seed_source(&vec![35, 35, 35]);
    s.render_fire(&fire, &get_palette((0, 0, 0)));
    s.overlay_glob(1, 1);
    assert!(same(s.cell(7), c));
    s.clear();
    for i in 0..9 {
        assert!(same(s.cell(i), blank()));
    }
}

#[test]
fn empty_screen_still_clears_its_cells() {
    let mut s = Screen::new(0, 0, 2);
    s.put(1, 0, Cell { ch: 'x', fg: (1, 2, 3), bg: (4, 5, 6), bold: true });
    assert_eq!(s.cell(1).ch, 'x');
    s.clear();
    assert!(same(s.cell(0), blank()));
    assert!(same(s.cell(1), blank()));
}

#[test]
fn fire_read_with_screen_width() {
    // a fire grid laid out 2 wide read by a 3-wide screen: cell (0, 1) of the
    // screen is cell 3 of the fire, i.e. column 1 of the fire's second row
    let mut fire = FireGrid::new(2, 3);
    fire.seed_second_row(&vec![None, Some(20)]);
    let mut s = Screen::new(3, 2, 6);
    s.render_fire(&fire, &get_palette((0, 0, 0)));
    assert_eq!(s.get(0, 1).ch, fire_glyph(20));
    assert!(same(s.get(1, 1), blank()));
}
