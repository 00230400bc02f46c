use lib::fire::FireGrid;
use lib::frame::{draw_frame, Flare, LogoMark, SparkMark, StarMark};
use lib::palette::get_palette;
use lib::screen::{fire_glyph, Cell};

fn blank() -> Cell {
    Cell { ch: ' ', fg: (0, 0, 0), bg: (0, 0, 0), bold: false }
}

fn same(a: Cell, b: Cell) -> bool {
    a.ch == b.ch && a.fg == b.fg && a.bg == b.bg && a.bold == b.bold
}

#[test]
fn frame_layers_in_order() {
    let mut fire = FireGrid::new(8, 4);
    fire.seed_source(&vec![0, 12, 5, 0, 0, 0, 0, 35]);
    let palette = get_palette((0, 120, 215));
    let stars = vec![
        StarMark { x: 0, y: 0, ch: '.', fg: (100, 100, 125), bold: false, flare: None },
        // under fire: not drawn
        StarMark { x: 1, y: 3, ch: '*', fg: (9, 9, 9), bold: true, flare: None },
        // off the screen: not drawn
        StarMark { x: 8, y: 0, ch: '*', fg: (9, 9, 9), bold: true, flare: None },
        StarMark {
            x: 4,
            y: 1,
            ch: '+',
            fg: (200, 200, 200),
            bold: true,
            flare: Some(Flare { h_alpha: 40, v_alpha: 30, color: (255, 200, 0) }),
        },
    ];
    let sparks = vec![
        SparkMark { x: 2, y: 3, ch: '*', fg: (255, 200, 50), bold: true },
        SparkMark { x: 1, y: 3, ch: '*', fg: (255, 200, 50), bold: true },
    ];
    let globs = vec![(6, 0)];
    let logo = vec![LogoMark { x: 0, y: 0, ch: 'L', fg: (0, 120, 215), bold: false }];
    let frame = draw_frame(8, 4, 40, &fire, &palette, &stars, &sparks, &globs, &logo);
    assert_eq!(frame.len(), 40);
    // the logo covers the first star
    assert!(same(frame.get(0, 0), Cell { ch: 'L', fg: (0, 120, 215), bg: (0, 0, 0), bold: false }));
    // the star with a flare, and its streaks
    assert!(same(frame.get(4, 1), Cell { ch: '+', fg: (200, 200, 200), bg: (0, 0, 0), bold: true }));
    assert_eq!(frame.get(5, 1).ch, '─');
    assert_eq!(frame.get(3, 1).ch, '─');
    assert_eq!(frame.get(4, 2).ch, '│');
    // fire of heat 12, with a spark refused over it
    assert!(same(frame.get(1, 3), Cell { ch: fire_glyph(12), fg: palette[12], bg: (0, 0, 0), bold: false }));
    // fire of heat 5 lets the spark through
    assert!(same(frame.get(2, 3), Cell { ch: '*', fg: (255, 200, 50), bg: (0, 0, 0), bold: true }));
    // glob core and envelope, the fire under it is covered
    assert_eq!(frame.get(6, 0).ch, '●');
    assert_eq!(frame.get(7, 0).ch, 'o');
    assert_eq!(frame.get(6, 1).ch, 'o');
    assert!(same(frame.get(7, 3), Cell { ch: '█', fg: palette[35], bg: (0, 0, 0), bold: true }));
    for i in 0..40 {
        assert_eq!(frame.cell(i).bg, (0, 0, 0));
    }
    for i in 32..40 {
        assert!(same(frame.cell(i), blank()));
    }
}

#[test]
fn frame_logo_reaches_past_last_row() {
    let fire = FireGrid::new(2, 2);
    let palette = get_palette((0, 0, 0));
    let logo = vec![LogoMark { x: 3, y: 2, ch: 'Z', fg: (1, 2, 3), bold: true }];
    let frame = draw_frame(2, 2, 8, &fire, &palette, &Vec::new(), &Vec::new(), &Vec::new(), &logo);
    assert_eq!(frame.cell(7).ch, 'Z');
    for i in 0..7 {
        assert!(same(frame.cell(i), blank()));
    }
}

#[test]
fn frame_of_empty_screen_is_blank() {
    let fire = FireGrid::new(0, 0);
    let frame = draw_frame(0, 0, 3, &fire, &get_palette((0, 0, 0)), &Vec::new(), &Vec::new(), &Vec::new(), &Vec::new());
    for i in 0..3 {
        assert!(same(frame.cell(i), blank()));
    }
}
