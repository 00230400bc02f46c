use lib::scene::{base_star_count, layout_logo, star_glyph};

fn lines(text: &[&str]) -> Vec<Vec<char>> {
    text.iter().map(|l| l.chars().collect()).collect()
}

#[test]
fn logo_is_centred_and_skips_spaces() {
    let cells = layout_logo(&lines(&["ab", " c"]), 10, 5);
    let got: Vec<(usize, usize, char)> = cells.iter().map(|p| (p.x, p.y, p.ch)).collect();
    assert_eq!(got, vec![(4, 1, 'a'), (5, 1, 'b'), (5, 2, 'c')]);
}

#[test]
fn wide_logo_starts_at_left_edge() {
    let cells = layout_logo(&lines(&["abcdef", "g"]), 4, 1);
    let got: Vec<(usize, usize, char)> = cells.iter().map(|p| (p.x, p.y, p.ch)).collect();
    assert_eq!(
        got,
        vec![(0, 0, 'a'), (1, 0, 'b'), (2, 0, 'c'), (3, 0, 'd'), (4, 0, 'e'), (5, 0, 'f'), (0, 1, 'g')]
    );
}

#[test]
fn empty_logo_places_nothing() {
    assert!(layout_logo(&Vec::new(), 80, 24).is_empty());
}

#[test]
fn star_count_is_clamped() {
    assert_eq!(base_star_count(80, 24), 80);
    assert_eq!(base_star_count(10, 10), 10);
    assert_eq!(base_star_count(20, 30), 30);
    assert_eq!(base_star_count(0, 0), 10);
}

#[test]
fn star_glyphs_cycle() {
    assert_eq!(star_glyph(0), '✦');
    assert_eq!(star_glyph(1), '.');
    assert_eq!(star_glyph(3), '•');
    assert_eq!(star_glyph(14), '✦');
    assert_eq!(star_glyph(21), '✦');
    assert_eq!(star_glyph(9), '•');
}
