use lib::palette::{get_palette, MAX_HEAT, PALETTE_LEN};

/// The heat ramp as the float formula writes it, for comparison.
fn float_ramp(i: usize) -> (u8, u8, u8) {
    if i == 0 {
        (0, 0, 0)
    } else if i < 12 {
        let t = i as f32 / 12.0;
        ((200.0 * t) as u8, 0, 0)
    } else if i < 24 {
        let t = (i - 12) as f32 / 12.0;
        ((200.0 + 55.0 * t) as u8, (140.0 * t) as u8, 0)
    } else if i < 32 {
        let t = (i - 24) as f32 / 8.0;
        (255, (140.0 + 90.0 * t) as u8, (50.0 * t) as u8)
    } else {
        let t = (i - 32) as f32 / 3.0;
        (255, (230.0 + 25.0 * t) as u8, (50.0 + 190.0 * t) as u8)
    }
}

#[test]
fn palette_matches_float_ramp() {
    let p = get_palette((0, 0, 0));
    assert_eq!(p.len(), PALETTE_LEN);
    for i in 0..PALETTE_LEN {
        assert_eq!(p[i], float_ramp(i), "heat level {}", i);
    }
}

#[test]
fn palette_known_entries() {
    let p = get_palette((0, 0, 0));
    assert_eq!(p[0], (0, 0, 0));
    assert_eq!(p[1], (16, 0, 0));
    assert_eq!(p[12], (200, 0, 0));
    assert_eq!(p[18], (227, 70, 0));
    assert_eq!(p[24], (255, 140, 0));
    assert_eq!(p[28], (255, 185, 25));
    assert_eq!(p[33], (255, 238, 113));
    assert_eq!(p[MAX_HEAT as usize], (255, 255, 240));
}

fn lift(c: u8, n: u32) -> u8 {
    (c as u32 + (255 - c as u32) * n / 17850) as u8
}

#[test]
fn palette_follows_accent() {
    let accent = (0, 120, 215);
    let strength = (0 + 120 + 215) / 3;
    let blue = get_palette(accent);
    for i in 0..PALETTE_LEN {
        let r = float_ramp(i);
        let n = strength * i as u32;
        assert_eq!(blue[i], (lift(r.0, n), lift(r.1, n), lift(r.2, n)), "heat level {}", i);
    }
    assert_eq!(blue[0], (0, 0, 0));
    assert_eq!(blue[1], (17, 1, 1));
    assert_eq!(blue[11], (187, 17, 17));
    assert_eq!(blue[35], (255, 255, 243));
    assert_ne!(get_palette((0, 0, 0)), get_palette((255, 255, 255)));
    assert_eq!(get_palette((255, 255, 255))[35], (255, 255, 247));
    assert_eq!(get_palette((255, 0, 0)), get_palette((0, 0, 255)));
}

#[test]
fn palette_is_warm_and_strictly_brightening() {
    for accent in [(0, 0, 0), (10, 20, 30), (255, 255, 255), (0, 120, 215), (200, 0, 90), (0, 0, 255)] {
        let p = get_palette(accent);
        for i in 0..PALETTE_LEN {
            assert!(p[i].0 >= p[i].1 && p[i].1 >= p[i].2, "{:?} level {}", accent, i);
            assert_eq!(p[i] == (0, 0, 0), i == 0);
        }
        for i in 1..PALETTE_LEN {
            let before = p[i - 1].0 as u32 + p[i - 1].1 as u32 + p[i - 1].2 as u32;
            let after = p[i].0 as u32 + p[i].1 as u32 + p[i].2 as u32;
            assert!(before < after, "{:?} level {}", accent, i);
        }
    }
}

#[test]
fn palette_channels_never_darken() {
    for accent in [(10, 20, 30), (255, 255, 255), (0, 120, 215), (200, 0, 90)] {
        let p = get_palette(accent);
        for i in 1..PALETTE_LEN {
            assert!(p[i - 1].0 <= p[i].0);
            assert!(p[i - 1].1 <= p[i].1);
            assert!(p[i - 1].2 <= p[i].2);
        }
    }
}
