//! The fire heat ramp: one colour per heat level.
use vstd::prelude::*;

verus! {

/// Number of heat levels: heat values run from 0 (cold) to `MAX_HEAT`.
pub const PALETTE_LEN: usize = 36;

/// The hottest heat value a fire cell can hold.
pub const MAX_HEAT: u8 = 35;

/// An RGB colour.
pub type Rgb = (u8, u8, u8);

/// The colour of heat level `i` in the ramp: black, dark red to bright red,
/// red to orange/gold, gold to bright yellow, and yellow to white-hot.
/// Each segment interpolates linearly and truncates towards zero.
pub open spec fn heat_color(i: int) -> Rgb {
    if i <= 0 {
        (0, 0, 0)
    } else if i < 12 {
        ((200 * i / 12) as u8, 0, 0)
    } else if i < 24 {
        let k = i - 12;
        ((200 + 55 * k / 12) as u8, (140 * k / 12) as u8, 0)
    } else if i < 32 {
        let k = i - 24;
        (255, (140 + 90 * k / 8) as u8, (50 * k / 8) as u8)
    } else {
        let k = i - 32;
        (255, (230 + 25 * k / 3) as u8, (50 + 190 * k / 3) as u8)
    }
}

/// Colour of heat level `i` (`1 <= i < 36`).
fn ramp_color(i: usize) -> (c: Rgb)
    requires
        1 <= i < PALETTE_LEN,
    ensures
        c == heat_color(i as int),
{
    if i < 12 {
        ((200 * i / 12) as u8, 0, 0)
    } else if i < 24 {
        let k = i - 12;
        ((200 + 55 * k / 12) as u8, (140 * k / 12) as u8, 0)
    } else if i < 32 {
        let k = i - 24;
        (255, (140 + 90 * k / 8) as u8, (50 * k / 8) as u8)
    } else {
        let k = i - 32;
        (255, (230 + 25 * k / 3) as u8, (50 + 190 * k / 3) as u8)
    }
}

/// Strength of a theme accent: the mean of its three channels (0 to 255).
pub open spec fn accent_strength(accent: Rgb) -> int {
    (accent.0 as int + accent.1 as int + accent.2 as int) / 3
}

/// Denominator of the glow fraction: the glow of an accent of strength `s` at heat
/// level `i` is `s * i / GLOW_SCALE`, at most one half.
pub open spec fn glow_scale() -> int {
    17850
}

/// Glow numerator of an accent of strength `s` at heat level `i`.
pub open spec fn glow(s: int, i: int) -> int {
    s * i
}

/// Channel `c` lifted towards full brightness by the glow fraction `n / 17850`
/// of its remaining headroom `255 - c`.
pub open spec fn tint(c: u8, n: int) -> u8 {
    (c as int + (255 - c as int) * n / glow_scale()) as u8
}

/// Colour of heat level `i` for the theme accent `accent`: the fire ramp, each
/// channel lifted by the same fraction of its headroom, a fraction that grows with
/// the heat and the accent's strength, up to one half at the hottest level.
pub open spec fn palette_color(accent: Rgb, i: int) -> Rgb {
    let r = heat_color(i);
    let n = glow(accent_strength(accent), i);
    (tint(r.0, n), tint(r.1, n), tint(r.2, n))
}

/// Sum of the three channels of a colour.
pub open spec fn brightness(c: Rgb) -> int {
    c.0 as int + c.1 as int + c.2 as int
}

/// Lifting a channel by at most half its headroom keeps it a channel, never dims it,
/// and keeps the order of channels and of fractions; channels two or more apart
/// stay apart.
proof fn lemma_tint(c1: u8, c2: u8, n1: int, n2: int)
    requires
        c1 <= c2,
        0 <= n1 <= n2 <= 8925,
    ensures
        c1 <= tint(c1, n1) <= 255,
        tint(c1, n1) <= tint(c2, n2),
        c1 + 2 <= c2 ==> tint(c1, n1) < tint(c2, n2),
{
    let h1 = 255 - c1 as int;
    let h2 = 255 - c2 as int;
    let d = c2 as int - c1 as int;
    assert(0 <= h1 * n1 <= h1 * n2 && h1 * n2 == h2 * n2 + d * n2 && 0 <= h2 * n2 <= h2 * 8925
        && d * n2 <= d * 8925 && 0 <= d * n2) by (nonlinear_arith)
        requires
            0 <= h2,
            0 <= d,
            h1 == h2 + d,
            h1 <= 255,
            0 <= n1 <= n2 <= 8925,
    ;
    vstd::arithmetic::div_mod::lemma_div_is_ordered(h1 * n1, h1 * n2, 17850);
    vstd::arithmetic::div_mod::lemma_div_is_ordered(0, h1 * n1, 17850);
    vstd::arithmetic::div_mod::lemma_div_is_ordered(h1 * n1, h1 * 8925, 17850);
    assert(h1 * 8925 / 17850 <= h1) by (nonlinear_arith)
        requires
            0 <= h1,
    ;
    let x = h2 * n2;
    let y = d * n2;
    assert((x + y) / 17850 <= x / 17850 + (y + 17849) / 17850);
    assert((y + 17849) / 17850 <= (d * 8925 + 17849) / 17850);
    assert(c1 + 2 <= c2 ==> (d * 8925 + 17849) / 17850 <= d - 1);
    assert((d * 8925 + 17849) / 17850 <= d);
}

/// The fire ramp is a warm heat ramp: black only at heat 0, red at least green at
/// least blue, no channel darkening, and from one level to any hotter one some
/// channel brightens by two or more.
proof fn lemma_heat_ramp(i: int, j: int)
    requires
        0 <= i < 36,
        0 <= j < 36,
    ensures
        heat_color(i).0 >= heat_color(i).1 >= heat_color(i).2,
        i >= 1 ==> heat_color(i).0 >= 16,
        i <= j ==> heat_color(i).0 <= heat_color(j).0 && heat_color(i).1 <= heat_color(j).1
            && heat_color(i).2 <= heat_color(j).2,
        i < j ==> heat_color(i).0 + 2 <= heat_color(j).0 || heat_color(i).1 + 2 <= heat_color(j).1
            || heat_color(i).2 + 2 <= heat_color(j).2,
{
}

/// The glow grows with the heat and with the accent's strength, up to one half.
proof fn lemma_glow(s1: int, s2: int, i: int, j: int)
    requires
        0 <= s1 <= s2 <= 255,
        0 <= i <= j < 36,
    ensures
        0 <= glow(s1, i) <= glow(s2, j) <= 8925,
{
    assert(0 <= s1 * i <= s2 * i <= s2 * j <= 255 * 35) by (nonlinear_arith)
        requires
            0 <= s1 <= s2 <= 255,
            0 <= i <= j < 36,
    ;
}

/// Lifts channel `c` by the glow fraction `n / 17850` of its headroom (`n <= 8925`).
fn tint_channel(c: u8, n: u32) -> (t: u8)
    requires
        n <= 8925,
    ensures
        t == tint(c, n as int),
{
    proof {
        lemma_tint(c, c, n as int, n as int);
        assert((255 - c as int) * n as int <= 255 * 8925) by (nonlinear_arith)
            requires
                0 <= 255 - c as int <= 255,
                n <= 8925,
        ;
    }
    (c as u32 + (255 - c as u32) * n / 17850) as u8
}

/// Builds the fire heat ramp for the theme accent `accent`: black at heat 0, dark
/// red through orange and yellow to white-hot, every level lifted towards white by a
/// share of its headroom that grows with the heat and with the accent's strength
/// (see `palette_color`). Every level is a warm colour (red at least green at least
/// blue), and each level is brighter than the one below it.
pub fn get_palette(accent: Rgb) -> (palette: [Rgb; 36])
    ensures
        forall|i: int| 0 <= i < 36 ==> #[trigger] palette[i] == palette_color(accent, i),
        forall|i: int|
            0 <= i < 36 ==> palette[i].0 >= palette[i].1 >= #[trigger] palette[i].2,
        forall|i: int, j: int|
            0 <= i < j < 36 ==> brightness(#[trigger] palette[i]) < brightness(#[trigger] palette[j]),
{
    let s: u32 = (accent.0 as u32 + accent.1 as u32 + accent.2 as u32) / 3;
    let mut palette: [Rgb; 36] = [(0u8, 0u8, 0u8); 36];
    let mut i: usize = 1;
    while i < PALETTE_LEN
        invariant
            1 <= i <= PALETTE_LEN,
            s == accent_strength(accent),
            s <= 255,
            palette[0] == palette_color(accent, 0),
            forall|j: int| 1 <= j < i ==> #[trigger] palette[j] == palette_color(accent, j),
        decreases PALETTE_LEN - i,
    {
        proof {
            lemma_glow(s as int, s as int, i as int, 35);
        }
        let r = ramp_color(i);
        let n = s * i as u32;
        palette[i] = (tint_channel(r.0, n), tint_channel(r.1, n), tint_channel(r.2, n));
        i = i + 1;
    }
    proof {
        assert forall|i: int, j: int| 0 <= i < j < 36 implies brightness(#[trigger] palette[i])
            < brightness(#[trigger] palette[j]) by {
            palette_is_a_heat_ramp(accent, i, j);
        }
        assert forall|i: int| 0 <= i < 36 implies palette[i].0 >= palette[i].1
            >= #[trigger] palette[i].2 by {
            palette_is_a_heat_ramp(accent, i, i);
        }
    }
    palette
}

/// The palette is a warm heat ramp for every accent: black at heat 0 and only
/// there, red at least green at least blue at every level, no channel darkening as
/// the heat rises, and every level strictly brighter than the one below it.
pub proof fn palette_is_a_heat_ramp(accent: Rgb, i: int, j: int)
    requires
        0 <= i <= j < 36,
    ensures
        palette_color(accent, 0) == (0u8, 0u8, 0u8),
        i >= 1 ==> palette_color(accent, i) != (0u8, 0u8, 0u8),
        palette_color(accent, i).0 >= palette_color(accent, i).1 >= palette_color(accent, i).2,
        palette_color(accent, i).0 <= palette_color(accent, j).0,
        palette_color(accent, i).1 <= palette_color(accent, j).1,
        palette_color(accent, i).2 <= palette_color(accent, j).2,
        i < j ==> brightness(palette_color(accent, i)) < brightness(palette_color(accent, j)),
{
    let s = accent_strength(accent);
    let ri = heat_color(i);
    let rj = heat_color(j);
    lemma_heat_ramp(i, j);
    lemma_glow(s, s, i, j);
    lemma_glow(s, s, 0, 0);
    let ni = glow(s, i);
    let nj = glow(s, j);
    lemma_tint(ri.0, rj.0, ni, nj);
    lemma_tint(ri.1, rj.1, ni, nj);
    lemma_tint(ri.2, rj.2, ni, nj);
    lemma_tint(ri.1, ri.0, ni, ni);
    lemma_tint(ri.2, ri.1, ni, ni);
    lemma_tint(0, 0, 0, 0);
}

/// The palette follows the accent: an accent of strength 0 (black) leaves the plain
/// fire ramp, a stronger accent never darkens any colour, and an accent stronger by
/// 7 or more shows in the green of the embers at heat level 11.
pub proof fn palette_follows_accent(a: Rgb, b: Rgb, i: int)
    requires
        0 <= i < 36,
    ensures
        palette_color((0u8, 0u8, 0u8), i) == heat_color(i),
        accent_strength(a) <= accent_strength(b) ==> palette_color(a, i).0 <= palette_color(
            b,
            i,
        ).0 && palette_color(a, i).1 <= palette_color(b, i).1 && palette_color(a, i).2
            <= palette_color(b, i).2,
        accent_strength(a) + 7 <= accent_strength(b) ==> palette_color(a, 11).1 < palette_color(
            b,
            11,
        ).1,
{
    let r = heat_color(i);
    assert(glow(0, i) == 0);
    assert((255 - r.0 as int) * 0int == 0 && (255 - r.1 as int) * 0int == 0 && (255
        - r.2 as int) * 0int == 0) by (nonlinear_arith);
    assert(tint(r.0, 0) == r.0 && tint(r.1, 0) == r.1 && tint(r.2, 0) == r.2);
    let sa = accent_strength(a);
    let sb = accent_strength(b);
    if sa <= sb {
        lemma_glow(sa, sb, i, i);
        lemma_tint(r.0, r.0, glow(sa, i), glow(sb, i));
        lemma_tint(r.1, r.1, glow(sa, i), glow(sb, i));
        lemma_tint(r.2, r.2, glow(sa, i), glow(sb, i));
    }
    if sa + 7 <= sb {
        assert(heat_color(11).1 == 0);
        assert(sa * 11 + 77 <= sb * 11) by (nonlinear_arith)
            requires
                sa + 7 <= sb,
        ;
        assert(255 * (sa * 11) / 17850 < 255 * (sb * 11) / 17850);
    }
}

} // verus!
