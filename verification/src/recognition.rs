//! Recognition of a Tetris board from a picture of it: the colour of each
//! cell is matched against the palette of a game client.
//!
//! Lightness, saturation and colour distance are computed in integers:
//! lightness and saturation as in HSL, distance in YUV space with the luma
//! difference weighted twice. Where a value lies exactly on a threshold, the
//! decision is the one double-precision evaluation makes; those cases are
//! listed (see [`rounds_above_30`], [`rounds_below_12`], [`rounds_above_25`],
//! [`rounds_nearer`]).

use vstd::prelude::*;
use crate::text::{decimal, decimal_string, string_of};

verus! {

/// Number of columns of a board.
pub const NUM_COLS: usize = 10;

/// The squared colour distance below which a cell takes a palette colour:
/// a distance of 0.3 in YUV units, scaled as [`yuv_scaled`] scales (by 255 * 100000).
pub const NEAR_ENOUGH: i64 = 58522500000000;

/// The colours of one game client's skin, each with the cell letter it stands for.
#[derive(Debug, Clone)]
pub struct ColorPalette {
    pub name: String,
    pub colors: Vec<(u8, u8, u8, char)>,
}

/// The default skin of tetr.io.
pub fn palette_tetr_io() -> (p: ColorPalette)
    ensures
        p.name@ == "tetr.io"@,
        p.colors@ == tetr_io_colors(),
{
    ColorPalette {
        name: String::from_str("tetr.io"),
        colors: vec![
            (0, 0, 0, '_'),
            (52, 181, 133, 'I'),
            (179, 153, 50, 'O'),
            (164, 62, 154, 'T'),
            (131, 179, 50, 'S'),
            (180, 52, 59, 'Z'),
            (79, 62, 164, 'J'),
            (178, 98, 49, 'L'),
            (67, 67, 67, 'X'),
        ],
    }
}

/// The colours of the tetr.io skin.
pub open spec fn tetr_io_colors() -> Seq<(u8, u8, u8, char)> {
    seq![
        (0u8, 0u8, 0u8, '_'),
        (52u8, 181u8, 133u8, 'I'),
        (179u8, 153u8, 50u8, 'O'),
        (164u8, 62u8, 154u8, 'T'),
        (131u8, 179u8, 50u8, 'S'),
        (180u8, 52u8, 59u8, 'Z'),
        (79u8, 62u8, 164u8, 'J'),
        (178u8, 98u8, 49u8, 'L'),
        (67u8, 67u8, 67u8, 'X'),
    ]
}

/// The default skin of Jstris.
pub fn palette_jstris() -> (p: ColorPalette)
    ensures
        p.name@ == "jstris"@,
        p.colors@ == jstris_colors(),
{
    ColorPalette {
        name: String::from_str("jstris"),
        colors: vec![
            (0, 0, 0, '_'),
            (17, 149, 205, 'I'),
            (227, 159, 2, 'O'),
            (175, 41, 138, 'T'),
            (89, 177, 1, 'S'),
            (215, 15, 55, 'Z'),
            (33, 65, 198, 'J'),
            (227, 91, 2, 'L'),
            (153, 153, 153, 'X'),
        ],
    }
}

/// The colours of the Jstris skin.
pub open spec fn jstris_colors() -> Seq<(u8, u8, u8, char)> {
    seq![
        (0u8, 0u8, 0u8, '_'),
        (17u8, 149u8, 205u8, 'I'),
        (227u8, 159u8, 2u8, 'O'),
        (175u8, 41u8, 138u8, 'T'),
        (89u8, 177u8, 1u8, 'S'),
        (215u8, 15u8, 55u8, 'Z'),
        (33u8, 65u8, 198u8, 'J'),
        (227u8, 91u8, 2u8, 'L'),
        (153u8, 153u8, 153u8, 'X'),
    ]
}

/// The known skins: tetr.io first, the default.
pub fn palettes() -> (ps: Vec<ColorPalette>)
    ensures
        ps@.len() == 2,
        ps@[0].colors@ == tetr_io_colors(),
        ps@[1].colors@ == jstris_colors(),
{
    vec![palette_tetr_io(), palette_jstris()]
}

/// The largest channel.
pub open spec fn max3(r: u8, g: u8, b: u8) -> u8 {
    if r >= g && r >= b {
        r
    } else if g >= b {
        g
    } else {
        b
    }
}

/// The smallest channel.
pub open spec fn min3(r: u8, g: u8, b: u8) -> u8 {
    if r <= g && r <= b {
        r
    } else if g <= b {
        g
    } else {
        b
    }
}

fn channel_max(r: u8, g: u8, b: u8) -> (m: u8)
    ensures
        m == max3(r, g, b),
{
    if r >= g && r >= b {
        r
    } else if g >= b {
        g
    } else {
        b
    }
}

fn channel_min(r: u8, g: u8, b: u8) -> (m: u8)
    ensures
        m == min3(r, g, b),
{
    if r <= g && r <= b {
        r
    } else if g <= b {
        g
    } else {
        b
    }
}

/// HSL lightness times 510: lightness in percent is `(max + min) / 510 * 100`.
pub open spec fn lightness_510(r: u8, g: u8, b: u8) -> int {
    (max3(r, g, b) + min3(r, g, b)) * 100
}

/// Whether the lightness is above `pct` percent.
pub open spec fn lighter_than(r: u8, g: u8, b: u8, pct: int) -> bool {
    lightness_510(r, g, b) > pct * 510
}

/// Whether the lightness is below `pct` percent.
pub open spec fn darker_than(r: u8, g: u8, b: u8, pct: int) -> bool {
    lightness_510(r, g, b) < pct * 510
}

/// Whether the HSL saturation is below `pct` percent: the spread of the
/// channels over `max + min`, or over `510 - max - min` above half lightness.
pub open spec fn saturation_below(r: u8, g: u8, b: u8, pct: int) -> bool {
    let hi = max3(r, g, b) as int;
    let lo = min3(r, g, b) as int;
    if hi == lo {
        0 < pct
    } else if lighter_than(r, g, b, 50) {
        (hi - lo) * 100 < pct * (510 - hi - lo)
    } else {
        (hi - lo) * 100 < pct * (hi + lo)
    }
}

/// Whether the HSL saturation is above `pct` percent (see [`saturation_below`]).
pub open spec fn saturation_above(r: u8, g: u8, b: u8, pct: int) -> bool {
    let hi = max3(r, g, b) as int;
    let lo = min3(r, g, b) as int;
    if hi == lo {
        pct < 0
    } else if lighter_than(r, g, b, 50) {
        (hi - lo) * 100 > pct * (510 - hi - lo)
    } else {
        (hi - lo) * 100 > pct * (hi + lo)
    }
}

/// The channel extremes (`hi` the largest, `lo` the smallest) at exactly
/// 30% lightness for which double precision evaluates
/// `(hi / 255 + lo / 255) / 2 * 100` to a value above 30.
pub open spec fn rounds_above_30(hi: u8, lo: u8) -> bool {
    (hi == 78 && lo == 75) || (hi == 79 && lo == 74) || (hi == 82 && lo == 71) ||
        (hi == 83 && lo == 70) || (hi == 86 && lo == 67) || (hi == 87 && lo == 66) ||
        (hi == 90 && lo == 63) || (hi == 94 && lo == 59) || (hi == 98 && lo == 55) ||
        (hi == 102 && lo == 51) || (hi == 106 && lo == 47) || (hi == 110 && lo == 43) ||
        (hi == 114 && lo == 39) || (hi == 118 && lo == 35) || (hi == 132 && lo == 21) ||
        (hi == 133 && lo == 20) || (hi == 140 && lo == 13) || (hi == 141 && lo == 12) ||
        (hi == 148 && lo == 5) || (hi == 149 && lo == 4)
}

fn rounds_above_30_at(hi: u8, lo: u8) -> (b: bool)
    ensures
        b == rounds_above_30(hi, lo),
{
    (hi == 78 && lo == 75) || (hi == 79 && lo == 74) || (hi == 82 && lo == 71) ||
        (hi == 83 && lo == 70) || (hi == 86 && lo == 67) || (hi == 87 && lo == 66) ||
        (hi == 90 && lo == 63) || (hi == 94 && lo == 59) || (hi == 98 && lo == 55) ||
        (hi == 102 && lo == 51) || (hi == 106 && lo == 47) || (hi == 110 && lo == 43) ||
        (hi == 114 && lo == 39) || (hi == 118 && lo == 35) || (hi == 132 && lo == 21) ||
        (hi == 133 && lo == 20) || (hi == 140 && lo == 13) || (hi == 141 && lo == 12) ||
        (hi == 148 && lo == 5) || (hi == 149 && lo == 4)
}

/// The channel extremes at exactly 12% saturation for which double precision
/// evaluates the HSL saturation to a value below 12.
pub open spec fn rounds_below_12(hi: u8, lo: u8) -> bool {
    (hi == 42 && lo == 33) || (hi == 84 && lo == 66) || (hi == 145 && lo == 115) ||
        (hi == 167 && lo == 143) || (hi == 178 && lo == 157) || (hi == 211 && lo == 199) ||
        (hi == 222 && lo == 213)
}

fn rounds_below_12_at(hi: u8, lo: u8) -> (b: bool)
    ensures
        b == rounds_below_12(hi, lo),
{
    (hi == 42 && lo == 33) || (hi == 84 && lo == 66) || (hi == 145 && lo == 115) ||
        (hi == 167 && lo == 143) || (hi == 178 && lo == 157) || (hi == 211 && lo == 199) ||
        (hi == 222 && lo == 213)
}

/// The channel extremes at exactly 25% saturation for which double precision
/// evaluates the HSL saturation to a value above 25.
pub open spec fn rounds_above_25(hi: u8, lo: u8) -> bool {
    (hi == 35 && lo == 21) || (hi == 45 && lo == 27) || (hi == 70 && lo == 42) ||
        (hi == 90 && lo == 54) || (hi == 115 && lo == 69) || (hi == 135 && lo == 81) ||
        (hi == 140 && lo == 84) || (hi == 165 && lo == 105) || (hi == 174 && lo == 120) ||
        (hi == 180 && lo == 130) || (hi == 183 && lo == 135) || (hi == 189 && lo == 145) ||
        (hi == 204 && lo == 170) || (hi == 213 && lo == 185) || (hi == 222 && lo == 200) ||
        (hi == 228 && lo == 210) || (hi == 237 && lo == 225) || (hi == 246 && lo == 240) ||
        (hi == 252 && lo == 250)
}

fn rounds_above_25_at(hi: u8, lo: u8) -> (b: bool)
    ensures
        b == rounds_above_25(hi, lo),
{
    (hi == 35 && lo == 21) || (hi == 45 && lo == 27) || (hi == 70 && lo == 42) ||
        (hi == 90 && lo == 54) || (hi == 115 && lo == 69) || (hi == 135 && lo == 81) ||
        (hi == 140 && lo == 84) || (hi == 165 && lo == 105) || (hi == 174 && lo == 120) ||
        (hi == 180 && lo == 130) || (hi == 183 && lo == 135) || (hi == 189 && lo == 145) ||
        (hi == 204 && lo == 170) || (hi == 213 && lo == 185) || (hi == 222 && lo == 200) ||
        (hi == 228 && lo == 210) || (hi == 237 && lo == 225) || (hi == 246 && lo == 240) ||
        (hi == 252 && lo == 250)
}

/// Lightness above 30% as double precision decides it.
pub open spec fn bright(r: u8, g: u8, b: u8) -> bool {
    lighter_than(r, g, b, 30) || rounds_above_30(max3(r, g, b), min3(r, g, b))
}

/// Saturation below 12% as double precision decides it.
pub open spec fn dull(r: u8, g: u8, b: u8) -> bool {
    saturation_below(r, g, b, 12) || rounds_below_12(max3(r, g, b), min3(r, g, b))
}

/// Saturation above 25% as double precision decides it.
pub open spec fn saturated(r: u8, g: u8, b: u8) -> bool {
    saturation_above(r, g, b, 25) || rounds_above_25(max3(r, g, b), min3(r, g, b))
}

/// YUV coordinates of a colour, scaled by 255 * 100000 so that they are integers.
pub open spec fn yuv_scaled(r: u8, g: u8, b: u8) -> (int, int, int) {
    (
        29900 * r + 58700 * g + 11400 * b,
        -14713 * r - 28886 * g + 43600 * b,
        61500 * r - 51499 * g - 10001 * b,
    )
}

/// The squared distance of two colours in (scaled) YUV space, the luma
/// difference counted twice.
pub open spec fn distance_sq(a: (u8, u8, u8), b: (u8, u8, u8)) -> int {
    let (y1, u1, v1) = yuv_scaled(a.0, a.1, a.2);
    let (y2, u2, v2) = yuv_scaled(b.0, b.1, b.2);
    2 * ((y1 - y2) * (y1 - y2)) + (u1 - u2) * (u1 - u2) + (v1 - v2) * (v1 - v2)
}

/// Whether a palette entry is a piece colour (not empty, not garbage).
pub open spec fn piece_entry(e: (u8, u8, u8, char)) -> bool {
    e.3 != '_' && e.3 != 'X'
}

/// Colour `c` with two piece colours `e` and `best` where the distance from
/// `c` to `e` is not smaller than to `best`, but double precision (the square
/// roots of the YUV distances) puts `e` nearer. These are the cases of the two
/// built-in skins.
pub open spec fn rounds_nearer(c: (u8, u8, u8), e: (u8, u8, u8), best: (u8, u8, u8)) -> bool {
    (c == (155u8, 166u8, 50u8) && e == (131u8, 179u8, 50u8) && best == (179u8, 153u8, 50u8)) ||
    (c == (104u8, 53u8, 168u8) && e == (33u8, 65u8, 198u8) && best == (175u8, 41u8, 138u8)) ||
    (c == (201u8, 100u8, 70u8) && e == (175u8, 41u8, 138u8) && best == (227u8, 159u8, 2u8)) ||
    (c == (227u8, 125u8, 2u8) && e == (227u8, 91u8, 2u8) && best == (227u8, 159u8, 2u8)) ||
    (c == (53u8, 163u8, 103u8) && e == (89u8, 177u8, 1u8) && best == (17u8, 149u8, 205u8))
}

fn rounds_nearer_at(c: (u8, u8, u8), e: (u8, u8, u8), best: (u8, u8, u8)) -> (b: bool)
    ensures
        b == rounds_nearer(c, e, best),
{
    (c.0 == 155 && c.1 == 166 && c.2 == 50
        && e.0 == 131 && e.1 == 179 && e.2 == 50
        && best.0 == 179 && best.1 == 153 && best.2 == 50) ||
    (c.0 == 104 && c.1 == 53 && c.2 == 168
        && e.0 == 33 && e.1 == 65 && e.2 == 198
        && best.0 == 175 && best.1 == 41 && best.2 == 138) ||
    (c.0 == 201 && c.1 == 100 && c.2 == 70
        && e.0 == 175 && e.1 == 41 && e.2 == 138
        && best.0 == 227 && best.1 == 159 && best.2 == 2) ||
    (c.0 == 227 && c.1 == 125 && c.2 == 2
        && e.0 == 227 && e.1 == 91 && e.2 == 2
        && best.0 == 227 && best.1 == 159 && best.2 == 2) ||
    (c.0 == 53 && c.1 == 163 && c.2 == 103
        && e.0 == 89 && e.1 == 177 && e.2 == 1
        && best.0 == 17 && best.1 == 149 && best.2 == 205)
}

/// The nearest piece colour of the palette, its squared distance and its
/// colour; on a tie the earlier entry wins, except where double precision
/// puts the later one nearer (see [`rounds_nearer`]).
pub open spec fn nearest_piece(colors: Seq<(u8, u8, u8, char)>, c: (u8, u8, u8)) -> Option<
    (char, int, (u8, u8, u8)),
>
    decreases colors.len(),
{
    if colors.len() == 0 {
        None
    } else {
        let prev = nearest_piece(colors.drop_last(), c);
        let e = colors.last();
        let ec = (e.0, e.1, e.2);
        if !piece_entry(e) {
            prev
        } else {
            let d = distance_sq(ec, c);
            match prev {
                Some((_, pd, pc)) => if d < pd || rounds_nearer(c, ec, pc) {
                    Some((e.3, d, ec))
                } else {
                    prev
                },
                None => Some((e.3, d, ec)),
            }
        }
    }
}

/// The cell letter a colour stands for. Dull colours (saturation below 12%,
/// see [`dull`], or a channel spread below 15) are garbage (`X`) or empty
/// (`_`) by lightness; others take the nearest piece colour when near enough,
/// else the same fallback by lightness.
pub open spec fn piece_color(r: u8, g: u8, b: u8, colors: Seq<(u8, u8, u8, char)>) -> char {
    let spread = max3(r, g, b) - min3(r, g, b);
    if dull(r, g, b) || spread < 15 {
        if lighter_than(r, g, b, 20) && darker_than(r, g, b, 75) && spread < 25 && bright(r, g, b) {
            'X'
        } else if !lighter_than(r, g, b, 25) {
            '_'
        } else {
            'X'
        }
    } else {
        match nearest_piece(colors, (r, g, b)) {
            Some((p, d, _)) if d < NEAR_ENOUGH => p,
            _ => if lighter_than(r, g, b, 20) {
                'X'
            } else {
                '_'
            },
        }
    }
}

fn yuv_of(r: u8, g: u8, b: u8) -> (t: (i64, i64, i64))
    ensures
        t.0 == yuv_scaled(r, g, b).0,
        t.1 == yuv_scaled(r, g, b).1,
        t.2 == yuv_scaled(r, g, b).2,
        0 <= t.0 <= 25500000,
        -11184585 <= t.1 <= 11118000,
        -15683250 <= t.2 <= 15682500,
{
    let r = r as i64;
    let g = g as i64;
    let b = b as i64;
    let y: i64 = 29900 * r + 58700 * g + 11400 * b;
    let u: i64 = 43600 * b - 14713 * r - 28886 * g;
    let v: i64 = 61500 * r - 51499 * g - 10001 * b;
    (y, u, v)
}

fn distance_between(a: (u8, u8, u8), b: (u8, u8, u8)) -> (d: i64)
    ensures
        d == distance_sq(a, b),
{
    let (y1, u1, v1) = yuv_of(a.0, a.1, a.2);
    let (y2, u2, v2) = yuv_of(b.0, b.1, b.2);
    let dy = y1 - y2;
    let du = u1 - u2;
    let dv = v1 - v2;
    assert(0 <= dy * dy <= 650250000000000) by (nonlinear_arith)
        requires
            -25500000 <= dy <= 25500000,
    ;
    assert(0 <= du * du <= 502000000000000) by (nonlinear_arith)
        requires
            -22400000 <= du <= 22400000,
    ;
    assert(0 <= dv * dv <= 1000000000000000) by (nonlinear_arith)
        requires
            -31400000 <= dv <= 31400000,
    ;
    2 * (dy * dy) + du * du + dv * dv
}

/// The cell letter a colour stands for in the given skin (see [`piece_color`]).
pub fn match_piece_color_with_palette(r: u8, g: u8, b: u8, palette: &ColorPalette) -> (c: char)
    ensures
        c == piece_color(r, g, b, palette.colors@),
{
    let hi = channel_max(r, g, b);
    let lo = channel_min(r, g, b);
    let spread: u8 = hi - lo;
    let l: u32 = (hi as u32 + lo as u32) * 100;
    let hi32 = hi as u32;
    let lo32 = lo as u32;
    let dull_sat = if hi == lo {
        true
    } else if l > 50 * 510 {
        (hi32 - lo32) * 100 < 12 * (510 - hi32 - lo32)
    } else {
        (hi32 - lo32) * 100 < 12 * (hi32 + lo32)
    } || rounds_below_12_at(hi, lo);
    if dull_sat || spread < 15 {
        if l > 20 * 510 && l < 75 * 510 && spread < 25 && (l > 30 * 510 || rounds_above_30_at(hi, lo)) {
            return 'X';
        }
        if l <= 25 * 510 {
            return '_';
        }
        return 'X';
    }
    let colors = &palette.colors;
    let mut best: Option<(char, i64, (u8, u8, u8))> = None;
    let mut i: usize = 0;
    while i < colors.len()
        invariant
            i <= colors@.len(),
            colors@ == palette.colors@,
            match best {
                None => nearest_piece(colors@.take(i as int), (r, g, b)) is None,
                Some((p, d, bc)) => nearest_piece(colors@.take(i as int), (r, g, b)) == Some(
                    (p, d as int, bc),
                ),
            },
        decreases colors@.len() - i,
    {
        assert(colors@.take(i + 1).drop_last() =~= colors@.take(i as int));
        let (cr, cg, cb, pc) = colors[i];
        if pc != '_' && pc != 'X' {
            let d = distance_between((cr, cg, cb), (r, g, b));
            match best {
                Some((_, bd, bc)) => {
                    if d < bd || rounds_nearer_at((r, g, b), (cr, cg, cb), bc) {
                        best = Some((pc, d, (cr, cg, cb)));
                    }
                },
                None => {
                    best = Some((pc, d, (cr, cg, cb)));
                },
            }
        }
        i += 1;
    }
    assert(colors@.take(colors@.len() as int) =~= colors@);
    match best {
        Some((p, d, _)) => {
            if d < NEAR_ENOUGH {
                return p;
            }
        },
        None => {},
    }
    if l > 20 * 510 {
        'X'
    } else {
        '_'
    }
}

/// A picture: `width * height` pixels, row by row from the top, each three
/// bytes (red, green, blue).
#[derive(Debug)]
pub struct RgbImage {
    width: u32,
    height: u32,
    data: Vec<u8>,
}

impl RgbImage {
    #[verifier::type_invariant]
    spec fn well_formed(self) -> bool {
        self.data@.len() == self.width as int * self.height as int * 3
    }

    /// The width in pixels.
    pub closed spec fn spec_width(self) -> nat {
        self.width as nat
    }

    /// The height in pixels.
    pub closed spec fn spec_height(self) -> nat {
        self.height as nat
    }

    /// The bytes, three per pixel, row by row.
    pub closed spec fn bytes(self) -> Seq<u8> {
        self.data@
    }

    /// The colour of the pixel in column `x` and row `y`.
    pub open spec fn pixel(self, x: int, y: int) -> (u8, u8, u8) {
        let i = (y * self.spec_width() + x) * 3;
        (self.bytes()[i], self.bytes()[i + 1], self.bytes()[i + 2])
    }

    /// A picture of the given size from its bytes, if there are exactly
    /// three per pixel.
    pub fn from_raw(width: u32, height: u32, data: Vec<u8>) -> (r: Option<RgbImage>)
        ensures
            r is Some <==> data@.len() == width as int * height as int * 3,
            r matches Some(img) ==> img.spec_width() == width && img.spec_height() == height
                && img.bytes() == data@,
    {
        assert(0 <= width as int * height as int <= 0xffff_ffff * 0xffff_ffff) by (nonlinear_arith)
            requires
                width <= 0xffff_ffff,
                height <= 0xffff_ffff,
        ;
        let wanted: u128 = (width as u128) * (height as u128) * 3;
        if data.len() as u128 == wanted {
            Some(RgbImage { width, height, data })
        } else {
            None
        }
    }

    /// The width in pixels.
    pub fn width(&self) -> (w: u32)
        ensures
            w == self.spec_width(),
    {
        self.width
    }

    /// The height in pixels.
    pub fn height(&self) -> (h: u32)
        ensures
            h == self.spec_height(),
    {
        self.height
    }

    /// The colour of the pixel in column `x` and row `y`.
    pub fn get_pixel(&self, x: u32, y: u32) -> (p: (u8, u8, u8))
        requires
            x < self.spec_width(),
            y < self.spec_height(),
        ensures
            p == self.pixel(x as int, y as int),
    {
        proof {
            use_type_invariant(self);
        }
        let w = self.width;
        let h = self.height;
        assert((y as int * w as int + x as int) * 3 + 2 < w as int * h as int * 3) by (nonlinear_arith)
            requires
                x < w,
                y < h,
        ;
        let n: usize = self.data.len();
        assert(y as int * w as int <= (y as int * w as int + x as int) * 3) by (nonlinear_arith)
            requires
                0 <= x,
                0 <= y,
                0 <= w,
        ;
        let i: usize = ((y as usize) * (w as usize) + (x as usize)) * 3;
        (self.data[i], self.data[i + 1], self.data[i + 2])
    }
}

/// Whether a pixel is lit: lightness above 30%.
pub open spec fn lit(p: (u8, u8, u8)) -> bool {
    bright(p.0, p.1, p.2)
}

/// How many of the first `n` pixels of row `y` are lit.
pub open spec fn lit_count(img: RgbImage, y: int, n: int) -> nat
    decreases n,
{
    if n <= 0 {
        0
    } else if lit(img.pixel(n - 1, y)) {
        lit_count(img, y, n - 1) + 1
    } else {
        lit_count(img, y, n - 1)
    }
}

/// A row of the board: more than eight lit pixels.
pub open spec fn filled_row(img: RgbImage, y: int) -> bool {
    lit_count(img, y, img.spec_width() as int) > 8
}

/// The lowest filled row above row `n`.
pub open spec fn last_filled(img: RgbImage, n: int) -> Option<int>
    decreases n,
{
    if n <= 0 {
        None
    } else if filled_row(img, n - 1) {
        Some(n - 1)
    } else {
        last_filled(img, n - 1)
    }
}

/// The highest filled row from row `y` on, above row `end`.
pub open spec fn first_filled(img: RgbImage, y: int, end: int) -> Option<int>
    decreases end - y,
{
    if y >= end {
        None
    } else if filled_row(img, y) {
        Some(y)
    } else {
        first_filled(img, y + 1, end)
    }
}

/// The rows the board spans, `top..bottom`: from the highest filled row to
/// just below the lowest one. With no filled row, the whole height; with
/// fewer than ten rows, the whole picture.
pub open spec fn board_region(img: RgbImage) -> (int, int) {
    let h = img.spec_height() as int;
    if h < 10 {
        (0, h)
    } else {
        let bottom = match last_filled(img, h) {
            Some(y) => y + 1,
            None => h,
        };
        let top = match first_filled(img, 0, bottom) {
            Some(y) => y,
            None => 0,
        };
        (top, bottom)
    }
}

fn row_lit_count(img: &RgbImage, y: u32) -> (n: u32)
    requires
        y < img.spec_height(),
    ensures
        n == lit_count(*img, y as int, img.spec_width() as int),
{
    let w = img.width();
    let mut n: u32 = 0;
    let mut x: u32 = 0;
    while x < w
        invariant
            x <= w,
            w == img.spec_width(),
            y < img.spec_height(),
            n == lit_count(*img, y as int, x as int),
            n <= x,
        decreases w - x,
    {
        let (r, g, b) = img.get_pixel(x, y);
        let hi = channel_max(r, g, b);
        let lo = channel_min(r, g, b);
        if (hi as u32 + lo as u32) * 100 > 30 * 510 || rounds_above_30_at(hi, lo) {
            n += 1;
        }
        x += 1;
    }
    n
}

/// The rows the board spans (see [`board_region`]).
pub fn detect_board_region(img: &RgbImage) -> (r: (u32, u32))
    ensures
        r.0 == board_region(*img).0,
        r.1 == board_region(*img).1,
{
    let h = img.height();
    if h < 10 {
        return (0, h);
    }
    let mut bottom = h;
    let mut y = h;
    let mut found = false;
    while y > 0
        invariant
            y <= h,
            h == img.spec_height(),
            !found ==> bottom == h && last_filled(*img, h as int) == last_filled(*img, y as int),
            found ==> y == 0 && 1 <= bottom <= h && last_filled(*img, h as int) == Some(bottom - 1),
        decreases y,
    {
        if row_lit_count(img, y - 1) > 8 {
            bottom = y;
            found = true;
            y = 0;
        } else {
            y -= 1;
        }
    }
    let mut top: u32 = 0;
    let mut t: u32 = 0;
    let mut found_top = false;
    while t < bottom
        invariant
            t <= bottom <= h,
            h == img.spec_height(),
            !found_top ==> top == 0 && first_filled(*img, 0, bottom as int) == first_filled(
                *img,
                t as int,
                bottom as int,
            ),
            found_top ==> t == bottom && first_filled(*img, 0, bottom as int) == Some(top as int),
        decreases bottom - t,
    {
        if row_lit_count(img, t) > 8 {
            top = t;
            found_top = true;
            t = bottom;
        } else {
            t += 1;
        }
    }
    (top, bottom)
}

/// A colour that tells skins apart: saturation above 25% and lightness
/// strictly between 25% and 80%.
pub open spec fn vivid(p: (u8, u8, u8)) -> bool {
    saturated(p.0, p.1, p.2) && lighter_than(p.0, p.1, p.2, 25) && darker_than(
        p.0,
        p.1,
        p.2,
        80,
    )
}

/// The vivid pixels of rows `y0..y1`, row by row, left to right.
pub open spec fn vivid_pixels(img: RgbImage, y0: int, y1: int) -> Seq<(u8, u8, u8)>
    decreases y1 - y0,
{
    if y1 <= y0 {
        Seq::empty()
    } else {
        vivid_pixels(img, y0, y1 - 1) + vivid_in_row(img, y1 - 1, img.spec_width() as int)
    }
}

/// The vivid pixels among the first `n` of row `y`, left to right.
pub open spec fn vivid_in_row(img: RgbImage, y: int, n: int) -> Seq<(u8, u8, u8)>
    decreases n,
{
    if n <= 0 {
        Seq::empty()
    } else if vivid(img.pixel(n - 1, y)) {
        vivid_in_row(img, y, n - 1).push(img.pixel(n - 1, y))
    } else {
        vivid_in_row(img, y, n - 1)
    }
}

fn is_vivid(r: u8, g: u8, b: u8) -> (v: bool)
    ensures
        v == vivid((r, g, b)),
{
    let hi8 = channel_max(r, g, b);
    let lo8 = channel_min(r, g, b);
    let hi = hi8 as u32;
    let lo = lo8 as u32;
    let l: u32 = (hi + lo) * 100;
    let saturated = if hi == lo {
        false
    } else if l > 50 * 510 {
        (hi - lo) * 100 > 25 * (510 - hi - lo)
    } else {
        (hi - lo) * 100 > 25 * (hi + lo)
    } || rounds_above_25_at(hi8, lo8);
    saturated && l > 25 * 510 && l < 80 * 510
}

/// The samples a skin is recognized by: the vivid pixels (see [`vivid`]) of
/// the rows from three fifths to four fifths of the height, row by row.
pub fn palette_samples(img: &RgbImage) -> (samples: Vec<(u8, u8, u8)>)
    requires
        img.spec_height() * 4 <= u32::MAX,
    ensures
        samples@ == vivid_pixels(
            *img,
            img.spec_height() as int * 3 / 5,
            img.spec_height() as int * 4 / 5,
        ),
{
    let w = img.width();
    let h = img.height();
    let y_start = h * 3 / 5;
    let y_end = h * 4 / 5;
    let mut samples: Vec<(u8, u8, u8)> = Vec::new();
    let mut y = y_start;
    while y < y_end
        invariant
            y_start <= y <= y_end,
            y_end <= h,
            w == img.spec_width(),
            h == img.spec_height(),
            samples@ == vivid_pixels(*img, y_start as int, y as int),
        decreases y_end - y,
    {
        let mut x: u32 = 0;
        let ghost before = samples@;
        while x < w
            invariant
                x <= w,
                y < y_end <= h,
                w == img.spec_width(),
                h == img.spec_height(),
                samples@ == before + vivid_in_row(*img, y as int, x as int),
            decreases w - x,
        {
            let (r, g, b) = img.get_pixel(x, y);
            if is_vivid(r, g, b) {
                samples.push((r, g, b));
            }
            x += 1;
            assert(samples@ =~= before + vivid_in_row(*img, y as int, x as int));
        }
        y += 1;
    }
    samples
}

proof fn lemma_last_filled_range(img: RgbImage, n: int)
    ensures
        last_filled(img, n) matches Some(y) ==> 0 <= y < n,
    decreases n,
{
    if n > 0 && !filled_row(img, n - 1) {
        lemma_last_filled_range(img, n - 1);
    }
}

proof fn lemma_first_filled_range(img: RgbImage, y: int, end: int)
    ensures
        first_filled(img, y, end) matches Some(t) ==> y <= t < end,
    decreases end - y,
{
    if y < end && !filled_row(img, y) {
        lemma_first_filled_range(img, y + 1, end);
    }
}

/// The board spans its region from top to bottom.
pub proof fn lemma_board_region_ordered(img: RgbImage)
    ensures
        0 <= board_region(img).0 <= board_region(img).1 <= img.spec_height(),
{
    let h = img.spec_height() as int;
    lemma_last_filled_range(img, h);
    let bottom = match last_filled(img, h) {
        Some(y) => y + 1,
        None => h,
    };
    lemma_first_filled_range(img, 0, bottom);
}

/// Where the cells of a board are sampled: the pixel column of each of
/// the ten cell columns, and the pixel row of each board row, top first.
/// The caller measures the grid from the board region (the cell size and
/// cell centres are fractions of the width).
#[derive(Debug, Clone)]
pub struct SampleGrid {
    pub xs: Vec<u32>,
    pub ys: Vec<u32>,
}

/// A grid of ten columns and one to forty rows, every sample inside the picture.
pub open spec fn grid_fits(img: RgbImage, grid: SampleGrid) -> bool {
    &&& grid.xs@.len() == 10
    &&& 1 <= grid.ys@.len() <= 40
    &&& forall|i: int| 0 <= i < 10 ==> #[trigger] grid.xs@[i] < img.spec_width()
    &&& forall|j: int| 0 <= j < grid.ys@.len() ==> #[trigger] grid.ys@[j] < img.spec_height()
}

/// The letters of one board row, sampled at row `y` in each cell column.
pub open spec fn row_cells(
    img: RgbImage,
    colors: Seq<(u8, u8, u8, char)>,
    xs: Seq<u32>,
    y: int,
) -> Seq<char> {
    Seq::new(
        10,
        |col: int|
            {
                let p = img.pixel(xs[col] as int, y);
                piece_color(p.0, p.1, p.2, colors)
            },
    )
}

/// The letters of the board rows of the grid, from the top.
pub open spec fn board_rows(
    img: RgbImage,
    colors: Seq<(u8, u8, u8, char)>,
    grid: SampleGrid,
) -> Seq<Seq<char>> {
    Seq::new(grid.ys@.len(), |row: int| row_cells(img, colors, grid.xs@, grid.ys@[row] as int))
}

/// A row with nothing in it.
pub open spec fn blank_line(l: Seq<char>) -> bool {
    forall|i: int| 0 <= i < l.len() ==> l[i] == '_'
}

/// The first row that is not blank.
pub open spec fn first_kept(rows: Seq<Seq<char>>) -> int {
    choose|i: int|
        0 <= i < rows.len() && !blank_line(rows[i]) && forall|j: int|
            0 <= j < i ==> blank_line(#[trigger] rows[j])
}

/// The last row that is not blank.
pub open spec fn last_kept(rows: Seq<Seq<char>>) -> int {
    choose|i: int|
        0 <= i < rows.len() && !blank_line(rows[i]) && forall|j: int|
            i < j < rows.len() ==> blank_line(#[trigger] rows[j])
}

/// The lines joined with newlines.
pub open spec fn joined_lines(ls: Seq<Seq<char>>) -> Seq<char>
    decreases ls.len(),
{
    if ls.len() == 0 {
        Seq::empty()
    } else if ls.len() == 1 {
        ls[0]
    } else {
        joined_lines(ls.drop_last()) + seq!['\n'] + ls.last()
    }
}

/// The diagnostic line of a recognition: the skin, the cell width in pixels
/// with one decimal, the number of rows read and the range of rows kept
/// (counted from the bottom, end exclusive).
pub open spec fn debug_text(name: Seq<char>, width: int, n: int, start: int, end: int) -> Seq<
    char,
> {
    "palette="@ + name + ", cell_w="@ + decimal((width / 10) as nat) + "."@ + decimal(
        (width % 10) as nat,
    ) + "px, n_rows="@ + decimal(n as nat) + ", trimmed="@ + decimal(start as nat) + ".."@
        + decimal(end as nat)
}

/// Whether a board can be read from the picture: the board region
/// (`top..bottom`), or why not (the picture is under ten pixels in either
/// direction, or the region is under ten rows high).
pub open spec fn board_frame_of(img: RgbImage) -> Result<(int, int), Seq<char>> {
    let w = img.spec_width() as int;
    let h = img.spec_height() as int;
    if w < 10 || h < 10 {
        Err("Image too small"@)
    } else {
        let (top, bottom) = board_region(img);
        if bottom - top < 10 {
            Err("Could not detect board region"@)
        } else {
            Ok((top, bottom))
        }
    }
}

/// What reading a board gives: the rows from the first to the last that is
/// not blank, top to bottom, joined with newlines, and the diagnostic line;
/// or why nothing could be read.
pub open spec fn recognition(
    img: RgbImage,
    name: Seq<char>,
    colors: Seq<(u8, u8, u8, char)>,
    grid: SampleGrid,
) -> Result<(Seq<char>, Seq<char>), Seq<char>> {
    match board_frame_of(img) {
        Err(e) => Err(e),
        Ok(_) => {
            let w = img.spec_width() as int;
            let n = grid.ys@.len() as int;
            let rows = board_rows(img, colors, grid);
            if forall|i: int| 0 <= i < n ==> blank_line(#[trigger] rows[i]) {
                Err("Board appears empty"@)
            } else {
                let first = first_kept(rows);
                let last = last_kept(rows);
                Ok(
                    (
                        joined_lines(rows.subrange(first, last + 1)),
                        debug_text(name, w, n, n - 1 - last, n - first),
                    ),
                )
            }
        },
    }
}

/// A letter a recognized cell can hold: empty, garbage, or the letter of one
/// of the palette's piece colours.
pub open spec fn cell_letter(c: char, colors: Seq<(u8, u8, u8, char)>) -> bool {
    c == '_' || c == 'X' || exists|i: int| 0 <= i < colors.len() && colors[i].3 == c
}

proof fn lemma_nearest_from_palette(colors: Seq<(u8, u8, u8, char)>, c: (u8, u8, u8))
    ensures
        nearest_piece(colors, c) matches Some((p, _, _)) ==> exists|i: int|
            0 <= i < colors.len() && colors[i].3 == p,
    decreases colors.len(),
{
    if colors.len() > 0 {
        lemma_nearest_from_palette(colors.drop_last(), c);
        if let Some((p, _, _)) = nearest_piece(colors.drop_last(), c) {
            let i = choose|i: int| 0 <= i < colors.drop_last().len() && colors.drop_last()[i].3 == p;
            assert(colors[i].3 == p);
        }
        assert(colors[colors.len() - 1] == colors.last());
    }
}

/// Every colour stands for a letter the palette knows.
pub proof fn lemma_piece_color_letter(r: u8, g: u8, b: u8, colors: Seq<(u8, u8, u8, char)>)
    ensures
        cell_letter(piece_color(r, g, b, colors), colors),
{
    lemma_nearest_from_palette(colors, (r, g, b));
}

/// A recognized field is made of one to forty lines joined with newlines;
/// each line has ten cells, each empty, garbage or a piece letter of the
/// palette; neither the first line nor the last is blank.
pub proof fn lemma_recognized_shape(
    img: RgbImage,
    name: Seq<char>,
    colors: Seq<(u8, u8, u8, char)>,
    grid: SampleGrid,
)
    requires
        grid_fits(img, grid),
        recognition(img, name, colors, grid) is Ok,
    ensures
        exists|lines: Seq<Seq<char>>|
            {
                &&& recognition(img, name, colors, grid)->Ok_0.0 == joined_lines(lines)
                &&& 1 <= lines.len() <= 40
                &&& !blank_line(lines[0])
                &&& !blank_line(lines.last())
                &&& forall|i: int|
                    0 <= i < lines.len() ==> (#[trigger] lines[i]).len() == 10 && forall|k: int|
                        0 <= k < 10 ==> cell_letter(#[trigger] lines[i][k], colors)
            },
{
    let n = grid.ys@.len() as int;
    let rows = board_rows(img, colors, grid);
    let first = first_kept(rows);
    let last = last_kept(rows);
    let i0 = choose|i: int| 0 <= i < n && !blank_line(#[trigger] rows[i]);
    assert(0 <= i0 < rows.len() && !blank_line(rows[i0]));
    assert(exists|i: int|
        0 <= i < rows.len() && !blank_line(rows[i]) && forall|j: int|
            0 <= j < i ==> blank_line(#[trigger] rows[j])) by {
        lemma_first_nonblank(rows, i0);
    }
    assert(exists|i: int|
        0 <= i < rows.len() && !blank_line(rows[i]) && forall|j: int|
            i < j < rows.len() ==> blank_line(#[trigger] rows[j])) by {
        lemma_last_nonblank(rows, i0);
    }
    assert(first <= last);
    let lines = rows.subrange(first, last + 1);
    assert(lines[0] == rows[first]);
    assert(lines.last() == rows[last]);
    assert forall|i: int| 0 <= i < lines.len() implies (#[trigger] lines[i]).len() == 10 && forall|
        k: int,
    | 0 <= k < 10 ==> cell_letter(#[trigger] lines[i][k], colors) by {
        assert(lines[i] == row_cells(img, colors, grid.xs@, grid.ys@[first + i] as int));
        assert forall|k: int| 0 <= k < 10 implies cell_letter(#[trigger] lines[i][k], colors) by {
            let p = img.pixel(grid.xs@[k] as int, grid.ys@[first + i] as int);
            lemma_piece_color_letter(p.0, p.1, p.2, colors);
        }
    }
}

proof fn lemma_first_nonblank(rows: Seq<Seq<char>>, i: int)
    requires
        0 <= i < rows.len(),
        !blank_line(rows[i]),
    ensures
        exists|m: int|
            0 <= m < rows.len() && !blank_line(rows[m]) && forall|j: int|
                0 <= j < m ==> blank_line(#[trigger] rows[j]),
    decreases i,
{
    if forall|j: int| 0 <= j < i ==> blank_line(#[trigger] rows[j]) {
    } else {
        let j = choose|j: int| 0 <= j < i && !blank_line(#[trigger] rows[j]);
        lemma_first_nonblank(rows, j);
    }
}

proof fn lemma_last_nonblank(rows: Seq<Seq<char>>, i: int)
    requires
        0 <= i < rows.len(),
        !blank_line(rows[i]),
    ensures
        exists|m: int|
            0 <= m < rows.len() && !blank_line(rows[m]) && forall|j: int|
                m < j < rows.len() ==> blank_line(#[trigger] rows[j]),
    decreases rows.len() - i,
{
    if forall|j: int| i < j < rows.len() ==> blank_line(#[trigger] rows[j]) {
    } else {
        let j = choose|j: int| i < j < rows.len() && !blank_line(#[trigger] rows[j]);
        lemma_last_nonblank(rows, j);
    }
}

fn read_row(img: &RgbImage, palette: &ColorPalette, xs: &Vec<u32>, y: u32) -> (line: Vec<char>)
    requires
        xs@.len() == 10,
        forall|i: int| 0 <= i < 10 ==> #[trigger] xs@[i] < img.spec_width(),
        y < img.spec_height(),
    ensures
        line@ == row_cells(*img, palette.colors@, xs@, y as int),
{
    let mut line: Vec<char> = Vec::new();
    let mut col: usize = 0;
    while col < 10
        invariant
            col <= 10,
            xs@.len() == 10,
            forall|i: int| 0 <= i < 10 ==> #[trigger] xs@[i] < img.spec_width(),
            y < img.spec_height(),
            line@.len() == col,
            forall|k: int|
                0 <= k < col ==> line@[k] == row_cells(*img, palette.colors@, xs@, y as int)[k],
        decreases 10 - col,
    {
        let (r, g, b) = img.get_pixel(xs[col], y);
        let c = match_piece_color_with_palette(r, g, b, palette);
        line.push(c);
        col += 1;
    }
    assert(line@ =~= row_cells(*img, palette.colors@, xs@, y as int));
    line
}

fn blank(line: &Vec<char>) -> (b: bool)
    ensures
        b == blank_line(line@),
{
    let mut i: usize = 0;
    while i < line.len()
        invariant
            i <= line@.len(),
            forall|k: int| 0 <= k < i ==> line@[k] == '_',
        decreases line@.len() - i,
    {
        if line[i] != '_' {
            return false;
        }
        i += 1;
    }
    true
}

fn push_chars(out: &mut Vec<char>, s: &Vec<char>)
    ensures
        final(out)@ == old(out)@ + s@,
{
    let mut i: usize = 0;
    while i < s.len()
        invariant
            i <= s@.len(),
            out@ == old(out)@ + s@.take(i as int),
        decreases s@.len() - i,
    {
        out.push(s[i]);
        i += 1;
        assert(out@ =~= old(out)@ + s@.take(i as int));
    }
    assert(s@.take(s@.len() as int) =~= s@);
}

proof fn lemma_kept_bounds(rows: Seq<Seq<char>>, first: int, last: int)
    requires
        0 <= first <= last < rows.len(),
        !blank_line(rows[first]),
        !blank_line(rows[last]),
        forall|j: int| 0 <= j < first ==> blank_line(#[trigger] rows[j]),
        forall|j: int| last < j < rows.len() ==> blank_line(#[trigger] rows[j]),
    ensures
        first_kept(rows) == first,
        last_kept(rows) == last,
{
    let f = first_kept(rows);
    assert(0 <= f < rows.len() && !blank_line(rows[f]) && forall|j: int|
        0 <= j < f ==> blank_line(#[trigger] rows[j]));
    let l = last_kept(rows);
    assert(0 <= l < rows.len() && !blank_line(rows[l]) && forall|j: int|
        l < j < rows.len() ==> blank_line(#[trigger] rows[j]));
}

fn read_rows(img: &RgbImage, palette: &ColorPalette, grid: &SampleGrid) -> (raw: Vec<Vec<char>>)
    requires
        grid_fits(*img, *grid),
    ensures
        raw@.len() == grid.ys@.len(),
        forall|j: int|
            0 <= j < raw@.len() ==> (#[trigger] raw@[j])@ == board_rows(
                *img,
                palette.colors@,
                *grid,
            )[raw@.len() - 1 - j],
{
    let ghost rows = board_rows(*img, palette.colors@, *grid);
    let n: usize = grid.ys.len();
    let mut raw: Vec<Vec<char>> = Vec::new();
    let mut k: usize = 0;
    while k < n
        invariant
            k <= n,
            n == grid.ys@.len(),
            grid_fits(*img, *grid),
            rows == board_rows(*img, palette.colors@, *grid),
            raw@.len() == k,
            forall|j: int| 0 <= j < k ==> (#[trigger] raw@[j])@ == rows[n - 1 - j],
        decreases n - k,
    {
        let y = grid.ys[n - 1 - k];
        let line = read_row(img, palette, &grid.xs, y);
        raw.push(line);
        k += 1;
    }
    raw
}

fn join_kept(raw: &Vec<Vec<char>>, start: usize, end: usize, Ghost(rows): Ghost<Seq<Seq<char>>>) -> (out: Vec<char>)
    requires
        start < end <= raw@.len(),
        rows.len() == raw@.len(),
        forall|j: int| 0 <= j < raw@.len() ==> (#[trigger] raw@[j])@ == rows[raw@.len() - 1 - j],
    ensures
        out@ == joined_lines(rows.subrange(raw@.len() - end, raw@.len() - start)),
{
    let ghost n = raw@.len() as int;
    let ghost first = n - end;
    let mut out: Vec<char> = Vec::new();
    let mut i: usize = end;
    while i > start
        invariant
            start < end <= n,
            n == raw@.len(),
            rows.len() == n,
            start <= i <= end,
            first == n - end,
            forall|j: int| 0 <= j < raw@.len() ==> (#[trigger] raw@[j])@ == rows[n - 1 - j],
            out@ == joined_lines(rows.subrange(first, first + (end - i))),
        decreases i,
    {
        let ghost before = rows.subrange(first, first + (end - i));
        if i < end {
            out.push('\n');
        }
        push_chars(&mut out, &raw[i - 1]);
        i -= 1;
        proof {
            let now = rows.subrange(first, first + (end - i));
            assert(now.drop_last() =~= before);
            assert(raw@[i as int]@ == rows[n - 1 - i]);
            assert(now.last() == rows[n - 1 - i]);
            if end - i == 1 {
                assert(now =~= seq![rows[first]]);
            }
        }
    }
    out
}

/// Whether a board can be read from the picture, and its region (see
/// [`board_frame_of`]).
pub fn board_frame(img: &RgbImage) -> (r: Result<(u32, u32), String>)
    ensures
        match r {
            Ok((top, bottom)) => board_frame_of(*img) == Ok::<(int, int), Seq<char>>(
                (top as int, bottom as int),
            ),
            Err(e) => board_frame_of(*img) == Err::<(int, int), Seq<char>>(e@),
        },
{
    let w = img.width();
    let h = img.height();
    if w < 10 || h < 10 {
        return Err(String::from_str("Image too small"));
    }
    let (top, bottom) = detect_board_region(img);
    proof {
        lemma_board_region_ordered(*img);
    }
    if bottom - top < 10 {
        return Err(String::from_str("Could not detect board region"));
    }
    Ok((top, bottom))
}

/// Reads a board in the given skin, sampling its cells at the grid (see
/// [`recognition`]): the text of the field, top row first, and a diagnostic
/// line.
#[verifier::spinoff_prover]
#[verifier::rlimit(50)]
pub fn recognize_field(img: &RgbImage, palette: &ColorPalette, grid: &SampleGrid) -> (r: Result<
    (String, String),
    String,
>)
    requires
        board_frame_of(*img) is Ok ==> grid_fits(*img, *grid),
    ensures
        match r {
            Ok((field, debug)) => recognition(*img, palette.name@, palette.colors@, *grid) == Ok::<
                (Seq<char>, Seq<char>),
                Seq<char>,
            >((field@, debug@)),
            Err(e) => recognition(*img, palette.name@, palette.colors@, *grid) == Err::<
                (Seq<char>, Seq<char>),
                Seq<char>,
            >(e@),
        },
{
    if let Err(e) = board_frame(img) {
        return Err(e);
    }
    let w = img.width();
    let n: usize = grid.ys.len();
    let ghost rows = board_rows(*img, palette.colors@, *grid);
    let raw = read_rows(img, palette, grid);
    let mut start: usize = 0;
    while start < raw.len() && blank(&raw[start])
        invariant
            start <= raw@.len(),
            raw@.len() == n,
            forall|j: int| 0 <= j < raw@.len() ==> (#[trigger] raw@[j])@ == rows[n - 1 - j],
            forall|j: int| 0 <= j < start ==> blank_line(#[trigger] raw@[j]@),
        decreases raw@.len() - start,
    {
        start += 1;
    }
    if start == raw.len() {
        assert forall|i: int| 0 <= i < n implies blank_line(#[trigger] rows[i]) by {
            assert(raw@[n - 1 - i]@ == rows[i]);
        }
        return Err(String::from_str("Board appears empty"));
    }
    let mut end: usize = raw.len();
    while end > start + 1 && blank(&raw[end - 1])
        invariant
            start < end <= raw@.len(),
            raw@.len() == n,
            forall|j: int| 0 <= j < raw@.len() ==> (#[trigger] raw@[j])@ == rows[n - 1 - j],
            forall|j: int| end <= j < raw@.len() ==> blank_line(#[trigger] raw@[j]@),
        decreases end,
    {
        end -= 1;
    }
    let ghost first = n - end;
    let ghost last = n - 1 - start;
    proof {
        assert(!blank_line(rows[last]));
        assert(!blank_line(rows[first]));
        assert forall|j: int| 0 <= j < first implies blank_line(#[trigger] rows[j]) by {
            assert(raw@[n - 1 - j]@ == rows[j]);
        }
        assert forall|j: int| last < j < n implies blank_line(#[trigger] rows[j]) by {
            assert(raw@[n - 1 - j]@ == rows[j]);
        }
        lemma_kept_bounds(rows, first, last);
    }
    let out = join_kept(&raw, start, end, Ghost(rows));
    let field = string_of(out.as_slice());
    let mut debug = String::from_str("palette=");
    debug.append(palette.name.as_str());
    debug.append(", cell_w=");
    debug.append(decimal_string(w / 10).as_str());
    debug.append(".");
    debug.append(decimal_string(w % 10).as_str());
    debug.append("px, n_rows=");
    debug.append(decimal_string(n as u32).as_str());
    debug.append(", trimmed=");
    debug.append(decimal_string(start as u32).as_str());
    debug.append("..");
    debug.append(decimal_string(end as u32).as_str());
    Ok((field, debug))
}

/// Reads a board in the given skin and keeps only the text of the field.
pub fn recognize_field_simple(img: &RgbImage, palette: &ColorPalette, grid: &SampleGrid) -> (r:
    Result<String, String>)
    requires
        board_frame_of(*img) is Ok ==> grid_fits(*img, *grid),
    ensures
        match r {
            Ok(field) => recognition(*img, palette.name@, palette.colors@, *grid) matches Ok((f, _))
                && f == field@,
            Err(e) => recognition(*img, palette.name@, palette.colors@, *grid) == Err::<
                (Seq<char>, Seq<char>),
                Seq<char>,
            >(e@),
        },
{
    match recognize_field(img, palette, grid) {
        Ok((field, _)) => Ok(field),
        Err(e) => Err(e),
    }
}

/// The picture `image::load_from_memory` decodes from the bytes, as its
/// width, height and colour bytes (`to_rgb8`), or the text of its error.
pub uninterp spec fn decoded_rgb(bytes: Seq<u8>) -> Result<(u32, u32, Seq<u8>), Seq<char>>;

/// Decodes a picture file held in memory.
///
/// Trusted: calls `image::load_from_memory` (the format is told from the
/// bytes) and converts the picture with `DynamicImage::to_rgb8`; the result,
/// or the error's text, is named by [`decoded_rgb`]. The crate's source builds
/// the converted buffer with exactly three bytes per pixel.
#[verifier::external_body]
fn decode_bytes(bytes: &[u8]) -> (r: Result<(u32, u32, Vec<u8>), String>)
    ensures
        match r {
            Ok((w, h, d)) => decoded_rgb(bytes@) == Ok::<(u32, u32, Seq<u8>), Seq<char>>(
                (w, h, d@),
            ) && d@.len() == w as int * h as int * 3,
            Err(e) => decoded_rgb(bytes@) == Err::<(u32, u32, Seq<u8>), Seq<char>>(e@),
        },
{
    match image::load_from_memory(bytes) {
        Ok(img) => {
            let rgb = img.to_rgb8();
            Ok((rgb.width(), rgb.height(), rgb.into_raw()))
        },
        Err(e) => Err(e.to_string()),
    }
}

/// Decodes a picture file held in memory (PNG, JPEG and the other formats
/// the `image` crate reads here) into a picture with three bytes per pixel;
/// or gives the decoder's error.
pub fn decode_rgb(bytes: &[u8]) -> (r: Result<RgbImage, String>)
    ensures
        match decoded_rgb(bytes@) {
            Ok((w, h, d)) => r matches Ok(img) && img.spec_width() == w && img.spec_height() == h
                && img.bytes() == d,
            Err(e) => r matches Err(m) && m@ == e,
        },
{
    match decode_bytes(bytes) {
        Ok((w, h, d)) => match RgbImage::from_raw(w, h, d) {
            Some(img) => Ok(img),
            None => Err(String::new()),
        },
        Err(e) => Err(e),
    }
}

/// The colour of the pixel in column `x` and row `y` of a picture stored
/// with four bytes per pixel (red, green, blue, alpha), `width` pixels a row.
pub open spec fn rgba_pixel(rgba: Seq<u8>, width: int, x: int, y: int) -> (u8, u8, u8) {
    let i = (y * width + x) * 4;
    (rgba[i], rgba[i + 1], rgba[i + 2])
}

/// The colour bytes of a picture stored with four bytes per pixel, the
/// alpha byte of each pixel left out.
pub open spec fn drop_alpha(rgba: Seq<u8>) -> Seq<u8> {
    Seq::new((rgba.len() / 4 * 3) as nat, |k: int| rgba[(k / 3) * 4 + k % 3])
}

/// The three bytes of pixel (`ii`, `jj`) of a picture stored with three
/// bytes per pixel, `w` pixels a row.
pub open spec fn triple_at(data: Seq<u8>, w: int, ii: int, jj: int) -> (u8, u8, u8) {
    let k = (jj * w + ii) * 3;
    (data[k], data[k + 1], data[k + 2])
}

fn rgb_bytes(rgba: &[u8]) -> (rgb: Vec<u8>)
    ensures
        rgb@ == drop_alpha(rgba@),
{
    let total: usize = rgba.len();
    let n: usize = total / 4;
    let mut rgb: Vec<u8> = Vec::new();
    let mut i: usize = 0;
    while i < n
        invariant
            i <= n,
            total == rgba@.len(),
            n == rgba@.len() / 4,
            rgb@.len() == i * 3,
            forall|k: int| 0 <= k < rgb@.len() ==> rgb@[k] == rgba@[(k / 3) * 4 + k % 3],
        decreases n - i,
    {
        assert(4 * i + 3 < rgba@.len());
        let ghost before = rgb@;
        rgb.push(rgba[4 * i]);
        rgb.push(rgba[4 * i + 1]);
        rgb.push(rgba[4 * i + 2]);
        proof {
            assert forall|k: int| 0 <= k < rgb@.len() implies rgb@[k] == rgba@[(k / 3) * 4 + k % 3] by {
                if k < before.len() {
                    assert(rgb@[k] == before[k]);
                } else {
                    assert(k / 3 == i);
                }
            }
        }
        i += 1;
    }
    assert(rgb@ =~= drop_alpha(rgba@));
    rgb
}

proof fn lemma_earlier_pixel(jj: int, ii: int, j: int, i: int, w: int)
    requires
        0 <= jj,
        0 <= ii,
        0 <= i,
        (jj < j && ii < w) || (jj == j && ii < i),
    ensures
        (jj * w + ii) * 3 + 2 < (j * w + i) * 3,
{
    if jj < j {
        assert(jj * w + w <= j * w) by (nonlinear_arith)
            requires
                jj < j,
                0 <= w,
        ;
    }
}

/// Cuts the rectangle `w` x `h` at (`ox`, `oy`) out of a picture stored with
/// four bytes per pixel, clipped to the picture, and keeps the colour bytes.
pub fn crop_to_rgb(width: u32, height: u32, rgba: &[u8], ox: u32, oy: u32, w: u32, h: u32) -> (img:
    RgbImage)
    requires
        rgba@.len() == width as int * height as int * 4,
        ox < width,
        oy < height,
    ensures
        img.spec_width() == if w < width - ox {
            w as int
        } else {
            width - ox
        },
        img.spec_height() == if h < height - oy {
            h as int
        } else {
            height - oy
        },
        forall|i: int, j: int|
            0 <= i < img.spec_width() && 0 <= j < img.spec_height() ==> #[trigger] img.pixel(i, j)
                == rgba_pixel(rgba@, width as int, ox + i, oy + j),
{
    let cw: u32 = if w < width - ox {
        w
    } else {
        width - ox
    };
    let ch: u32 = if h < height - oy {
        h
    } else {
        height - oy
    };
    let mut data: Vec<u8> = Vec::new();
    let mut j: u32 = 0;
    while j < ch
        invariant
            j <= ch,
            ox + cw <= width,
            oy + ch <= height,
            rgba@.len() == width as int * height as int * 4,
            data@.len() == (j * cw) * 3,
            forall|jj: int, ii: int|
                0 <= jj < j && 0 <= ii < cw ==> #[trigger] triple_at(data@, cw as int, ii, jj) == rgba_pixel(
                    rgba@,
                    width as int,
                    ox + ii,
                    oy + jj,
                ),
        decreases ch - j,
    {
        let mut i: u32 = 0;
        while i < cw
            invariant
                j < ch,
                i <= cw,
                ox + cw <= width,
                oy + ch <= height,
                rgba@.len() == width as int * height as int * 4,
                data@.len() == (j * cw + i) * 3,
                forall|jj: int, ii: int|
                    ((0 <= jj < j && 0 <= ii < cw) || (jj == j && 0 <= ii < i)) ==> #[trigger] triple_at(data@, cw as int, ii, jj) == rgba_pixel(
                    rgba@,
                    width as int,
                    ox + ii,
                    oy + jj,
                ),
            decreases cw - i,
        {
            let sy: u32 = oy + j;
            let sx: u32 = ox + i;
            let n: usize = rgba.len();
            assert((sy as int * width as int + sx as int) * 4 + 3 < width as int * height as int
                * 4) by (nonlinear_arith)
                requires
                    sx < width,
                    sy < height,
            ;
            assert(sy as int * width as int <= (sy as int * width as int + sx as int) * 4)
                by (nonlinear_arith)
                requires
                    0 <= sx,
                    0 <= sy,
                    0 <= width,
            ;
            let s: usize = ((sy as usize) * (width as usize) + (sx as usize)) * 4;
            let ghost before = data@;
            data.push(rgba[s]);
            data.push(rgba[s + 1]);
            data.push(rgba[s + 2]);
            proof {
                assert forall|jj: int, ii: int|
                    ((0 <= jj < j && 0 <= ii < cw) || (jj == j && 0 <= ii < i + 1)) implies #[trigger] triple_at(data@, cw as int, ii, jj) == rgba_pixel(
                    rgba@,
                    width as int,
                    ox + ii,
                    oy + jj,
                ) by {
                    if jj == j && ii == i {
                        let k = (jj * cw + ii) * 3;
                        assert(before.len() == k);
                        assert(data@[k] == rgba@[s as int]);
                        assert(data@[k + 1] == rgba@[s + 1]);
                        assert(data@[k + 2] == rgba@[s + 2]);
                        assert(s == ((oy + jj) * width + (ox + ii)) * 4);
                    } else {
                        lemma_earlier_pixel(jj, ii, j as int, i as int, cw as int);
                        let k = (jj * cw + ii) * 3;
                        assert(triple_at(data@, cw as int, ii, jj) == (data@[k], data@[k + 1], data@[k + 2]));
                        assert(data@[k] == before[k]);
                        assert(data@[k + 1] == before[k + 1]);
                        assert(data@[k + 2] == before[k + 2]);
                        assert(triple_at(before, cw as int, ii, jj) == (before[k], before[k + 1], before[k + 2]));
                    }
                }
            }
            i += 1;
        }
        assert(data@.len() == ((j + 1) * cw) * 3) by (nonlinear_arith)
            requires
                data@.len() == (j * cw + cw) * 3,
        ;
        j += 1;
    }
    assert(data@.len() == cw as int * ch as int * 3) by (nonlinear_arith)
        requires
            data@.len() == (ch * cw) * 3,
    ;
    let img = RgbImage { width: cw, height: ch, data };
    assert forall|i: int, j: int|
        0 <= i < img.spec_width() && 0 <= j < img.spec_height() implies #[trigger] img.pixel(i, j)
        == rgba_pixel(rgba@, width as int, ox + i, oy + j) by {
        assert(img.pixel(i, j) == triple_at(img.data@, cw as int, i, j));
    }
    img
}

/// Whether the desktop point (`x`, `y`) lies on a monitor placed at
/// (`m.0`, `m.1`) with size `m.2` x `m.3`.
pub open spec fn on_monitor(m: (i32, i32, u32, u32), x: int, y: int) -> bool {
    x >= m.0 && y >= m.1 && x < m.0 + m.2 && y < m.1 + m.3
}

/// A monitor whose far edges are still `i32` coordinates.
pub open spec fn within_desktop(m: (i32, i32, u32, u32)) -> bool {
    m.2 <= i32::MAX && m.3 <= i32::MAX && m.0 + m.2 <= i32::MAX && m.1 + m.3 <= i32::MAX
}

/// Whether a monitor's far edges are still `i32` coordinates (see [`within_desktop`]).
pub fn fits_desktop(m: (i32, i32, u32, u32)) -> (b: bool)
    ensures
        b == within_desktop(m),
{
    m.2 <= i32::MAX as u32 && m.3 <= i32::MAX as u32 && m.0 as i64 + m.2 as i64 <= i32::MAX as i64
        && m.1 as i64 + m.3 as i64 <= i32::MAX as i64
}

/// Where a selection of `w` x `h` at desktop point (`x`, `y`) is cut: the
/// first monitor (in the order given) that holds the point, the offset of the
/// point on it, and the selection clipped to the monitor's far edges; or an
/// error when no monitor holds the point.
pub fn select_crop(monitors: &[(i32, i32, u32, u32)], x: i32, y: i32, w: u32, h: u32) -> (r: Result<
    (usize, u32, u32, u32, u32),
    String,
>)
    requires
        forall|k: int| 0 <= k < monitors@.len() ==> within_desktop(#[trigger] monitors@[k]),
    ensures
        r is Err <==> forall|k: int|
            0 <= k < monitors@.len() ==> !on_monitor(#[trigger] monitors@[k], x as int, y as int),
        r matches Err(e) ==> e@ == "Selection outside all captured monitors"@,
        r matches Ok((k, ox, oy, cw, ch)) ==> {
            let m = monitors@[k as int];
            &&& k < monitors@.len()
            &&& on_monitor(m, x as int, y as int)
            &&& forall|j: int| 0 <= j < k ==> !on_monitor(#[trigger] monitors@[j], x as int, y as int)
            &&& ox == x - m.0
            &&& oy == y - m.1
            &&& cw == if w < m.2 - ox { w as int } else { m.2 - ox }
            &&& ch == if h < m.3 - oy { h as int } else { m.3 - oy }
        },
{
    let mut k: usize = 0;
    while k < monitors.len()
        invariant
            k <= monitors@.len(),
            forall|j: int| 0 <= j < monitors@.len() ==> within_desktop(#[trigger] monitors@[j]),
            forall|j: int| 0 <= j < k ==> !on_monitor(#[trigger] monitors@[j], x as int, y as int),
        decreases monitors@.len() - k,
    {
        let (mx, my, mw, mh) = monitors[k];
        assert(within_desktop(monitors@[k as int]));
        if x >= mx && y >= my && x < mx + mw as i32 && y < my + mh as i32 {
            let ox = (x - mx) as u32;
            let oy = (y - my) as u32;
            let cw: u32 = if w < mw - ox {
                w
            } else {
                mw - ox
            };
            let ch: u32 = if h < mh - oy {
                h
            } else {
                mh - oy
            };
            return Ok((k, ox, oy, cw, ch));
        }
        k += 1;
    }
    Err(String::from_str("Selection outside all captured monitors"))
}

/// The preview of a captured monitor, as the user interface shows it: a
/// PNG picture, base64-encoded, in a `data:` URL, and its size and position.
#[derive(Debug, Clone)]
pub struct MonitorInfo {
    pub data_url: String,
    pub width: u32,
    pub height: u32,
    pub x: i32,
    pub y: i32,
}

/// The previews of all captured monitors.
#[derive(Debug)]
pub struct CaptureData {
    pub monitors: Vec<MonitorInfo>,
}

/// The pixels `image::imageops::resize` gives with the nearest-neighbour
/// filter for a picture stored with four bytes per pixel.
pub uninterp spec fn nearest_resized(
    width: u32,
    height: u32,
    rgba: Seq<u8>,
    new_width: u32,
    new_height: u32,
) -> Seq<u8>;

/// What the `image` crate's PNG encoder writes for a picture stored with
/// three bytes per pixel, or the text of its error.
pub uninterp spec fn png_encoding(width: u32, height: u32, rgb: Seq<u8>) -> Result<
    Seq<u8>,
    Seq<char>,
>;

/// Resizes a picture stored with four bytes per pixel.
///
/// Trusted: calls `image::imageops::resize` with `FilterType::Nearest` on the
/// picture (which `RgbaImage::from_raw` accepts, the bytes being exactly four
/// per pixel). The result is named by [`nearest_resized`]; the crate's source
/// builds it as a buffer of the new size, hence four bytes per new pixel. On
/// the way it holds the picture as 32-bit floats, four per pixel, a buffer
/// that must fit in memory: for a picture no larger than the original, one
/// of sixteen bytes per original pixel at most.
#[verifier::external_body]
fn resize_nearest(width: u32, height: u32, rgba: &[u8], new_width: u32, new_height: u32) -> (out:
    Vec<u8>)
    requires
        rgba@.len() == width as int * height as int * 4,
        new_width <= width,
        new_height <= height,
        width as int * height as int * 16 <= isize::MAX,
    ensures
        out@ == nearest_resized(width, height, rgba@, new_width, new_height),
        out@.len() == new_width as int * new_height as int * 4,
{
    let img = image::RgbaImage::from_raw(width, height, rgba.to_vec()).expect("four bytes a pixel");
    image::imageops::resize(&img, new_width, new_height, image::imageops::FilterType::Nearest)
        .into_raw()
}

/// Encodes a picture stored with three bytes per pixel as PNG.
///
/// Trusted: calls `ImageEncoder::write_image` of `image::codecs::png::PngEncoder`
/// with `ExtendedColorType::Rgb8` (which panics unless there are exactly
/// three bytes per pixel, as required) writing into a vector; the bytes
/// written, or the error's text, are named by [`png_encoding`]. The bytes are
/// held in a `Vec`, which never holds more than `isize::MAX` bytes.
#[verifier::external_body]
fn encode_png(width: u32, height: u32, rgb: &[u8]) -> (r: Result<Vec<u8>, String>)
    requires
        rgb@.len() == width as int * height as int * 3,
    ensures
        match r {
            Ok(v) => png_encoding(width, height, rgb@) == Ok::<Seq<u8>, Seq<char>>(v@) && v@.len()
                <= isize::MAX,
            Err(e) => png_encoding(width, height, rgb@) == Err::<Seq<u8>, Seq<char>>(e@),
        },
{
    let mut buf: Vec<u8> = Vec::new();
    let encoder = image::codecs::png::PngEncoder::new(&mut buf);
    match image::ImageEncoder::write_image(encoder, rgb, width, height, image::ExtendedColorType::Rgb8) {
        Ok(()) => Ok(buf),
        Err(e) => Err(e.to_string()),
    }
}

/// The base64 digit for a value below 64 (standard alphabet).
pub open spec fn base64_digit(v: int) -> char {
    if v < 26 {
        (65 + v) as char
    } else if v < 52 {
        (97 + v - 26) as char
    } else if v < 62 {
        (48 + v - 52) as char
    } else if v == 62 {
        '+'
    } else {
        '/'
    }
}

/// Standard base64 with padding (RFC 4648, section 4): every three bytes
/// become four digits of six bits each; a last group of one or two bytes
/// gives two or three digits and is padded with `=` to four.
pub open spec fn base64_standard(b: Seq<u8>) -> Seq<char>
    decreases b.len(),
{
    let b0 = if b.len() > 0 {
        b[0] as int
    } else {
        0
    };
    let b1 = if b.len() > 1 {
        b[1] as int
    } else {
        0
    };
    let b2 = if b.len() > 2 {
        b[2] as int
    } else {
        0
    };
    if b.len() == 0 {
        Seq::empty()
    } else if b.len() == 1 {
        seq![base64_digit(b0 / 4), base64_digit((b0 % 4) * 16), '=', '=']
    } else if b.len() == 2 {
        seq![
            base64_digit(b0 / 4),
            base64_digit((b0 % 4) * 16 + b1 / 16),
            base64_digit((b1 % 16) * 4),
            '=',
        ]
    } else {
        seq![
            base64_digit(b0 / 4),
            base64_digit((b0 % 4) * 16 + b1 / 16),
            base64_digit((b1 % 16) * 4 + b2 / 64),
            base64_digit(b2 % 64),
        ] + base64_standard(b.skip(3))
    }
}

/// Encodes bytes in standard base64.
///
/// Trusted: calls `Engine::encode` of `base64::engine::general_purpose::STANDARD`
/// (standard alphabet, with padding), which gives [`base64_standard`]. It
/// panics only when the encoded length overflows `usize`, which the bound
/// rules out.
#[verifier::external_body]
fn base64_encode(bytes: &[u8]) -> (s: String)
    requires
        bytes@.len() <= isize::MAX,
    ensures
        s@ == base64_standard(bytes@),
{
    base64::Engine::encode(&base64::engine::general_purpose::STANDARD, bytes)
}

/// The preview picture of a monitor: halved in each direction with the
/// nearest-neighbour filter, without alpha, PNG-encoded.
pub open spec fn preview_png(width: u32, height: u32, rgba: Seq<u8>) -> Result<Seq<u8>, Seq<char>> {
    png_encoding(
        width / 2,
        height / 2,
        drop_alpha(nearest_resized(width, height, rgba, width / 2, height / 2)),
    )
}

/// The preview of a captured monitor at (`x`, `y`) whose picture is stored
/// with four bytes per pixel (see [`preview_png`]): the PNG as a base64
/// `data:` URL, and the halved size.
pub fn monitor_preview(x: i32, y: i32, width: u32, height: u32, rgba: &[u8]) -> (r: Result<
    MonitorInfo,
    String,
>)
    requires
        rgba@.len() == width as int * height as int * 4,
        width as int * height as int * 16 <= isize::MAX,
    ensures
        r is Ok <==> preview_png(width, height, rgba@) is Ok,
        r matches Ok(m) ==> preview_png(width, height, rgba@) matches Ok(png) && m.data_url@
            == "data:image/png;base64,"@ + base64_standard(png) && m.width == width / 2 && m.height
            == height / 2 && m.x == x && m.y == y,
        r matches Err(e) ==> preview_png(width, height, rgba@) matches Err(msg) && e@
            == "Failed to encode PNG: "@ + msg,
{
    let sw = width / 2;
    let sh = height / 2;
    let small = resize_nearest(width, height, rgba, sw, sh);
    let small_rgb = rgb_bytes(small.as_slice());
    assert(small_rgb@.len() == sw as int * sh as int * 3) by (nonlinear_arith)
        requires
            small_rgb@.len() == (small@.len() / 4 * 3),
            small@.len() == sw as int * sh as int * 4,
    ;
    match encode_png(sw, sh, small_rgb.as_slice()) {
        Ok(png) => {
            let b64 = base64_encode(png.as_slice());
            let mut data_url = String::from_str("data:image/png;base64,");
            data_url.append(b64.as_str());
            Ok(MonitorInfo { data_url, width: sw, height: sh, x, y })
        },
        Err(e) => {
            let mut msg = String::from_str("Failed to encode PNG: ");
            msg.append(e.as_str());
            Err(msg)
        },
    }
}

} // verus!
