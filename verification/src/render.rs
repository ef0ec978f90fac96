//! Terminal rendering: colour depth, foreground escapes, viewport fitting and
//! the shared row writer.
//!
//! The glow itself is a floating-point blend computed by the caller; what is
//! decided here is exact: which colours a terminal can show, which bytes a
//! colour takes, where the art sits, and how a row turns into text.

use crate::art::Art;
use crate::frame::{art_cols, widest, Paint};
use crate::schedule::ascii_lower;
use crate::term::csi;
use crate::text::{chars_of, decimal, push_char, push_decimal};
use vstd::prelude::*;

verus! {

// ---------------------------------------------------------------------------
// Colour depth
// ---------------------------------------------------------------------------

/// How many colours the output can carry.
#[derive(Clone, Copy, Debug, PartialEq, Eq, Structural)]
pub enum ColorDepth {
    /// No colour at all.
    Mono,
    /// The 16 ANSI colours.
    Ansi16,
    /// The 256-colour cube, the default when the terminal does not say
    /// otherwise.
    Ansi256,
    /// 24-bit colour.
    TrueColor,
}

impl Default for ColorDepth {
    fn default() -> (d: ColorDepth)
        ensures
            d == ColorDepth::Ansi256,
    {
        ColorDepth::Ansi256
    }
}

/// How revealed ink is coloured.
#[derive(Clone, Copy, Debug, PartialEq, Eq, Structural)]
pub enum Palette {
    /// A warm frontier glow: a bright head at the leading edge easing into the
    /// settled body colour.
    Glow,
    /// A position-based rainbow.
    Rainbow,
}

impl Default for Palette {
    fn default() -> (p: Palette)
        ensures
            p == Palette::Glow,
    {
        Palette::Glow
    }
}

/// A foreground colour, resolved to whatever the terminal can show.
#[derive(Clone, Copy, Debug, PartialEq, Eq, Structural)]
pub enum Fg {
    /// 24-bit colour.
    Rgb(u8, u8, u8),
    /// An index into the 256-colour palette.
    Indexed(u8),
    /// One of the 16 basic colours.
    Basic(u8),
}

/// The SGR parameter for basic colour `i`: 30 to 37 for the first eight,
/// 90 to 97 for the bright half (indices above 15 count as 15).
pub open spec fn basic_code(i: u8) -> nat {
    if i <= 7 {
        (30 + i) as nat
    } else if i <= 15 {
        (90 + i - 8) as nat
    } else {
        97
    }
}

/// The escape sequence that selects foreground `f`.
pub open spec fn fg_text(f: Fg) -> Seq<char> {
    match f {
        Fg::Rgb(r, g, b) => csi() + seq!['3', '8', ';', '2', ';'] + decimal(r as nat) + seq![';'] + decimal(
            g as nat,
        ) + seq![';'] + decimal(b as nat) + seq!['m'],
        Fg::Indexed(i) => csi() + seq!['3', '8', ';', '5', ';'] + decimal(i as nat) + seq!['m'],
        Fg::Basic(i) => csi() + decimal(basic_code(i)) + seq!['m'],
    }
}

/// The escape that returns the foreground to the terminal's default without
/// disturbing any other attribute.
pub open spec fn reset_text() -> Seq<char> {
    csi() + seq!['3', '9', 'm']
}

/// Appends the escape sequence that selects `f` to `s`.
pub fn push_fg(s: &mut String, f: Fg)
    ensures
        final(s)@ == old(s)@ + fg_text(f),
{
    let ghost start = s@;
    push_char(s, '\u{1b}');
    push_char(s, '[');
    match f {
        Fg::Rgb(r, g, b) => {
            push_char(s, '3');
            push_char(s, '8');
            push_char(s, ';');
            push_char(s, '2');
            push_char(s, ';');
            push_decimal(s, r as u64);
            push_char(s, ';');
            push_decimal(s, g as u64);
            push_char(s, ';');
            push_decimal(s, b as u64);
            push_char(s, 'm');
        },
        Fg::Indexed(i) => {
            push_char(s, '3');
            push_char(s, '8');
            push_char(s, ';');
            push_char(s, '5');
            push_char(s, ';');
            push_decimal(s, i as u64);
            push_char(s, 'm');
        },
        Fg::Basic(i) => {
            let code: u64 = if i <= 7 {
                30 + i as u64
            } else if i <= 15 {
                90 + i as u64 - 8
            } else {
                97
            };
            push_decimal(s, code);
            push_char(s, 'm');
        },
    }
    proof {
        assert(s@ =~= start + fg_text(f));
    }
}

/// Appends the foreground reset to `s`.
pub fn push_reset(s: &mut String)
    ensures
        final(s)@ == old(s)@ + reset_text(),
{
    let ghost start = s@;
    push_char(s, '\u{1b}');
    push_char(s, '[');
    push_char(s, '3');
    push_char(s, '9');
    push_char(s, 'm');
    proof {
        assert(s@ =~= start + reset_text());
    }
}

impl Fg {
    /// The escape sequence that selects this colour.
    pub fn to_string(&self) -> (s: String)
        ensures
            s@ == fg_text(*self),
    {
        let mut s = String::new();
        push_fg(&mut s, *self);
        proof {
            assert(s@ =~= fg_text(*self));
        }
        s
    }
}

/// The escape that returns the foreground to the terminal's default.
pub fn fg_reset() -> (s: String)
    ensures
        s@ == reset_text(),
{
    let mut s = String::new();
    push_reset(&mut s);
    proof {
        assert(s@ =~= reset_text());
    }
    s
}

/// The cube level xterm uses for a channel value.
pub open spec fn cube_step(v: int) -> int {
    if v <= 47 {
        0
    } else if v <= 114 {
        1
    } else if v <= 154 {
        2
    } else if v <= 194 {
        3
    } else if v <= 234 {
        4
    } else {
        5
    }
}

pub open spec fn min3(a: int, b: int, c: int) -> int {
    if a <= b && a <= c {
        a
    } else if b <= c {
        b
    } else {
        c
    }
}

pub open spec fn max3(a: int, b: int, c: int) -> int {
    if a >= b && a >= c {
        a
    } else if b >= c {
        b
    } else {
        c
    }
}

/// Nearest index in the xterm 256-colour palette: the 24-step grey ramp when
/// the channels are within 12 of each other, the 6x6x6 cube otherwise.
pub open spec fn ansi256_index(r: int, g: int, b: int) -> int {
    if max3(r, g, b) - min3(r, g, b) < 12 {
        let raw = (r + g + b) / 3 - 8;
        let level = if raw < 0 {
            0
        } else if raw > 238 {
            238
        } else {
            raw
        };
        232 + level * 23 / 238
    } else {
        16 + 36 * cube_step(r) + 6 * cube_step(g) + cube_step(b)
    }
}

/// How far apart two channel values are.
pub open spec fn gap(a: int, b: int) -> int {
    if a >= b {
        a - b
    } else {
        b - a
    }
}

/// The intensity of step `k` of the 6x6x6 colour cube: 0, 95, 135, 175, 215
/// and 255.
pub open spec fn cube_level(k: int) -> int {
    if k == 0 {
        0
    } else {
        55 + 40 * k
    }
}

/// `k` is a step of the cube whose intensity lies as near to `v` as that of
/// any other step.
pub open spec fn nearest_level(v: int, k: int) -> bool {
    0 <= k < 6 && forall|j: int| 0 <= j < 6 ==> gap(cube_level(k), v) <= #[trigger] gap(cube_level(j), v)
}

proof fn lemma_cube_step_nearest(v: int)
    requires
        0 <= v <= 255,
    ensures
        nearest_level(v, cube_step(v)),
{
    let k = cube_step(v);
    assert forall|j: int| 0 <= j < 6 implies gap(cube_level(k), v) <= #[trigger] gap(cube_level(j), v) by {
        if j == 0 {
        } else if j == 1 {
        } else if j == 2 {
        } else if j == 3 {
        } else if j == 4 {
        } else {
        }
    }
}

/// Which 256-colour palette entry a colour gets: an entry of the grey ramp
/// (232 to 255) exactly when its three channels lie within 12 of each other,
/// and otherwise the cube entry `16 + 36 r + 6 g + b` whose steps `r`, `g`,
/// `b` give the cube intensities nearest to each channel.
pub proof fn lemma_ansi256_palette(r: u8, g: u8, b: u8)
    ensures
        ({
            let i = ansi256_index(r as int, g as int, b as int);
            let neutral = gap(r as int, g as int) < 12 && gap(g as int, b as int) < 12 && gap(r as int, b as int) < 12;
            &&& neutral ==> 232 <= i <= 255
            &&& !neutral ==> exists|kr: int, kg: int, kb: int|
                #![trigger nearest_level(r as int, kr), nearest_level(g as int, kg), nearest_level(b as int, kb)]
                nearest_level(r as int, kr) && nearest_level(g as int, kg) && nearest_level(b as int, kb) && i == 16
                    + 36 * kr + 6 * kg + kb
        }),
{
    let (ri, gi, bi) = (r as int, g as int, b as int);
    let neutral = gap(ri, gi) < 12 && gap(gi, bi) < 12 && gap(ri, bi) < 12;
    assert(neutral == (max3(ri, gi, bi) - min3(ri, gi, bi) < 12));
    if neutral {
        let raw = (ri + gi + bi) / 3 - 8;
        let level = if raw < 0 {
            0
        } else if raw > 238 {
            238
        } else {
            raw
        };
        assert(0 <= level * 23 / 238 <= 23) by (nonlinear_arith)
            requires
                0 <= level <= 238,
        ;
    } else {
        lemma_cube_step_nearest(ri);
        lemma_cube_step_nearest(gi);
        lemma_cube_step_nearest(bi);
        assert(nearest_level(ri, cube_step(ri)) && nearest_level(gi, cube_step(gi)) && nearest_level(bi, cube_step(bi)));
    }
}

/// Among near-neutral colours, a brighter grey never gets a darker entry of
/// the grey ramp: the entry grows with the sum of the channels.
pub proof fn lemma_grey_ramp_ordered(r1: u8, g1: u8, b1: u8, r2: u8, g2: u8, b2: u8)
    requires
        max3(r1 as int, g1 as int, b1 as int) - min3(r1 as int, g1 as int, b1 as int) < 12,
        max3(r2 as int, g2 as int, b2 as int) - min3(r2 as int, g2 as int, b2 as int) < 12,
        r1 + g1 + b1 <= r2 + g2 + b2,
    ensures
        ansi256_index(r1 as int, g1 as int, b1 as int) <= ansi256_index(r2 as int, g2 as int, b2 as int),
{
    let s1 = r1 + g1 + b1;
    let s2 = r2 + g2 + b2;
    assert(s1 / 3 <= s2 / 3) by (nonlinear_arith)
        requires
            0 <= s1 <= s2,
    ;
    let raw1 = s1 / 3 - 8;
    let raw2 = s2 / 3 - 8;
    let l1 = if raw1 < 0 {
        0
    } else if raw1 > 238 {
        238
    } else {
        raw1
    };
    let l2 = if raw2 < 0 {
        0
    } else if raw2 > 238 {
        238
    } else {
        raw2
    };
    assert(l1 <= l2);
    assert(l1 * 23 / 238 <= l2 * 23 / 238) by (nonlinear_arith)
        requires
            0 <= l1 <= l2,
    ;
}

fn cube(v: u8) -> (s: u8)
    ensures
        s == cube_step(v as int),
{
    if v <= 47 {
        0
    } else if v <= 114 {
        1
    } else if v <= 154 {
        2
    } else if v <= 194 {
        3
    } else if v <= 234 {
        4
    } else {
        5
    }
}

/// Nearest index in the xterm 256-colour palette.
pub fn ansi256(r: u8, g: u8, b: u8) -> (i: u8)
    ensures
        i == ansi256_index(r as int, g as int, b as int),
        16 <= i,
{
    let lo: i32 = if r <= g && r <= b {
        r as i32
    } else if g <= b {
        g as i32
    } else {
        b as i32
    };
    let hi: i32 = if r >= g && r >= b {
        r as i32
    } else if g >= b {
        g as i32
    } else {
        b as i32
    };
    if hi - lo < 12 {
        let raw: i32 = (r as i32 + g as i32 + b as i32) / 3 - 8;
        let level: i32 = if raw < 0 {
            0
        } else if raw > 238 {
            238
        } else {
            raw
        };
        proof {
            assert(0 <= level * 23 / 238 <= 23) by (nonlinear_arith)
                requires
                    0 <= level <= 238,
            ;
        }
        return (232 + level * 23 / 238) as u8;
    }
    16 + 36 * cube(r) + 6 * cube(g) + cube(b)
}

/// The 16 ANSI colours as RGB.
pub open spec fn palette16(i: int) -> (int, int, int) {
    if i == 0 {
        (0, 0, 0)
    } else if i == 1 {
        (128, 0, 0)
    } else if i == 2 {
        (0, 128, 0)
    } else if i == 3 {
        (128, 128, 0)
    } else if i == 4 {
        (0, 0, 128)
    } else if i == 5 {
        (128, 0, 128)
    } else if i == 6 {
        (0, 128, 128)
    } else if i == 7 {
        (192, 192, 192)
    } else if i == 8 {
        (128, 128, 128)
    } else if i == 9 {
        (255, 0, 0)
    } else if i == 10 {
        (0, 255, 0)
    } else if i == 11 {
        (255, 255, 0)
    } else if i == 12 {
        (0, 0, 255)
    } else if i == 13 {
        (255, 0, 255)
    } else if i == 14 {
        (0, 255, 255)
    } else {
        (255, 255, 255)
    }
}

/// Squared RGB distance from palette colour `i` to `(r, g, b)`.
pub open spec fn dist16(i: int, r: int, g: int, b: int) -> int {
    let (pr, pg, pb) = palette16(i);
    (pr - r) * (pr - r) + (pg - g) * (pg - g) + (pb - b) * (pb - b)
}

fn palette_entry(i: u8) -> (c: (i32, i32, i32))
    requires
        i < 16,
    ensures
        (c.0 as int, c.1 as int, c.2 as int) == palette16(i as int),
{
    match i {
        0 => (0, 0, 0),
        1 => (128, 0, 0),
        2 => (0, 128, 0),
        3 => (128, 128, 0),
        4 => (0, 0, 128),
        5 => (128, 0, 128),
        6 => (0, 128, 128),
        7 => (192, 192, 192),
        8 => (128, 128, 128),
        9 => (255, 0, 0),
        10 => (0, 255, 0),
        11 => (255, 255, 0),
        12 => (0, 0, 255),
        13 => (255, 0, 255),
        14 => (0, 255, 255),
        _ => (255, 255, 255),
    }
}

/// `i` is the nearest of the 16 ANSI colours to `(r, g, b)`, the first of
/// them on a tie.
pub open spec fn nearest16(i: int, r: int, g: int, b: int) -> bool {
    &&& 0 <= i < 16
    &&& forall|j: int| 0 <= j < 16 ==> dist16(i, r, g, b) <= dist16(j, r, g, b)
    &&& forall|j: int| 0 <= j < i ==> dist16(i, r, g, b) < dist16(j, r, g, b)
}

/// There is only one nearest colour.
pub proof fn lemma_nearest16_unique(a: int, c: int, r: int, g: int, b: int)
    requires
        nearest16(a, r, g, b),
        nearest16(c, r, g, b),
    ensures
        a == c,
{
    if a < c {
        assert(dist16(c, r, g, b) < dist16(a, r, g, b));
        assert(dist16(a, r, g, b) <= dist16(c, r, g, b));
    } else if c < a {
        assert(dist16(a, r, g, b) < dist16(c, r, g, b));
        assert(dist16(c, r, g, b) <= dist16(a, r, g, b));
    }
}

/// Nearest of the 16 ANSI colours by squared distance in RGB, the first of
/// them on a tie.
pub fn ansi16(r: u8, g: u8, b: u8) -> (i: u8)
    ensures
        nearest16(i as int, r as int, g as int, b as int),
{
    let mut best: u8 = 0;
    let mut best_d: i32 = 0;
    let mut k: u8 = 0;
    while k < 16
        invariant
            k <= 16,
            best < 16,
            k > 0 ==> best < k,
            k > 0 ==> best_d == dist16(best as int, r as int, g as int, b as int),
            forall|j: int| 0 <= j < k ==> dist16(best as int, r as int, g as int, b as int) <= dist16(j, r as int, g as int, b as int),
            forall|j: int| 0 <= j < best ==> dist16(best as int, r as int, g as int, b as int) < dist16(j, r as int, g as int, b as int),
        decreases 16 - k,
    {
        let (pr, pg, pb) = palette_entry(k);
        let dr = pr - r as i32;
        let dg = pg - g as i32;
        let db = pb - b as i32;
        proof {
            assert(dr * dr <= 65025 && dg * dg <= 65025 && db * db <= 65025) by (nonlinear_arith)
                requires
                    -255 <= dr <= 255,
                    -255 <= dg <= 255,
                    -255 <= db <= 255,
            ;
            assert(dr * dr >= 0 && dg * dg >= 0 && db * db >= 0) by (nonlinear_arith);
        }
        let d = dr * dr + dg * dg + db * db;
        if k == 0 || d < best_d {
            best = k;
            best_d = d;
        }
        k += 1;
    }
    best
}

/// The colour `depth` shows for `rgb`.
pub open spec fn quantized(depth: ColorDepth, rgb: (u8, u8, u8)) -> Option<Fg> {
    match depth {
        ColorDepth::Mono => None,
        ColorDepth::TrueColor => Some(Fg::Rgb(rgb.0, rgb.1, rgb.2)),
        ColorDepth::Ansi256 => Some(Fg::Indexed(ansi256_index(rgb.0 as int, rgb.1 as int, rgb.2 as int) as u8)),
        ColorDepth::Ansi16 => Some(
            Fg::Basic(choose|i: u8| #[trigger] nearest16(i as int, rgb.0 as int, rgb.1 as int, rgb.2 as int)),
        ),
    }
}

impl ColorDepth {
    /// True when anything at all should be coloured.
    pub fn is_color(self) -> (b: bool)
        ensures
            b == (self != ColorDepth::Mono),
    {
        match self {
            ColorDepth::Mono => false,
            _ => true,
        }
    }

    /// Map an RGB triple onto the closest colour this depth can show.
    pub fn quantize(self, rgb: (u8, u8, u8)) -> (f: Option<Fg>)
        ensures
            f == quantized(self, rgb),
    {
        let (r, g, b) = rgb;
        match self {
            ColorDepth::Mono => None,
            ColorDepth::TrueColor => Some(Fg::Rgb(r, g, b)),
            ColorDepth::Ansi256 => Some(Fg::Indexed(ansi256(r, g, b))),
            ColorDepth::Ansi16 => {
                let i = ansi16(r, g, b);
                proof {
                    let c = choose|c: u8| #[trigger] nearest16(c as int, r as int, g as int, b as int);
                    lemma_nearest16_unique(c as int, i as int, r as int, g as int, b as int);
                }
                Some(Fg::Basic(i))
            },
        }
    }
}

// ---------------------------------------------------------------------------
// What the terminal advertises
// ---------------------------------------------------------------------------

/// `c` and `t` are the same letter ignoring ASCII case.
pub open spec fn folds_to(c: char, t: char) -> bool {
    ascii_lower(c) == ascii_lower(t)
}

fn fold_eq(c: char, t: char) -> (b: bool)
    ensures
        b == folds_to(c, t),
{
    let lc: u32 = if 'A' <= c && c <= 'Z' {
        c as u32 + 32
    } else {
        c as u32
    };
    let lt: u32 = if 'A' <= t && t <= 'Z' {
        t as u32 + 32
    } else {
        t as u32
    };
    lc == lt
}

/// `s` equals `t` ignoring ASCII case.
pub open spec fn equals_folded(s: Seq<char>, t: Seq<char>) -> bool {
    s.len() == t.len() && forall|j: int| 0 <= j < t.len() ==> folds_to(#[trigger] s[j], t[j])
}

/// `t` occurs in `s` starting at `i`, ignoring ASCII case.
pub open spec fn folded_at(s: Seq<char>, t: Seq<char>, i: int) -> bool {
    0 <= i && i + t.len() <= s.len() && forall|j: int| 0 <= j < t.len() ==> folds_to(#[trigger] s[i + j], t[j])
}

/// `t` occurs in `s`, ignoring ASCII case.
pub open spec fn contains_folded(s: Seq<char>, t: Seq<char>) -> bool {
    exists|i: int| #[trigger] folded_at(s, t, i)
}

fn matches_at(s: &Vec<char>, t: &Vec<char>, i: usize) -> (b: bool)
    requires
        i + t.len() <= s.len(),
    ensures
        b == folded_at(s@, t@, i as int),
{
    let mut j: usize = 0;
    while j < t.len()
        invariant
            i + t.len() <= s.len(),
            j <= t.len(),
            forall|k: int| 0 <= k < j ==> folds_to(#[trigger] s@[i + k], t@[k]),
        decreases t.len() - j,
    {
        if !fold_eq(s[i + j], t[j]) {
            return false;
        }
        j += 1;
    }
    true
}

fn contains_text(s: &Vec<char>, needle: &str) -> (b: bool)
    ensures
        b == contains_folded(s@, needle@),
{
    let t = chars_of(needle);
    if t.len() > s.len() {
        proof {
            assert forall|i: int| !#[trigger] folded_at(s@, t@, i) by {}
        }
        return false;
    }
    let mut i: usize = 0;
    while i <= s.len() - t.len()
        invariant
            t@ == needle@,
            t.len() <= s.len(),
            i <= s.len() - t.len() + 1,
            forall|k: int| 0 <= k < i ==> !#[trigger] folded_at(s@, t@, k),
        decreases s.len() - i,
    {
        if matches_at(s, &t, i) {
            return true;
        }
        i += 1;
    }
    proof {
        assert forall|k: int| !#[trigger] folded_at(s@, t@, k) by {
            if 0 <= k < i {
            }
        }
    }
    false
}

fn equals_text(s: &Vec<char>, word: &str) -> (b: bool)
    ensures
        b == equals_folded(s@, word@),
{
    let t = chars_of(word);
    if t.len() != s.len() {
        return false;
    }
    let r = matches_at(s, &t, 0);
    proof {
        if r {
            assert forall|j: int| 0 <= j < t.len() implies folds_to(#[trigger] s@[j], t@[j]) by {
                assert(s@[0 + j] == s@[j]);
            }
        } else {
            let j = choose|j: int| 0 <= j < t.len() && !folds_to(#[trigger] s@[0 + j], t@[j]);
            assert(s@[0 + j] == s@[j]);
        }
    }
    r
}

/// The depth a terminal advertises through its environment: `NO_COLOR`
/// (set and non-empty), then `TERM=dumb`, then `COLORTERM`, then Windows
/// Terminal (or a Windows console with no `TERM`), then `TERM`, falling back
/// to the 256-colour cube. Names compare ignoring ASCII case.
pub open spec fn advertised_depth(
    no_color: bool,
    term: Seq<char>,
    colorterm: Seq<char>,
    wt_session: bool,
    windows: bool,
) -> ColorDepth {
    if no_color {
        ColorDepth::Mono
    } else if equals_folded(term, "dumb"@) {
        ColorDepth::Mono
    } else if contains_folded(colorterm, "truecolor"@) || contains_folded(colorterm, "24bit"@) {
        ColorDepth::TrueColor
    } else if wt_session || (windows && term.len() == 0) {
        ColorDepth::TrueColor
    } else if contains_folded(term, "256color"@) {
        ColorDepth::Ansi256
    } else if contains_folded(term, "16color"@) || equals_folded(term, "linux"@) {
        ColorDepth::Ansi16
    } else {
        ColorDepth::Ansi256
    }
}

/// `s` with every ASCII capital made small.
pub open spec fn lowered(s: Seq<char>) -> Seq<char> {
    Seq::new(s.len(), |j: int| ascii_lower(s[j]))
}

/// A terminal that allows colour, whose `TERM` is not `dumb` and whose
/// `COLORTERM` names `truecolor` or `24bit` anywhere, in any case, gets 24-bit
/// colour, whatever `TERM` otherwise says and whatever else is set.
pub proof fn lemma_colorterm_truecolor(
    term: Seq<char>,
    colorterm: Seq<char>,
    wt_session: bool,
    windows: bool,
    word: Seq<char>,
    i: int,
)
    requires
        word == "truecolor"@ || word == "24bit"@,
        lowered(term) != lowered("dumb"@),
        0 <= i,
        i + word.len() <= colorterm.len(),
        lowered(colorterm).subrange(i, i + word.len()) == lowered(word),
    ensures
        advertised_depth(false, term, colorterm, wt_session, windows) == ColorDepth::TrueColor,
{
    assert forall|j: int| 0 <= j < word.len() implies folds_to(#[trigger] colorterm[i + j], word[j]) by {
        assert(lowered(colorterm).subrange(i, i + word.len())[j] == lowered(colorterm)[i + j]);
        assert(lowered(word)[j] == ascii_lower(word[j]));
    }
    assert(folded_at(colorterm, word, i));
    assert(contains_folded(colorterm, word));
    if equals_folded(term, "dumb"@) {
        assert(lowered(term) =~= lowered("dumb"@)) by {
            assert forall|j: int| 0 <= j < term.len() implies lowered(term)[j] == lowered("dumb"@)[j] by {
                assert(folds_to(term[j], "dumb"@[j]));
            }
        }
    }
}

/// Colour switched off wins over everything: `NO_COLOR` set, or a `dumb`
/// terminal in any case, gives no colour at all. Otherwise Windows Terminal,
/// or a Windows console with no `TERM`, gets 24-bit colour.
pub proof fn lemma_colour_off_and_windows(
    no_color: bool,
    term: Seq<char>,
    colorterm: Seq<char>,
    wt_session: bool,
    windows: bool,
)
    ensures
        no_color ==> advertised_depth(no_color, term, colorterm, wt_session, windows) == ColorDepth::Mono,
        lowered(term) == lowered("dumb"@) ==> advertised_depth(no_color, term, colorterm, wt_session, windows)
            == ColorDepth::Mono,
        !no_color && lowered(term) != lowered("dumb"@) && (wt_session || (windows && term.len() == 0))
            ==> advertised_depth(no_color, term, colorterm, wt_session, windows) == ColorDepth::TrueColor,
{
    if lowered(term) == lowered("dumb"@) {
        assert(term.len() == lowered(term).len());
        assert(term.len() == "dumb"@.len());
        assert forall|j: int| 0 <= j < "dumb"@.len() implies folds_to(#[trigger] term[j], "dumb"@[j]) by {
            assert(lowered(term)[j] == ascii_lower(term[j]));
            assert(lowered("dumb"@)[j] == ascii_lower("dumb"@[j]));
        }
        assert(equals_folded(term, "dumb"@));
    } else if equals_folded(term, "dumb"@) {
        assert(lowered(term) =~= lowered("dumb"@)) by {
            assert forall|j: int| 0 <= j < term.len() implies lowered(term)[j] == lowered("dumb"@)[j] by {
                assert(folds_to(term[j], "dumb"@[j]));
            }
        }
    }
}

impl ColorDepth {
    /// What a terminal advertises, from its environment: whether `NO_COLOR`
    /// is set to something non-empty, the values of `TERM` and `COLORTERM`
    /// (empty when unset), whether `WT_SESSION` is set, and whether this is
    /// Windows.
    pub fn from_env(no_color: bool, term: &str, colorterm: &str, wt_session: bool, windows: bool) -> (d:
        ColorDepth)
        ensures
            d == advertised_depth(no_color, term@, colorterm@, wt_session, windows),
    {
        let term = chars_of(term);
        let colorterm = chars_of(colorterm);
        if no_color {
            return ColorDepth::Mono;
        }
        if equals_text(&term, "dumb") {
            return ColorDepth::Mono;
        }
        if contains_text(&colorterm, "truecolor") || contains_text(&colorterm, "24bit") {
            return ColorDepth::TrueColor;
        }
        if wt_session || (windows && term.len() == 0) {
            return ColorDepth::TrueColor;
        }
        if contains_text(&term, "256color") {
            return ColorDepth::Ansi256;
        }
        if contains_text(&term, "16color") || equals_text(&term, "linux") {
            return ColorDepth::Ansi16;
        }
        ColorDepth::Ansi256
    }
}

// ---------------------------------------------------------------------------
// Where the art sits
// ---------------------------------------------------------------------------

/// The area available to draw in, in display columns and rows.
#[derive(Clone, Copy, Debug, PartialEq, Eq, Structural)]
pub struct Viewport {
    pub cols: u16,
    pub rows: u16,
}

/// Where a piece of art sits in the viewport, and how much of it is visible.
#[derive(Clone, Copy, Debug, PartialEq, Eq, Structural)]
pub struct Fit {
    pub ox: u16,
    pub oy: u16,
    pub cols: u16,
    pub rows: u16,
}

/// `a - b`, floored at zero.
pub open spec fn sat_sub(a: int, b: int) -> int {
    if a > b {
        a - b
    } else {
        0
    }
}

pub open spec fn min2(a: int, b: int) -> int {
    if a <= b {
        a
    } else {
        b
    }
}

impl Viewport {
    /// Where [`fit`](Viewport::fit) places `art`.
    pub open spec fn fit_spec(&self, art: Art, reserve_rows: u16) -> Fit {
        let art_w = widest(art, art.spec_height() as int) as int;
        let usable = sat_sub(self.rows as int, reserve_rows as int);
        Fit {
            ox: (sat_sub(self.cols as int, art_w) / 2) as u16,
            oy: (sat_sub(usable, art.spec_height() as int) / 2) as u16,
            cols: min2(art_w, self.cols as int) as u16,
            rows: min2(art.spec_height() as int, usable) as u16,
        }
    }

    /// Where to place `art` so it is centred, keeping `reserve_rows` rows
    /// free beneath it, and how much of it fits. Art larger than the viewport
    /// is anchored at the edge and clipped rather than allowed to wrap.
    pub fn fit(&self, art: &Art, reserve_rows: u16) -> (f: Fit)
        ensures
            f == self.fit_spec(*art, reserve_rows),
            f.ox + f.cols <= self.cols,
            f.oy + f.rows <= sat_sub(self.rows as int, reserve_rows as int),
    {
        let art_w = art_cols(art);
        let usable = if self.rows > reserve_rows {
            self.rows - reserve_rows
        } else {
            0
        };
        let h = art.height();
        Fit {
            ox: (if self.cols > art_w {
                self.cols - art_w
            } else {
                0
            }) / 2,
            oy: (if usable > h {
                usable - h
            } else {
                0
            }) / 2,
            cols: if art_w <= self.cols {
                art_w
            } else {
                self.cols
            },
            rows: if h <= usable {
                h
            } else {
                usable
            },
        }
    }
}

// ---------------------------------------------------------------------------
// The shared row writer
// ---------------------------------------------------------------------------

/// The cell starting at display column `at` with `cols` columns ends within
/// `budget`.
pub open spec fn fits_budget(at: u16, cols: u16, budget: u16) -> bool {
    crate::width::sat_add(at as nat, cols as nat) <= budget
}

/// How many leading cells fit the budget: the walk stops at the first that
/// does not.
pub open spec fn clip_len(cells: Seq<(u16, u16, Paint)>, budget: u16, i: int) -> int
    decreases cells.len() - i,
{
    if 0 <= i < cells.len() && fits_budget(cells[i].1, cells[i].2.spec_cols(), budget) {
        clip_len(cells, budget, i + 1)
    } else {
        i
    }
}

/// The first `n` cells with trailing blanks dropped.
pub open spec fn trim_len(cells: Seq<(u16, u16, Paint)>, n: int) -> int
    decreases n,
{
    if n > 0 && cells[n - 1].2 is Blank {
        trim_len(cells, n - 1)
    } else {
        n
    }
}

/// `n` spaces.
pub open spec fn spaces(n: nat) -> Seq<char> {
    Seq::new(n, |i: int| ' ')
}

/// The text of the first `n` cells, and the colour left active after them.
/// A blank drops out of any active colour; an ink cell switches colour only
/// when its colour differs from the active one.
pub open spec fn emit(cells: Seq<(u16, u16, Paint)>, colors: Seq<Option<Fg>>, n: int) -> (Seq<char>, Option<Fg>)
    decreases n,
{
    if n <= 0 {
        (Seq::empty(), None)
    } else {
        let (t, cur) = emit(cells, colors, n - 1);
        let c = cells[n - 1];
        match c.2 {
            Paint::Blank { cols } => (
                (if cur is Some {
                    t + reset_text()
                } else {
                    t
                }) + spaces(cols as nat),
                None,
            ),
            Paint::Ink { glyph, .. } => {
                let col = colors[c.0 as int];
                let t2 = if col != cur {
                    t + match col {
                        Some(f) => fg_text(f),
                        None => reset_text(),
                    }
                } else {
                    t
                };
                (t2.push(glyph), col)
            },
        }
    }
}

/// The bytes of one row of the reveal: the cells that fit `budget`, trailing
/// blanks dropped, colour runs coalesced, and any active colour closed.
pub open spec fn row_text(cells: Seq<(u16, u16, Paint)>, colors: Seq<Option<Fg>>, budget: u16) -> Seq<char> {
    let n = trim_len(cells, clip_len(cells, budget, 0));
    let (t, cur) = emit(cells, colors, n);
    if cur is Some {
        t + reset_text()
    } else {
        t
    }
}

proof fn lemma_clip_len(cells: Seq<(u16, u16, Paint)>, budget: u16, i: int)
    requires
        0 <= i <= cells.len(),
        forall|k: int| 0 <= k < i ==> fits_budget(cells[k].1, cells[k].2.spec_cols(), budget),
    ensures
        clip_len(cells, budget, 0) == clip_len(cells, budget, i),
    decreases i,
{
    if i > 0 {
        lemma_clip_len(cells, budget, i - 1);
    }
}

proof fn lemma_trim_len(cells: Seq<(u16, u16, Paint)>, n: int)
    requires
        0 <= n <= cells.len(),
    ensures
        0 <= trim_len(cells, n) <= n,
    decreases n,
{
    if n > 0 && cells[n - 1].2 is Blank {
        lemma_trim_len(cells, n - 1);
    }
}

fn same_color(a: Option<Fg>, b: Option<Fg>) -> (r: bool)
    ensures
        r == (a == b),
{
    match (a, b) {
        (None, None) => true,
        (Some(x), Some(y)) => x == y,
        _ => false,
    }
}

/// Write a row of the reveal. `cells` is the row's walk (grid column,
/// starting display column, paint), `colors` the colour of each grid column's
/// ink, and `budget` the display columns available. The row is clipped at the
/// budget without ever splitting a wide glyph, trailing blanks are dropped,
/// and runs of one colour share a single escape.
pub fn queue_row(cells: &Vec<(u16, u16, Paint)>, colors: &Vec<Option<Fg>>, budget: u16) -> (s: String)
    requires
        forall|k: int| 0 <= k < cells.len() ==> (#[trigger] cells[k]).0 < colors.len(),
    ensures
        s@ == row_text(cells@, colors@, budget),
{
    let ghost cs = cells@;
    let mut n: usize = 0;
    while n < cells.len()
        invariant_except_break
            cs == cells@,
            n <= cells.len(),
            forall|k: int| 0 <= k < n ==> fits_budget(cs[k].1, cs[k].2.spec_cols(), budget),
        ensures
            cs == cells@,
            n <= cells.len(),
            forall|k: int| 0 <= k < n ==> fits_budget(cs[k].1, cs[k].2.spec_cols(), budget),
            n == cells.len() || !fits_budget(cs[n as int].1, cs[n as int].2.spec_cols(), budget),
        decreases cells.len() - n,
    {
        let (_, at, paint) = cells[n];
        let c = paint.cols();
        let end: u32 = if at as u32 + c as u32 > 65535 {
            65535
        } else {
            at as u32 + c as u32
        };
        if end > budget as u32 {
            break;
        }
        n += 1;
    }
    proof {
        lemma_clip_len(cs, budget, n as int);
    }
    let ghost clipped = n as int;
    while n > 0 && matches!(cells[n - 1].2, Paint::Blank { .. })
        invariant
            cs == cells@,
            n <= cells.len(),
            trim_len(cs, clipped) == trim_len(cs, n as int),
        decreases n,
    {
        n -= 1;
    }
    proof {
        lemma_trim_len(cs, n as int);
    }
    let mut out = String::new();
    let mut current: Option<Fg> = None;
    let mut i: usize = 0;
    while i < n
        invariant
            i <= n <= cells.len(),
            cs == cells@,
            forall|k: int| 0 <= k < cells.len() ==> (#[trigger] cells[k]).0 < colors.len(),
            (out@, current) == emit(cs, colors@, i as int),
        decreases n - i,
    {
        let (x, _, paint) = cells[i];
        match paint {
            Paint::Blank { cols } => {
                if current.is_some() {
                    push_reset(&mut out);
                }
                let ghost before = out@;
                let mut k: u16 = 0;
                while k < cols
                    invariant
                        k <= cols,
                        out@ == before + spaces(k as nat),
                    decreases cols - k,
                {
                    push_char(&mut out, ' ');
                    proof {
                        assert(before + spaces((k + 1) as nat) =~= (before + spaces(k as nat)).push(' '));
                    }
                    k += 1;
                }
                current = None;
            },
            Paint::Ink { glyph, .. } => {
                let color = colors[x as usize];
                if !same_color(color, current) {
                    match color {
                        Some(c) => push_fg(&mut out, c),
                        None => push_reset(&mut out),
                    }
                }
                push_char(&mut out, glyph);
                current = color;
            },
        }
        i += 1;
    }
    if current.is_some() {
        push_reset(&mut out);
    }
    out
}

} // verus!
