//! How many terminal columns a glyph occupies.
//!
//! Every renderer measures cells through [`glyph_cols`], so a hidden cell
//! reserves exactly as many columns as the glyph will need once it appears.
//! That keeps a row from shifting sideways as the reveal crosses a wide glyph.

use crate::chars::{is_control, spec_is_control};
use crate::text::{chars_of, push_char};
use vstd::prelude::*;

verus! {

/// The display width unicode-width assigns to `c`: `None` for a control
/// character, otherwise its East Asian width in columns.
pub uninterp spec fn char_width(c: char) -> Option<usize>;

/// `UnicodeWidthChar::width` from the unicode-width crate. Its source returns
/// `Some(1)` for U+0020 to U+007E, `None` below U+0020 and from U+007F to
/// U+009F, and from its width table (at most 3) everywhere else; the table
/// itself is left unstated and named by `char_width`.
#[verifier::external_body]
fn unicode_width_of(c: char) -> (w: Option<usize>)
    ensures
        w == char_width(c),
        0x20 <= c as u32 <= 0x7E ==> w == Some(1usize),
        (c as u32) < 0x20 || 0x7F <= c as u32 <= 0x9F ==> w is None,
        c as u32 >= 0xA0 ==> w is Some && w->0 <= 3,
{
    unicode_width::UnicodeWidthChar::width(c)
}

/// Display columns of `c`: its width, or `0` for a control character.
pub open spec fn cols_of(c: char) -> nat {
    match char_width(c) {
        Some(w) => w as nat,
        None => 0,
    }
}

/// Display columns a glyph occupies: `0` for control characters and
/// zero-width marks, `2` for wide glyphs (CJK and many emoji), `1` for
/// printable ASCII.
pub fn glyph_cols(c: char) -> (n: u16)
    ensures
        n == cols_of(c),
        n <= 3,
        0x20 <= c as u32 <= 0x7E ==> n == 1,
{
    match unicode_width_of(c) {
        Some(w) => w as u16,
        None => 0,
    }
}

/// `a + b`, capped at `u16::MAX`.
pub open spec fn sat_add(a: nat, b: nat) -> nat {
    if a + b > 65535 {
        65535
    } else {
        a + b
    }
}

/// Display columns of a character sequence, summed with saturation.
pub open spec fn seq_cols(s: Seq<char>) -> nat
    decreases s.len(),
{
    if s.len() == 0 {
        0
    } else {
        sat_add(seq_cols(s.drop_last()), cols_of(s.last()))
    }
}

/// Total display columns of a string, saturating at `u16::MAX`.
pub fn str_cols(s: &str) -> (n: u16)
    ensures
        n == seq_cols(s@),
{
    let v = chars_of(s);
    let mut n: u16 = 0;
    let mut i: usize = 0;
    while i < v.len()
        invariant
            i <= v.len(),
            v@ == s@,
            n == seq_cols(v@.take(i as int)),
        decreases v.len() - i,
    {
        proof {
            assert(v@.take(i + 1).drop_last() =~= v@.take(i as int));
        }
        let w = glyph_cols(v[i]);
        n = if n as u32 + w as u32 > 65535 {
            65535
        } else {
            n + w
        };
        i += 1;
    }
    proof {
        assert(v@.take(v.len() as int) =~= v@);
    }
    n
}

/// Display columns of a character sequence, unbounded.
pub open spec fn cols_sum(s: Seq<char>) -> nat
    decreases s.len(),
{
    if s.len() == 0 {
        0
    } else {
        cols_sum(s.drop_last()) + cols_of(s.last())
    }
}

/// The longest prefix of `s` that fits in `max` columns: the prefix of length
/// `k` is kept exactly when it fits and either is all of `s` or one more
/// glyph would not fit.
pub open spec fn fits_prefix(s: Seq<char>, max: nat, k: int) -> bool {
    &&& 0 <= k <= s.len()
    &&& cols_sum(s.take(k)) <= max
    &&& k < s.len() ==> cols_sum(s.take(k + 1)) > max
}

/// Truncate `s` to at most `max` display columns, dropping whole glyphs so a
/// wide glyph is never split across the edge.
pub fn truncate_to_cols(s: &str, max: u16) -> (out: String)
    ensures
        exists|k: int| #[trigger] fits_prefix(s@, max as nat, k) && out@ == s@.take(k),
{
    let v = chars_of(s);
    let mut out = String::new();
    let mut used: u32 = 0;
    let mut i: usize = 0;
    while i < v.len()
        invariant_except_break
            i <= v.len(),
            v@ == s@,
            out@ == v@.take(i as int),
            used == cols_sum(v@.take(i as int)),
            used <= max,
        ensures
            i <= v.len(),
            out@ == v@.take(i as int),
            fits_prefix(v@, max as nat, i as int),
        decreases v.len() - i,
    {
        proof {
            assert(v@.take(i + 1).drop_last() =~= v@.take(i as int));
        }
        let w = glyph_cols(v[i]);
        if used + w as u32 > max as u32 {
            break;
        }
        push_char(&mut out, v[i]);
        proof {
            assert(v@.take(i + 1) =~= v@.take(i as int).push(v@[i as int]));
        }
        used = used + w as u32;
        i += 1;
    }
    proof {
        assert(fits_prefix(s@, max as nat, i as int));
    }
    out
}

/// `c` with control characters replaced by a space.
pub open spec fn neutral(c: char) -> char {
    if spec_is_control(c) {
        ' '
    } else {
        c
    }
}

/// Replace control characters with spaces.
///
/// Captions arrive from anywhere, and a control character costs no display
/// columns but can move the cursor or repaint the screen. Each one becomes a
/// space, so the caption keeps its length and alignment.
pub fn sanitize(s: &str) -> (out: String)
    ensures
        out@ == s@.map_values(|c: char| neutral(c)),
        out@.len() == s@.len(),
        forall|i: int| 0 <= i < out@.len() ==> !spec_is_control(#[trigger] out@[i]),
{
    let v = chars_of(s);
    let mut out = String::new();
    let mut i: usize = 0;
    while i < v.len()
        invariant
            i <= v.len(),
            v@ == s@,
            out@ == v@.take(i as int).map_values(|c: char| neutral(c)),
        decreases v.len() - i,
    {
        let c = v[i];
        let d = if is_control(c) {
            ' '
        } else {
            c
        };
        push_char(&mut out, d);
        proof {
            assert(v@.take(i + 1).map_values(|c: char| neutral(c)) =~= v@.take(i as int).map_values(
                |c: char| neutral(c),
            ).push(d));
        }
        i += 1;
    }
    proof {
        assert(v@.take(v.len() as int) =~= v@);
    }
    out
}

/// Sanitizing twice changes nothing more: a sanitized caption holds no
/// control character left to replace.
pub proof fn lemma_sanitize_idempotent(s: Seq<char>)
    ensures
        s.map_values(|c: char| neutral(c)).map_values(|c: char| neutral(c)) == s.map_values(
            |c: char| neutral(c),
        ),
{
    assert(s.map_values(|c: char| neutral(c)).map_values(|c: char| neutral(c)) =~= s.map_values(
        |c: char| neutral(c),
    ));
}

/// Display columns over prefixes only grow.
proof fn lemma_cols_sum_prefix(s: Seq<char>, a: int, b: int)
    requires
        0 <= a <= b <= s.len(),
    ensures
        cols_sum(s.take(a)) <= cols_sum(s.take(b)),
    decreases b - a,
{
    if a < b {
        lemma_cols_sum_prefix(s, a, b - 1);
        assert(s.take(b).drop_last() =~= s.take(b - 1));
    }
}

/// Truncation is determined: exactly one prefix length fits a column budget,
/// so the same caption and budget always keep the same glyphs.
pub proof fn lemma_fits_prefix_unique(s: Seq<char>, max: nat, k1: int, k2: int)
    requires
        fits_prefix(s, max, k1),
        fits_prefix(s, max, k2),
    ensures
        k1 == k2,
{
    if k1 < k2 {
        lemma_cols_sum_prefix(s, k1 + 1, k2);
    } else if k2 < k1 {
        lemma_cols_sum_prefix(s, k2 + 1, k1);
    }
}

} // verus!
