//! A single reveal frame, described without any terminal.
//!
//! This module owns the answer to "what does cell `(x, y)` look like in this
//! frame". Which cells are showing is decided by the ranks and the progress
//! value; given that, every renderer walks a row through [`row`] rather than
//! re-deriving the layout for itself.

use crate::art::{ink_cells_of, ink_mask_of, ink_upto, Art};
use crate::chars::{is_whitespace, spec_is_whitespace};
use crate::text::{push_char, push_chars};
use crate::width::{cols_of, glyph_cols, sat_add};
use vstd::prelude::*;

verus! {

/// How one cell of a frame appears.
///
/// `cols` is the display width the cell occupies either way, so a hidden wide
/// glyph reserves the same columns it will take once revealed.
#[derive(Clone, Copy, Debug, PartialEq, Eq, Structural)]
pub enum Paint {
    /// Background, or ink not yet revealed.
    Blank { cols: u16 },
    /// Revealed ink.
    Ink { glyph: char, cols: u16 },
}

impl Paint {
    /// The display columns a painted cell occupies.
    pub open spec fn spec_cols(self) -> u16 {
        match self {
            Paint::Blank { cols } => cols,
            Paint::Ink { cols, .. } => cols,
        }
    }

    /// Display columns this cell occupies.
    pub fn cols(self) -> (n: u16)
        ensures
            n == self.spec_cols(),
    {
        match self {
            Paint::Blank { cols } => cols,
            Paint::Ink { cols, .. } => cols,
        }
    }

    /// The revealed glyph, if any.
    pub fn glyph(self) -> (g: Option<char>)
        ensures
            g == match self {
                Paint::Ink { glyph, .. } => Some(glyph),
                Paint::Blank { .. } => None,
            },
    {
        match self {
            Paint::Ink { glyph, .. } => Some(glyph),
            Paint::Blank { .. } => None,
        }
    }
}

/// Columns a cell holding `c` occupies: its width, but at least one, so a
/// zero-width glyph still keeps its place in the grid.
pub open spec fn cell_cols(c: char) -> nat {
    if cols_of(c) == 0 {
        1
    } else {
        cols_of(c)
    }
}

/// `(x, y)` is on the grid and marked as showing.
pub open spec fn shown_at(art: Art, shown: Seq<bool>, x: int, y: int) -> bool {
    0 <= x < art.spec_width() && 0 <= y < art.spec_height() && shown[y * art.spec_width() + x]
}

/// How cell `(x, y)` paints when the cells marked in `shown` are revealed.
pub open spec fn paint_at(art: Art, shown: Seq<bool>, x: int, y: int) -> Paint {
    let g = art.glyph_at(x, y);
    let cols = cell_cols(g) as u16;
    if shown_at(art, shown, x, y) {
        Paint::Ink { glyph: g, cols }
    } else {
        Paint::Blank { cols }
    }
}

/// The appearance of cell `(x, y)`, given which cells of the art are showing
/// (`shown` holds one entry per cell, row-major).
pub fn cell(art: &Art, shown: &Vec<bool>, x: u16, y: u16) -> (p: Paint)
    requires
        shown.len() == art.spec_width() * art.spec_height(),
    ensures
        p == paint_at(*art, shown@, x as int, y as int),
        cell_cols(art.glyph_at(x as int, y as int)) <= 3,
{
    let glyph = art.glyph(x, y);
    let g = glyph_cols(glyph);
    let cols = if g == 0 {
        1
    } else {
        g
    };
    let visible = if x < art.width() && y < art.height() {
        proof {
            assert(y * art.spec_width() + x < art.spec_width() * art.spec_height()) by (nonlinear_arith)
                requires
                    x < art.spec_width(),
                    y < art.spec_height(),
            ;
        }
        shown[art.index(x, y)]
    } else {
        false
    };
    if visible {
        Paint::Ink { glyph, cols }
    } else {
        Paint::Blank { cols }
    }
}

/// Display columns of the first `x` cells of row `y`, summed with saturation.
pub open spec fn lead_cols(art: Art, y: int, x: int) -> nat
    decreases x,
{
    if x <= 0 {
        0
    } else {
        sat_add(lead_cols(art, y, x - 1), cell_cols(art.glyph_at(x - 1, y)))
    }
}

/// Walk row `y` of the frame, giving each cell's grid column, the display
/// column it starts at, and how it paints. This is the walk every renderer
/// shares.
pub fn row(art: &Art, shown: &Vec<bool>, y: u16) -> (out: Vec<(u16, u16, Paint)>)
    requires
        shown.len() == art.spec_width() * art.spec_height(),
    ensures
        out.len() == art.spec_width(),
        forall|x: int|
            0 <= x < out.len() ==> #[trigger] out[x] == (
                x as u16,
                lead_cols(*art, y as int, x) as u16,
                paint_at(*art, shown@, x, y as int),
            ),
{
    let mut out: Vec<(u16, u16, Paint)> = Vec::new();
    let mut col: u16 = 0;
    let w = art.width();
    let mut x: u16 = 0;
    while x < w
        invariant
            w == art.spec_width(),
            shown.len() == art.spec_width() * art.spec_height(),
            x <= w,
            out.len() == x,
            col == lead_cols(*art, y as int, x as int),
            forall|i: int|
                0 <= i < x ==> #[trigger] out[i] == (
                    i as u16,
                    lead_cols(*art, y as int, i) as u16,
                    paint_at(*art, shown@, i, y as int),
                ),
        decreases w - x,
    {
        let paint = cell(art, shown, x, y);
        out.push((x, col, paint));
        let c = paint.cols();
        col = if col as u32 + c as u32 > 65535 {
            65535
        } else {
            col + c
        };
        x += 1;
    }
    out
}

/// Display columns of row `y` of the art.
pub open spec fn row_cols(art: Art, y: int) -> nat {
    lead_cols(art, y, art.spec_width() as int)
}

/// The greatest of `row_cols` over the first `n` rows.
pub open spec fn widest(art: Art, n: int) -> nat
    decreases n,
{
    if n <= 0 {
        0
    } else if row_cols(art, n - 1) > widest(art, n - 1) {
        row_cols(art, n - 1)
    } else {
        widest(art, n - 1)
    }
}

/// Display columns the widest row of `art` occupies.
pub fn art_cols(art: &Art) -> (n: u16)
    ensures
        n == widest(*art, art.spec_height() as int),
{
    let h = art.height();
    let w = art.width();
    let mut best: u16 = 0;
    let mut y: u16 = 0;
    while y < h
        invariant
            h == art.spec_height(),
            w == art.spec_width(),
            y <= h,
            best == widest(*art, y as int),
        decreases h - y,
    {
        let mut sum: u16 = 0;
        let mut x: u16 = 0;
        while x < w
            invariant
                w == art.spec_width(),
                x <= w,
                sum == lead_cols(*art, y as int, x as int),
            decreases w - x,
        {
            let g = glyph_cols(art.glyph(x, y));
            let c = if g == 0 {
                1
            } else {
                g
            };
            sum = if sum as u32 + c as u32 > 65535 {
                65535
            } else {
                sum + c
            };
            x += 1;
        }
        if sum > best {
            best = sum;
        }
        y += 1;
    }
    best
}

/// The characters a row of cells prints: each revealed glyph, and spaces
/// across the full width of everything hidden.
pub open spec fn paints_text(p: Seq<Paint>) -> Seq<char>
    decreases p.len(),
{
    if p.len() == 0 {
        Seq::empty()
    } else {
        paints_text(p.drop_last()) + match p.last() {
            Paint::Ink { glyph, .. } => seq![glyph],
            Paint::Blank { cols } => Seq::new(cols as nat, |i: int| ' '),
        }
    }
}

/// `s` without its trailing whitespace.
pub open spec fn trim_end(s: Seq<char>) -> Seq<char>
    decreases s.len(),
{
    if s.len() > 0 && spec_is_whitespace(s.last()) {
        trim_end(s.drop_last())
    } else {
        s
    }
}

/// The paints of row `y`.
pub open spec fn row_paints(art: Art, shown: Seq<bool>, y: int) -> Seq<Paint> {
    Seq::new(art.spec_width() as nat, |x: int| paint_at(art, shown, x, y))
}

/// The text of the first `n` rows of the frame: each row trimmed of trailing
/// blanks and ended by a newline.
pub open spec fn frame_text(art: Art, shown: Seq<bool>, n: int) -> Seq<char>
    decreases n,
{
    if n <= 0 {
        Seq::empty()
    } else {
        frame_text(art, shown, n - 1) + trim_end(paints_text(row_paints(art, shown, n - 1))).push('\n')
    }
}

/// Trailing whitespace removed.
fn trimmed(v: &Vec<char>) -> (out: Vec<char>)
    ensures
        out@ == trim_end(v@),
{
    let mut n = v.len();
    proof {
        assert(v@.take(n as int) =~= v@);
    }
    while n > 0 && is_whitespace(v[n - 1])
        invariant
            n <= v.len(),
            trim_end(v@.take(n as int)) == trim_end(v@),
        decreases n,
    {
        proof {
            assert(v@.take(n as int).drop_last() =~= v@.take(n - 1));
        }
        n -= 1;
    }
    let mut out: Vec<char> = Vec::new();
    let mut i: usize = 0;
    while i < n
        invariant
            i <= n <= v.len(),
            out@ == v@.take(i as int),
        decreases n - i,
    {
        out.push(v[i]);
        proof {
            assert(v@.take(i + 1) =~= v@.take(i as int).push(v@[i as int]));
        }
        i += 1;
    }
    proof {
        assert(trim_end(v@.take(n as int)) == v@.take(n as int));
    }
    out
}

/// The frame as plain text: revealed ink is shown, everything else padded
/// with spaces to the same display width, trailing spaces on each line
/// trimmed, and exactly one line per row of the art.
pub fn to_string(art: &Art, shown: &Vec<bool>) -> (s: String)
    requires
        shown.len() == art.spec_width() * art.spec_height(),
    ensures
        s@ == frame_text(*art, shown@, art.spec_height() as int),
{
    let mut out = String::new();
    let h = art.height();
    let mut y: u16 = 0;
    while y < h
        invariant
            h == art.spec_height(),
            shown.len() == art.spec_width() * art.spec_height(),
            y <= h,
            out@ == frame_text(*art, shown@, y as int),
        decreases h - y,
    {
        let cells = row(art, shown, y);
        let mut line: Vec<char> = Vec::new();
        let mut x: usize = 0;
        let ghost paints = row_paints(*art, shown@, y as int);
        while x < cells.len()
            invariant
                x <= cells.len(),
                cells.len() == art.spec_width(),
                paints == row_paints(*art, shown@, y as int),
                forall|i: int| 0 <= i < cells.len() ==> #[trigger] cells[i].2 == paints[i],
                line@ == paints_text(paints.take(x as int)),
            decreases cells.len() - x,
        {
            proof {
                assert(paints.take(x + 1).drop_last() =~= paints.take(x as int));
            }
            let (_, _, paint) = cells[x];
            match paint {
                Paint::Ink { glyph, .. } => {
                    line.push(glyph);
                    proof {
                        assert(line@ =~= paints_text(paints.take(x as int)) + seq![glyph]);
                    }
                },
                Paint::Blank { cols } => {
                    let ghost before = line@;
                    let mut k: u16 = 0;
                    while k < cols
                        invariant
                            k <= cols,
                            line@ == before + Seq::new(k as nat, |i: int| ' '),
                        decreases cols - k,
                    {
                        line.push(' ');
                        proof {
                            assert(before + Seq::new((k + 1) as nat, |i: int| ' ') =~= (before + Seq::new(
                                k as nat,
                                |i: int| ' ',
                            )).push(' '));
                        }
                        k += 1;
                    }
                },
            }
            x += 1;
        }
        proof {
            assert(paints.take(cells.len() as int) =~= paints);
        }
        let t = trimmed(&line);
        push_chars(&mut out, &t);
        push_char(&mut out, '\n');
        y += 1;
    }
    out
}

/// A cell takes the same columns whether or not it shows, and showing more
/// cells never hides one: revealing changes what a cell prints, never where
/// the row's cells sit.
pub proof fn lemma_reveal_keeps_layout(art: Art, fewer: Seq<bool>, more: Seq<bool>, x: int, y: int)
    requires
        fewer.len() == art.spec_width() * art.spec_height(),
        more.len() == fewer.len(),
        forall|i: int| 0 <= i < fewer.len() && #[trigger] fewer[i] ==> more[i],
    ensures
        paint_at(art, fewer, x, y).spec_cols() == paint_at(art, more, x, y).spec_cols(),
        paint_at(art, fewer, x, y) is Ink ==> paint_at(art, more, x, y) == paint_at(art, fewer, x, y),
{
    if shown_at(art, fewer, x, y) {
        assert(y * art.spec_width() + x < art.spec_width() * art.spec_height()) by (nonlinear_arith)
            requires
                0 <= x < art.spec_width(),
                0 <= y < art.spec_height(),
        ;
    }
}

/// A row of hidden cells prints only spaces.
proof fn lemma_blank_paints(p: Seq<Paint>)
    requires
        forall|i: int| 0 <= i < p.len() ==> #[trigger] p[i] is Blank,
    ensures
        forall|j: int| 0 <= j < paints_text(p).len() ==> #[trigger] paints_text(p)[j] == ' ',
    decreases p.len(),
{
    if p.len() > 0 {
        let d = p.drop_last();
        assert forall|i: int| 0 <= i < d.len() implies #[trigger] d[i] is Blank by {
            assert(d[i] == p[i]);
        }
        lemma_blank_paints(d);
        let tail = match p.last() {
            Paint::Ink { glyph, .. } => seq![glyph],
            Paint::Blank { cols } => Seq::new(cols as nat, |i: int| ' '),
        };
        assert(paints_text(p) == paints_text(d) + tail);
        assert forall|j: int| 0 <= j < paints_text(p).len() implies #[trigger] paints_text(p)[j] == ' ' by {
            if j >= paints_text(d).len() {
                assert(paints_text(p)[j] == tail[j - paints_text(d).len()]);
            } else {
                assert(paints_text(p)[j] == paints_text(d)[j]);
            }
        }
    }
}

/// Trimming a line of spaces leaves nothing.
proof fn lemma_trim_spaces(s: Seq<char>)
    requires
        forall|j: int| 0 <= j < s.len() ==> #[trigger] s[j] == ' ',
    ensures
        trim_end(s) == Seq::<char>::empty(),
    decreases s.len(),
{
    if s.len() > 0 {
        let d = s.drop_last();
        assert forall|j: int| 0 <= j < d.len() implies #[trigger] d[j] == ' ' by {
            assert(d[j] == s[j]);
        }
        lemma_trim_spaces(d);
    } else {
        assert(s =~= Seq::<char>::empty());
    }
}

/// Before anything shows, the frame is one empty line per row.
pub proof fn lemma_nothing_shown(art: Art, shown: Seq<bool>, n: int)
    requires
        0 <= n,
        shown.len() == art.spec_width() * art.spec_height(),
        forall|i: int| 0 <= i < shown.len() ==> !#[trigger] shown[i],
    ensures
        frame_text(art, shown, n) == Seq::new(n as nat, |i: int| '\n'),
    decreases n,
{
    if n > 0 {
        lemma_nothing_shown(art, shown, n - 1);
        let p = row_paints(art, shown, n - 1);
        assert forall|i: int| 0 <= i < p.len() implies #[trigger] p[i] is Blank by {
            if shown_at(art, shown, i, n - 1) {
                assert((n - 1) * art.spec_width() + i < art.spec_width() * art.spec_height()) by (nonlinear_arith)
                    requires
                        0 <= i < art.spec_width(),
                        0 <= n - 1 < art.spec_height(),
                ;
            }
        }
        lemma_blank_paints(p);
        lemma_trim_spaces(paints_text(p));
        assert(frame_text(art, shown, n) =~= Seq::new(n as nat, |i: int| '\n'));
    } else {
        assert(frame_text(art, shown, n) =~= Seq::new(n as nat, |i: int| '\n'));
    }
}

/// The characters of `s` that are not whitespace: what a frame actually
/// draws.
pub open spec fn marks(s: Seq<char>) -> nat
    decreases s.len(),
{
    if s.len() == 0 {
        0
    } else {
        marks(s.drop_last()) + if !spec_is_whitespace(s.last()) {
            1nat
        } else {
            0nat
        }
    }
}

proof fn lemma_marks_concat(a: Seq<char>, b: Seq<char>)
    ensures
        marks(a + b) == marks(a) + marks(b),
    decreases b.len(),
{
    if b.len() > 0 {
        lemma_marks_concat(a, b.drop_last());
        assert((a + b).drop_last() =~= a + b.drop_last());
    } else {
        assert(a + b =~= a);
    }
}

proof fn lemma_marks_spaces(n: nat)
    ensures
        marks(Seq::new(n, |i: int| ' ')) == 0,
    decreases n,
{
    assert(spec_is_whitespace(' '));
    if n > 0 {
        lemma_marks_spaces((n - 1) as nat);
        assert(Seq::new(n, |i: int| ' ').drop_last() =~= Seq::new((n - 1) as nat, |i: int| ' '));
    }
}

/// Trimming trailing whitespace removes no mark.
proof fn lemma_marks_trim(s: Seq<char>)
    ensures
        marks(trim_end(s)) == marks(s),
    decreases s.len(),
{
    if s.len() > 0 && spec_is_whitespace(s.last()) {
        lemma_marks_trim(s.drop_last());
    }
}

/// The cells among the first `n` (row-major) that are both showing and ink.
pub open spec fn shown_ink(art: Art, shown: Seq<bool>, n: int) -> nat
    decreases n,
{
    if n <= 0 || art.spec_width() == 0 {
        0
    } else {
        let w = art.spec_width() as int;
        shown_ink(art, shown, n - 1) + if shown[n - 1] && art.ink_at((n - 1) % w, (n - 1) / w) {
            1nat
        } else {
            0nat
        }
    }
}

/// The marks drawn up to cell `x` of row `y` are the showing ink cells
/// before it in reading order.
proof fn lemma_frame_marks(art: Art, shown: Seq<bool>, y: int, x: int)
    requires
        art.spec_width() > 0,
        shown.len() == art.spec_width() * art.spec_height(),
        0 <= x <= art.spec_width(),
        0 <= y < art.spec_height() || (y == art.spec_height() && x == 0),
    ensures
        marks(frame_text(art, shown, y)) + marks(paints_text(row_paints(art, shown, y).take(x))) == shown_ink(
            art,
            shown,
            y * art.spec_width() + x,
        ),
    decreases y, x,
{
    let w = art.spec_width() as int;
    let h = art.spec_height() as int;
    if x > 0 {
        lemma_frame_marks(art, shown, y, x - 1);
        let p = row_paints(art, shown, y);
        let c = p[x - 1];
        let tail = match c {
            Paint::Ink { glyph, .. } => seq![glyph],
            Paint::Blank { cols } => Seq::new(cols as nat, |i: int| ' '),
        };
        assert(p.take(x).drop_last() =~= p.take(x - 1));
        assert(p.take(x).last() == c);
        assert(paints_text(p.take(x)) == paints_text(p.take(x - 1)) + tail);
        lemma_marks_concat(paints_text(p.take(x - 1)), tail);
        crate::grid::lemma_cell(w, x - 1, y);
        assert(y * w + x - 1 < w * h) by (nonlinear_arith)
            requires
                0 <= x - 1 < w,
                0 <= y < h,
        ;
        let g = art.glyph_at(x - 1, y);
        if shown[y * w + x - 1] {
            assert(shown_at(art, shown, x - 1, y));
            assert(c is Ink && c->glyph == g);
            assert(tail =~= seq![g]);
            assert(tail.drop_last() =~= Seq::<char>::empty());
            assert(marks(Seq::<char>::empty()) == 0);
            assert(marks(tail) == if art.ink_at(x - 1, y) { 1nat } else { 0nat });
        } else {
            lemma_marks_spaces(c.spec_cols() as nat);
            assert(tail =~= Seq::new(c.spec_cols() as nat, |i: int| ' '));
        }
    } else if y > 0 {
        lemma_frame_marks(art, shown, y - 1, w);
        let p = row_paints(art, shown, y - 1);
        assert(p.take(w) =~= p);
        assert(row_paints(art, shown, y).take(0) =~= Seq::<Paint>::empty());
        lemma_marks_trim(paints_text(p));
        let line = trim_end(paints_text(p));
        assert(line.push('\n').drop_last() =~= line);
        assert(spec_is_whitespace('\n'));
        lemma_marks_concat(frame_text(art, shown, y - 1), line.push('\n'));
        assert((y - 1) * w + w == y * w) by (nonlinear_arith);
        assert(x == 0);
    } else {
        assert(row_paints(art, shown, y).take(0) =~= Seq::<Paint>::empty());
        assert(y * w + x == 0) by (nonlinear_arith)
            requires
                x == 0,
                y == 0,
        ;
    }
}

/// A canvas with no columns draws nothing.
proof fn lemma_narrow_marks(art: Art, shown: Seq<bool>, n: int)
    requires
        art.spec_width() == 0,
        0 <= n,
    ensures
        marks(frame_text(art, shown, n)) == 0,
    decreases n,
{
    if n > 0 {
        lemma_narrow_marks(art, shown, n - 1);
        let p = row_paints(art, shown, n - 1);
        assert(p =~= Seq::<Paint>::empty());
        let line = trim_end(paints_text(p));
        assert(line =~= Seq::<char>::empty());
        assert(line.push('\n').drop_last() =~= line);
        assert(spec_is_whitespace('\n'));
        assert(marks(line) == 0);
        assert(marks(line.push('\n')) == 0);
        assert(frame_text(art, shown, n) == frame_text(art, shown, n - 1) + line.push('\n'));
        lemma_marks_concat(frame_text(art, shown, n - 1), line.push('\n'));
    }
}

/// A frame draws one mark per showing ink cell.
pub proof fn lemma_frame_draws_shown_ink(art: Art, shown: Seq<bool>)
    requires
        shown.len() == art.spec_width() * art.spec_height(),
    ensures
        marks(frame_text(art, shown, art.spec_height() as int)) == shown_ink(
            art,
            shown,
            art.spec_width() * art.spec_height(),
        ),
{
    if art.spec_width() == 0 {
        lemma_narrow_marks(art, shown, art.spec_height() as int);
    } else {
        lemma_frame_marks(art, shown, art.spec_height() as int, 0);
        assert(row_paints(art, shown, art.spec_height() as int).take(0) =~= Seq::<Paint>::empty());
        assert(art.spec_height() * art.spec_width() == art.spec_width() * art.spec_height()) by (nonlinear_arith);
    }
}

proof fn lemma_shown_ink_grows(art: Art, fewer: Seq<bool>, more: Seq<bool>, n: int)
    requires
        n <= fewer.len(),
        fewer.len() == more.len(),
        forall|i: int| 0 <= i < fewer.len() && #[trigger] fewer[i] ==> more[i],
    ensures
        shown_ink(art, fewer, n) <= shown_ink(art, more, n),
    decreases n,
{
    if n > 0 {
        lemma_shown_ink_grows(art, fewer, more, n - 1);
    }
}

proof fn lemma_shown_ink_all(art: Art, n: int)
    requires
        0 <= n <= art.spec_width() * art.spec_height(),
    ensures
        shown_ink(art, ink_mask_of(art), n) == ink_upto(art, n).len(),
    decreases n,
{
    if n > 0 && art.spec_width() > 0 {
        lemma_shown_ink_all(art, n - 1);
    }
}

proof fn lemma_shown_ink_none(art: Art, shown: Seq<bool>, n: int)
    requires
        n <= shown.len(),
        forall|i: int| 0 <= i < shown.len() ==> !#[trigger] shown[i],
    ensures
        shown_ink(art, shown, n) == 0,
    decreases n,
{
    if n > 0 {
        lemma_shown_ink_none(art, shown, n - 1);
    }
}

/// Before anything shows, the frame draws nothing.
pub proof fn lemma_nothing_drawn(art: Art, shown: Seq<bool>)
    requires
        shown.len() == art.spec_width() * art.spec_height(),
        forall|i: int| 0 <= i < shown.len() ==> !#[trigger] shown[i],
    ensures
        marks(frame_text(art, shown, art.spec_height() as int)) == 0,
{
    lemma_frame_draws_shown_ink(art, shown);
    lemma_shown_ink_none(art, shown, art.spec_width() * art.spec_height());
}

/// Showing more cells never draws less: the reveal never runs backwards.
pub proof fn lemma_reveal_grows(art: Art, fewer: Seq<bool>, more: Seq<bool>)
    requires
        fewer.len() == art.spec_width() * art.spec_height(),
        more.len() == fewer.len(),
        forall|i: int| 0 <= i < fewer.len() && #[trigger] fewer[i] ==> more[i],
    ensures
        marks(frame_text(art, fewer, art.spec_height() as int)) <= marks(
            frame_text(art, more, art.spec_height() as int),
        ),
{
    lemma_frame_draws_shown_ink(art, fewer);
    lemma_frame_draws_shown_ink(art, more);
    lemma_shown_ink_grows(art, fewer, more, art.spec_width() * art.spec_height());
}

/// With every ink cell showing, the frame draws exactly one mark per ink
/// cell: the whole picture and nothing else.
pub proof fn lemma_everything_shown(art: Art)
    ensures
        marks(frame_text(art, ink_mask_of(art), art.spec_height() as int)) == ink_cells_of(art).len(),
{
    lemma_frame_draws_shown_ink(art, ink_mask_of(art));
    lemma_shown_ink_all(art, art.spec_width() * art.spec_height());
}

} // verus!
