//! The immutable art model: a rectangular grid of glyphs.
//!
//! Whitespace is *background* (never revealed); every other glyph is *ink*.
//! Parsing is total: any string yields valid art.

use vstd::prelude::*;

use crate::chars::{is_control, is_whitespace, spec_is_control, spec_is_whitespace};
use crate::text::chars_of;

verus! {

/// The largest canvas either axis can hold. Dimensions are `u16`, so anything
/// past this is cropped rather than silently wrapped around.
pub const MAX_DIM: usize = 65535;

/// Columns a tab advances to the next multiple of.
pub const TAB_WIDTH: usize = 8;

// ---------------------------------------------------------------------------
// What parsing produces
// ---------------------------------------------------------------------------

/// `n` spaces.
pub open spec fn spaces(n: nat) -> Seq<char> {
    Seq::new(n, |i: int| ' ')
}

/// The lines of `t`: the pieces between `'\n'` separators, so a text with `k`
/// separators has `k + 1` lines.
pub open spec fn split_lines(t: Seq<char>) -> Seq<Seq<char>>
    decreases t.len(),
{
    if t.len() == 0 {
        seq![Seq::<char>::empty()]
    } else {
        let rest = split_lines(t.drop_last());
        if t.last() == '\n' {
            rest.push(Seq::<char>::empty())
        } else {
            rest.update(rest.len() - 1, rest.last().push(t.last()))
        }
    }
}

/// A line without its trailing carriage return, if it has one.
pub open spec fn strip_cr(l: Seq<char>) -> Seq<char> {
    if l.len() > 0 && l.last() == '\r' {
        l.drop_last()
    } else {
        l
    }
}

/// A line with tabs expanded to the next multiple of [`TAB_WIDTH`] columns and
/// every other control character replaced by a space.
pub open spec fn expand_tabs_spec(l: Seq<char>) -> Seq<char>
    decreases l.len(),
{
    if l.len() == 0 {
        Seq::empty()
    } else {
        let e = expand_tabs_spec(l.drop_last());
        let c = l.last();
        if c == '\t' {
            e + spaces(((e.len() / 8 + 1) * 8 - e.len()) as nat)
        } else if spec_is_control(c) {
            e.push(' ')
        } else {
            e.push(c)
        }
    }
}

/// The expanded lines of `t`, at most [`MAX_DIM`] of them.
pub open spec fn source_rows(t: Seq<char>) -> Seq<Seq<char>> {
    let ls = split_lines(t);
    let n = if ls.len() <= MAX_DIM {
        ls.len()
    } else {
        MAX_DIM as nat
    };
    Seq::new(n, |i: int| expand_tabs_spec(strip_cr(ls[i])))
}

/// Length of the longest row.
pub open spec fn max_len(rows: Seq<Seq<char>>) -> nat
    decreases rows.len(),
{
    if rows.len() == 0 {
        0
    } else {
        let m = max_len(rows.drop_last());
        if rows.last().len() > m {
            rows.last().len()
        } else {
            m
        }
    }
}

/// `r` cut or padded with spaces to exactly `w` glyphs.
pub open spec fn fit_row(r: Seq<char>, w: nat) -> Seq<char> {
    Seq::new(w, |j: int| if j < r.len() { r[j] } else { ' ' })
}

/// Width of the uncropped canvas: the longest row, at most [`MAX_DIM`].
pub open spec fn canvas_width(t: Seq<char>) -> nat {
    let m = max_len(source_rows(t));
    if m <= MAX_DIM {
        m
    } else {
        MAX_DIM as nat
    }
}

/// The uncropped canvas: every source row fitted to the canvas width.
pub open spec fn canvas(t: Seq<char>) -> Seq<Seq<char>> {
    let rows = source_rows(t);
    Seq::new(rows.len(), |i: int| fit_row(rows[i], canvas_width(t)))
}

/// Smallest `i` in `0..n` with `p(i)`, or `n` when there is none.
pub open spec fn least(p: spec_fn(int) -> bool, n: int) -> int
    decreases n,
{
    if n <= 0 {
        0
    } else {
        let l = least(p, n - 1);
        if l < n - 1 {
            l
        } else if p(n - 1) {
            n - 1
        } else {
            n
        }
    }
}

/// Largest `i` in `0..n` with `p(i)`, or `-1` when there is none.
pub open spec fn greatest(p: spec_fn(int) -> bool, n: int) -> int
    decreases n,
{
    if n <= 0 {
        -1
    } else if p(n - 1) {
        n - 1
    } else {
        greatest(p, n - 1)
    }
}

/// Row `r` of the grid holds ink.
pub open spec fn row_has_ink(g: Seq<Seq<char>>, r: int) -> bool {
    exists|j: int| 0 <= j < g[r].len() && !spec_is_whitespace(#[trigger] g[r][j])
}

/// Column `c` of the grid holds ink in some row.
pub open spec fn col_has_ink(g: Seq<Seq<char>>, c: int) -> bool {
    exists|i: int| 0 <= i < g.len() && !spec_is_whitespace(#[trigger] g[i][c])
}

/// The art `t` parses to: the canvas cropped to the bounding box of its ink,
/// or no rows at all when it holds no ink.
pub open spec fn parsed_rows(t: Seq<char>) -> Seq<Seq<char>> {
    let g = canvas(t);
    let w = canvas_width(t) as int;
    let top = least(|i: int| row_has_ink(g, i), g.len() as int);
    let bottom = greatest(|i: int| row_has_ink(g, i), g.len() as int);
    let left = least(|j: int| col_has_ink(g, j), w);
    let right = greatest(|j: int| col_has_ink(g, j), w);
    if top >= g.len() {
        Seq::empty()
    } else {
        Seq::new((bottom - top + 1) as nat, |i: int| g[top + i].subrange(left, right + 1))
    }
}

/// The width of the art `t` parses to.
pub open spec fn parsed_width(t: Seq<char>) -> nat {
    let g = canvas(t);
    let w = canvas_width(t) as int;
    let top = least(|i: int| row_has_ink(g, i), g.len() as int);
    if top >= g.len() {
        0
    } else {
        (greatest(|j: int| col_has_ink(g, j), w) - least(|j: int| col_has_ink(g, j), w) + 1) as nat
    }
}

// ---------------------------------------------------------------------------
// The art type
// ---------------------------------------------------------------------------

/// A single glyph of the art at a grid position.
#[derive(Clone, Copy, Debug, PartialEq, Eq)]
pub struct Cell {
    pub x: u16,
    pub y: u16,
    pub glyph: char,
}

/// A parsed piece of ASCII art: a space-padded rectangular grid of glyphs.
#[derive(Debug)]
pub struct Art {
    width: u16,
    height: u16,
    rows: Vec<Vec<char>>,
}

/// The characters of each row.
pub open spec fn deep(v: Seq<Vec<char>>) -> Seq<Seq<char>> {
    Seq::new(v.len(), |i: int| v[i]@)
}

impl Art {
    /// The grid is rectangular: `height` rows of `width` glyphs, and a canvas
    /// with no rows has no columns either.
    #[verifier::type_invariant]
    pub closed spec fn inv(self) -> bool {
        &&& self.rows.len() == self.height
        &&& forall|i: int| 0 <= i < self.rows.len() ==> #[trigger] self.rows[i].len() == self.width
        &&& (self.width == 0) == (self.height == 0)
    }

    /// The rows of glyphs, top to bottom.
    pub closed spec fn grid(&self) -> Seq<Seq<char>> {
        deep(self.rows@)
    }

    pub closed spec fn spec_width(&self) -> u16 {
        self.width
    }

    pub closed spec fn spec_height(&self) -> u16 {
        self.height
    }

    /// The glyph at `(x, y)`: a space outside the grid.
    pub open spec fn glyph_at(&self, x: int, y: int) -> char {
        if 0 <= x < self.spec_width() && 0 <= y < self.spec_height() {
            self.grid()[y][x]
        } else {
            ' '
        }
    }

    /// `(x, y)` holds ink.
    pub open spec fn ink_at(&self, x: int, y: int) -> bool {
        !spec_is_whitespace(self.glyph_at(x, y))
    }

    /// The grid's shape agrees with its dimensions.
    pub proof fn lemma_shape(&self)
        requires
            self.inv(),
        ensures
            self.grid().len() == self.spec_height(),
            forall|i: int| 0 <= i < self.spec_height() ==> #[trigger] self.grid()[i].len() == self.spec_width(),
            (self.spec_width() == 0) == (self.spec_height() == 0),
    {
        assert forall|i: int| 0 <= i < self.spec_height() implies #[trigger] self.grid()[i].len()
            == self.spec_width() by {
            assert(self.grid()[i] == self.rows@[i]@);
            assert(self.rows[i].len() == self.width);
        }
    }

    /// Parse text into art.
    ///
    /// Tabs expand to the next 8-column stop, lines are right-padded with spaces
    /// to a common width, and the canvas is then cropped to the bounding box of
    /// the ink, so leading indentation and trailing whitespace never enlarge it.
    /// Interior blank rows and columns are preserved. Anything past [`MAX_DIM`]
    /// on either axis is cropped.
    pub fn parse(text: &str) -> (art: Art)
        ensures
            art.grid() == parsed_rows(text@),
            art.spec_height() == parsed_rows(text@).len(),
            art.spec_width() == parsed_width(text@),
            art.spec_width() <= MAX_DIM && art.spec_height() <= MAX_DIM,
            (art.spec_width() == 0) == (art.spec_height() == 0),
            art.spec_height() > 0 ==> {
                let (w, h) = (art.spec_width() as int, art.spec_height() as int);
                &&& exists|x: int| 0 <= x < w && #[trigger] art.ink_at(x, 0)
                &&& exists|x: int| 0 <= x < w && #[trigger] art.ink_at(x, h - 1)
                &&& exists|y: int| 0 <= y < h && #[trigger] art.ink_at(0, y)
                &&& exists|y: int| 0 <= y < h && #[trigger] art.ink_at(w - 1, y)
            },
    {
        let chars = chars_of(text);
        let lines = split_into_lines(&chars);
        proof {
            lemma_split_nonempty(chars@);
        }
        let rows = expand_lines(&lines);
        let width = max_row_len(&rows);
        let fitted = fit_rows(&rows, width);
        proof {
            assert(deep(rows@) =~= source_rows(text@));
            assert(deep(fitted@) =~= canvas(text@));
            assert(fitted.len() == deep(fitted@).len());
            assert(rows.len() == deep(rows@).len());
        }
        let art = crop(fitted, width, Ghost(text@));
        proof {
            use_type_invariant(&art);
            art.lemma_shape();
            lemma_parse_tight(text@);
            let g = art.grid();
            let (w, h) = (art.spec_width() as int, art.spec_height() as int);
            if h > 0 {
                let a = choose|j: int| 0 <= j < g[0].len() && !spec_is_whitespace(#[trigger] g[0][j]);
                assert(art.ink_at(a, 0));
                let b = choose|j: int| 0 <= j < g[h - 1].len() && !spec_is_whitespace(#[trigger] g[h - 1][j]);
                assert(art.ink_at(b, h - 1));
                let c = choose|i: int| 0 <= i < g.len() && !spec_is_whitespace(#[trigger] g[i][0]);
                assert(art.ink_at(0, c));
                let d = choose|i: int| 0 <= i < g.len() && !spec_is_whitespace(#[trigger] g[i][w - 1]);
                assert(art.ink_at(w - 1, d));
            }
        }
        art
    }
}

/// The ink cells among the first `n` grid positions, in row-major order.
pub open spec fn ink_upto(art: Art, n: int) -> Seq<Cell>
    decreases n,
{
    if n <= 0 || art.spec_width() == 0 {
        Seq::empty()
    } else {
        let prev = ink_upto(art, n - 1);
        let x = (n - 1) % art.spec_width() as int;
        let y = (n - 1) / art.spec_width() as int;
        if art.ink_at(x, y) {
            prev.push(Cell { x: x as u16, y: y as u16, glyph: art.glyph_at(x, y) })
        } else {
            prev
        }
    }
}

/// Every ink cell of the art, in row-major order.
pub open spec fn ink_cells_of(art: Art) -> Seq<Cell> {
    ink_upto(art, art.spec_width() * art.spec_height())
}

/// The ink mask of the art: `true` at the flat index of every ink cell.
pub open spec fn ink_mask_of(art: Art) -> Seq<bool> {
    let w = art.spec_width() as int;
    Seq::new((art.spec_width() * art.spec_height()) as nat, |i: int| art.ink_at(i % w, i / w))
}


/// Every cell listed among the first `n` positions lies on the grid, before
/// position `n`, and holds ink.
pub proof fn lemma_ink_upto_cells(art: Art, n: int)
    requires
        0 <= n <= art.spec_width() * art.spec_height(),
    ensures
        forall|k: int|
            0 <= k < ink_upto(art, n).len() ==> {
                let c = #[trigger] ink_upto(art, n)[k];
                &&& c.x < art.spec_width()
                &&& c.y < art.spec_height()
                &&& c.y * art.spec_width() + c.x < n
                &&& art.ink_at(c.x as int, c.y as int)
            },
    decreases n,
{
    if n > 0 && art.spec_width() > 0 {
        lemma_ink_upto_cells(art, n - 1);
        let w = art.spec_width() as int;
        let x = (n - 1) % w;
        let y = (n - 1) / w;
        crate::grid::lemma_coords(w, art.spec_height() as int, n - 1);
        assert(y * w + x == n - 1) by {
            vstd::arithmetic::div_mod::lemma_fundamental_div_mod(n - 1, w);
            vstd::arithmetic::mul::lemma_mul_is_commutative(y, w);
        }
        let prev = ink_upto(art, n - 1);
        if art.ink_at(x, y) {
            assert forall|k: int| 0 <= k < ink_upto(art, n).len() implies {
                let c = #[trigger] ink_upto(art, n)[k];
                &&& c.x < art.spec_width()
                &&& c.y < art.spec_height()
                &&& c.y * art.spec_width() + c.x < n
                &&& art.ink_at(c.x as int, c.y as int)
            } by {
                if k < prev.len() {
                    assert(ink_upto(art, n)[k] == prev[k]);
                }
            }
        }
    }
}

/// The listed ink cells are exactly the set cells of the ink mask, in order:
/// the `k`-th listed cell sits at a flat index with `k` set cells before it.
pub proof fn lemma_ink_upto_count(art: Art, n: int)
    requires
        0 <= n <= art.spec_width() * art.spec_height(),
    ensures
        ink_upto(art, n).len() == crate::ordering::count_true(ink_mask_of(art).take(n)),
    decreases n,
{
    let m = ink_mask_of(art);
    if n > 0 && art.spec_width() > 0 {
        lemma_ink_upto_count(art, n - 1);
        assert(m.take(n).drop_last() =~= m.take(n - 1));
    } else if n > 0 {
        assert(art.spec_width() * art.spec_height() == 0) by (nonlinear_arith)
            requires
                art.spec_width() == 0,
        ;
    } else {
        assert(m.take(n) =~= Seq::<bool>::empty());
    }
}

impl Default for Art {
    /// The empty canvas.
    fn default() -> (a: Art)
        ensures
            a.spec_width() == 0,
            a.spec_height() == 0,
    {
        Art { width: 0, height: 0, rows: Vec::new() }
    }
}

impl Art {
    pub fn width(&self) -> (w: u16)
        ensures
            w == self.spec_width(),
    {
        self.width
    }

    pub fn height(&self) -> (h: u16)
        ensures
            h == self.spec_height(),
    {
        self.height
    }

    /// True when the art holds no cells at all.
    pub fn is_empty(&self) -> (b: bool)
        ensures
            b == (self.spec_width() == 0 || self.spec_height() == 0),
    {
        self.width == 0 || self.height == 0
    }

    /// The glyph at `(x, y)`, or a space if out of bounds.
    pub fn glyph(&self, x: u16, y: u16) -> (c: char)
        ensures
            c == self.glyph_at(x as int, y as int),
    {
        proof {
            use_type_invariant(self);
        }
        if x >= self.width || y >= self.height {
            return ' ';
        }
        let r = &self.rows[y as usize];
        proof {
            assert(self.grid()[y as int] == self.rows@[y as int]@);
            assert(self.rows[y as int].len() == self.width);
        }
        r[x as usize]
    }

    /// The glyph grid as one string, row-major, `width * height` glyphs with
    /// spaces for background and no line breaks.
    pub fn glyphs(&self) -> (s: String)
        ensures
            s@ == Seq::new(
                (self.spec_width() * self.spec_height()) as nat,
                |i: int| self.glyph_at(i % self.spec_width() as int, i / self.spec_width() as int),
            ),
    {
        let ghost w = self.spec_width() as int;
        let mut s = String::new();
        let mut y: u16 = 0;
        while y < self.height
            invariant
                y <= self.spec_height(),
                w == self.spec_width(),
                s@ == Seq::new((y * w) as nat, |i: int| self.glyph_at(i % w, i / w)),
            decreases self.spec_height() - y,
        {
            let mut x: u16 = 0;
            while x < self.width
                invariant
                    y < self.spec_height(),
                    x <= self.spec_width(),
                    w == self.spec_width(),
                    s@ == Seq::new((y * w + x) as nat, |i: int| self.glyph_at(i % w, i / w)),
                decreases self.spec_width() - x,
            {
                let c = self.glyph(x, y);
                crate::text::push_char(&mut s, c);
                proof {
                    crate::grid::lemma_cell(w, x as int, y as int);
                    assert(s@ =~= Seq::new((y * w + x + 1) as nat, |i: int| self.glyph_at(i % w, i / w)));
                }
                x += 1;
            }
            proof {
                assert((y + 1) * w == y * w + w) by (nonlinear_arith);
            }
            y += 1;
        }
        proof {
            assert(self.spec_height() * w == w * self.spec_height()) by (nonlinear_arith);
        }
        s
    }

    /// True when `(x, y)` holds a non-whitespace glyph.
    pub fn is_ink(&self, x: u16, y: u16) -> (b: bool)
        ensures
            b == self.ink_at(x as int, y as int),
    {
        !is_whitespace(self.glyph(x, y))
    }

    /// Row-major flat index of `(x, y)`.
    pub fn index(&self, x: u16, y: u16) -> (i: usize)
        ensures
            i == y * self.spec_width() + x,
    {
        proof {
            assert(y * self.width + x <= 65535 * 65535 + 65535) by (nonlinear_arith)
                requires
                    y <= 65535,
                    self.width <= 65535,
                    x <= 65535,
            ;
        }
        y as usize * self.width as usize + x as usize
    }

    /// Total grid cells (`width * height`), ink and background alike.
    pub fn cell_count(&self) -> (n: usize)
        ensures
            n == self.spec_width() * self.spec_height(),
    {
        proof {
            assert(self.width * self.height <= 65535 * 65535) by (nonlinear_arith)
                requires
                    self.height <= 65535,
                    self.width <= 65535,
            ;
        }
        self.width as usize * self.height as usize
    }

    /// Every ink cell, in row-major order.
    pub fn ink_cells(&self) -> (cells: Vec<Cell>)
        ensures
            cells@ == ink_cells_of(*self),
    {
        let mut cells: Vec<Cell> = Vec::new();
        let w = self.width;
        let h = self.height;
        if w == 0 {
            return cells;
        }
        let mut y: u16 = 0;
        proof {
            assert(0 * w == 0);
        }
        while y < h
            invariant
                w == self.spec_width(),
                h == self.spec_height(),
                w > 0,
                y <= h,
                cells@ == ink_upto(*self, y * w),
            decreases h - y,
        {
            let mut x: u16 = 0;
            while x < w
                invariant
                    w == self.spec_width(),
                    h == self.spec_height(),
                    w > 0,
                    y < h,
                    x <= w,
                    cells@ == ink_upto(*self, y * w + x),
                decreases w - x,
            {
                let glyph = self.glyph(x, y);
                proof {
                    crate::grid::lemma_cell(w as int, x as int, y as int);
                    assert(ink_upto(*self, y * w + x + 1) == if self.ink_at(x as int, y as int) {
                        ink_upto(*self, y * w + x).push(Cell { x: x, y: y, glyph: glyph })
                    } else {
                        ink_upto(*self, y * w + x)
                    });
                }
                if !is_whitespace(glyph) {
                    cells.push(Cell { x, y, glyph });
                }
                x += 1;
            }
            proof {
                assert((y + 1) * w == y * w + w) by (nonlinear_arith);
            }
            y += 1;
        }
        proof {
            assert(h * w == w * h) by (nonlinear_arith);
        }
        cells
    }

    /// Number of ink cells.
    pub fn ink_count(&self) -> (n: usize)
        ensures
            n == ink_cells_of(*self).len(),
    {
        self.ink_cells().len()
    }
}

/// A boolean grid: `true` where the art has ink.
pub fn ink_mask(art: &Art) -> (mask: Vec<bool>)
    ensures
        mask@ == ink_mask_of(*art),
{
    let w = art.width();
    let h = art.height();
    let n = art.cell_count();
    let mut mask: Vec<bool> = Vec::new();
    let mut i: usize = 0;
    while i < n
        invariant
            w == art.spec_width(),
            h == art.spec_height(),
            n == w * h,
            i <= n,
            mask.len() == i,
            forall|k: int| 0 <= k < i ==> mask@[k] == #[trigger] ink_mask_of(*art)[k],
        decreases n - i,
    {
        proof {
            assert(w > 0) by {
                if w == 0 {
                    assert(w * h == 0) by (nonlinear_arith)
                        requires
                            w == 0,
                    ;
                }
            }
            crate::grid::lemma_coords(w as int, h as int, i as int);
        }
        let x = (i % (w as usize)) as u16;
        let y = (i / (w as usize)) as u16;
        mask.push(art.is_ink(x, y));
        i += 1;
    }
    proof {
        assert(mask@ =~= ink_mask_of(*art));
    }
    mask
}

// ---------------------------------------------------------------------------
// Parsing, step by step
// ---------------------------------------------------------------------------

proof fn lemma_split_nonempty(t: Seq<char>)
    ensures
        split_lines(t).len() >= 1,
    decreases t.len(),
{
    if t.len() > 0 {
        lemma_split_nonempty(t.drop_last());
    }
}

/// Split a character sequence into lines at each `'\n'`.
fn split_into_lines(chars: &Vec<char>) -> (lines: Vec<Vec<char>>)
    ensures
        deep(lines@) == split_lines(chars@),
{
    let mut lines: Vec<Vec<char>> = Vec::new();
    let mut cur: Vec<char> = Vec::new();
    let mut i: usize = 0;
    while i < chars.len()
        invariant
            i <= chars.len(),
            deep(lines@).push(cur@) == split_lines(chars@.take(i as int)),
        decreases chars.len() - i,
    {
        let c = chars[i];
        let ghost before = chars@.take(i as int);
        proof {
            assert(chars@.take(i + 1).drop_last() =~= before);
            lemma_split_nonempty(before);
        }
        if c == '\n' {
            let ghost old_lines = lines@;
            let done = cur;
            cur = Vec::new();
            lines.push(done);
            proof {
                assert(deep(lines@) =~= deep(old_lines).push(done@));
                assert(deep(lines@).push(cur@) =~= split_lines(chars@.take(i + 1)));
            }
        } else {
            let ghost old_cur = cur@;
            cur.push(c);
            proof {
                let rest = split_lines(before);
                assert(rest =~= deep(lines@).push(old_cur));
                assert(deep(lines@).push(cur@) =~= rest.update(rest.len() - 1, rest.last().push(c)));
            }
        }
        i += 1;
    }
    proof {
        assert(chars@.take(chars.len() as int) =~= chars@);
    }
    let ghost old_lines = lines@;
    lines.push(cur);
    proof {
        assert(deep(lines@) =~= deep(old_lines).push(cur@));
    }
    lines
}

/// Expand tabs to the next [`TAB_WIDTH`] stop and turn every other control
/// character into a space. Art files saved by an editor that indents with
/// tabs would otherwise render with one-cell holes and rows that do not line
/// up; and art is untrusted text that ends up written straight to a terminal,
/// where a control character could move the cursor or repaint the screen.
pub fn expand_tabs(line: &Vec<char>) -> (out: Vec<char>)
    ensures
        out@ == expand_tabs_spec(line@),
{
    let mut out: Vec<char> = Vec::new();
    let mut i: usize = 0;
    while i < line.len()
        invariant
            i <= line.len(),
            out@ == expand_tabs_spec(line@.take(i as int)),
        decreases line.len() - i,
    {
        let c = line[i];
        proof {
            assert(line@.take(i + 1).drop_last() =~= line@.take(i as int));
        }
        if c == '\t' {
            let ghost e = out@;
            out.push(' ');
            while out.len() % TAB_WIDTH != 0
                invariant
                    e.len() < out.len() <= (e.len() / 8 + 1) * 8,
                    out@ == e + spaces((out.len() - e.len()) as nat),
                decreases (8 - out.len() % 8) % 8,
            {
                proof {
                    lemma_next_stop(e.len() as int, out.len() as int);
                }
                out.push(' ');
                proof {
                    assert(out@ =~= e + spaces((out.len() - e.len()) as nat));
                }
            }
            proof {
                lemma_stop_reached(e.len() as int, out.len() as int);
                assert(out@ =~= e + spaces(((e.len() / 8 + 1) * 8 - e.len()) as nat));
            }
        } else if is_control(c) {
            out.push(' ');
        } else {
            out.push(c);
        }
        i += 1;
    }
    proof {
        assert(line@.take(line.len() as int) =~= line@);
    }
    out
}

/// Below the next tab stop after `e` there is room for another column.
proof fn lemma_next_stop(e: int, n: int)
    requires
        0 <= e < n <= (e / 8 + 1) * 8,
        n % 8 != 0,
    ensures
        n + 1 <= (e / 8 + 1) * 8,
        (8 - (n + 1) % 8) % 8 < (8 - n % 8) % 8,
{
    assert(n < (e / 8 + 1) * 8) by {
        if n == (e / 8 + 1) * 8 {
            assert(((e / 8 + 1) * 8) % 8 == 0) by (nonlinear_arith);
        }
    }
    assert((n + 1) % 8 == n % 8 + 1 || (n + 1) % 8 == 0) by (nonlinear_arith)
        requires
            n >= 0,
    ;
}

/// The first multiple of 8 past `e` is the next tab stop.
proof fn lemma_stop_reached(e: int, n: int)
    requires
        0 <= e < n <= (e / 8 + 1) * 8,
        n % 8 == 0,
    ensures
        n == (e / 8 + 1) * 8,
{
    assert(n == (e / 8 + 1) * 8) by (nonlinear_arith)
        requires
            0 <= e < n <= (e / 8 + 1) * 8,
            n % 8 == 0,
    ;
}

/// Strip each line's trailing carriage return and expand it; keep at most
/// [`MAX_DIM`] lines.
fn expand_lines(lines: &Vec<Vec<char>>) -> (rows: Vec<Vec<char>>)
    requires
        deep(lines@).len() >= 1,
    ensures
        deep(rows@) == Seq::new(
            if lines.len() <= MAX_DIM { lines.len() as nat } else { MAX_DIM as nat },
            |i: int| expand_tabs_spec(strip_cr(deep(lines@)[i])),
        ),
{
    let n = if lines.len() <= MAX_DIM { lines.len() } else { MAX_DIM };
    let mut rows: Vec<Vec<char>> = Vec::new();
    let mut i: usize = 0;
    while i < n
        invariant
            i <= n,
            n <= lines.len(),
            n == (if lines.len() <= MAX_DIM { lines.len() } else { MAX_DIM }),
            rows.len() == i,
            forall|k: int| 0 <= k < i ==> #[trigger] rows@[k]@ == expand_tabs_spec(strip_cr(lines@[k]@)),
        decreases n - i,
    {
        let line = &lines[i];
        let stripped: Vec<char> = if line.len() > 0 && line[line.len() - 1] == '\r' {
            let mut s: Vec<char> = Vec::new();
            let mut k: usize = 0;
            while k < line.len() - 1
                invariant
                    line.len() > 0,
                    k <= line.len() - 1,
                    s@ == line@.take(k as int),
                decreases line.len() - 1 - k,
            {
                s.push(line[k]);
                k += 1;
                proof {
                    assert(s@ =~= line@.take(k as int));
                }
            }
            proof {
                assert(s@ =~= line@.drop_last());
            }
            s
        } else {
            let mut s: Vec<char> = Vec::new();
            let mut k: usize = 0;
            while k < line.len()
                invariant
                    k <= line.len(),
                    s@ == line@.take(k as int),
                decreases line.len() - k,
            {
                s.push(line[k]);
                k += 1;
                proof {
                    assert(s@ =~= line@.take(k as int));
                }
            }
            proof {
                assert(s@ =~= line@);
            }
            s
        };
        proof {
            assert(stripped@ == strip_cr(line@));
        }
        let row = expand_tabs(&stripped);
        rows.push(row);
        i += 1;
    }
    proof {
        assert(deep(rows@) =~= Seq::new(
            if lines.len() <= MAX_DIM { lines.len() as nat } else { MAX_DIM as nat },
            |i: int| expand_tabs_spec(strip_cr(deep(lines@)[i])),
        ));
    }
    rows
}

/// The canvas width: the longest row, at most [`MAX_DIM`].
fn max_row_len(rows: &Vec<Vec<char>>) -> (w: usize)
    ensures
        w == (if max_len(deep(rows@)) <= MAX_DIM { max_len(deep(rows@)) } else { MAX_DIM as nat }),
{
    let mut m: usize = 0;
    let mut i: usize = 0;
    while i < rows.len()
        invariant
            i <= rows.len(),
            m == (if max_len(deep(rows@).take(i as int)) <= MAX_DIM { max_len(deep(rows@).take(i as int)) } else { MAX_DIM as nat }),
        decreases rows.len() - i,
    {
        proof {
            assert(deep(rows@).take(i + 1).drop_last() =~= deep(rows@).take(i as int));
            assert(deep(rows@).take(i + 1).last() == rows@[i as int]@);
        }
        let l = rows[i].len();
        if l > m {
            m = if l <= MAX_DIM { l } else { MAX_DIM };
        }
        i += 1;
    }
    proof {
        assert(deep(rows@).take(rows.len() as int) =~= deep(rows@));
    }
    m
}

/// Every row cut or padded with spaces to `width` glyphs.
fn fit_rows(rows: &Vec<Vec<char>>, width: usize) -> (out: Vec<Vec<char>>)
    ensures
        deep(out@) == Seq::new(rows.len() as nat, |i: int| fit_row(deep(rows@)[i], width as nat)),
        forall|i: int| 0 <= i < out.len() ==> #[trigger] out@[i].len() == width,
{
    let mut out: Vec<Vec<char>> = Vec::new();
    let mut i: usize = 0;
    while i < rows.len()
        invariant
            i <= rows.len(),
            out.len() == i,
            forall|k: int| 0 <= k < i ==> #[trigger] out@[k]@ == fit_row(rows@[k]@, width as nat),
        decreases rows.len() - i,
    {
        let r = &rows[i];
        let mut row: Vec<char> = Vec::new();
        let mut j: usize = 0;
        while j < width
            invariant
                j <= width,
                row.len() == j,
                forall|k: int| 0 <= k < j ==> row@[k] == (if k < r.len() { r@[k] } else { ' ' }),
            decreases width - j,
        {
            if j < r.len() {
                row.push(r[j]);
            } else {
                row.push(' ');
            }
            j += 1;
        }
        proof {
            assert(row@ =~= fit_row(r@, width as nat));
        }
        out.push(row);
        i += 1;
    }
    proof {
        assert(deep(out@) =~= Seq::new(rows.len() as nat, |i: int| fit_row(deep(rows@)[i], width as nat)));
    }
    out
}

/// True when the row holds a non-whitespace glyph.
fn row_ink(r: &Vec<char>) -> (b: bool)
    ensures
        b == (exists|j: int| 0 <= j < r.len() && !spec_is_whitespace(#[trigger] r@[j])),
{
    let mut j: usize = 0;
    while j < r.len()
        invariant
            j <= r.len(),
            forall|k: int| 0 <= k < j ==> spec_is_whitespace(#[trigger] r@[k]),
        decreases r.len() - j,
    {
        if !is_whitespace(r[j]) {
            return true;
        }
        j += 1;
    }
    false
}

/// True when some row holds a non-whitespace glyph in column `c`.
fn col_ink(rows: &Vec<Vec<char>>, c: usize, width: usize) -> (b: bool)
    requires
        c < width,
        forall|i: int| 0 <= i < rows.len() ==> #[trigger] rows@[i].len() == width,
    ensures
        b == col_has_ink(deep(rows@), c as int),
{
    let mut i: usize = 0;
    while i < rows.len()
        invariant
            i <= rows.len(),
            c < width,
            forall|k: int| 0 <= k < rows.len() ==> #[trigger] rows@[k].len() == width,
            forall|k: int| 0 <= k < i ==> spec_is_whitespace(#[trigger] deep(rows@)[k][c as int]),
        decreases rows.len() - i,
    {
        proof {
            assert(deep(rows@)[i as int] == rows@[i as int]@);
            assert(rows@[i as int].len() == width);
        }
        if !is_whitespace(rows[i][c]) {
            return true;
        }
        i += 1;
    }
    false
}

proof fn lemma_least_step(p: spec_fn(int) -> bool, n: int)
    requires
        n >= 1,
        least(p, n - 1) == n - 1,
    ensures
        least(p, n) == (if p(n - 1) { n - 1 } else { n }),
{
}

/// Once found, the least witness does not move as the range grows.
proof fn lemma_least_stable(p: spec_fn(int) -> bool, m: int, n: int)
    requires
        0 <= m <= n,
        least(p, m) < m,
    ensures
        least(p, n) == least(p, m),
    decreases n - m,
{
    if n > m {
        lemma_least_stable(p, m, n - 1);
    }
}

/// The least witness is a witness, and nothing before it is.
proof fn lemma_least_props(p: spec_fn(int) -> bool, n: int)
    requires
        n >= 0,
    ensures
        0 <= least(p, n) <= n,
        least(p, n) < n ==> p(least(p, n)),
        forall|k: int| 0 <= k < least(p, n) ==> !#[trigger] p(k),
    decreases n,
{
    if n > 0 {
        lemma_least_props(p, n - 1);
    }
}

/// The greatest witness is a witness, and nothing after it is.
proof fn lemma_greatest_props(p: spec_fn(int) -> bool, n: int)
    requires
        n >= 0,
    ensures
        -1 <= greatest(p, n) < n,
        greatest(p, n) >= 0 ==> p(greatest(p, n)),
        forall|k: int| greatest(p, n) < k < n ==> !#[trigger] p(k),
    decreases n,
{
    if n > 0 {
        lemma_greatest_props(p, n - 1);
    }
}

/// Scanning down from `n` past non-witnesses leaves the greatest witness put.
proof fn lemma_greatest_skip(p: spec_fn(int) -> bool, b: int, n: int)
    requires
        0 <= b <= n,
        forall|k: int| b <= k < n ==> !#[trigger] p(k),
    ensures
        greatest(p, n) == greatest(p, b),
    decreases n - b,
{
    if n > b {
        lemma_greatest_skip(p, b, n - 1);
    }
}

/// The crop is tight: parsed art is empty exactly when the text holds no ink,
/// and otherwise its first and last rows and its first and last columns each
/// hold ink, so no blank margin survives parsing.
pub proof fn lemma_parse_tight(t: Seq<char>)
    ensures
        ({
            let g = parsed_rows(t);
            let w = parsed_width(t) as int;
            &&& (g.len() == 0) == (w == 0)
            &&& (g.len() == 0) == (forall|i: int| 0 <= i < canvas(t).len() ==> !#[trigger] row_has_ink(canvas(t), i))
            &&& g.len() > 0 ==> {
                &&& row_has_ink(g, 0)
                &&& row_has_ink(g, g.len() - 1)
                &&& col_has_ink(g, 0)
                &&& col_has_ink(g, w - 1)
            }
        }),
{
    let c = canvas(t);
    let cw = canvas_width(t) as int;
    let rp = |i: int| row_has_ink(c, i);
    let cp = |j: int| col_has_ink(c, j);
    let top = least(rp, c.len() as int);
    let bottom = greatest(rp, c.len() as int);
    let left = least(cp, cw);
    let right = greatest(cp, cw);
    lemma_least_props(rp, c.len() as int);
    lemma_greatest_props(rp, c.len() as int);
    lemma_least_props(cp, cw);
    lemma_greatest_props(cp, cw);
    assert forall|i: int| 0 <= i < c.len() implies #[trigger] c[i].len() == cw by {}
    if top < c.len() {
        // Every ink cell of the canvas lies inside the box.
        assert forall|i: int, j: int|
            0 <= i < c.len() && 0 <= j < c[i].len() && !spec_is_whitespace(#[trigger] c[i][j]) implies top <= i
            <= bottom && left <= j <= right by {
            assert(rp(i));
            assert(cp(j));
        }
        let g = parsed_rows(t);
        let w = parsed_width(t) as int;
        assert(rp(top) && rp(bottom));
        let jt = choose|j: int| 0 <= j < c[top].len() && !spec_is_whitespace(#[trigger] c[top][j]);
        let jb = choose|j: int| 0 <= j < c[bottom].len() && !spec_is_whitespace(#[trigger] c[bottom][j]);
        assert(cp(jt));
        assert(left < cw && right >= 0 && cp(left) && cp(right));
        let il = choose|i: int| 0 <= i < c.len() && !spec_is_whitespace(#[trigger] c[i][left]);
        let ir = choose|i: int| 0 <= i < c.len() && !spec_is_whitespace(#[trigger] c[i][right]);
        assert(g[0][jt - left] == c[top][jt]);
        assert(g[g.len() - 1][jb - left] == c[bottom][jb]);
        assert(g[il - top][0] == c[il][left]);
        assert(g[ir - top][w - 1] == c[ir][right]);
        assert(w > 0);
    } else {
        assert forall|i: int| 0 <= i < c.len() implies !#[trigger] row_has_ink(c, i) by {
            assert(!rp(i));
        }
    }
}

/// Crop the canvas to the bounding box of its ink.
fn crop(grid: Vec<Vec<char>>, width: usize, t: Ghost<Seq<char>>) -> (art: Art)
    requires
        deep(grid@) == canvas(t@),
        width == canvas_width(t@),
        forall|i: int| 0 <= i < grid.len() ==> #[trigger] grid@[i].len() == width,
        grid.len() <= MAX_DIM,
        width <= MAX_DIM,
    ensures
        art.grid() == parsed_rows(t@),
        art.spec_height() == parsed_rows(t@).len(),
        art.spec_width() == parsed_width(t@),
{
    let ghost g = canvas(t@);
    let ghost rp = |i: int| row_has_ink(g, i);
    let ghost cp = |j: int| col_has_ink(g, j);
    let h = grid.len();
    // The first row with ink.
    let mut top: usize = 0;
    let mut found = false;
    while top < h && !found
        invariant
            top <= h,
            h == grid.len(),
            deep(grid@) == g,
            rp == (|i: int| row_has_ink(g, i)),
            found ==> top < h && rp(top as int),
            least(rp, top as int) == top,
        decreases h - top + (if found { 0int } else { 1int }),
    {
        proof {
            assert(deep(grid@)[top as int] == grid@[top as int]@);
        }
        if row_ink(&grid[top]) {
            found = true;
        } else {
            proof {
                lemma_least_step(rp, top + 1);
            }
            top += 1;
        }
    }
    proof {
        if top < h {
            lemma_least_step(rp, top + 1);
            lemma_least_stable(rp, top as int + 1, h as int);
        }
        lemma_least_props(rp, h as int);
    }
    if top >= h {
        let empty = Art { width: 0, height: 0, rows: Vec::new() };
        proof {
            assert(parsed_rows(t@) =~= Seq::<Seq<char>>::empty());
            assert(empty.grid() =~= Seq::<Seq<char>>::empty());
        }
        return empty;
    }
    // The last row with ink.
    let mut b: usize = h;
    let mut found = false;
    while b > 0 && !found
        invariant
            b <= h,
            h == grid.len(),
            deep(grid@) == g,
            rp == (|i: int| row_has_ink(g, i)),
            found ==> b > 0 && rp(b - 1),
            forall|k: int| b <= k < h ==> !#[trigger] rp(k),
        decreases b + (if found { 0int } else { 1int }),
    {
        proof {
            assert(deep(grid@)[b - 1] == grid@[b - 1]@);
        }
        if row_ink(&grid[b - 1]) {
            found = true;
        } else {
            b -= 1;
        }
    }
    proof {
        lemma_greatest_skip(rp, b as int, h as int);
        assert(b > 0) by {
            if b == 0 {
                assert(!rp(top as int));
            }
        }
        assert(rp(b - 1));
        assert(greatest(rp, b as int) == b - 1);
        lemma_greatest_props(rp, h as int);
    }
    let bottom = b - 1;
    // The ink columns: every canvas row has `width` glyphs.
    let mut left: usize = 0;
    let mut found = false;
    while left < width && !found
        invariant
            left <= width,
            deep(grid@) == g,
            forall|i: int| 0 <= i < grid.len() ==> #[trigger] grid@[i].len() == width,
            cp == (|j: int| col_has_ink(g, j)),
            found ==> left < width && cp(left as int),
            least(cp, left as int) == left,
        decreases width - left + (if found { 0int } else { 1int }),
    {
        if col_ink(&grid, left, width) {
            found = true;
        } else {
            proof {
                lemma_least_step(cp, left + 1);
            }
            left += 1;
        }
    }
    proof {
        // the top row's ink sits in some column
        let j = choose|j: int| 0 <= j < g[top as int].len() && !spec_is_whitespace(#[trigger] g[top as int][j]);
        assert(g[top as int] == grid@[top as int]@);
        assert(cp(j));
        lemma_least_props(cp, width as int);
        if left >= width {
            assert(least(cp, width as int) == width);
        }
        assert(left < width);
        lemma_least_step(cp, left + 1);
        lemma_least_stable(cp, left as int + 1, width as int);
    }
    let mut r: usize = width;
    let mut found = false;
    while r > 0 && !found
        invariant
            r <= width,
            deep(grid@) == g,
            forall|i: int| 0 <= i < grid.len() ==> #[trigger] grid@[i].len() == width,
            cp == (|j: int| col_has_ink(g, j)),
            found ==> r > 0 && cp(r - 1),
            forall|k: int| r <= k < width ==> !#[trigger] cp(k),
        decreases r + (if found { 0int } else { 1int }),
    {
        if col_ink(&grid, r - 1, width) {
            found = true;
        } else {
            r -= 1;
        }
    }
    proof {
        lemma_greatest_skip(cp, r as int, width as int);
        lemma_greatest_props(cp, width as int);
        assert(r > left) by {
            if r <= left {
                assert(!cp(left as int));
            }
        }
        assert(greatest(cp, r as int) == r - 1);
    }
    let right = r - 1;
    let mut rows: Vec<Vec<char>> = Vec::new();
    let mut i: usize = top;
    while i <= bottom
        invariant
            top <= i <= bottom + 1,
            bottom < h,
            h == grid.len(),
            left <= right < width,
            deep(grid@) == g,
            forall|k: int| 0 <= k < grid.len() ==> #[trigger] grid@[k].len() == width,
            rows.len() == i - top,
            forall|k: int| 0 <= k < rows.len() ==> #[trigger] rows@[k]@ == g[top + k].subrange(left as int, right + 1),
            forall|k: int| 0 <= k < rows.len() ==> #[trigger] rows@[k].len() == right - left + 1,
        decreases bottom + 1 - i,
    {
        let src = &grid[i];
        let mut row: Vec<char> = Vec::new();
        let mut j: usize = left;
        while j <= right
            invariant
                left <= j <= right + 1,
                right < width,
                src.len() == width,
                row.len() == j - left,
                forall|k: int| 0 <= k < row.len() ==> row@[k] == src@[left + k],
            decreases right + 1 - j,
        {
            row.push(src[j]);
            j += 1;
        }
        proof {
            assert(g[i as int] == src@);
            assert(row@ =~= g[i as int].subrange(left as int, right + 1));
        }
        rows.push(row);
        i += 1;
    }
    let art = Art { width: (right - left + 1) as u16, height: (bottom - top + 1) as u16, rows };
    proof {
        assert(art.grid() =~= parsed_rows(t@));
    }
    art
}

impl Clone for Art {
    /// A copy with the same grid.
    fn clone(&self) -> (c: Self)
        ensures
            c.grid() == self.grid(),
            c.spec_width() == self.spec_width(),
            c.spec_height() == self.spec_height(),
    {
        proof {
            use_type_invariant(self);
        }
        let mut rows: Vec<Vec<char>> = Vec::new();
        let mut i: usize = 0;
        while i < self.rows.len()
            invariant
                i <= self.rows.len(),
                rows.len() == i,
                self.rows.len() == self.height,
                (self.width == 0) == (self.height == 0),
                forall|k: int| 0 <= k < self.rows.len() ==> #[trigger] self.rows[k].len() == self.width,
                forall|k: int| 0 <= k < i ==> #[trigger] rows[k]@ == self.rows[k]@,
            decreases self.rows.len() - i,
        {
            let src = &self.rows[i];
            let mut row: Vec<char> = Vec::new();
            let mut j: usize = 0;
            while j < src.len()
                invariant
                    j <= src.len(),
                    row@ == src@.take(j as int),
                decreases src.len() - j,
            {
                row.push(src[j]);
                j += 1;
                proof {
                    assert(row@ =~= src@.take(j as int));
                }
            }
            proof {
                assert(src@.take(src.len() as int) =~= src@);
            }
            rows.push(row);
            i += 1;
        }
        proof {
            assert forall|k: int| 0 <= k < rows.len() implies #[trigger] rows[k].len() == self.width by {
                assert(rows[k]@ == self.rows[k]@);
                assert(rows[k]@.len() == rows[k].len());
                assert(self.rows[k]@.len() == self.rows[k].len());
                assert(self.rows[k].len() == self.width);
            }
        }
        let c = Art { width: self.width, height: self.height, rows };
        proof {
            assert(c.grid() =~= self.grid());
        }
        c
    }
}

// ---------------------------------------------------------------------------
// Indentation and trailing blanks are invisible
// ---------------------------------------------------------------------------

/// The lines `ls` joined with a `'\n'` between each two.
pub open spec fn join_lines(ls: Seq<Seq<char>>) -> Seq<char>
    decreases ls.len(),
{
    if ls.len() == 0 {
        Seq::empty()
    } else if ls.len() == 1 {
        ls[0]
    } else {
        join_lines(ls.drop_last()) + seq!['\n'] + ls.last()
    }
}

/// `t` set again with `indent` spaces before each of its lines, `trail[i]`
/// spaces after line `i`, and `above` and `below` empty lines around it.
pub open spec fn reindented(t: Seq<char>, indent: nat, trail: Seq<nat>, above: nat, below: nat) -> Seq<char> {
    let ls = split_lines(t);
    join_lines(
        Seq::new(above, |i: int| Seq::<char>::empty()) + Seq::new(
            ls.len(),
            |i: int| spaces(indent) + ls[i] + spaces(trail[i]),
        ) + Seq::new(below, |i: int| Seq::<char>::empty()),
    )
}

/// A line with every control character shown as a space: what expansion does
/// to a line that holds no tab.
pub open spec fn blank_ctl(l: Seq<char>) -> Seq<char> {
    Seq::new(l.len(), |j: int| if spec_is_control(l[j]) { ' ' } else { l[j] })
}

proof fn lemma_split_untabbed(t: Seq<char>)
    requires
        forall|k: int| 0 <= k < t.len() ==> t[k] != '\t',
    ensures
        forall|i: int, j: int|
            0 <= i < split_lines(t).len() && 0 <= j < split_lines(t)[i].len() ==> #[trigger] split_lines(t)[i][j]
                != '\n' && split_lines(t)[i][j] != '\t',
    decreases t.len(),
{
    lemma_split_nonempty(t);
    if t.len() > 0 {
        let p = t.drop_last();
        assert forall|k: int| 0 <= k < p.len() implies p[k] != '\t' by {
            assert(p[k] == t[k]);
        }
        lemma_split_untabbed(p);
        lemma_split_nonempty(p);
        let rest = split_lines(p);
        let s = split_lines(t);
        assert(t.last() == t[t.len() - 1]);
        assert forall|i: int, j: int| 0 <= i < s.len() && 0 <= j < s[i].len() implies #[trigger] s[i][j] != '\n'
            && s[i][j] != '\t' by {
            if t.last() == '\n' {
                if i < rest.len() {
                    assert(s[i][j] == rest[i][j]);
                }
            } else {
                if i < rest.len() - 1 {
                    assert(s[i][j] == rest[i][j]);
                } else {
                    assert(s[i] == rest.last().push(t.last()));
                    if j < rest.last().len() {
                        assert(s[i][j] == rest[rest.len() - 1][j]);
                    } else {
                        assert(s[i][j] == t.last());
                    }
                }
            }
        }
    }
}

proof fn lemma_split_append_line(p: Seq<char>, b: Seq<char>)
    requires
        forall|j: int| 0 <= j < b.len() ==> b[j] != '\n',
    ensures
        split_lines(p + b) == split_lines(p).update(split_lines(p).len() - 1, split_lines(p).last() + b),
    decreases b.len(),
{
    lemma_split_nonempty(p);
    let s = split_lines(p);
    if b.len() == 0 {
        assert(p + b =~= p);
        assert(s.last() + b =~= s.last());
        assert(s.update(s.len() - 1, s.last() + b) =~= s);
    } else {
        let b0 = b.drop_last();
        assert forall|j: int| 0 <= j < b0.len() implies b0[j] != '\n' by {
            assert(b0[j] == b[j]);
        }
        lemma_split_append_line(p, b0);
        assert((p + b).drop_last() =~= p + b0);
        assert((p + b).last() == b[b.len() - 1]);
        let rest = split_lines(p + b0);
        assert(rest.last() == s.last() + b0);
        assert(rest.last().push(b.last()) =~= s.last() + b);
        assert(rest.update(rest.len() - 1, rest.last().push(b.last())) =~= s.update(s.len() - 1, s.last() + b));
    }
}

proof fn lemma_split_join(ls: Seq<Seq<char>>)
    requires
        ls.len() >= 1,
        forall|i: int, j: int| 0 <= i < ls.len() && 0 <= j < ls[i].len() ==> #[trigger] ls[i][j] != '\n',
    ensures
        split_lines(join_lines(ls)) == ls,
    decreases ls.len(),
{
    let e = Seq::<char>::empty();
    let l = ls.last();
    assert forall|j: int| 0 <= j < l.len() implies l[j] != '\n' by {
        assert(l[j] == ls[ls.len() - 1][j]);
    }
    if ls.len() == 1 {
        assert(e + ls[0] =~= ls[0]);
        lemma_split_append_line(e, ls[0]);
        assert(split_lines(e) =~= seq![e]);
        assert(seq![e].update(0, e + ls[0]) =~= ls);
    } else {
        let init = ls.drop_last();
        assert forall|i: int, j: int| 0 <= i < init.len() && 0 <= j < init[i].len() implies #[trigger] init[i][j]
            != '\n' by {
            assert(init[i][j] == ls[i][j]);
        }
        lemma_split_join(init);
        let j0 = join_lines(init);
        let p = j0 + seq!['\n'];
        assert(p.drop_last() =~= j0);
        assert(p.last() == '\n');
        assert(split_lines(p) == split_lines(j0).push(e));
        lemma_split_append_line(p, l);
        assert(join_lines(ls) == p + l);
        assert(e + l =~= l);
        assert(init.push(e).update(init.len() as int, e + l) =~= ls);
    }
}

proof fn lemma_expand_untabbed(l: Seq<char>)
    requires
        forall|j: int| 0 <= j < l.len() ==> l[j] != '\t',
    ensures
        expand_tabs_spec(l) == blank_ctl(l),
    decreases l.len(),
{
    if l.len() > 0 {
        let p = l.drop_last();
        assert forall|j: int| 0 <= j < p.len() implies p[j] != '\t' by {
            assert(p[j] == l[j]);
        }
        lemma_expand_untabbed(p);
        assert(l.last() == l[l.len() - 1]);
        let c = if spec_is_control(l.last()) {
            ' '
        } else {
            l.last()
        };
        assert(blank_ctl(l) =~= blank_ctl(p).push(c));
    } else {
        assert(blank_ctl(l) =~= Seq::<char>::empty());
    }
}

/// A re-set line, once its carriage return is gone, is the old one shifted
/// right by `k` with only spaces and carriage returns around it.
proof fn lemma_strip_shifted(l: Seq<char>, k: nat, m: nat)
    ensures
        ({
            let line2 = strip_cr(spaces(k) + l + spaces(m));
            let l1 = strip_cr(l);
            &&& k + l1.len() <= line2.len() <= k + l.len() + m
            &&& l1.len() <= l.len()
            &&& forall|j: int| 0 <= j < l1.len() ==> line2[k + j] == #[trigger] l1[j]
            &&& forall|j: int|
                0 <= j < line2.len() && !(k <= j < k + l1.len()) ==> #[trigger] line2[j] == ' ' || line2[j] == '\r'
        }),
{
    let line = spaces(k) + l + spaces(m);
    let line2 = strip_cr(line);
    let l1 = strip_cr(l);
    assert(line.len() == k + l.len() + m);
    assert forall|j: int| 0 <= j < line.len() implies #[trigger] line[j] == (if j < k {
        ' '
    } else if j < k + l.len() {
        l[j - k]
    } else {
        ' '
    }) by {}
    if line.len() > 0 && line.last() == '\r' {
        assert(line.last() == line[line.len() - 1]);
        assert(m == 0);
        assert(l.len() > 0);
        assert(l.last() == l[l.len() - 1]);
        assert(l1 == l.drop_last());
        assert(line2 == line.drop_last());
        assert forall|j: int| 0 <= j < l1.len() implies line2[k + j] == #[trigger] l1[j] by {
            assert(line2[k + j] == line[k + j]);
        }
        assert forall|j: int| 0 <= j < line2.len() && !(k <= j < k + l1.len()) implies #[trigger] line2[j]
            == ' ' || line2[j] == '\r' by {
            assert(line2[j] == line[j]);
        }
    } else {
        assert(line2 == line);
        assert forall|j: int| 0 <= j < l1.len() implies line2[k + j] == #[trigger] l1[j] by {
            assert(line2[k + j] == line[k + j]);
            assert(l1[j] == l[j]);
        }
        assert forall|j: int| 0 <= j < line2.len() && !(k <= j < k + l1.len()) implies #[trigger] line2[j]
            == ' ' || line2[j] == '\r' by {
            if k + l1.len() <= j < k + l.len() {
                assert(l.len() > 0 && l.last() == '\r');
                assert(j == k + l.len() - 1);
                assert(line[j] == l[l.len() - 1]);
            }
        }
    }
}

proof fn lemma_max_len(rows: Seq<Seq<char>>)
    ensures
        forall|i: int| 0 <= i < rows.len() ==> #[trigger] rows[i].len() <= max_len(rows),
        rows.len() > 0 ==> exists|i: int| 0 <= i < rows.len() && max_len(rows) == #[trigger] rows[i].len(),
        rows.len() == 0 ==> max_len(rows) == 0,
    decreases rows.len(),
{
    if rows.len() > 0 {
        let p = rows.drop_last();
        lemma_max_len(p);
        assert forall|i: int| 0 <= i < rows.len() implies #[trigger] rows[i].len() <= max_len(rows) by {
            if i < p.len() {
                assert(rows[i] == p[i]);
            }
        }
        if rows.last().len() > max_len(p) || p.len() == 0 {
            assert(max_len(rows) == rows[rows.len() - 1].len());
        } else {
            let i = choose|i: int| 0 <= i < p.len() && max_len(p) == #[trigger] p[i].len();
            assert(rows[i] == p[i]);
        }
    }
}

/// Where a predicate on `0..n2` is another one on `0..n1` moved right by
/// `a`, its least and greatest witnesses move with it.
proof fn lemma_shifted_bounds(p1: spec_fn(int) -> bool, n1: int, p2: spec_fn(int) -> bool, n2: int, a: int)
    requires
        0 <= a,
        0 <= n1,
        a + n1 <= n2,
        forall|i: int| 0 <= i < n2 ==> #[trigger] p2(i) == (a <= i < a + n1 && p1(i - a)),
    ensures
        least(p1, n1) < n1 ==> least(p2, n2) == a + least(p1, n1) && greatest(p2, n2) == a + greatest(p1, n1),
        least(p1, n1) >= n1 ==> least(p2, n2) >= n2,
{
    lemma_least_props(p1, n1);
    lemma_least_props(p2, n2);
    lemma_greatest_props(p1, n1);
    lemma_greatest_props(p2, n2);
    let l1 = least(p1, n1);
    let l2 = least(p2, n2);
    let g1 = greatest(p1, n1);
    let g2 = greatest(p2, n2);
    if l1 < n1 {
        assert(p2(a + l1));
        if l2 > a + l1 {
            assert(!p2(a + l1));
        }
        assert(p2(l2));
        assert(p1(l2 - a));
        if l2 - a < l1 {
            assert(!p1(l2 - a));
        }
        if g1 < l1 {
            assert(!p1(l1));
        }
        assert(p1(g1));
        assert(p2(a + g1));
        if g2 < a + g1 {
            assert(!p2(a + g1));
        }
        assert(p2(g2));
        assert(p1(g2 - a));
        if g2 - a > g1 {
            assert(!p1(g2 - a));
        }
    } else {
        if l2 < n2 {
            assert(p2(l2));
            assert(p1(l2 - a));
            assert(!p1(l2 - a));
        }
    }
}

/// One re-set line, expanded: the old expanded line shifted right by `k`,
/// with nothing but spaces around it.
proof fn lemma_reindent_row(l: Seq<char>, k: nat, m: nat)
    requires
        forall|j: int| 0 <= j < l.len() ==> l[j] != '\t',
    ensures
        ({
            let r1 = expand_tabs_spec(strip_cr(l));
            let r2 = expand_tabs_spec(strip_cr(spaces(k) + l + spaces(m)));
            &&& k + r1.len() <= r2.len() <= k + l.len() + m
            &&& r1.len() <= l.len()
            &&& forall|j: int|
                0 <= j < r2.len() ==> #[trigger] r2[j] == (if k <= j < k + r1.len() {
                    r1[j - k]
                } else {
                    ' '
                })
        }),
{
    let line = spaces(k) + l + spaces(m);
    let line2 = strip_cr(line);
    let l1 = strip_cr(l);
    lemma_strip_shifted(l, k, m);
    assert forall|j: int| 0 <= j < l1.len() implies l1[j] != '\t' by {
        assert(l1[j] == l[j]);
    }
    assert forall|j: int| 0 <= j < line2.len() implies line2[j] != '\t' by {
        assert(line2[j] == line[j]);
        if k <= j < k + l.len() {
            assert(line[j] == l[j - k]);
        }
    }
    lemma_expand_untabbed(l1);
    lemma_expand_untabbed(line2);
    let r1 = blank_ctl(l1);
    let r2 = blank_ctl(line2);
    assert forall|j: int| 0 <= j < r2.len() implies #[trigger] r2[j] == (if k <= j < k + r1.len() {
        r1[j - k]
    } else {
        ' '
    }) by {
        if k <= j < k + r1.len() {
            assert(line2[k + (j - k)] == l1[j - k]);
        } else {
            assert(line2[j] == ' ' || line2[j] == '\r');
            assert((' ' as u32) == 32);
            assert(('\r' as u32) == 13);
        }
    }
}

/// The expanded rows of a re-set text, row by row.
proof fn lemma_reindent_rows(t: Seq<char>, indent: nat, trail: Seq<nat>, above: nat, below: nat)
    requires
        forall|k: int| 0 <= k < t.len() ==> t[k] != '\t',
        trail.len() == split_lines(t).len(),
        above + split_lines(t).len() + below <= MAX_DIM,
        forall|i: int|
            0 <= i < split_lines(t).len() ==> indent + split_lines(t)[i].len() + #[trigger] trail[i] <= MAX_DIM,
    ensures
        ({
            let r1 = source_rows(t);
            let r2 = source_rows(reindented(t, indent, trail, above, below));
            let n1 = split_lines(t).len() as int;
            &&& r1.len() == n1 >= 1
            &&& r2.len() == above + n1 + below
            &&& forall|i: int| 0 <= i < n1 ==> #[trigger] r1[i].len() <= MAX_DIM
            &&& forall|i: int| 0 <= i < r2.len() ==> #[trigger] r2[i].len() <= MAX_DIM
            &&& forall|i: int| 0 <= i < r2.len() && !(above <= i < above + n1) ==> #[trigger] r2[i].len() == 0
            &&& forall|i: int| above <= i < above + n1 ==> indent + r1[i - above].len() <= #[trigger] r2[i].len()
            &&& forall|i: int, j: int|
                above <= i < above + n1 && 0 <= j < r2[i].len() ==> #[trigger] r2[i][j] == (if indent <= j
                    < indent + r1[i - above].len() {
                    r1[i - above][j - indent]
                } else {
                    ' '
                })
        }),
{
    let ls = split_lines(t);
    let n1 = ls.len() as int;
    lemma_split_nonempty(t);
    lemma_split_untabbed(t);
    let e = Seq::<char>::empty();
    let mid = Seq::new(ls.len(), |i: int| spaces(indent) + ls[i] + spaces(trail[i]));
    let lines = Seq::new(above, |i: int| e) + mid + Seq::new(below, |i: int| e);
    assert(reindented(t, indent, trail, above, below) == join_lines(lines));
    assert forall|i: int, j: int| 0 <= i < lines.len() && 0 <= j < lines[i].len() implies #[trigger] lines[i][j]
        != '\n' && lines[i][j] != '\t' by {
        if above <= i < above + n1 {
            let q = i - above;
            assert(lines[i] == mid[q]);
            if indent <= j < indent + ls[q].len() {
                assert(lines[i][j] == ls[q][j - indent]);
            }
        } else {
            assert(lines[i] == e);
        }
    }
    lemma_split_join(lines);
    let r1 = source_rows(t);
    let r2 = source_rows(reindented(t, indent, trail, above, below));
    assert(r2.len() == lines.len());
    assert forall|i: int| 0 <= i < n1 implies #[trigger] r1[i].len() <= MAX_DIM by {
        lemma_reindent_row(ls[i], indent, trail[i]);
    }
    assert forall|i: int| 0 <= i < r2.len() implies #[trigger] r2[i].len() <= MAX_DIM by {
        if above <= i < above + n1 {
            let q = i - above;
            assert(lines[i] == mid[q]);
            lemma_reindent_row(ls[q], indent, trail[q]);
        } else {
            assert(lines[i] == e);
            assert(strip_cr(e) == e);
        }
    }
    assert forall|i: int| 0 <= i < r2.len() && !(above <= i < above + n1) implies #[trigger] r2[i].len() == 0 by {
        assert(lines[i] == e);
        assert(strip_cr(e) == e);
    }
    assert forall|i: int| above <= i < above + n1 implies indent + r1[i - above].len() <= #[trigger] r2[i].len() by {
        let q = i - above;
        assert(lines[i] == mid[q]);
        lemma_reindent_row(ls[q], indent, trail[q]);
    }
    assert forall|i: int, j: int| above <= i < above + n1 && 0 <= j < r2[i].len() implies #[trigger] r2[i][j] == (
    if indent <= j < indent + r1[i - above].len() {
        r1[i - above][j - indent]
    } else {
        ' '
    }) by {
        let q = i - above;
        assert(lines[i] == mid[q]);
        lemma_reindent_row(ls[q], indent, trail[q]);
    }
}

/// The canvas of a re-set text is the old canvas moved right by `indent` and
/// down by `above`, with nothing but spaces around it.
proof fn lemma_reindent_canvas(t: Seq<char>, indent: nat, trail: Seq<nat>, above: nat, below: nat)
    requires
        forall|k: int| 0 <= k < t.len() ==> t[k] != '\t',
        trail.len() == split_lines(t).len(),
        above + split_lines(t).len() + below <= MAX_DIM,
        forall|i: int|
            0 <= i < split_lines(t).len() ==> indent + split_lines(t)[i].len() + #[trigger] trail[i] <= MAX_DIM,
    ensures
        ({
            let g1 = canvas(t);
            let g2 = canvas(reindented(t, indent, trail, above, below));
            let n1 = split_lines(t).len() as int;
            let w1 = canvas_width(t) as int;
            let w2 = canvas_width(reindented(t, indent, trail, above, below)) as int;
            &&& g1.len() == n1 >= 1
            &&& g2.len() == above + n1 + below
            &&& indent + w1 <= w2
            &&& forall|i: int| 0 <= i < n1 ==> #[trigger] g1[i].len() == w1
            &&& forall|i: int| 0 <= i < g2.len() ==> #[trigger] g2[i].len() == w2
            &&& forall|i: int, j: int|
                0 <= i < g2.len() && 0 <= j < w2 ==> #[trigger] g2[i][j] == (if above <= i < above + n1 && indent
                    <= j < indent + w1 {
                    g1[i - above][j - indent]
                } else {
                    ' '
                })
        }),
{
    let t2 = reindented(t, indent, trail, above, below);
    lemma_reindent_rows(t, indent, trail, above, below);
    let r1 = source_rows(t);
    let r2 = source_rows(t2);
    let n1 = split_lines(t).len() as int;
    lemma_max_len(r1);
    lemma_max_len(r2);
    let i1 = choose|i: int| 0 <= i < r1.len() && max_len(r1) == #[trigger] r1[i].len();
    assert(r1[i1].len() <= MAX_DIM);
    assert(canvas_width(t) == max_len(r1));
    if r2.len() > 0 {
        let i2 = choose|i: int| 0 <= i < r2.len() && max_len(r2) == #[trigger] r2[i].len();
        assert(r2[i2].len() <= MAX_DIM);
    }
    assert(canvas_width(t2) == max_len(r2));
    assert(indent + r1[above + i1 - above].len() <= r2[above + i1].len());
    assert(r2[above + i1].len() <= max_len(r2));
    let g1 = canvas(t);
    let g2 = canvas(t2);
    let w1 = canvas_width(t) as int;
    let w2 = canvas_width(t2) as int;
    assert forall|i: int, j: int| 0 <= i < g2.len() && 0 <= j < w2 implies #[trigger] g2[i][j] == (if above <= i
        < above + n1 && indent <= j < indent + w1 {
        g1[i - above][j - indent]
    } else {
        ' '
    }) by {
        assert(g2[i][j] == (if j < r2[i].len() {
            r2[i][j]
        } else {
            ' '
        }));
        if above <= i < above + n1 {
            let q = i - above;
            assert(r1[q].len() <= w1);
            if indent <= j < indent + w1 {
                assert(g1[q][j - indent] == (if j - indent < r1[q].len() {
                    r1[q][j - indent]
                } else {
                    ' '
                }));
            }
        } else {
            assert(r2[i].len() == 0);
        }
    }
}

/// Indentation and trailing blanks never change what is parsed: setting every
/// line of a tab-free text `indent` columns further right, adding spaces
/// after any line, and adding empty lines above and below gives the same art,
/// as long as the new text still fits within [`MAX_DIM`] lines of at most
/// [`MAX_DIM`] glyphs (beyond that the canvas is cut, and what is cut depends
/// on where the ink sits).
pub proof fn lemma_indentation_is_invisible(t: Seq<char>, indent: nat, trail: Seq<nat>, above: nat, below: nat)
    requires
        forall|k: int| 0 <= k < t.len() ==> t[k] != '\t',
        trail.len() == split_lines(t).len(),
        above + split_lines(t).len() + below <= MAX_DIM,
        forall|i: int|
            0 <= i < split_lines(t).len() ==> indent + split_lines(t)[i].len() + #[trigger] trail[i] <= MAX_DIM,
    ensures
        parsed_rows(reindented(t, indent, trail, above, below)) == parsed_rows(t),
        parsed_width(reindented(t, indent, trail, above, below)) == parsed_width(t),
{
    let t2 = reindented(t, indent, trail, above, below);
    lemma_reindent_canvas(t, indent, trail, above, below);
    let g1 = canvas(t);
    let g2 = canvas(t2);
    let n1 = g1.len() as int;
    let n2 = g2.len() as int;
    let w1 = canvas_width(t) as int;
    let w2 = canvas_width(t2) as int;
    let a = above as int;
    let k = indent as int;
    let pr1 = |i: int| row_has_ink(g1, i);
    let pr2 = |i: int| row_has_ink(g2, i);
    let pc1 = |j: int| col_has_ink(g1, j);
    let pc2 = |j: int| col_has_ink(g2, j);
    assert(spec_is_whitespace(' ')) by {
        assert((' ' as u32) == 32);
    }
    assert forall|i: int| 0 <= i < n2 implies #[trigger] pr2(i) == (a <= i < a + n1 && pr1(i - a)) by {
        if row_has_ink(g2, i) {
            let j = choose|j: int| 0 <= j < g2[i].len() && !spec_is_whitespace(#[trigger] g2[i][j]);
            assert(a <= i < a + n1 && k <= j < k + w1);
            assert(g2[i][j] == g1[i - a][j - k]);
            assert(row_has_ink(g1, i - a));
        }
        if a <= i < a + n1 && row_has_ink(g1, i - a) {
            let j = choose|j: int| 0 <= j < g1[i - a].len() && !spec_is_whitespace(#[trigger] g1[i - a][j]);
            assert(g2[i][j + k] == g1[i - a][j + k - k]);
            assert(row_has_ink(g2, i));
        }
    }
    assert forall|j: int| 0 <= j < w2 implies #[trigger] pc2(j) == (k <= j < k + w1 && pc1(j - k)) by {
        if col_has_ink(g2, j) {
            let i = choose|i: int| 0 <= i < g2.len() && !spec_is_whitespace(#[trigger] g2[i][j]);
            assert(a <= i < a + n1 && k <= j < k + w1);
            assert(g2[i][j] == g1[i - a][j - k]);
            assert(col_has_ink(g1, j - k));
        }
        if k <= j < k + w1 && col_has_ink(g1, j - k) {
            let i = choose|i: int| 0 <= i < g1.len() && !spec_is_whitespace(#[trigger] g1[i][j - k]);
            assert(g2[i + a][j] == g1[i + a - a][j - k]);
            assert(col_has_ink(g2, j));
        }
    }
    lemma_shifted_bounds(pr1, n1, pr2, n2, a);
    lemma_shifted_bounds(pc1, w1, pc2, w2, k);
    lemma_least_props(pr1, n1);
    lemma_greatest_props(pr1, n1);
    lemma_least_props(pc1, w1);
    lemma_greatest_props(pc1, w1);
    let top = least(pr1, n1);
    if top < n1 {
        assert(pr1(top));
        let j0 = choose|j: int| 0 <= j < g1[top].len() && !spec_is_whitespace(#[trigger] g1[top][j]);
        assert(pc1(j0));
        let left = least(pc1, w1);
        let right = greatest(pc1, w1);
        let bottom = greatest(pr1, n1);
        assert(left <= j0) by {
            if left > j0 {
                assert(!pc1(j0));
            }
        }
        assert(right >= j0) by {
            if right < j0 {
                assert(!pc1(j0));
            }
        }
        assert(bottom >= top) by {
            if bottom < top {
                assert(!pr1(top));
            }
        }
        let p1 = parsed_rows(t);
        let p2 = parsed_rows(t2);
        assert(p1.len() == p2.len());
        assert forall|i: int| 0 <= i < p1.len() implies #[trigger] p2[i] == p1[i] by {
            assert(p2[i] == g2[a + top + i].subrange(k + left, k + right + 1));
            assert(p1[i] == g1[top + i].subrange(left, right + 1));
            assert forall|j: int| 0 <= j < right + 1 - left implies p2[i][j] == p1[i][j] by {
                assert(g2[a + top + i][k + left + j] == g1[a + top + i - a][k + left + j - k]);
            }
            assert(p2[i] =~= p1[i]);
        }
        assert(p2 =~= p1);
    } else {
        assert(parsed_rows(t2) =~= parsed_rows(t));
    }
}

} // verus!
