//! The diffing reveal session: repaint only the cells that changed.
//!
//! A session remembers how every cell was last painted. Each frame walks the
//! visible rows, works out how each cell should look now, and emits a cursor
//! move and a repaint only where that differs from what is on screen, inside
//! one synchronized update.

use crate::art::Art;
use crate::frame::{lead_cols, paint_at, row, Paint};
use crate::loader::{op_text, ops_text, sync_begin, sync_end, TermOp};
use crate::render::{clip_len, fg_text, fits_budget, reset_text, sat_sub, spaces, Fg, Fit, Viewport};
use crate::term::move_to;
use vstd::prelude::*;

verus! {

/// How a cell was last painted.
#[derive(Clone, Copy, Debug, PartialEq, Eq, Structural)]
pub enum CellState {
    /// Blank: background, or ink not yet revealed.
    Hidden,
    /// Revealed ink at a brightness level (the highest level is settled).
    Lit(u8),
}

/// How the visible cells should look in the frame being painted.
pub struct PaintInput {
    /// One entry per cell, row-major: the cell is revealed.
    pub shown: Vec<bool>,
    /// One entry per cell: the brightness level a revealed cell shows at.
    pub levels: Vec<u8>,
    /// One entry per cell: the colour a revealed cell is painted in.
    pub colors: Vec<Option<Fg>>,
}

/// The state a cell should be in.
pub open spec fn target_state(p: Paint, level: u8) -> CellState {
    match p {
        Paint::Blank { .. } => CellState::Hidden,
        Paint::Ink { .. } => CellState::Lit(level),
    }
}

/// The text that repaints a cell into state `target`.
pub open spec fn repaint_text(p: Paint, color: Option<Fg>) -> Seq<char> {
    match p {
        Paint::Blank { cols } => spaces(cols as nat),
        Paint::Ink { glyph, .. } => (match color {
            Some(f) => fg_text(f),
            None => Seq::empty(),
        }).push(glyph),
    }
}

/// The steps emitted so far, the cells' states, and whether anything has
/// been repainted yet.
pub struct PaintState {
    pub ops: Seq<TermOp>,
    pub cells: Seq<CellState>,
    pub dirty: bool,
}

/// Visit cell `(x, y)`: repaint it if its state differs from what it should
/// be, opening the synchronized update on the first repaint.
pub open spec fn visit(st: PaintState, art: Art, shown: Seq<bool>, levels: Seq<u8>, colors: Seq<Option<Fg>>, fit: Fit, x: int, y: int) -> PaintState {
    let p = paint_at(art, shown, x, y);
    let idx = y * art.spec_width() + x;
    let target = target_state(p, levels[idx]);
    if st.cells[idx] == target {
        st
    } else {
        let opened = if st.dirty {
            st.ops
        } else {
            st.ops.push(TermOp::Text(sync_begin()))
        };
        PaintState {
            ops: opened.push(TermOp::At((fit.ox + lead_cols(art, y, x)) as nat, (fit.oy + y) as nat)).push(
                TermOp::Text(repaint_text(p, colors[idx])),
            ),
            cells: st.cells.update(idx, target),
            dirty: true,
        }
    }
}

/// The cells of row `y` as the shared walk gives them.
pub open spec fn row_cells(art: Art, shown: Seq<bool>, y: int) -> Seq<(u16, u16, Paint)> {
    Seq::new(art.spec_width() as nat, |x: int| (x as u16, lead_cols(art, y, x) as u16, paint_at(art, shown, x, y)))
}

/// Visit the first `n` cells of row `y`.
pub open spec fn visit_row(st: PaintState, art: Art, shown: Seq<bool>, levels: Seq<u8>, colors: Seq<Option<Fg>>, fit: Fit, y: int, n: int) -> PaintState
    decreases n,
{
    if n <= 0 {
        st
    } else {
        visit(visit_row(st, art, shown, levels, colors, fit, y, n - 1), art, shown, levels, colors, fit, n - 1, y)
    }
}

/// Visit the cells of the first `m` rows that fit the visible columns.
pub open spec fn visit_rows(st: PaintState, art: Art, shown: Seq<bool>, levels: Seq<u8>, colors: Seq<Option<Fg>>, fit: Fit, m: int) -> PaintState
    decreases m,
{
    if m <= 0 {
        st
    } else {
        let before = visit_rows(st, art, shown, levels, colors, fit, m - 1);
        visit_row(before, art, shown, levels, colors, fit, m - 1, clip_len(row_cells(art, shown, m - 1), fit.cols, 0))
    }
}

/// One diffed frame from cell states `cells`: the steps it emits (closed
/// with a colour reset and the end of the synchronized update when anything
/// was repainted) and the states afterwards.
pub open spec fn paint_frame(cells: Seq<CellState>, art: Art, shown: Seq<bool>, levels: Seq<u8>, colors: Seq<Option<Fg>>, fit: Fit) -> (Seq<TermOp>, Seq<CellState>) {
    let end = visit_rows(PaintState { ops: Seq::empty(), cells, dirty: false }, art, shown, levels, colors, fit, fit.rows as int);
    if end.dirty {
        (end.ops.push(TermOp::Text(reset_text())).push(TermOp::Text(sync_end())), end.cells)
    } else {
        (end.ops, end.cells)
    }
}

proof fn lemma_push_op(ops: Seq<TermOp>, op: TermOp)
    ensures
        ops_text(ops.push(op)) == ops_text(ops) + op_text(op),
{
    assert(ops.push(op).drop_last() =~= ops);
}

fn push_text(s: &mut String, t: &String)
    ensures
        final(s)@ == old(s)@ + t@,
{
    s.append(t.as_str());
}

fn push_sync(out: &mut String, begin: bool)
    ensures
        final(out)@ == old(out)@ + (if begin { sync_begin() } else { sync_end() }),
{
    let ghost start = out@;
    crate::text::push_char(out, '\u{1b}');
    crate::text::push_char(out, '[');
    crate::text::push_char(out, '?');
    crate::text::push_char(out, '2');
    crate::text::push_char(out, '0');
    crate::text::push_char(out, '2');
    crate::text::push_char(out, '6');
    crate::text::push_char(out, if begin { 'h' } else { 'l' });
    proof {
        assert(out@ =~= start + (if begin { sync_begin() } else { sync_end() }));
    }
}

/// Paint one diffed frame: walk the rows that fit `fit`, stop each row at
/// the first cell that would cross the visible columns, and repaint exactly
/// the cells whose state changed, updating `state`. Returns the bytes, empty
/// when nothing changed.
pub fn paint(state: &mut Vec<CellState>, art: &Art, input: &PaintInput, viewport: Viewport, fit: Fit) -> (s: String)
    requires
        old(state).len() == art.spec_width() * art.spec_height(),
        input.shown.len() == art.spec_width() * art.spec_height(),
        input.levels.len() == art.spec_width() * art.spec_height(),
        input.colors.len() == art.spec_width() * art.spec_height(),
        fit.rows <= art.spec_height(),
        fit.ox + fit.cols <= viewport.cols,
        fit.oy + fit.rows <= viewport.rows,
        viewport.cols < 65535,
        viewport.rows < 65535,
    ensures
        ({
            let (ops, cells) = paint_frame(old(state)@, *art, input.shown@, input.levels@, input.colors@, fit);
            &&& s@ == ops_text(ops)
            &&& final(state)@ == cells
        }),
        final(state).len() == old(state).len(),
{
    let ghost g = PaintState { ops: Seq::empty(), cells: state@, dirty: false };
    let ghost (sh, lv, co) = (input.shown@, input.levels@, input.colors@);
    let mut out = String::new();
    let mut dirty = false;
    let ghost mut ops: Seq<TermOp> = Seq::empty();
    let w = art.width();
    let mut y: u16 = 0;
    while y < fit.rows
        invariant
            y <= fit.rows <= art.spec_height(),
            w == art.spec_width(),
            state.len() == art.spec_width() * art.spec_height(),
            input.shown.len() == art.spec_width() * art.spec_height(),
            input.levels.len() == art.spec_width() * art.spec_height(),
            input.colors.len() == art.spec_width() * art.spec_height(),
            sh == input.shown@,
            lv == input.levels@,
            co == input.colors@,
            fit.ox + fit.cols <= viewport.cols,
            fit.oy + fit.rows <= viewport.rows,
            viewport.cols < 65535,
            viewport.rows < 65535,
            visit_rows(g, *art, sh, lv, co, fit, y as int) == (PaintState { ops, cells: state@, dirty }),
            out@ == ops_text(ops),
        decreases fit.rows - y,
    {
        let cells = row(art, &input.shown, y);
        proof {
            assert(cells@ =~= row_cells(*art, sh, y as int));
        }
        let ghost row_start = PaintState { ops, cells: state@, dirty };
        let mut x: usize = 0;
        loop
            invariant_except_break
                y < fit.rows <= art.spec_height(),
                w == art.spec_width(),
                cells.len() == w,
                cells@ == row_cells(*art, sh, y as int),
                x <= cells.len(),
                state.len() == art.spec_width() * art.spec_height(),
                input.shown.len() == art.spec_width() * art.spec_height(),
                input.levels.len() == art.spec_width() * art.spec_height(),
                input.colors.len() == art.spec_width() * art.spec_height(),
                sh == input.shown@,
                lv == input.levels@,
                co == input.colors@,
                fit.ox + fit.cols <= viewport.cols,
                fit.oy + fit.rows <= viewport.rows,
                viewport.cols < 65535,
                viewport.rows < 65535,
                forall|k: int| 0 <= k < x ==> fits_budget(cells@[k].1, cells@[k].2.spec_cols(), fit.cols),
                visit_row(row_start, *art, sh, lv, co, fit, y as int, x as int) == (PaintState { ops, cells: state@, dirty }),
                out@ == ops_text(ops),
            ensures
                state.len() == art.spec_width() * art.spec_height(),
                visit_row(row_start, *art, sh, lv, co, fit, y as int, clip_len(cells@, fit.cols, 0)) == (PaintState { ops, cells: state@, dirty }),
                out@ == ops_text(ops),
            decreases cells.len() - x,
        {
            if x == cells.len() {
                proof {
                    lemma_clip_from(cells@, fit.cols, x as int);
                }
                break;
            }
            let (cx, at, p) = cells[x];
            let c = p.cols();
            let end: u32 = if at as u32 + c as u32 > 65535 {
                65535
            } else {
                at as u32 + c as u32
            };
            if end > fit.cols as u32 {
                proof {
                    lemma_clip_from(cells@, fit.cols, x as int);
                }
                break;
            }
            proof {
                crate::grid::lemma_cell(w as int, x as int, y as int);
                assert(y * w + x < w * art.spec_height()) by (nonlinear_arith)
                    requires
                        x < w,
                        y < art.spec_height(),
                ;
            }
            let idx = art.index(x as u16, y);
            let target = match p {
                Paint::Blank { .. } => CellState::Hidden,
                Paint::Ink { .. } => CellState::Lit(input.levels[idx]),
            };
            let ghost before = PaintState { ops, cells: state@, dirty };
            if state[idx] != target {
                if !dirty {
                    push_sync(&mut out, true);
                    proof {
                        lemma_push_op(ops, TermOp::Text(sync_begin()));
                        ops = ops.push(TermOp::Text(sync_begin()));
                    }
                    dirty = true;
                }
                let mv = move_to(fit.ox + at, fit.oy + y);
                push_text(&mut out, &mv);
                proof {
                    let op = TermOp::At((fit.ox + lead_cols(*art, y as int, x as int)) as nat, (fit.oy + y) as nat);
                    lemma_push_op(ops, op);
                    ops = ops.push(op);
                }
                let ghost text_start = out@;
                match p {
                    Paint::Blank { cols } => {
                        let mut k: u16 = 0;
                        while k < cols
                            invariant
                                k <= cols,
                                out@ == text_start + spaces(k as nat),
                            decreases cols - k,
                        {
                            crate::text::push_char(&mut out, ' ');
                            proof {
                                assert(text_start + spaces((k + 1) as nat) =~= (text_start + spaces(k as nat)).push(' '));
                            }
                            k += 1;
                        }
                    },
                    Paint::Ink { glyph, .. } => {
                        match input.colors[idx] {
                            Some(f) => crate::render::push_fg(&mut out, f),
                            None => {},
                        }
                        crate::text::push_char(&mut out, glyph);
                    },
                }
                proof {
                    let op = TermOp::Text(repaint_text(p, co[idx as int]));
                    assert(out@ =~= text_start + repaint_text(p, co[idx as int]));
                    lemma_push_op(ops, op);
                    ops = ops.push(op);
                }
                state.set(idx, target);
            }
            proof {
                assert(visit(before, *art, sh, lv, co, fit, x as int, y as int) == (PaintState { ops, cells: state@, dirty }));
            }
            x += 1;
        }
        y += 1;
    }
    if dirty {
        let ghost before = ops;
        crate::render::push_reset(&mut out);
        proof {
            lemma_push_op(ops, TermOp::Text(reset_text()));
            ops = ops.push(TermOp::Text(reset_text()));
        }
        push_sync(&mut out, false);
        proof {
            lemma_push_op(ops, TermOp::Text(sync_end()));
            ops = ops.push(TermOp::Text(sync_end()));
        }
    }
    out
}

/// A diffing reveal session: how every cell was last painted, the viewport
/// as of the last frame, and where the art sits in it.
pub struct Session {
    pub state: Vec<CellState>,
    pub viewport: Viewport,
    pub fit: Fit,
}

impl Session {
    /// The session matches `art`: one state per cell, the art placed in the
    /// viewport it remembers, and a viewport the cursor can address.
    pub open spec fn wf(&self, art: Art) -> bool {
        &&& self.state.len() == art.spec_width() * art.spec_height()
        &&& self.fit == self.viewport.fit_spec(art, 0)
        &&& self.viewport.cols < 65535
        &&& self.viewport.rows < 65535
    }

    /// A session over a blank screen: nothing painted yet, the art centred in
    /// `viewport`.
    pub fn new(art: &Art, viewport: Viewport) -> (s: Session)
        requires
            viewport.cols < 65535,
            viewport.rows < 65535,
        ensures
            s.wf(*art),
            s.viewport == viewport,
            forall|i: int| 0 <= i < s.state.len() ==> s.state[i] == CellState::Hidden,
    {
        let n = art.cell_count();
        let mut state: Vec<CellState> = Vec::new();
        let mut i: usize = 0;
        while i < n
            invariant
                i <= n,
                state.len() == i,
                forall|j: int| 0 <= j < i ==> state[j] == CellState::Hidden,
            decreases n - i,
        {
            state.push(CellState::Hidden);
            i += 1;
        }
        Session { state, viewport, fit: viewport.fit(art, 0) }
    }

    /// Take in the viewport read before a frame. A resize invalidates every
    /// cached cell position, so the art is placed anew and the diff starts
    /// over from a blank screen; the caller clears the screen when this
    /// returns `true`. An unchanged viewport changes nothing.
    pub fn resize(&mut self, art: &Art, now: Viewport) -> (changed: bool)
        requires
            old(self).wf(*art),
            now.cols < 65535,
            now.rows < 65535,
        ensures
            final(self).wf(*art),
            changed == (now != old(self).viewport),
            changed ==> final(self).viewport == now && forall|i: int|
                0 <= i < final(self).state.len() ==> final(self).state[i] == CellState::Hidden,
            !changed ==> final(self).viewport == old(self).viewport && final(self).fit == old(self).fit
                && final(self).state@ == old(self).state@,
    {
        if now == self.viewport {
            return false;
        }
        *self = Session::new(art, now);
        true
    }

    /// Paint the frame `input` describes, repainting only the cells whose
    /// state changed since the last frame.
    pub fn paint(&mut self, art: &Art, input: &PaintInput) -> (s: String)
        requires
            old(self).wf(*art),
            input.shown.len() == art.spec_width() * art.spec_height(),
            input.levels.len() == art.spec_width() * art.spec_height(),
            input.colors.len() == art.spec_width() * art.spec_height(),
        ensures
            final(self).wf(*art),
            final(self).viewport == old(self).viewport,
            ({
                let (ops, cells) = paint_frame(
                    old(self).state@,
                    *art,
                    input.shown@,
                    input.levels@,
                    input.colors@,
                    old(self).fit,
                );
                &&& s@ == ops_text(ops)
                &&& final(self).state@ == cells
            }),
    {
        let viewport = self.viewport;
        let fit = self.fit;
        proof {
            let f = viewport.fit_spec(*art, 0);
            assert(f.ox + f.cols <= viewport.cols && f.oy + f.rows <= viewport.rows);
        }
        paint(&mut self.state, art, input, viewport, fit)
    }
}

/// The walk of a row stops within the row.
proof fn lemma_clip_range(cells: Seq<(u16, u16, Paint)>, budget: u16, i: int)
    requires
        0 <= i <= cells.len(),
    ensures
        i <= clip_len(cells, budget, i) <= cells.len(),
    decreases cells.len() - i,
{
    if i < cells.len() && fits_budget(cells[i].1, cells[i].2.spec_cols(), budget) {
        lemma_clip_range(cells, budget, i + 1);
    }
}

/// Cells `0..n` of row `y` hold the state this frame asks of them.
pub open spec fn row_settled(cells: Seq<CellState>, art: Art, shown: Seq<bool>, levels: Seq<u8>, y: int, n: int) -> bool {
    forall|x: int|
        0 <= x < n ==> #[trigger] cells[y * art.spec_width() + x] == target_state(
            paint_at(art, shown, x, y),
            levels[y * art.spec_width() + x],
        )
}

/// Every cell a frame visits in its first `m` rows holds the state the frame
/// asks of it.
pub open spec fn rows_settled(cells: Seq<CellState>, art: Art, shown: Seq<bool>, levels: Seq<u8>, fit: Fit, m: int) -> bool {
    forall|y: int|
        0 <= y < m ==> #[trigger] row_settled(cells, art, shown, levels, y, clip_len(row_cells(art, shown, y), fit.cols, 0))
}

/// Visiting the first `n` cells of row `y` settles them and touches no other
/// cell.
proof fn lemma_visit_row_settles(
    st: PaintState,
    art: Art,
    shown: Seq<bool>,
    levels: Seq<u8>,
    colors: Seq<Option<Fg>>,
    fit: Fit,
    y: int,
    n: int,
)
    requires
        st.cells.len() == art.spec_width() * art.spec_height(),
        levels.len() == st.cells.len(),
        0 <= y < art.spec_height(),
        0 <= n <= art.spec_width(),
    ensures
        visit_row(st, art, shown, levels, colors, fit, y, n).cells.len() == st.cells.len(),
        row_settled(visit_row(st, art, shown, levels, colors, fit, y, n).cells, art, shown, levels, y, n),
        forall|i: int|
            0 <= i < st.cells.len() && !(y * art.spec_width() <= i < y * art.spec_width() + n)
                ==> #[trigger] visit_row(st, art, shown, levels, colors, fit, y, n).cells[i] == st.cells[i],
    decreases n,
{
    let w = art.spec_width() as int;
    if n > 0 {
        lemma_visit_row_settles(st, art, shown, levels, colors, fit, y, n - 1);
        let prev = visit_row(st, art, shown, levels, colors, fit, y, n - 1);
        let idx = y * w + (n - 1);
        assert(y * w + (n - 1) < w * art.spec_height()) by (nonlinear_arith)
            requires
                0 <= n - 1 < w,
                0 <= y < art.spec_height(),
        ;
        let target = target_state(paint_at(art, shown, n - 1, y), levels[idx]);
        let next = visit_row(st, art, shown, levels, colors, fit, y, n);
        assert(next.cells =~= prev.cells.update(idx, target));
    }
}

/// Visiting the first `m` rows settles every cell they visit.
proof fn lemma_visit_rows_settles(
    st: PaintState,
    art: Art,
    shown: Seq<bool>,
    levels: Seq<u8>,
    colors: Seq<Option<Fg>>,
    fit: Fit,
    m: int,
)
    requires
        st.cells.len() == art.spec_width() * art.spec_height(),
        levels.len() == st.cells.len(),
        0 <= m <= art.spec_height(),
    ensures
        visit_rows(st, art, shown, levels, colors, fit, m).cells.len() == st.cells.len(),
        rows_settled(visit_rows(st, art, shown, levels, colors, fit, m).cells, art, shown, levels, fit, m),
    decreases m,
{
    let w = art.spec_width() as int;
    if m > 0 {
        lemma_visit_rows_settles(st, art, shown, levels, colors, fit, m - 1);
        let before = visit_rows(st, art, shown, levels, colors, fit, m - 1);
        let n = clip_len(row_cells(art, shown, m - 1), fit.cols, 0);
        lemma_clip_range(row_cells(art, shown, m - 1), fit.cols, 0);
        lemma_visit_row_settles(before, art, shown, levels, colors, fit, m - 1, n);
        let after = visit_rows(st, art, shown, levels, colors, fit, m);
        assert forall|y: int| 0 <= y < m implies #[trigger] row_settled(
            after.cells,
            art,
            shown,
            levels,
            y,
            clip_len(row_cells(art, shown, y), fit.cols, 0),
        ) by {
            if y < m - 1 {
                let k = clip_len(row_cells(art, shown, y), fit.cols, 0);
                lemma_clip_range(row_cells(art, shown, y), fit.cols, 0);
                assert(row_settled(before.cells, art, shown, levels, y, k));
                assert forall|x: int| 0 <= x < k implies #[trigger] after.cells[y * w + x] == before.cells[y * w + x] by {
                    assert(y * w + x < (m - 1) * w) by (nonlinear_arith)
                        requires
                            0 <= x < w,
                            0 <= y < m - 1,
                    ;
                    assert(y * w + x < w * art.spec_height()) by (nonlinear_arith)
                        requires
                            0 <= x < w,
                            0 <= y < art.spec_height(),
                    ;
                }
            }
        }
    }
}

/// Visiting settled cells changes nothing.
proof fn lemma_visit_row_quiet(
    st: PaintState,
    art: Art,
    shown: Seq<bool>,
    levels: Seq<u8>,
    colors: Seq<Option<Fg>>,
    fit: Fit,
    y: int,
    n: int,
)
    requires
        row_settled(st.cells, art, shown, levels, y, n),
        0 <= n,
    ensures
        visit_row(st, art, shown, levels, colors, fit, y, n) == st,
    decreases n,
{
    if n > 0 {
        lemma_visit_row_quiet(st, art, shown, levels, colors, fit, y, n - 1);
        let idx = y * art.spec_width() + (n - 1);
        assert(st.cells[idx] == target_state(paint_at(art, shown, n - 1, y), levels[idx]));
    }
}

/// Visiting rows whose cells are all settled changes nothing.
proof fn lemma_visit_rows_quiet(
    st: PaintState,
    art: Art,
    shown: Seq<bool>,
    levels: Seq<u8>,
    colors: Seq<Option<Fg>>,
    fit: Fit,
    m: int,
)
    requires
        rows_settled(st.cells, art, shown, levels, fit, m),
        0 <= m,
    ensures
        visit_rows(st, art, shown, levels, colors, fit, m) == st,
    decreases m,
{
    if m > 0 {
        lemma_visit_rows_quiet(st, art, shown, levels, colors, fit, m - 1);
        let n = clip_len(row_cells(art, shown, m - 1), fit.cols, 0);
        assert(row_settled(st.cells, art, shown, levels, m - 1, n));
        lemma_clip_range(row_cells(art, shown, m - 1), fit.cols, 0);
        lemma_visit_row_quiet(st, art, shown, levels, colors, fit, m - 1, n);
    }
}

/// Painting a frame leaves the screen showing it: painting the same frame
/// again emits nothing and changes no cell state.
pub proof fn lemma_repaint_is_quiet(
    cells: Seq<CellState>,
    art: Art,
    shown: Seq<bool>,
    levels: Seq<u8>,
    colors: Seq<Option<Fg>>,
    fit: Fit,
)
    requires
        cells.len() == art.spec_width() * art.spec_height(),
        levels.len() == cells.len(),
        fit.rows <= art.spec_height(),
    ensures
        ({
            let after = paint_frame(cells, art, shown, levels, colors, fit).1;
            paint_frame(after, art, shown, levels, colors, fit) == (Seq::<TermOp>::empty(), after)
        }),
{
    let start = PaintState { ops: Seq::empty(), cells, dirty: false };
    lemma_visit_rows_settles(start, art, shown, levels, colors, fit, fit.rows as int);
    let after = paint_frame(cells, art, shown, levels, colors, fit).1;
    let again = PaintState { ops: Seq::empty(), cells: after, dirty: false };
    lemma_visit_rows_quiet(again, art, shown, levels, colors, fit, fit.rows as int);
}

proof fn lemma_clip_from(cells: Seq<(u16, u16, Paint)>, budget: u16, i: int)
    requires
        0 <= i <= cells.len(),
        forall|k: int| 0 <= k < i ==> fits_budget(cells[k].1, cells[k].2.spec_cols(), budget),
        i == cells.len() || !fits_budget(cells[i].1, cells[i].2.spec_cols(), budget),
    ensures
        clip_len(cells, budget, 0) == i,
    decreases i,
{
    lemma_clip_prefix(cells, budget, i);
}

proof fn lemma_clip_prefix(cells: Seq<(u16, u16, Paint)>, budget: u16, i: int)
    requires
        0 <= i <= cells.len(),
        forall|k: int| 0 <= k < i ==> fits_budget(cells[k].1, cells[k].2.spec_cols(), budget),
    ensures
        clip_len(cells, budget, 0) == clip_len(cells, budget, i),
    decreases i,
{
    if i > 0 {
        lemma_clip_prefix(cells, budget, i - 1);
    }
}

} // verus!
