//! The live loader's frame: how one frame of the reveal and its caption are
//! laid out on the terminal, in the flow of the output or in the alternate
//! screen.
//!
//! A frame is a short program of cursor moves, clears and text. The inline
//! placement keeps the block in the flow of the terminal, so each frame must
//! step back over exactly what the previous one drew; [`lemma_inline_frame_lands`]
//! states that it does.

use crate::art::Art;
use crate::frame::{row, row_paints, widest};
use crate::render::{fg_text, quantized, queue_row, reset_text, row_text, ColorDepth, Fg, Fit, Viewport};
use crate::term::{clear, clear_text, csi, move_to, move_to_column, move_to_next_line, move_to_previous_line, ClearKind};
use crate::text::decimal;
use crate::width::{fits_prefix, truncate_to_cols};
use vstd::prelude::*;

verus! {

/// How the block is positioned on screen.
#[derive(Clone, Copy, Debug, PartialEq, Eq, Structural)]
pub enum Placement {
    /// In the flow of the terminal, so the next output follows below it.
    Inline,
    /// Absolutely positioned in the alternate screen, for art too tall to
    /// inline.
    Fullscreen,
}

/// Inline while the art and its caption fit the viewport: its rows plus two,
/// and its widest row; the alternate screen otherwise.
pub open spec fn placement_for(art: Art, viewport: Viewport) -> Placement {
    if viewport.rows >= art.spec_height() + 2 && viewport.cols >= widest(art, art.spec_height() as int) {
        Placement::Inline
    } else {
        Placement::Fullscreen
    }
}

/// Animate inline while the picture and its caption fit the viewport; fall
/// back to the alternate screen only when the art will not fit.
pub fn choose_placement(art: &Art, viewport: Viewport) -> (p: Placement)
    ensures
        p == placement_for(*art, viewport),
{
    let fits_height = viewport.rows as u32 >= art.height() as u32 + 2;
    let fits_width = viewport.cols >= crate::frame::art_cols(art);
    if fits_height && fits_width {
        Placement::Inline
    } else {
        Placement::Fullscreen
    }
}

/// What the render loop does after the terminal changed size.
#[derive(Clone, Copy, Debug, PartialEq, Eq, Structural)]
pub struct Reflow {
    /// The placement to draw in from now on.
    pub placement: Placement,
    /// Leave the old placement and enter the new one first.
    pub switch: bool,
    /// Clear the alternate screen before the next frame.
    pub clear: bool,
}

/// How the render loop reacts to the viewport it reads before each frame:
/// nothing while the size holds; after a resize, the placement the new size
/// calls for, a switch when that differs from the current one, and a clear
/// when the new placement is the alternate screen. Either way after a resize
/// the block drawn so far is no longer on screen to step back over.
pub fn reflow(art: &Art, placement: Placement, before: Viewport, now: Viewport) -> (r: Option<Reflow>)
    ensures
        now == before ==> r is None,
        now != before ==> r == Some(
            Reflow {
                placement: placement_for(*art, now),
                switch: placement_for(*art, now) != placement,
                clear: placement_for(*art, now) == Placement::Fullscreen,
            },
        ),
{
    if now == before {
        return None;
    }
    let next = choose_placement(art, now);
    Some(Reflow { placement: next, switch: next != placement, clear: next == Placement::Fullscreen })
}

/// How a finished loader leaves its art.
#[derive(Clone, Copy, Debug, PartialEq, Eq, Structural)]
pub enum Ending {
    /// Keep the finished art on screen.
    Keep,
    /// Remove the art, leaving the terminal as it was before.
    Clear,
}

/// The last thing the render loop does.
#[derive(Clone, Copy, Debug, PartialEq, Eq, Structural)]
pub enum Farewell {
    /// Leave the alternate screen, then print the finished art into the
    /// normal screen.
    LeaveAndPersist,
    /// Leave the alternate screen.
    Leave,
    /// Erase the inline block and show the cursor.
    Erase,
    /// Leave the inline block in place, park the cursor below it and show it.
    ParkBelow,
}

/// The farewell for a placement and an ending: the alternate screen is
/// always left (the finished art is printed into the normal screen when it is
/// kept); an inline block is erased or left in place with the cursor below.
pub fn farewell(placement: Placement, ending: Ending) -> (f: Farewell)
    ensures
        f == match (placement, ending) {
            (Placement::Fullscreen, Ending::Keep) => Farewell::LeaveAndPersist,
            (Placement::Fullscreen, Ending::Clear) => Farewell::Leave,
            (Placement::Inline, Ending::Clear) => Farewell::Erase,
            (Placement::Inline, Ending::Keep) => Farewell::ParkBelow,
        },
{
    match (placement, ending) {
        (Placement::Fullscreen, Ending::Keep) => Farewell::LeaveAndPersist,
        (Placement::Fullscreen, Ending::Clear) => Farewell::Leave,
        (Placement::Inline, Ending::Clear) => Farewell::Erase,
        (Placement::Inline, Ending::Keep) => Farewell::ParkBelow,
    }
}

/// One step of a frame.
pub enum TermOp {
    /// Literal text.
    Text(Seq<char>),
    /// Up `n` lines, to the first column.
    Up(nat),
    /// Down `n` lines, to the first column.
    Down(nat),
    /// To column `c` of the current line.
    Column(nat),
    /// To column `x` of row `y` of the screen.
    At(nat, nat),
    /// Erase to the end of the line.
    ClearToEnd,
    /// Erase the whole line.
    ClearLine,
}

/// The bytes of one step, as crossterm writes them.
pub open spec fn op_text(op: TermOp) -> Seq<char> {
    match op {
        TermOp::Text(t) => t,
        TermOp::Up(n) => csi() + decimal(n) + seq!['F'],
        TermOp::Down(n) => csi() + decimal(n) + seq!['E'],
        TermOp::Column(c) => csi() + decimal(c + 1) + seq!['G'],
        TermOp::At(x, y) => csi() + decimal(y + 1) + seq![';'] + decimal(x + 1) + seq!['H'],
        TermOp::ClearToEnd => clear_text(ClearKind::UntilNewLine),
        TermOp::ClearLine => clear_text(ClearKind::CurrentLine),
    }
}

/// The bytes of a sequence of steps.
pub open spec fn ops_text(ops: Seq<TermOp>) -> Seq<char>
    decreases ops.len(),
{
    if ops.len() == 0 {
        Seq::empty()
    } else {
        ops_text(ops.drop_last()) + op_text(ops.last())
    }
}

/// Lines a sequence of relative steps moves the cursor down (negative for
/// up).
pub open spec fn net_down(ops: Seq<TermOp>) -> int
    decreases ops.len(),
{
    if ops.len() == 0 {
        0
    } else {
        net_down(ops.drop_last()) + match ops.last() {
            TermOp::Up(n) => -(n as int),
            TermOp::Down(n) => n as int,
            _ => 0,
        }
    }
}

/// No step moves the cursor to an absolute position.
pub open spec fn relative(ops: Seq<TermOp>) -> bool {
    forall|i: int| 0 <= i < ops.len() ==> !(ops[i] is At)
}

/// Begin and end of synchronized output (DEC private mode 2026): a terminal
/// that understands it presents everything between as one update.
pub open spec fn sync_begin() -> Seq<char> {
    csi() + seq!['?', '2', '0', '2', '6', 'h']
}

pub open spec fn sync_end() -> Seq<char> {
    csi() + seq!['?', '2', '0', '2', '6', 'l']
}

/// The steps that draw art row `y`.
pub open spec fn row_ops(placement: Placement, fit: Fit, y: int, text: Seq<char>) -> Seq<TermOp> {
    match placement {
        Placement::Fullscreen => seq![TermOp::At(fit.ox as nat, (fit.oy + y) as nat), TermOp::ClearToEnd, TermOp::Text(text)],
        Placement::Inline => seq![TermOp::Column(0), TermOp::ClearToEnd, TermOp::Text(text), TermOp::Down(1)],
    }
}

/// The steps that draw the first `n` art rows, given the text of each.
pub open spec fn rows_ops(placement: Placement, fit: Fit, texts: Seq<Seq<char>>, n: int) -> Seq<TermOp>
    decreases n,
{
    if n <= 0 {
        Seq::empty()
    } else {
        rows_ops(placement, fit, texts, n - 1) + row_ops(placement, fit, n - 1, texts[n - 1])
    }
}

/// The caption line: the message cut to fit (`shown`), in the caption
/// colour. Whether anything is written is decided by the message itself, so a
/// message cut to nothing still writes its colour and the reset.
pub open spec fn caption_ops(
    placement: Placement,
    fit: Fit,
    message: Seq<char>,
    shown: Seq<char>,
    color: Option<Fg>,
) -> Seq<TermOp> {
    let go = match placement {
        Placement::Fullscreen => TermOp::At(fit.ox as nat, (fit.oy + fit.rows) as nat),
        Placement::Inline => TermOp::Column(0),
    };
    let text = if message.len() == 0 {
        Seq::empty()
    } else {
        match color {
            Some(c) => fg_text(c) + shown + reset_text(),
            None => shown,
        }
    };
    seq![go, TermOp::ClearToEnd, TermOp::Text(text)]
}

/// Every step of one frame: synchronized output around a step back over the
/// previous inline block, the art rows, and the caption.
pub open spec fn frame_ops(
    placement: Placement,
    fit: Fit,
    previous: u16,
    texts: Seq<Seq<char>>,
    message: Seq<char>,
    shown: Seq<char>,
    color: Option<Fg>,
) -> Seq<TermOp> {
    let back = if placement == Placement::Inline && previous > 1 {
        seq![TermOp::Up((previous - 1) as nat)]
    } else {
        Seq::empty()
    };
    seq![TermOp::Text(sync_begin())] + back + rows_ops(placement, fit, texts, fit.rows as int) + caption_ops(
        placement,
        fit,
        message,
        shown,
        color,
    ) + seq![TermOp::Text(sync_end())]
}

proof fn lemma_ops_text_append(a: Seq<TermOp>, b: Seq<TermOp>)
    ensures
        ops_text(a + b) == ops_text(a) + ops_text(b),
    decreases b.len(),
{
    if b.len() == 0 {
        assert(a + b =~= a);
    } else {
        lemma_ops_text_append(a, b.drop_last());
        assert((a + b).drop_last() =~= a + b.drop_last());
    }
}

proof fn lemma_net_down_append(a: Seq<TermOp>, b: Seq<TermOp>)
    ensures
        net_down(a + b) == net_down(a) + net_down(b),
    decreases b.len(),
{
    if b.len() == 0 {
        assert(a + b =~= a);
    } else {
        lemma_net_down_append(a, b.drop_last());
        assert((a + b).drop_last() =~= a + b.drop_last());
    }
}

proof fn lemma_push_op(ops: Seq<TermOp>, op: TermOp)
    ensures
        ops_text(ops.push(op)) == ops_text(ops) + op_text(op),
{
    assert(ops.push(op).drop_last() =~= ops);
}

proof fn lemma_single_op(op: TermOp)
    ensures
        ops_text(seq![op]) == op_text(op),
{
    lemma_push_op(Seq::empty(), op);
    assert(Seq::<TermOp>::empty().push(op) =~= seq![op]);
}

proof fn lemma_frame_parts(a: Seq<TermOp>, b: Seq<TermOp>, c: Seq<TermOp>, d: Seq<TermOp>, e: Seq<TermOp>)
    ensures
        ops_text(a + b + c + d + e) == ops_text(a) + ops_text(b) + ops_text(c) + ops_text(d) + ops_text(e),
{
    lemma_ops_text_append(a, b);
    lemma_ops_text_append(a + b, c);
    lemma_ops_text_append(a + b + c, d);
    lemma_ops_text_append(a + b + c + d, e);
}

/// Appends the start (`begin`) or end of synchronized output to `out`.
fn push_sync(out: &mut String, begin: bool)
    ensures
        final(out)@ == old(out)@ + ops_text(seq![TermOp::Text(if begin { sync_begin() } else { sync_end() })]),
{
    let ghost start = out@;
    crate::text::push_char(out, '\u{1b}');
    crate::text::push_char(out, '[');
    crate::text::push_char(out, '?');
    crate::text::push_char(out, '2');
    crate::text::push_char(out, '0');
    crate::text::push_char(out, '2');
    crate::text::push_char(out, '6');
    crate::text::push_char(out, if begin { 'h' } else { 'l' });
    proof {
        lemma_single_op(TermOp::Text(if begin { sync_begin() } else { sync_end() }));
        assert(out@ =~= start + (if begin { sync_begin() } else { sync_end() }));
    }
}

/// Appends `t` to `s`.
fn push_text(s: &mut String, t: &String)
    ensures
        final(s)@ == old(s)@ + t@,
{
    s.append(t.as_str());
}

/// Everything [`draw`] needs from the reveal besides the art: which cells
/// are showing, and the colour of each row's ink.
pub struct FrameInput {
    /// One entry per cell of the art, row-major: the cell is revealed.
    pub shown: Vec<bool>,
    /// For each visible art row, the colour of the ink in each grid column.
    pub colors: Vec<Vec<Option<Fg>>>,
}

/// The text of row `y` of the art as the row writer draws it.
pub open spec fn art_row_text(art: Art, shown: Seq<bool>, colors: Seq<Option<Fg>>, y: int, budget: u16) -> Seq<char> {
    row_text(
        Seq::new(
            art.spec_width() as nat,
            |x: int| (x as u16, crate::frame::lead_cols(art, y, x) as u16, crate::frame::paint_at(art, shown, x, y)),
        ),
        colors,
        budget,
    )
}

/// Appends the art rows of a frame to `out`.
fn push_rows(
    out: &mut String,
    art: &Art,
    input: &FrameInput,
    viewport: Viewport,
    fit: Fit,
    placement: Placement,
    Ghost(texts): Ghost<Seq<Seq<char>>>,
)
    requires
        fit == viewport.fit_spec(*art, 1),
        fit.oy + fit.rows <= viewport.rows,
        fit.ox + fit.cols <= viewport.cols,
        input.shown.len() == art.spec_width() * art.spec_height(),
        input.colors.len() >= fit.rows,
        forall|y: int| 0 <= y < input.colors.len() ==> #[trigger] input.colors[y].len() == art.spec_width(),
        placement == Placement::Fullscreen ==> viewport.cols < 65535 && viewport.rows < 65535,
        texts == Seq::new(fit.rows as nat, |y: int| art_row_text(*art, input.shown@, input.colors[y]@, y, fit.cols)),
    ensures
        final(out)@ == old(out)@ + ops_text(rows_ops(placement, fit, texts, fit.rows as int)),
{
    let ghost start = out@;
    let ghost mut ops: Seq<TermOp> = Seq::empty();
    let mut y: u16 = 0;
    while y < fit.rows
        invariant
            y <= fit.rows,
            fit == viewport.fit_spec(*art, 1),
            fit.oy + fit.rows <= viewport.rows,
            fit.ox + fit.cols <= viewport.cols,
            input.shown.len() == art.spec_width() * art.spec_height(),
            input.colors.len() >= fit.rows,
            forall|yy: int| 0 <= yy < input.colors.len() ==> #[trigger] input.colors[yy].len() == art.spec_width(),
            placement == Placement::Fullscreen ==> viewport.cols < 65535 && viewport.rows < 65535,
            texts == Seq::new(
                fit.rows as nat,
                |y: int| art_row_text(*art, input.shown@, input.colors[y]@, y, fit.cols),
            ),
            ops == rows_ops(placement, fit, texts, y as int),
            out@ == start + ops_text(ops),
        decreases fit.rows - y,
    {
        let ghost before = ops;
        let go = match placement {
            Placement::Fullscreen => move_to(fit.ox, fit.oy + y),
            Placement::Inline => move_to_column(0),
        };
        let ghost go_op = match placement {
            Placement::Fullscreen => TermOp::At(fit.ox as nat, (fit.oy + y) as nat),
            Placement::Inline => TermOp::Column(0),
        };
        push_text(out, &go);
        proof {
            lemma_push_op(ops, go_op);
            ops = ops.push(go_op);
        }
        push_text(out, &clear(ClearKind::UntilNewLine));
        proof {
            lemma_push_op(ops, TermOp::ClearToEnd);
            ops = ops.push(TermOp::ClearToEnd);
        }
        let cells = row(art, &input.shown, y);
        let line = queue_row(&cells, &input.colors[y as usize], fit.cols);
        proof {
            assert(cells@ =~= Seq::new(
                art.spec_width() as nat,
                |x: int| (x as u16, crate::frame::lead_cols(*art, y as int, x) as u16, crate::frame::paint_at(*art, input.shown@, x, y as int)),
            ));
            assert(line@ == texts[y as int]);
        }
        push_text(out, &line);
        proof {
            lemma_push_op(ops, TermOp::Text(texts[y as int]));
            ops = ops.push(TermOp::Text(texts[y as int]));
        }
        if placement == Placement::Inline {
            push_text(out, &move_to_next_line(1));
            proof {
                lemma_push_op(ops, TermOp::Down(1));
                ops = ops.push(TermOp::Down(1));
            }
        }
        proof {
            let step = row_ops(placement, fit, y as int, texts[y as int]);
            assert(ops =~= before + step);
            assert(rows_ops(placement, fit, texts, y + 1) == rows_ops(placement, fit, texts, y as int) + step);
            assert(out@ =~= start + ops_text(ops));
        }
        y += 1;
    }
}

/// Appends the caption line of a frame to `out`; the ghost result is how
/// many characters of the message fit.
fn push_caption(
    out: &mut String,
    viewport: Viewport,
    fit: Fit,
    placement: Placement,
    message: &str,
    color: Option<Fg>,
) -> (k: Ghost<int>)
    requires
        fit.oy + fit.rows <= crate::render::sat_sub(viewport.rows as int, 1),
        fit.ox + fit.cols <= viewport.cols,
        placement == Placement::Fullscreen ==> viewport.cols < 65535 && viewport.rows < 65535,
    ensures
        fits_prefix(message@, crate::render::sat_sub(viewport.cols as int, 1) as nat, k@),
        final(out)@ == old(out)@ + ops_text(caption_ops(placement, fit, message@, message@.take(k@), color)),
{
    let ghost start = out@;
    let ghost mut ops: Seq<TermOp> = Seq::empty();
    let go = match placement {
        Placement::Fullscreen => move_to(fit.ox, fit.oy + fit.rows),
        Placement::Inline => move_to_column(0),
    };
    let ghost go_op = match placement {
        Placement::Fullscreen => TermOp::At(fit.ox as nat, (fit.oy + fit.rows) as nat),
        Placement::Inline => TermOp::Column(0),
    };
    push_text(out, &go);
    proof {
        lemma_push_op(ops, go_op);
        ops = ops.push(go_op);
    }
    push_text(out, &clear(ClearKind::UntilNewLine));
    proof {
        lemma_push_op(ops, TermOp::ClearToEnd);
        ops = ops.push(TermOp::ClearToEnd);
    }
    let budget: u16 = if viewport.cols > 0 {
        viewport.cols - 1
    } else {
        0
    };
    let shown = truncate_to_cols(message, budget);
    let ghost k = choose|k: int| #[trigger] fits_prefix(message@, budget as nat, k) && shown@ == message@.take(k);
    let ghost after_clear = out@;
    if !message.is_empty() {
        match color {
            Some(c) => {
                crate::render::push_fg(out, c);
                out.append(shown.as_str());
                crate::render::push_reset(out);
            },
            None => {
                out.append(shown.as_str());
            },
        }
    }
    proof {
        let cap = caption_ops(placement, fit, message@, message@.take(k), color);
        let ctext = cap[2]->Text_0;
        assert(out@ =~= after_clear + ctext);
        lemma_push_op(ops, cap[2]);
        ops = ops.push(cap[2]);
        assert(ops =~= cap);
        assert(out@ =~= start + ops_text(ops));
    }
    Ghost(k)
}

/// Draw one frame. The art rows that fit are drawn by the shared row writer
/// with one row kept for the caption; the inline placement first steps back
/// over the `previous` lines it drew last time. Returns the frame's bytes
/// and the height of the block now on screen, whose last line the cursor is
/// left on.
pub fn draw(
    art: &Art,
    input: &FrameInput,
    viewport: Viewport,
    placement: Placement,
    previous: u16,
    message: &str,
    depth: ColorDepth,
    caption: (u8, u8, u8),
) -> (res: (String, u16))
    requires
        input.shown.len() == art.spec_width() * art.spec_height(),
        input.colors.len() >= viewport.fit_spec(*art, 1).rows,
        forall|y: int| 0 <= y < input.colors.len() ==> #[trigger] input.colors[y].len() == art.spec_width(),
        placement == Placement::Fullscreen ==> viewport.cols < 65535 && viewport.rows < 65535,
    ensures
        ({
            let fit = viewport.fit_spec(*art, 1);
            let texts = Seq::new(
                fit.rows as nat,
                |y: int| art_row_text(*art, input.shown@, input.colors[y]@, y, fit.cols),
            );
            let color = quantized(depth, caption);
            &&& res.1 == fit.rows + 1
            &&& exists|k: int|
                #[trigger] fits_prefix(message@, crate::render::sat_sub(viewport.cols as int, 1) as nat, k) && res.0@
                    == ops_text(frame_ops(placement, fit, previous, texts, message@, message@.take(k), color))
        }),
{
    let fit = viewport.fit(art, 1);
    let ghost texts = Seq::new(
        fit.rows as nat,
        |y: int| art_row_text(*art, input.shown@, input.colors[y]@, y, fit.cols),
    );
    let ghost color = quantized(depth, caption);
    let mut out = String::new();
    push_sync(&mut out, true);
    let ghost first = seq![TermOp::Text(sync_begin())];
    let ghost back: Seq<TermOp> = if placement == Placement::Inline && previous > 1 {
        seq![TermOp::Up((previous - 1) as nat)]
    } else {
        Seq::empty()
    };
    let ghost start = out@;
    if placement == Placement::Inline && previous > 1 {
        let up = move_to_previous_line(previous - 1);
        push_text(&mut out, &up);
        proof {
            lemma_single_op(TermOp::Up((previous - 1) as nat));
        }
    }
    proof {
        if !(placement == Placement::Inline && previous > 1) {
            assert(ops_text(back) =~= Seq::<char>::empty());
        }
        assert(out@ =~= start + ops_text(back));
    }
    push_rows(&mut out, art, input, viewport, fit, placement, Ghost(texts));
    let caption_color = depth.quantize(caption);
    let k = push_caption(&mut out, viewport, fit, placement, message, caption_color);
    push_sync(&mut out, false);
    proof {
        lemma_frame_parts(
            first,
            back,
            rows_ops(placement, fit, texts, fit.rows as int),
            caption_ops(placement, fit, message@, message@.take(k@), color),
            seq![TermOp::Text(sync_end())],
        );
        assert(out@ =~= ops_text(frame_ops(placement, fit, previous, texts, message@, message@.take(k@), color)));
    }
    (out, fit.rows + 1)
}

/// The steps that erase the `lines` lines of an inline block whose last line
/// the cursor is on: up to its top, clear each line on the way down, and back
/// up to the top.
pub open spec fn erase_ops(lines: u16) -> Seq<TermOp> {
    if lines == 0 {
        Seq::empty()
    } else {
        (if lines > 1 {
            seq![TermOp::Up((lines - 1) as nat)]
        } else {
            Seq::empty()
        }) + seq![TermOp::Column(0)] + clear_lines(lines as nat) + seq![TermOp::Up(lines as nat)]
    }
}

/// Clear `n` lines, moving down after each.
pub open spec fn clear_lines(n: nat) -> Seq<TermOp>
    decreases n,
{
    if n == 0 {
        Seq::empty()
    } else {
        clear_lines((n - 1) as nat) + seq![TermOp::Column(0), TermOp::ClearLine, TermOp::Down(1)]
    }
}

/// Erase an inline block of `lines` lines whose last line the cursor is on,
/// and park the cursor back at its top.
pub fn erase_block(lines: u16) -> (s: String)
    ensures
        s@ == ops_text(erase_ops(lines)),
{
    let mut out = String::new();
    if lines == 0 {
        return out;
    }
    let ghost mut ops: Seq<TermOp> = Seq::empty();
    if lines > 1 {
        push_text(&mut out, &move_to_previous_line(lines - 1));
        proof {
            lemma_push_op(ops, TermOp::Up((lines - 1) as nat));
            ops = ops.push(TermOp::Up((lines - 1) as nat));
        }
    }
    push_text(&mut out, &move_to_column(0));
    proof {
        lemma_push_op(ops, TermOp::Column(0));
        ops = ops.push(TermOp::Column(0));
    }
    let ghost head = ops;
    let mut i: u16 = 0;
    while i < lines
        invariant
            i <= lines,
            ops == head + clear_lines(i as nat),
            out@ == ops_text(ops),
        decreases lines - i,
    {
        let ghost before = ops;
        push_text(&mut out, &move_to_column(0));
        proof {
            lemma_push_op(ops, TermOp::Column(0));
            ops = ops.push(TermOp::Column(0));
        }
        push_text(&mut out, &clear(ClearKind::CurrentLine));
        proof {
            lemma_push_op(ops, TermOp::ClearLine);
            ops = ops.push(TermOp::ClearLine);
        }
        push_text(&mut out, &move_to_next_line(1));
        proof {
            lemma_push_op(ops, TermOp::Down(1));
            ops = ops.push(TermOp::Down(1));
            assert(ops =~= head + clear_lines((i + 1) as nat));
        }
        i += 1;
    }
    push_text(&mut out, &move_to_previous_line(lines));
    proof {
        lemma_push_op(ops, TermOp::Up(lines as nat));
        ops = ops.push(TermOp::Up(lines as nat));
        assert(ops =~= erase_ops(lines));
    }
    out
}

/// Lines one step moves the cursor down.
pub open spec fn op_down(op: TermOp) -> int {
    match op {
        TermOp::Up(n) => -(n as int),
        TermOp::Down(n) => n as int,
        _ => 0,
    }
}

proof fn lemma_net_push(ops: Seq<TermOp>, op: TermOp)
    ensures
        net_down(ops.push(op)) == net_down(ops) + op_down(op),
{
    assert(ops.push(op).drop_last() =~= ops);
}

proof fn lemma_net_clear_lines(n: nat)
    ensures
        net_down(clear_lines(n)) == n,
        relative(clear_lines(n)),
    decreases n,
{
    if n > 0 {
        let prev = clear_lines((n - 1) as nat);
        lemma_net_clear_lines((n - 1) as nat);
        lemma_net_push(prev, TermOp::Column(0));
        lemma_net_push(prev.push(TermOp::Column(0)), TermOp::ClearLine);
        lemma_net_push(prev.push(TermOp::Column(0)).push(TermOp::ClearLine), TermOp::Down(1));
        assert(clear_lines(n) =~= prev.push(TermOp::Column(0)).push(TermOp::ClearLine).push(TermOp::Down(1)));
        assert forall|i: int| 0 <= i < clear_lines(n).len() implies !(clear_lines(n)[i] is At) by {
            if i < prev.len() {
                assert(clear_lines(n)[i] == prev[i]);
            }
        }
    }
}

proof fn lemma_net_single(op: TermOp)
    ensures
        net_down(seq![op]) == op_down(op),
{
    lemma_net_push(Seq::empty(), op);
    assert(Seq::<TermOp>::empty().push(op) =~= seq![op]);
}

/// Erasing an inline block parks the cursor on its top line: starting on
/// its last line, the erase moves up by one less than its height, and moves
/// only relative to where it starts.
pub proof fn lemma_erase_parks_at_top(lines: u16)
    requires
        lines > 0,
    ensures
        net_down(erase_ops(lines)) == -((lines - 1) as int),
        relative(erase_ops(lines)),
{
    let back = if lines > 1 {
        seq![TermOp::Up((lines - 1) as nat)]
    } else {
        Seq::empty()
    };
    let col = seq![TermOp::Column(0)];
    let body = clear_lines(lines as nat);
    let up = seq![TermOp::Up(lines as nat)];
    lemma_net_clear_lines(lines as nat);
    lemma_net_single(TermOp::Column(0));
    lemma_net_single(TermOp::Up(lines as nat));
    if lines > 1 {
        lemma_net_single(TermOp::Up((lines - 1) as nat));
    } else {
        assert(net_down(back) == 0);
    }
    lemma_net_down_append(back, col);
    lemma_net_down_append(back + col, body);
    lemma_net_down_append(back + col + body, up);
    let all = back + col + body + up;
    assert(all =~= erase_ops(lines));
    assert forall|i: int| 0 <= i < all.len() implies !(all[i] is At) by {
        if i < back.len() {
        } else if i < back.len() + 1 {
        } else if i < back.len() + 1 + body.len() {
            assert(all[i] == body[i - back.len() - 1]);
        } else {
        }
    }
}

proof fn lemma_net_inline_rows(fit: Fit, texts: Seq<Seq<char>>, n: int)
    requires
        n >= 0,
    ensures
        net_down(rows_ops(Placement::Inline, fit, texts, n)) == n,
        relative(rows_ops(Placement::Inline, fit, texts, n)),
    decreases n,
{
    if n > 0 {
        let prev = rows_ops(Placement::Inline, fit, texts, n - 1);
        let t = texts[n - 1];
        lemma_net_inline_rows(fit, texts, n - 1);
        lemma_net_push(prev, TermOp::Column(0));
        lemma_net_push(prev.push(TermOp::Column(0)), TermOp::ClearToEnd);
        lemma_net_push(prev.push(TermOp::Column(0)).push(TermOp::ClearToEnd), TermOp::Text(t));
        lemma_net_push(prev.push(TermOp::Column(0)).push(TermOp::ClearToEnd).push(TermOp::Text(t)), TermOp::Down(1));
        let all = rows_ops(Placement::Inline, fit, texts, n);
        assert(all =~= prev.push(TermOp::Column(0)).push(TermOp::ClearToEnd).push(TermOp::Text(t)).push(TermOp::Down(1)));
        assert forall|i: int| 0 <= i < all.len() implies !(all[i] is At) by {
            if i < prev.len() {
                assert(all[i] == prev[i]);
            }
        }
    }
}

/// An inline frame is cursor-neutral. A frame drawn after a block of
/// `previous` lines starts on that block's last line (its top when nothing
/// is on screen); it steps back to the top, steps down one line per art row,
/// and leaves the cursor on the last line of the block it drew, which is
/// exactly where the next frame expects to find it. Every move is relative.
pub proof fn lemma_inline_frame_lands(
    fit: Fit,
    previous: u16,
    texts: Seq<Seq<char>>,
    message: Seq<char>,
    shown: Seq<char>,
    color: Option<Fg>,
)
    ensures
        ({
            let start = if previous > 1 {
                previous - 1
            } else {
                0
            };
            let ops = frame_ops(Placement::Inline, fit, previous, texts, message, shown, color);
            &&& start + net_down(ops) == (fit.rows + 1) - 1
            &&& relative(ops)
        }),
{
    let first = seq![TermOp::Text(sync_begin())];
    let back: Seq<TermOp> = if previous > 1 {
        seq![TermOp::Up((previous - 1) as nat)]
    } else {
        Seq::empty()
    };
    let rows = rows_ops(Placement::Inline, fit, texts, fit.rows as int);
    let cap = caption_ops(Placement::Inline, fit, message, shown, color);
    let last = seq![TermOp::Text(sync_end())];
    lemma_net_single(TermOp::Text(sync_begin()));
    lemma_net_single(TermOp::Text(sync_end()));
    if previous > 1 {
        lemma_net_single(TermOp::Up((previous - 1) as nat));
    }
    lemma_net_inline_rows(fit, texts, fit.rows as int);
    assert(net_down(cap) == 0) by {
        lemma_net_single(cap[0]);
        lemma_net_push(seq![cap[0]], cap[1]);
        lemma_net_push(seq![cap[0]].push(cap[1]), cap[2]);
        assert(cap =~= seq![cap[0]].push(cap[1]).push(cap[2]));
    }
    lemma_net_down_append(first, back);
    lemma_net_down_append(first + back, rows);
    lemma_net_down_append(first + back + rows, cap);
    lemma_net_down_append(first + back + rows + cap, last);
    let all = first + back + rows + cap + last;
    assert(all =~= frame_ops(Placement::Inline, fit, previous, texts, message, shown, color));
    assert forall|i: int| 0 <= i < all.len() implies !(all[i] is At) by {
        if 1 + back.len() <= i < 1 + back.len() + rows.len() {
            assert(all[i] == rows[i - 1 - back.len()]);
        }
    }
}

/// The upward steps among `ops`, in order, by how many lines each moves.
pub open spec fn ups(ops: Seq<TermOp>) -> Seq<nat>
    decreases ops.len(),
{
    if ops.len() == 0 {
        Seq::empty()
    } else {
        match ops.last() {
            TermOp::Up(n) => ups(ops.drop_last()).push(n),
            _ => ups(ops.drop_last()),
        }
    }
}

/// The downward steps among `ops`, in order, by how many lines each moves.
pub open spec fn downs(ops: Seq<TermOp>) -> Seq<nat>
    decreases ops.len(),
{
    if ops.len() == 0 {
        Seq::empty()
    } else {
        match ops.last() {
            TermOp::Down(n) => downs(ops.drop_last()).push(n),
            _ => downs(ops.drop_last()),
        }
    }
}

proof fn lemma_steps_append(a: Seq<TermOp>, b: Seq<TermOp>)
    ensures
        ups(a + b) == ups(a) + ups(b),
        downs(a + b) == downs(a) + downs(b),
    decreases b.len(),
{
    if b.len() == 0 {
        assert(a + b =~= a);
        assert(ups(a) + ups(b) =~= ups(a));
        assert(downs(a) + downs(b) =~= downs(a));
    } else {
        lemma_steps_append(a, b.drop_last());
        assert((a + b).drop_last() =~= a + b.drop_last());
        assert((a + b).last() == b.last());
        match b.last() {
            TermOp::Up(n) => {
                assert(ups(a) + ups(b) =~= (ups(a) + ups(b.drop_last())).push(n));
                assert(downs(a) + downs(b) =~= downs(a) + downs(b.drop_last()));
            },
            TermOp::Down(n) => {
                assert(downs(a) + downs(b) =~= (downs(a) + downs(b.drop_last())).push(n));
                assert(ups(a) + ups(b) =~= ups(a) + ups(b.drop_last()));
            },
            _ => {
                assert(ups(a) + ups(b) =~= ups(a) + ups(b.drop_last()));
                assert(downs(a) + downs(b) =~= downs(a) + downs(b.drop_last()));
            },
        }
    }
}

proof fn lemma_steps_one(op: TermOp)
    ensures
        ups(seq![op]) == match op {
            TermOp::Up(n) => seq![n],
            _ => Seq::<nat>::empty(),
        },
        downs(seq![op]) == match op {
            TermOp::Down(n) => seq![n],
            _ => Seq::<nat>::empty(),
        },
{
    assert(ups(Seq::<TermOp>::empty()) == Seq::<nat>::empty());
    assert(downs(Seq::<TermOp>::empty()) == Seq::<nat>::empty());
    assert(seq![op].drop_last() =~= Seq::<TermOp>::empty());
    assert(seq![op].last() == op);
    assert(Seq::<nat>::empty().push(0nat) =~= seq![0nat]);
    match op {
        TermOp::Up(n) => {
            assert(Seq::<nat>::empty().push(n) =~= seq![n]);
        },
        TermOp::Down(n) => {
            assert(Seq::<nat>::empty().push(n) =~= seq![n]);
        },
        _ => {},
    }
}

proof fn lemma_steps_inline_rows(fit: Fit, texts: Seq<Seq<char>>, n: int)
    requires
        n >= 0,
    ensures
        ups(rows_ops(Placement::Inline, fit, texts, n)) == Seq::<nat>::empty(),
        downs(rows_ops(Placement::Inline, fit, texts, n)) == Seq::new(n as nat, |i: int| 1nat),
    decreases n,
{
    if n > 0 {
        lemma_steps_inline_rows(fit, texts, n - 1);
        let t = texts[n - 1];
        let r = row_ops(Placement::Inline, fit, n - 1, t);
        let a = seq![TermOp::Column(0)];
        let b = seq![TermOp::ClearToEnd];
        let c = seq![TermOp::Text(t)];
        let d = seq![TermOp::Down(1)];
        assert(r =~= a + b + c + d);
        lemma_steps_one(TermOp::Column(0));
        lemma_steps_one(TermOp::ClearToEnd);
        lemma_steps_one(TermOp::Text(t));
        lemma_steps_one(TermOp::Down(1));
        lemma_steps_append(a, b);
        lemma_steps_append(a + b, c);
        lemma_steps_append(a + b + c, d);
        assert(ups(r) =~= Seq::<nat>::empty());
        assert(downs(r) =~= seq![1nat]);
        lemma_steps_append(rows_ops(Placement::Inline, fit, texts, n - 1), r);
        assert(Seq::new(n as nat, |i: int| 1nat) =~= Seq::new((n - 1) as nat, |i: int| 1nat) + seq![1nat]);
    } else {
        assert(Seq::new(n as nat, |i: int| 1nat) =~= Seq::<nat>::empty());
    }
}

/// An inline frame opens and closes a synchronized update; within it the
/// only step up is the one back over the previous block (by one less than
/// its height, when it had more than one line), and the only steps down are
/// one line per art row. Together with `draw` reporting `fit.rows + 1` lines,
/// the next frame steps back exactly over this one.
pub proof fn lemma_inline_frame_steps(
    fit: Fit,
    previous: u16,
    texts: Seq<Seq<char>>,
    message: Seq<char>,
    shown: Seq<char>,
    color: Option<Fg>,
)
    ensures
        ({
            let ops = frame_ops(Placement::Inline, fit, previous, texts, message, shown, color);
            &&& ops[0] == TermOp::Text(sync_begin())
            &&& ops.last() == TermOp::Text(sync_end())
            &&& ups(ops) == if previous > 1 {
                seq![(previous - 1) as nat]
            } else {
                Seq::<nat>::empty()
            }
            &&& downs(ops) == Seq::new(fit.rows as nat, |i: int| 1nat)
        }),
{
    let first = seq![TermOp::Text(sync_begin())];
    let back: Seq<TermOp> = if previous > 1 {
        seq![TermOp::Up((previous - 1) as nat)]
    } else {
        Seq::empty()
    };
    let rows = rows_ops(Placement::Inline, fit, texts, fit.rows as int);
    let cap = caption_ops(Placement::Inline, fit, message, shown, color);
    let last = seq![TermOp::Text(sync_end())];
    lemma_steps_inline_rows(fit, texts, fit.rows as int);
    lemma_steps_append(first, back);
    lemma_steps_append(first + back, rows);
    lemma_steps_append(first + back + rows, cap);
    lemma_steps_append(first + back + rows + cap, last);
    lemma_steps_one(TermOp::Text(sync_begin()));
    lemma_steps_one(TermOp::Text(sync_end()));
    let go = cap[0];
    let ct = cap[2];
    assert(cap =~= seq![go] + seq![TermOp::ClearToEnd] + seq![ct]);
    assert(!(go is Up) && !(go is Down) && !(ct is Up) && !(ct is Down));
    lemma_steps_one(go);
    lemma_steps_one(TermOp::ClearToEnd);
    lemma_steps_one(ct);
    lemma_steps_append(seq![go], seq![TermOp::ClearToEnd]);
    lemma_steps_append(seq![go] + seq![TermOp::ClearToEnd], seq![ct]);
    assert(ups(cap) =~= Seq::<nat>::empty());
    assert(downs(cap) =~= Seq::<nat>::empty());
    if previous > 1 {
        lemma_steps_one(TermOp::Up((previous - 1) as nat));
    } else {
        assert(ups(back) =~= Seq::<nat>::empty());
        assert(downs(back) =~= Seq::<nat>::empty());
    }
    let all = first + back + rows + cap + last;
    assert(all =~= frame_ops(Placement::Inline, fit, previous, texts, message, shown, color));
    assert(Seq::<nat>::empty() + Seq::<nat>::empty() =~= Seq::<nat>::empty());
    assert(ups(all) =~= ups(back));
    assert(downs(all) =~= downs(rows));
}

/// The finished art as scrollback text: each row as the row writer draws
/// it within `cols` columns, followed by a carriage return and line feed.
pub open spec fn final_text(art: Art, shown: Seq<bool>, colors: Seq<Seq<Option<Fg>>>, cols: u16, n: int) -> Seq<char>
    decreases n,
{
    if n <= 0 {
        Seq::empty()
    } else {
        final_text(art, shown, colors, cols, n - 1) + art_row_text(art, shown, colors[n - 1], n - 1, cols) + seq!['\r', '\n']
    }
}

/// Print the finished art into the normal buffer so it stays in scrollback
/// after the alternate screen is gone.
pub fn persist_final(art: &Art, input: &FrameInput, cols: u16) -> (s: String)
    requires
        input.shown.len() == art.spec_width() * art.spec_height(),
        input.colors.len() >= art.spec_height(),
        forall|y: int| 0 <= y < input.colors.len() ==> #[trigger] input.colors[y].len() == art.spec_width(),
    ensures
        s@ == final_text(*art, input.shown@, input.colors@.map_values(|c: Vec<Option<Fg>>| c@), cols, art.spec_height() as int),
{
    let ghost colors = input.colors@.map_values(|c: Vec<Option<Fg>>| c@);
    let mut out = String::new();
    let h = art.height();
    let mut y: u16 = 0;
    while y < h
        invariant
            y <= h,
            h == art.spec_height(),
            input.shown.len() == art.spec_width() * art.spec_height(),
            input.colors.len() >= art.spec_height(),
            forall|yy: int| 0 <= yy < input.colors.len() ==> #[trigger] input.colors[yy].len() == art.spec_width(),
            colors == input.colors@.map_values(|c: Vec<Option<Fg>>| c@),
            out@ == final_text(*art, input.shown@, colors, cols, y as int),
        decreases h - y,
    {
        let cells = row(art, &input.shown, y);
        let line = queue_row(&cells, &input.colors[y as usize], cols);
        proof {
            assert(cells@ =~= Seq::new(
                art.spec_width() as nat,
                |x: int| (x as u16, crate::frame::lead_cols(*art, y as int, x) as u16, crate::frame::paint_at(*art, input.shown@, x, y as int)),
            ));
            assert(colors[y as int] == input.colors[y as int]@);
        }
        let ghost before = out@;
        push_text(&mut out, &line);
        crate::text::push_char(&mut out, '\r');
        crate::text::push_char(&mut out, '\n');
        proof {
            assert(out@ =~= before + art_row_text(*art, input.shown@, colors[y as int], y as int, cols) + seq!['\r', '\n']);
        }
        y += 1;
    }
    out
}

} // verus!
