//! The terminal control sequences the renderers emit, as text.
//!
//! Cursor movement and clearing come from crossterm's commands, written in
//! their ANSI form; each wrapper below states the bytes crossterm's source
//! writes for it.

use crate::text::decimal;
use vstd::prelude::*;

verus! {

/// The control sequence introducer, `ESC [`.
pub open spec fn csi() -> Seq<char> {
    seq!['\u{1b}', '[']
}

/// crossterm's `MoveTo(col, row)`, whose `write_ansi` emits
/// `ESC [ {row + 1} ; {col + 1} H`; it adds one to each coordinate, so both
/// must be below `u16::MAX`.
#[verifier::external_body]
pub(crate) fn move_to(col: u16, row: u16) -> (s: String)
    requires
        col < 65535,
        row < 65535,
    ensures
        s@ == csi() + decimal(row as nat + 1) + seq![';'] + decimal(col as nat + 1) + seq!['H'],
{
    let mut s = String::new();
    let _ = crossterm::Command::write_ansi(&crossterm::cursor::MoveTo(col, row), &mut s);
    s
}

/// crossterm's `MoveToColumn(col)`, whose `write_ansi` emits
/// `ESC [ {col + 1} G`.
#[verifier::external_body]
pub(crate) fn move_to_column(col: u16) -> (s: String)
    requires
        col < 65535,
    ensures
        s@ == csi() + decimal(col as nat + 1) + seq!['G'],
{
    let mut s = String::new();
    let _ = crossterm::Command::write_ansi(&crossterm::cursor::MoveToColumn(col), &mut s);
    s
}

/// crossterm's `MoveToNextLine(n)`, whose `write_ansi` emits `ESC [ {n} E`.
#[verifier::external_body]
pub(crate) fn move_to_next_line(n: u16) -> (s: String)
    ensures
        s@ == csi() + decimal(n as nat) + seq!['E'],
{
    let mut s = String::new();
    let _ = crossterm::Command::write_ansi(&crossterm::cursor::MoveToNextLine(n), &mut s);
    s
}

/// crossterm's `MoveToPreviousLine(n)`, whose `write_ansi` emits
/// `ESC [ {n} F`.
#[verifier::external_body]
pub(crate) fn move_to_previous_line(n: u16) -> (s: String)
    ensures
        s@ == csi() + decimal(n as nat) + seq!['F'],
{
    let mut s = String::new();
    let _ = crossterm::Command::write_ansi(&crossterm::cursor::MoveToPreviousLine(n), &mut s);
    s
}

/// The parts of the screen a clear can erase.
#[derive(Clone, Copy, Debug, PartialEq, Eq, Structural)]
pub enum ClearKind {
    /// The whole screen.
    All,
    /// The line the cursor is on.
    CurrentLine,
    /// From the cursor to the end of its line.
    UntilNewLine,
}

/// The bytes crossterm writes for clearing `kind`.
pub open spec fn clear_text(kind: ClearKind) -> Seq<char> {
    match kind {
        ClearKind::All => csi() + seq!['2', 'J'],
        ClearKind::CurrentLine => csi() + seq!['2', 'K'],
        ClearKind::UntilNewLine => csi() + seq!['K'],
    }
}

/// crossterm's `Clear(ClearType)`, whose `write_ansi` emits `ESC [ 2 J` for
/// the whole screen, `ESC [ 2 K` for the current line and `ESC [ K` up to the
/// end of the line.
#[verifier::external_body]
pub(crate) fn clear(kind: ClearKind) -> (s: String)
    ensures
        s@ == clear_text(kind),
{
    let t = match kind {
        ClearKind::All => crossterm::terminal::ClearType::All,
        ClearKind::CurrentLine => crossterm::terminal::ClearType::CurrentLine,
        ClearKind::UntilNewLine => crossterm::terminal::ClearType::UntilNewLine,
    };
    let mut s = String::new();
    let _ = crossterm::Command::write_ansi(&crossterm::terminal::Clear(t), &mut s);
    s
}

} // verus!
