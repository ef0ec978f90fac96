use inkling::art::{ink_mask, Art};
use inkling::render::{Fg, Viewport};
use inkling::session::{paint, CellState, PaintInput, Session};

#[test]
fn only_changed_cells_are_repainted() {
    let art = Art::parse("ab");
    let viewport = Viewport { cols: 10, rows: 5 };
    let fit = viewport.fit(&art, 0);
    let mut state = vec![CellState::Hidden; 2];
    let input = PaintInput { shown: vec![true, false], levels: vec![3, 3], colors: vec![Some(Fg::Basic(2)), None] };
    let out = paint(&mut state, &art, &input, viewport, fit);
    assert_eq!(out, "\x1b[?2026h\x1b[3;5H\x1b[32ma\x1b[39m\x1b[?2026l");
    assert_eq!(state, vec![CellState::Lit(3), CellState::Hidden]);

    // Nothing moved: nothing is written.
    assert_eq!(paint(&mut state, &art, &input, viewport, fit), "");

    // Everything revealed and settled.
    let all = PaintInput { shown: ink_mask(&art), levels: vec![8, 8], colors: vec![None, None] };
    let out = paint(&mut state, &art, &all, viewport, fit);
    assert_eq!(out, "\x1b[?2026h\x1b[3;5Ha\x1b[3;6Hb\x1b[39m\x1b[?2026l");
    assert_eq!(state, vec![CellState::Lit(8), CellState::Lit(8)]);
}

#[test]
fn hiding_a_cell_clears_its_full_width() {
    let art = Art::parse("世");
    let viewport = Viewport { cols: 4, rows: 1 };
    let fit = viewport.fit(&art, 0);
    let mut state = vec![CellState::Lit(8)];
    let input = PaintInput { shown: vec![false], levels: vec![0], colors: vec![None] };
    let out = paint(&mut state, &art, &input, viewport, fit);
    assert_eq!(out, "\x1b[?2026h\x1b[1;2H  \x1b[39m\x1b[?2026l");
    assert_eq!(state, vec![CellState::Hidden]);
}

#[test]
fn painting_the_same_frame_twice_writes_nothing() {
    let art = Art::parse("a b\n世c");
    let viewport = Viewport { cols: 20, rows: 6 };
    let fit = viewport.fit(&art, 1);
    let n = art.cell_count();
    let mut state = vec![CellState::Lit(1); n];
    let input = PaintInput {
        shown: vec![true, false, false, true, true, false],
        levels: vec![2; n],
        colors: vec![Some(Fg::Indexed(200)); n],
    };
    let first = paint(&mut state, &art, &input, viewport, fit);
    assert!(!first.is_empty());
    let settled = state.clone();
    assert_eq!(paint(&mut state, &art, &input, viewport, fit), "");
    assert_eq!(state, settled);
}

#[test]
fn a_session_starts_blank_and_a_resize_starts_it_over() {
    let art = Art::parse("ab\ncd");
    let small = Viewport { cols: 4, rows: 2 };
    let mut session = Session::new(&art, small);
    assert_eq!(session.state, vec![CellState::Hidden; 4]);
    assert_eq!(session.fit, small.fit(&art, 0));
    let input = PaintInput { shown: vec![true; 4], levels: vec![8; 4], colors: vec![None; 4] };
    assert!(!session.paint(&art, &input).is_empty());
    assert_eq!(session.paint(&art, &input), "");
    assert!(!session.resize(&art, small));
    assert_eq!(session.state, vec![CellState::Lit(8); 4]);
    let big = Viewport { cols: 10, rows: 6 };
    assert!(session.resize(&art, big));
    assert_eq!(session.state, vec![CellState::Hidden; 4]);
    assert_eq!(session.viewport, big);
    assert_eq!(session.paint(&art, &input), "\x1b[?2026h\x1b[3;5Ha\x1b[3;6Hb\x1b[4;5Hc\x1b[4;6Hd\x1b[39m\x1b[?2026l");
}
