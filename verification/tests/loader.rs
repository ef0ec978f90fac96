use inkling::art::{ink_mask, Art};
use inkling::loader::{
    choose_placement, draw, erase_block, farewell, persist_final, reflow, Ending, Farewell, FrameInput, Placement, Reflow,
};
use inkling::render::{ColorDepth, Viewport};

fn input(art: &Art) -> FrameInput {
    FrameInput {
        shown: ink_mask(art),
        colors: vec![vec![None; art.width() as usize]; art.height() as usize],
    }
}

#[test]
fn an_inline_frame_is_cursor_neutral() {
    let art = Art::parse("##\n##\n##");
    let viewport = Viewport { cols: 40, rows: 20 };
    let frame = input(&art);

    let (first, drawn) = draw(&art, &frame, viewport, Placement::Inline, 0, "caption", ColorDepth::Mono, (0, 0, 0));
    // Three art rows plus the caption: a four-line block whose last line the
    // cursor is sitting on.
    assert_eq!(drawn, 4);
    assert_eq!(first.matches("\u{1b}[1E").count(), 3, "one step down per art row, none after the caption");

    let (second, _) = draw(&art, &frame, viewport, Placement::Inline, drawn, "caption", ColorDepth::Mono, (0, 0, 0));
    assert!(second.contains("\u{1b}[3F"), "the next frame must step back over exactly what the last one stepped down");
    assert!(!second.contains("\u{1b}[4F"), "stepping back one line too far");
}

#[test]
fn an_inline_frame_reads_as_expected() {
    let art = Art::parse("#");
    let viewport = Viewport { cols: 6, rows: 5 };
    let (out, drawn) = draw(&art, &input(&art), viewport, Placement::Inline, 2, "a long caption", ColorDepth::Mono, (1, 2, 3));
    assert_eq!(drawn, 2);
    assert_eq!(out, "\x1b[?2026h\x1b[1F\x1b[1G\x1b[K#\x1b[1E\x1b[1G\x1b[Ka lon\x1b[?2026l");
}

#[test]
fn a_fullscreen_frame_places_rows_absolutely() {
    let art = Art::parse("#");
    let viewport = Viewport { cols: 5, rows: 5 };
    let (out, drawn) = draw(&art, &input(&art), viewport, Placement::Fullscreen, 9, "hi", ColorDepth::Ansi16, (255, 0, 0));
    assert_eq!(drawn, 2);
    assert_eq!(out, "\x1b[?2026h\x1b[2;3H\x1b[K#\x1b[3;3H\x1b[K\x1b[91mhi\x1b[39m\x1b[?2026l");
}

#[test]
fn tall_art_goes_fullscreen() {
    let art = Art::parse("#\n#\n#");
    assert_eq!(choose_placement(&art, Viewport { cols: 10, rows: 5 }), Placement::Inline);
    assert_eq!(choose_placement(&art, Viewport { cols: 10, rows: 4 }), Placement::Fullscreen);
    assert_eq!(choose_placement(&Art::parse("###"), Viewport { cols: 2, rows: 10 }), Placement::Fullscreen);
}

#[test]
fn erasing_a_block_returns_to_its_top() {
    assert_eq!(erase_block(0), "");
    assert_eq!(erase_block(1), "\x1b[1G\x1b[1G\x1b[2K\x1b[1E\x1b[1F");
    assert_eq!(
        erase_block(2),
        "\x1b[1F\x1b[1G\x1b[1G\x1b[2K\x1b[1E\x1b[1G\x1b[2K\x1b[1E\x1b[2F"
    );
}

#[test]
fn the_finished_art_lands_in_scrollback() {
    let art = Art::parse("a b\n c");
    assert_eq!(persist_final(&art, &input(&art), 80), "a b\r\n c\r\n");
    assert_eq!(persist_final(&art, &input(&art), 1), "a\r\n\r\n");
}

#[test]
fn a_resize_reflows_and_a_steady_size_does_not() {
    let art = Art::parse("##\n##\n##");
    let roomy = Viewport { cols: 10, rows: 5 };
    let cramped = Viewport { cols: 10, rows: 4 };
    assert_eq!(reflow(&art, Placement::Inline, roomy, roomy), None);
    assert_eq!(
        reflow(&art, Placement::Inline, roomy, cramped),
        Some(Reflow { placement: Placement::Fullscreen, switch: true, clear: true })
    );
    assert_eq!(
        reflow(&art, Placement::Fullscreen, cramped, roomy),
        Some(Reflow { placement: Placement::Inline, switch: true, clear: false })
    );
    let wider = Viewport { cols: 40, rows: 5 };
    assert_eq!(
        reflow(&art, Placement::Inline, roomy, wider),
        Some(Reflow { placement: Placement::Inline, switch: false, clear: false })
    );
}

#[test]
fn each_placement_and_ending_has_its_farewell() {
    assert_eq!(farewell(Placement::Fullscreen, Ending::Keep), Farewell::LeaveAndPersist);
    assert_eq!(farewell(Placement::Fullscreen, Ending::Clear), Farewell::Leave);
    assert_eq!(farewell(Placement::Inline, Ending::Clear), Farewell::Erase);
    assert_eq!(farewell(Placement::Inline, Ending::Keep), Farewell::ParkBelow);
}

#[test]
fn a_caption_cut_to_nothing_still_opens_and_closes_its_colour() {
    let art = Art::parse("#");
    let viewport = Viewport { cols: 1, rows: 5 };
    let (out, _) = draw(&art, &input(&art), viewport, Placement::Inline, 0, "hi", ColorDepth::Ansi16, (255, 0, 0));
    assert!(out.ends_with("\x1b[1G\x1b[K\x1b[91m\x1b[39m\x1b[?2026l"));
    let (out, _) = draw(&art, &input(&art), viewport, Placement::Inline, 0, "", ColorDepth::Ansi16, (255, 0, 0));
    assert!(out.ends_with("\x1b[1G\x1b[K\x1b[?2026l"));
}

#[test]
fn an_inline_frame_steps_down_once_per_row_and_back_once() {
    let art = Art::parse("#\n#\n#\n#\n#");
    let viewport = Viewport { cols: 40, rows: 30 };
    let frame = input(&art);
    let (first, drawn) = draw(&art, &frame, viewport, Placement::Inline, 0, "", ColorDepth::Mono, (0, 0, 0));
    assert_eq!(drawn, 6);
    assert!(first.starts_with("\u{1b}[?2026h"));
    assert!(first.ends_with("\u{1b}[?2026l"));
    assert_eq!(first.matches("\u{1b}[1E").count(), 5);
    assert_eq!(first.matches('F').count(), 0);
    let (second, _) = draw(&art, &frame, viewport, Placement::Inline, drawn, "", ColorDepth::Mono, (0, 0, 0));
    assert_eq!(second.matches("\u{1b}[5F").count(), 1);
    assert_eq!(second.matches('F').count(), 1);
    assert_eq!(second.matches("\u{1b}[1E").count(), 5);
}
