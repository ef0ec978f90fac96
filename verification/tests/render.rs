use inkling::art::{ink_mask, Art};
use inkling::frame::row;
use inkling::render::{ansi16, ansi256, fg_reset, queue_row, ColorDepth, Fg, Fit, Viewport};

fn row_text(art: &Art, shown: &Vec<bool>, colors: &Vec<Option<Fg>>, budget: u16) -> String {
    queue_row(&row(art, shown, 0), colors, budget)
}

#[test]
fn depth_maps_onto_the_available_palette() {
    assert_eq!(ColorDepth::Mono.quantize((255, 0, 0)), None);
    assert_eq!(ColorDepth::TrueColor.quantize((1, 2, 3)), Some(Fg::Rgb(1, 2, 3)));
    assert_eq!(ColorDepth::Ansi16.quantize((250, 10, 10)), Some(Fg::Basic(9)));
    // Neutral triples take the 24-step grey ramp: 232 is its black end and
    // 255 its white one.
    assert_eq!(ColorDepth::Ansi256.quantize((0, 0, 0)), Some(Fg::Indexed(232)));
    assert_eq!(ColorDepth::Ansi256.quantize((255, 255, 255)), Some(Fg::Indexed(255)));
    // A saturated triple goes to the 6x6x6 cube instead.
    assert_eq!(ColorDepth::Ansi256.quantize((255, 0, 0)), Some(Fg::Indexed(16 + 36 * 5)));
}

#[test]
fn viewport_fit_clips_oversized_art() {
    let art = Art::parse(&"##########\n".repeat(10));
    let viewport = Viewport { cols: 4, rows: 3 };
    let fit = viewport.fit(&art, 1);
    assert_eq!(fit.cols, 4, "clipped, not wrapped");
    assert_eq!(fit.rows, 2, "one row reserved for the caption");
    assert_eq!((fit.ox, fit.oy), (0, 0));
}

#[test]
fn viewport_fit_centres_small_art() {
    let art = Art::parse("##");
    let fit = Viewport { cols: 10, rows: 10 }.fit(&art, 0);
    assert_eq!(fit.ox, 4);
    assert_eq!(fit.cols, 2);
    assert_eq!(fit, Fit { ox: 4, oy: 4, cols: 2, rows: 1 });
}

#[test]
fn monochrome_rows_carry_no_escapes() {
    let art = Art::parse("####");
    let out = row_text(&art, &ink_mask(&art), &vec![None; 4], 80);
    assert_eq!(out, "####");
}

#[test]
fn rows_are_clipped_to_the_budget() {
    let art = Art::parse("##########");
    let out = row_text(&art, &ink_mask(&art), &vec![None; 10], 4);
    assert_eq!(out, "####");
}

#[test]
fn clipping_never_splits_a_wide_glyph() {
    let art = Art::parse("世界");
    assert_eq!(row_text(&art, &ink_mask(&art), &vec![None; 2], 3), "世");
    assert_eq!(row_text(&art, &ink_mask(&art), &vec![None; 2], 4), "世界");
}

#[test]
fn hidden_wide_glyphs_hold_their_columns() {
    let art = Art::parse("世a");
    let early = row_text(&art, &vec![false, true], &vec![None; 2], 80);
    assert_eq!(early, "  a", "hidden wide glyph must reserve two columns");
}

#[test]
fn trailing_blanks_are_trimmed() {
    let art = Art::parse("#   #");
    assert_eq!(row_text(&art, &vec![true, false, false, false, false], &vec![None; 5], 80), "#");
}

#[test]
fn colour_runs_are_coalesced() {
    let art = Art::parse("####");
    let body = Some(Fg::Rgb(120, 134, 168));
    let out = row_text(&art, &ink_mask(&art), &vec![body; 4], 80);
    assert_eq!(out.matches("\x1b[38;2;").count(), 1, "one escape should cover the whole run: {out:?}");
    assert!(out.ends_with("\x1b[39m"), "run must be closed: {out:?}");
    assert_eq!(out, "\x1b[38;2;120;134;168m####\x1b[39m");
}

#[test]
fn a_blank_drops_out_of_the_colour_run() {
    let art = Art::parse("# #");
    let red = Some(Fg::Basic(1));
    let out = row_text(&art, &ink_mask(&art), &vec![red; 3], 80);
    assert_eq!(out, "\x1b[31m#\x1b[39m \x1b[31m#\x1b[39m");
}

#[test]
fn foreground_escapes_are_well_formed() {
    assert_eq!(Fg::Rgb(1, 2, 3).to_string(), "\x1b[38;2;1;2;3m");
    assert_eq!(Fg::Indexed(200).to_string(), "\x1b[38;5;200m");
    assert_eq!(Fg::Basic(3).to_string(), "\x1b[33m");
    assert_eq!(Fg::Basic(9).to_string(), "\x1b[91m");
    assert_eq!(Fg::Basic(20).to_string(), "\x1b[97m");
    assert_eq!(fg_reset(), "\x1b[39m");
}

#[test]
fn ansi_palettes_pick_the_nearest_entry() {
    // Grey ramp: ((100 + 100 + 104) / 3 - 8) * 23 / 238 = 8.
    assert_eq!(ansi256(100, 100, 104), 240);
    assert_eq!(ansi256(0, 128, 255), 16 + 6 * 2 + 5);
    assert_eq!(ansi16(0, 0, 0), 0);
    assert_eq!(ansi16(200, 200, 200), 7);
    assert_eq!(ansi16(64, 0, 0), 0); // equidistant from black and maroon: the first wins
}

#[test]
fn depth_follows_the_environment() {
    assert_eq!(ColorDepth::from_env(true, "xterm-256color", "truecolor", false, false), ColorDepth::Mono);
    assert_eq!(ColorDepth::from_env(false, "DUMB", "", false, false), ColorDepth::Mono);
    assert_eq!(ColorDepth::from_env(false, "xterm", "24Bit", false, false), ColorDepth::TrueColor);
    assert_eq!(ColorDepth::from_env(false, "xterm", "", true, false), ColorDepth::TrueColor);
    assert_eq!(ColorDepth::from_env(false, "", "", false, true), ColorDepth::TrueColor);
    assert_eq!(ColorDepth::from_env(false, "screen-256color", "", false, false), ColorDepth::Ansi256);
    assert_eq!(ColorDepth::from_env(false, "rxvt-16color", "", false, false), ColorDepth::Ansi16);
    assert_eq!(ColorDepth::from_env(false, "Linux", "", false, false), ColorDepth::Ansi16);
    assert_eq!(ColorDepth::from_env(false, "xterm", "", false, false), ColorDepth::Ansi256);
    assert!(!ColorDepth::Mono.is_color());
    assert!(ColorDepth::Ansi16.is_color());
    assert_eq!(ColorDepth::default(), ColorDepth::Ansi256);
}

#[test]
fn the_256_colour_index_never_lands_on_the_basic_sixteen() {
    for (r, g, b) in [(0, 0, 0), (255, 255, 255), (255, 0, 0), (10, 20, 30), (128, 128, 140), (47, 48, 47)] {
        assert!(ansi256(r, g, b) >= 16);
    }
    assert_eq!(ansi256(0, 0, 255), 21);
}

#[test]
fn the_default_palette_is_the_glow() {
    assert_eq!(inkling::render::Palette::default(), inkling::render::Palette::Glow);
    assert_ne!(inkling::render::Palette::Rainbow, inkling::render::Palette::Glow);
}
