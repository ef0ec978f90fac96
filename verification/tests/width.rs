use inkling::width::{glyph_cols, sanitize, str_cols, truncate_to_cols};

#[test]
fn truncate_respects_display_width() {
    assert_eq!(truncate_to_cols("abc", 2), "ab");
    assert_eq!(truncate_to_cols("abc", 0), "");
}

#[test]
fn sanitize_neutralizes_escape_sequences() {
    // A caption that would otherwise clear the screen and move the cursor.
    assert_eq!(sanitize("done\x1b[2J\x1b[H"), "done [2J [H");
    assert_eq!(sanitize("plain caption"), "plain caption");
    // One glyph in, one glyph out.
    let caption = "a\x1b[31mb";
    assert_eq!(sanitize(caption).chars().count(), caption.chars().count());
    assert!(!sanitize(caption).chars().any(char::is_control));
}

#[test]
fn wide_glyphs_count_two() {
    assert_eq!(glyph_cols('a'), 1);
    assert_eq!(glyph_cols('世'), 2);
    assert_eq!(str_cols("a世"), 3);
    assert_eq!(truncate_to_cols("a世", 3), "a世"); // 1 + 2 == 3 fits
    assert_eq!(truncate_to_cols("世界", 3), "世"); // 2 + 2 > 3, drop the second
}

#[test]
fn control_characters_take_no_columns() {
    assert_eq!(glyph_cols('\x1b'), 0);
    assert_eq!(glyph_cols('\u{85}'), 0);
    assert_eq!(str_cols("a\x1bb"), 2);
}

#[test]
fn combining_marks_take_no_columns() {
    assert_eq!(glyph_cols('\u{301}'), 0);
    assert_eq!(glyph_cols('\u{17D8}'), 3);
}

#[test]
fn str_cols_saturates() {
    let long = "世".repeat(40_000);
    assert_eq!(str_cols(&long), u16::MAX);
}

#[test]
fn truncate_never_splits_a_wide_glyph() {
    assert_eq!(truncate_to_cols("世界", 1), "");
    assert_eq!(truncate_to_cols("a\x1bb", 1), "a\x1b");
}

#[test]
fn sanitize_replaces_c1_controls_and_delete() {
    assert_eq!(sanitize("a\u{7f}b\u{9b}c"), "a b c");
}

#[test]
fn sanitizing_twice_changes_nothing_more() {
    for caption in ["done\x1b[2J\x1b[H", "tab\there", "\u{85}next\u{7f}", "clean"] {
        let once = sanitize(caption);
        assert_eq!(sanitize(&once), once);
        assert_eq!(once.chars().count(), caption.chars().count());
    }
}

#[test]
fn truncation_keeps_the_one_prefix_that_fits() {
    // "世" takes two columns: at three columns the next one would not fit.
    assert_eq!(truncate_to_cols("a世b", 3), "a世");
    assert_eq!(truncate_to_cols("a世b", 2), "a");
    assert_eq!(truncate_to_cols("a世b", 2), truncate_to_cols("a世b", 2));
}
