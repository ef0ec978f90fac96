use inkling::art::{expand_tabs, Art, MAX_DIM};
use inkling::grid::flat_index;

#[test]
fn crops_to_the_ink_bounding_box() {
    let art = Art::parse("\n  ab\n c\n\n");
    assert_eq!(art.height(), 2); // leading and trailing blank rows dropped
    assert_eq!(art.width(), 3); // columns 1..=3 of "  ab" and " c"
    assert_eq!(art.glyph(1, 0), 'a');
    assert_eq!(art.glyph(0, 1), 'c');
    assert!(art.is_ink(1, 0));
    assert!(!art.is_ink(0, 0)); // interior padding is preserved
}

#[test]
fn ink_count_ignores_whitespace() {
    assert_eq!(Art::parse("a b\n c ").ink_count(), 3);
}

#[test]
fn padding_does_not_change_the_canvas() {
    let bare = Art::parse("##\n##");
    let padded = Art::parse("      ##          \n      ##          ");
    assert_eq!((bare.width(), bare.height()), (2, 2));
    assert_eq!((padded.width(), padded.height()), (2, 2));
}

#[test]
fn interior_blanks_are_preserved() {
    let art = Art::parse("#  #\n\n#  #");
    assert_eq!((art.width(), art.height()), (4, 3));
    assert!(!art.is_ink(1, 0));
    assert_eq!(art.ink_count(), 4);
}

#[test]
fn blank_input_is_an_empty_canvas() {
    for text in ["", "    \n    ", "\n\n\n"] {
        let art = Art::parse(text);
        assert!(art.is_empty(), "{text:?} should parse empty");
        assert_eq!((art.width(), art.height()), (0, 0));
        assert_eq!(art.cell_count(), 0);
    }
}

#[test]
fn tabs_expand_to_eight_column_stops() {
    let art = Art::parse("a\tb");
    assert_eq!(art.width(), 9); // 'a', spaces to column 8, then 'b'
    assert_eq!(art.glyph(0, 0), 'a');
    assert_eq!(art.glyph(8, 0), 'b');
    assert_eq!(art.ink_count(), 2);
}

#[test]
fn control_characters_are_background() {
    let art = Art::parse("a\x1b[2Jb");
    assert!(!art.glyph(1, 0).is_control());
    assert!(!art.is_ink(1, 0));
    assert_eq!(art.glyph(0, 0), 'a');
    // 'a', a space for the escape, "[2J", then 'b'.
    assert_eq!(art.width(), 6);
    assert_eq!(art.ink_count(), 5);
}

#[test]
fn oversized_input_is_cropped_not_wrapped() {
    let art = Art::parse(&"#".repeat(MAX_DIM + 5_000));
    assert_eq!(art.width() as usize, MAX_DIM);
    assert_eq!(art.glyph(art.width() - 1, 0), '#');
}

#[test]
fn glyph_is_a_space_out_of_bounds() {
    let art = Art::parse("ab\ncd");
    assert_eq!(art.glyph(9, 0), ' '); // past the row, not wrapped into row 1
    assert_eq!(art.glyph(0, 9), ' ');
    assert!(!art.is_ink(9, 0));
}

#[test]
fn carriage_returns_before_newlines_are_dropped() {
    let art = Art::parse("ab\r\ncd\r\n");
    assert_eq!((art.width(), art.height()), (2, 2));
    assert_eq!(art.glyph(1, 0), 'b');
    assert_eq!(art.glyph(1, 1), 'd');
}

#[test]
fn ink_cells_come_in_reading_order() {
    let art = Art::parse("a b\n c ");
    let cells = art.ink_cells();
    let coords: Vec<(u16, u16, char)> = cells.iter().map(|c| (c.x, c.y, c.glyph)).collect();
    assert_eq!(coords, vec![(0, 0, 'a'), (2, 0, 'b'), (1, 1, 'c')]);
    assert_eq!(art.index(1, 1), 4);
}

#[test]
fn expand_tabs_pads_to_the_next_stop() {
    let line: Vec<char> = "ab\tc\t".chars().collect();
    let out: String = expand_tabs(&line).into_iter().collect();
    assert_eq!(out, "ab      c       ");
}

#[test]
fn default_art_is_empty() {
    let art = Art::default();
    assert!(art.is_empty());
    assert_eq!(art.cell_count(), 0);
}

#[test]
fn parsing_leaves_no_blank_margin() {
    let art = Art::parse("\n\n    #  \n      #   \n\n");
    assert_eq!((art.width(), art.height()), (3, 2));
    assert!(art.is_ink(0, 0) && art.is_ink(2, 1));
    let blank = Art::parse("  \n\t\n   ");
    assert_eq!((blank.width(), blank.height()), (0, 0));
    assert!(blank.is_empty());
}

#[test]
fn out_of_range_coordinates_have_no_flat_index() {
    assert_eq!(flat_index(1, 1, 4, 3), Some(5));
    assert_eq!(flat_index(5, 0, 4, 3), None, "x wrapped into the next row");
    assert_eq!(flat_index(0, 3, 4, 3), None);
    assert_eq!(flat_index(u16::MAX, u16::MAX, 4, 3), None);
    assert_eq!(flat_index(0, 0, 0, 0), None);
}

#[test]
fn indentation_and_trailing_blanks_never_change_the_canvas() {
    let plain = Art::parse("a b\n c\r\n\nd");
    let moved = Art::parse("\n\n    a b   \n     c\r  \n    \n    d\n\n");
    assert_eq!(moved.width(), plain.width());
    assert_eq!(moved.height(), plain.height());
    assert_eq!(moved.glyphs(), plain.glyphs());
    for y in 0..plain.height() {
        for x in 0..plain.width() {
            assert_eq!(moved.glyph(x, y), plain.glyph(x, y));
        }
    }
}
