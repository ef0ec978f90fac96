use inkling::art::{ink_mask, Art};
use inkling::frame::{art_cols, cell, row, to_string, Paint};
use inkling::schedule::{Direction, Directional};
use inkling::width::str_cols;

#[test]
fn art_cols_counts_display_width() {
    let art = Art::parse("ab\nabc");
    assert_eq!(art_cols(&art), 3);
}

#[test]
fn display_width_counts_wide_glyphs() {
    let art = Art::parse("a世\nbb"); // row 0 is 1 + 2 = 3 columns wide
    assert_eq!(art_cols(&art), 3);
}

#[test]
fn empty_at_zero_full_at_one() {
    let art = Art::parse("/\\__/\\\n\\____/");
    let none = to_string(&art, &vec![false; art.cell_count()]);
    let all = to_string(&art, &ink_mask(&art));
    assert!(none.trim().chars().all(|c| c.is_whitespace()));
    assert_eq!(all.replace([' ', '\n'], "").len(), art.ink_count());
}

#[test]
fn always_has_one_line_per_row() {
    let art = Art::parse("#\n#\n#");
    assert_eq!(to_string(&art, &vec![true, false, true]).lines().count(), 3);
    assert_eq!(to_string(&art, &vec![true, false, true]), "#\n\n#\n");
}

#[test]
fn row_width_is_constant_across_the_reveal() {
    let art = Art::parse("世a界b");
    let masks = [vec![false; 4], vec![true, false, false, false], vec![false, true, true, false], vec![true; 4]];
    for shown in masks {
        let padded: String = row(&art, &shown, 0)
            .into_iter()
            .map(|(_, _, p)| match p {
                Paint::Ink { glyph, .. } => glyph.to_string(),
                Paint::Blank { cols } => " ".repeat(cols as usize),
            })
            .collect();
        assert_eq!(str_cols(&padded), 6);
    }
}

#[test]
fn a_hidden_cell_keeps_its_width() {
    let art = Art::parse("世a");
    assert_eq!(cell(&art, &vec![false, true], 0, 0), Paint::Blank { cols: 2 });
    assert_eq!(cell(&art, &vec![true, true], 0, 0), Paint::Ink { glyph: '世', cols: 2 });
    assert_eq!(cell(&art, &vec![true, true], 5, 0), Paint::Blank { cols: 1 });
    assert_eq!(Paint::Ink { glyph: 'x', cols: 1 }.glyph(), Some('x'));
    assert_eq!(Paint::Blank { cols: 3 }.cols(), 3);
    let walk = row(&art, &vec![true, true], 0);
    assert_eq!(walk[1], (1, 2, Paint::Ink { glyph: 'a', cols: 1 }));
}

#[test]
fn trailing_blanks_leave_each_line() {
    let art = Art::parse("#  #");
    assert_eq!(to_string(&art, &vec![true, false, false, false]), "#\n");
    assert_eq!(to_string(&art, &vec![false, false, false, true]), "   #\n");
}

#[test]
fn before_anything_shows_each_row_is_an_empty_line() {
    let art = Art::parse("世a\n  b\nc");
    assert_eq!(to_string(&art, &vec![false; art.cell_count()]), "\n\n\n");
}

#[test]
fn with_all_ink_showing_every_ink_cell_is_drawn_once() {
    let art = Art::parse("a  b\n 世 \nc");
    let all = to_string(&art, &ink_mask(&art));
    assert_eq!(all.chars().filter(|c| *c != ' ' && *c != '\n').count(), art.ink_count());
    assert_eq!(all, "a  b\n 世\nc\n");
}

#[test]
fn showing_more_cells_never_hides_one() {
    let art = Art::parse("####\n#  #\n####");
    let steps = inkling::schedule::Scanline.rank(&art);
    let mut last = 0;
    for k in 0..=steps.denom {
        let shown: Vec<bool> = steps.steps.iter().map(|s| matches!(s, Some(s) if *s <= k)).collect();
        let drawn = to_string(&art, &shown).chars().filter(|c| !c.is_whitespace()).count();
        assert!(drawn > last, "step {k} drew {drawn} after {last}");
        last = drawn;
    }
    assert_eq!(last, art.ink_count());
}

#[test]
fn a_directional_reveal_never_runs_backwards() {
    let art = Art::parse("#  #\n ## \n#  #");
    for dir in [Direction::TopToBottom, Direction::BottomToTop, Direction::LeftToRight, Direction::RightToLeft] {
        let r = Directional(dir).rank(&art);
        let none: Vec<bool> = vec![false; r.steps.len()];
        assert_eq!(to_string(&art, &none).chars().filter(|c| !c.is_whitespace()).count(), 0);
        let mut last = 0;
        for k in 0..=r.denom {
            let shown: Vec<bool> = r.steps.iter().map(|s| matches!(s, Some(s) if *s <= k)).collect();
            let drawn = to_string(&art, &shown).chars().filter(|c| !c.is_whitespace()).count();
            assert!(drawn >= last, "{dir:?} step {k} drew {drawn} after {last}");
            last = drawn;
        }
        assert_eq!(last, art.ink_count());
    }
}
