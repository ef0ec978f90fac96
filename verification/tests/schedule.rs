use inkling::art::Art;
use inkling::ordering::Geodesic;
use inkling::schedule::{locale_is_rtl, Direction, Directional, GeodesicKey, RankSteps, Scanline};

fn rank_at(r: &RankSteps, x: u16, y: u16) -> Option<f32> {
    if x >= r.width || y >= r.height {
        return None;
    }
    r.steps[y as usize * r.width as usize + x as usize].map(|s| s as f32 / r.denom as f32)
}

#[test]
fn scanline_spans_the_whole_bar() {
    let art = Art::parse("ab\ncd");
    let r = Scanline.rank(&art);
    assert_eq!(rank_at(&r, 0, 0), Some(0.0));
    assert_eq!(rank_at(&r, 1, 1), Some(1.0));
    assert_eq!(r.steps, vec![Some(0), Some(1), Some(2), Some(3)]);
    assert_eq!(r.denom, 3);
}

#[test]
fn explicit_direction_beats_locale_sniffing() {
    let art = Art::parse("abcd");
    let ltr = Directional::ltr().rank(&art);
    let rtl = Directional::rtl().rank(&art);
    assert_eq!(rank_at(&ltr, 0, 0), Some(0.0));
    assert_eq!(rank_at(&rtl, 3, 0), Some(0.0));
}

#[test]
fn directional_auto_accounts_for_cell_aspect() {
    // 5 wide by 4 tall: more columns than rows, yet reads tall -> top to bottom.
    let tall = Art::parse("#####\n#####\n#####\n#####");
    let r = Directional(Direction::Auto).rank(&tall);
    assert!(rank_at(&r, 0, 0).unwrap() < rank_at(&r, 0, 3).unwrap(), "top first");
    assert_eq!(rank_at(&r, 0, 0), rank_at(&r, 4, 0), "same row reveals together");

    // 10 wide by 2 tall: genuinely wide -> left to right.
    let wide = Art::parse("##########\n##########");
    let rw = Directional(Direction::Auto).rank(&wide);
    assert!(rank_at(&rw, 0, 0).unwrap() < rank_at(&rw, 9, 0).unwrap(), "left first");
    assert_eq!(rank_at(&rw, 0, 0), rank_at(&rw, 0, 1), "same column reveals together");
}

#[test]
fn padding_does_not_steer_auto() {
    let padded = Directional(Direction::Auto).rank(&Art::parse("      #\n      #"));
    let bare = Directional(Direction::Auto).rank(&Art::parse("#\n#"));
    assert_eq!(rank_at(&padded, 0, 0), rank_at(&bare, 0, 0));
    assert_eq!(rank_at(&padded, 0, 0), Some(0.0));
    assert_eq!(rank_at(&padded, 0, 1), Some(1.0));
}

#[test]
fn orderings_tolerate_empty_art() {
    let art = Art::parse("");
    assert!(Scanline.rank(&art).steps.is_empty());
    assert!(Directional::default().rank(&art).steps.is_empty());
    assert!(Geodesic::default().keys(&art).is_empty());
}

#[test]
fn bottom_to_top_counts_rows_from_the_bottom() {
    let art = Art::parse("a\nb\nc");
    let r = Directional(Direction::BottomToTop).rank(&art);
    assert_eq!(r.steps, vec![Some(2), Some(1), Some(0)]);
    assert_eq!(r.denom, 2);
    let t = Directional(Direction::TopToBottom).rank(&Art::parse("a b"));
    assert_eq!(t.steps, vec![Some(0), None, Some(0)]);
    assert_eq!(t.denom, 1);
}

#[test]
fn reading_direction_follows_the_locale() {
    assert!(locale_is_rtl("ar_EG.UTF-8"));
    assert!(locale_is_rtl("HE"));
    assert!(locale_is_rtl("fa"));
    assert!(locale_is_rtl("ur_PK"));
    assert!(!locale_is_rtl("en_US.UTF-8"));
    assert!(!locale_is_rtl("a"));
    assert_eq!(Directional::reading(Some("he_IL")).0, Direction::RightToLeft);
    assert_eq!(Directional::reading(Some("C")).0, Direction::LeftToRight);
    assert_eq!(Directional::reading(None).0, Direction::LeftToRight);
}

#[test]
fn a_line_is_keyed_along_its_length() {
    let art = Art::parse("=====");
    let keys = Geodesic::default().keys(&art);
    let dists: Vec<u32> = keys.iter().map(|k| k.value.unwrap().dist).collect();
    assert_eq!(dists, vec![0, 1, 2, 3, 4]);
    assert!(keys.iter().all(|k| k.depth == 0 && k.value.unwrap().span == 4 && k.value.unwrap().piece == 0));
}

#[test]
fn islands_inherit_the_nearest_skeleton_cell() {
    let art = Art::parse(".  ======  .");
    let keys = Geodesic::default().keys(&art);
    let left: GeodesicKey = keys[0];
    let right: GeodesicKey = keys[keys.len() - 1];
    assert_eq!((left.x, right.x), (0, 11));
    let lv = left.value.unwrap();
    let rv = right.value.unwrap();
    // Each island is a skeleton piece of its own, placed by its leading edge.
    assert_eq!((lv.piece, rv.piece), (0, 2), "left {lv:?} should precede right {rv:?}");
    assert_eq!((left.depth, right.depth), (0, 0));
}

#[test]
fn separate_pieces_are_keyed_in_reading_order() {
    let art = Art::parse("===    ===\n\n===    ===");
    let keys = Geodesic::default().keys(&art);
    let at = |x: u16, y: u16| keys.iter().find(|k| k.x == x && k.y == y).unwrap().value.unwrap();
    // Fragmented art is bridged across the blank row, and wide art orders its
    // pieces by column: the left strokes first.
    assert_eq!(at(0, 0).piece, at(0, 2).piece);
    assert!(at(0, 0).piece < at(9, 0).piece);
    assert_eq!(at(9, 0).piece, at(9, 2).piece);
}

#[test]
fn a_block_with_no_skeleton_keeps_reading_order() {
    let art = Art::parse("##\n##");
    let keys = Geodesic::default().keys(&art);
    assert!(keys.iter().all(|k| k.value.is_none() && k.depth == 0));
    let coords: Vec<(u16, u16)> = keys.iter().map(|k| (k.x, k.y)).collect();
    assert_eq!(coords, vec![(0, 0), (1, 0), (0, 1), (1, 1)]);
}

#[test]
fn scanline_steps_rise_within_the_denominator() {
    let art = Art::parse("a b\n c \nd e");
    let r = Scanline.rank(&art);
    let steps: Vec<usize> = r.steps.iter().flatten().copied().collect();
    assert_eq!(steps, vec![0, 1, 2, 3, 4]);
    assert!(steps.iter().all(|&s| s <= r.denom));
    assert_eq!(r.denom, 4);
}

#[test]
fn directional_steps_stay_within_the_denominator() {
    let art = Art::parse("ab\ncd\nef");
    for dir in [Direction::TopToBottom, Direction::BottomToTop, Direction::LeftToRight, Direction::RightToLeft] {
        let r = Directional(dir).rank(&art);
        assert!(r.steps.iter().flatten().all(|&s| s <= r.denom));
    }
    let r = Directional(Direction::BottomToTop).rank(&art);
    assert_eq!(r.denom, 2);
    assert_eq!(r.steps, vec![Some(2), Some(2), Some(1), Some(1), Some(0), Some(0)]);
}

#[test]
fn with_any_skeleton_every_ink_cell_inherits_a_value() {
    let art = Art::parse("#####\n#####\n#####\n\n   .   #");
    let keys = Geodesic::default().keys(&art);
    assert_eq!(keys.len(), art.ink_count());
    assert!(keys.iter().all(|k| k.value.is_some()));
    // The flesh of the block hangs off its centerline at a distance.
    assert!(keys.iter().any(|k| k.depth > 0));
}
