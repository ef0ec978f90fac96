use inkling::art::Art;
use inkling::cli::DepthChoice;
use inkling::easing::Easing;
use inkling::names::{
    loader_spine, parse_color_depth, parse_easing, parse_loader_ordering, parse_ordering, parse_start, LoaderOrdering,
    RevealOrdering,
};
use inkling::ordering::StartHint;
use inkling::render::ColorDepth;
use inkling::schedule::Direction;

#[test]
fn easing_names_accept_underscores_for_dashes() {
    assert_eq!(parse_easing("linear"), Some(Easing::Linear));
    assert_eq!(parse_easing("ease-out-cubic"), Some(Easing::EaseOutCubic));
    assert_eq!(parse_easing("ease_out_quint"), Some(Easing::EaseOutQuint));
    assert_eq!(parse_easing("ease_in-out_cubic"), Some(Easing::EaseInOutCubic));
    assert_eq!(parse_easing("Linear"), None);
    assert_eq!(parse_easing(""), None);
}

#[test]
fn start_names_accept_both_spellings() {
    assert_eq!(parse_start("top-left"), Some(StartHint::TopLeft));
    assert_eq!(parse_start("top_left"), Some(StartHint::TopLeft));
    assert_eq!(parse_start("topleft"), Some(StartHint::TopLeft));
    assert_eq!(parse_start("bottom"), Some(StartHint::Bottom));
    assert_eq!(parse_start("topological"), Some(StartHint::Topological));
    assert_eq!(parse_start("middle"), None);
}

#[test]
fn colour_depth_names_are_taken_as_written() {
    assert_eq!(parse_color_depth("auto"), Some(DepthChoice::Detect));
    assert_eq!(parse_color_depth("24bit"), Some(DepthChoice::Fixed(ColorDepth::TrueColor)));
    assert_eq!(parse_color_depth("truecolor"), Some(DepthChoice::Fixed(ColorDepth::TrueColor)));
    assert_eq!(parse_color_depth("256"), Some(DepthChoice::Fixed(ColorDepth::Ansi256)));
    assert_eq!(parse_color_depth("16"), Some(DepthChoice::Fixed(ColorDepth::Ansi16)));
    assert_eq!(parse_color_depth("mono"), Some(DepthChoice::Fixed(ColorDepth::Mono)));
    assert_eq!(parse_color_depth("none"), Some(DepthChoice::Fixed(ColorDepth::Mono)));
    assert_eq!(parse_color_depth("true_color"), None);
}

#[test]
fn unknown_reveal_names_fall_back_to_the_automatic_wipe() {
    assert_eq!(parse_ordering("geodesic"), RevealOrdering::Geodesic);
    assert_eq!(parse_ordering("top"), RevealOrdering::Directional(Direction::TopToBottom));
    assert_eq!(parse_ordering("bottom"), RevealOrdering::Directional(Direction::BottomToTop));
    assert_eq!(parse_ordering("left"), RevealOrdering::Directional(Direction::LeftToRight));
    assert_eq!(parse_ordering("right"), RevealOrdering::Directional(Direction::RightToLeft));
    assert_eq!(parse_ordering("sideways"), RevealOrdering::Directional(Direction::Auto));
}

#[test]
fn glyphs_are_the_grid_row_major() {
    let art = Art::parse(" /\\\n/__\\");
    assert_eq!(art.glyphs(), " /\\ /__\\");
    assert_eq!(Art::parse("").glyphs(), "");
}

#[test]
fn a_loader_ordering_name_wins_over_the_shorthands() {
    assert_eq!(parse_loader_ordering(Some("scanline"), true, true), Some(LoaderOrdering::Scanline));
    assert_eq!(parse_loader_ordering(Some("rtl"), false, false), Some(LoaderOrdering::Rtl));
    assert_eq!(parse_loader_ordering(Some("ltr"), false, false), Some(LoaderOrdering::Ltr));
    assert_eq!(parse_loader_ordering(Some("reading"), false, false), Some(LoaderOrdering::Reading));
    assert_eq!(parse_loader_ordering(Some("auto"), true, false), Some(LoaderOrdering::Auto));
    assert_eq!(parse_loader_ordering(Some("geodesic"), false, false), Some(LoaderOrdering::Geodesic));
    assert_eq!(parse_loader_ordering(Some("diagonal"), false, false), None);
    assert_eq!(parse_loader_ordering(None, true, true), Some(LoaderOrdering::Geodesic));
    assert_eq!(parse_loader_ordering(None, false, true), Some(LoaderOrdering::Reading));
    assert_eq!(parse_loader_ordering(None, false, false), Some(LoaderOrdering::Auto));
}

#[test]
fn a_loader_bridge_is_held_to_sixteen_bits() {
    let g = loader_spine(None, None);
    assert_eq!((g.start, g.bridge), (StartHint::TopLeft, 1));
    let g = loader_spine(Some(StartHint::Bottom), Some(70_000));
    assert_eq!((g.start, g.bridge), (StartHint::Bottom, 65535));
    assert_eq!(loader_spine(None, Some(3)).bridge, 3);
}
