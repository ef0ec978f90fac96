//! Option names as the language bindings spell them.
//!
//! The bindings take the same names as the command line, but accept `_`
//! wherever a name has `-` (a Python or JavaScript caller writes
//! `ease_out_cubic` as readily as `ease-out-cubic`). A name that is not
//! recognised gives `None`, for the binding to report in its own words.

use crate::cli::{eq_lit, DepthChoice};
use crate::easing::Easing;
use crate::ordering::{Geodesic, StartHint};
use crate::render::ColorDepth;
use crate::schedule::Direction;
use crate::text::chars_of;
use vstd::prelude::*;

verus! {

/// `s` with every `_` read as `-`.
pub open spec fn dashed(s: Seq<char>) -> Seq<char> {
    s.map_values(|c: char| if c == '_' { '-' } else { c })
}

/// The easing a (dashed) name stands for.
pub open spec fn easing_named(n: Seq<char>) -> Option<Easing> {
    if n == "linear"@ {
        Some(Easing::Linear)
    } else if n == "ease-out-cubic"@ {
        Some(Easing::EaseOutCubic)
    } else if n == "ease-out-quint"@ {
        Some(Easing::EaseOutQuint)
    } else if n == "ease-in-out-cubic"@ {
        Some(Easing::EaseInOutCubic)
    } else {
        None
    }
}

/// The start tip a (dashed) name stands for.
pub open spec fn start_named(n: Seq<char>) -> Option<StartHint> {
    if n == "top-left"@ || n == "topleft"@ {
        Some(StartHint::TopLeft)
    } else if n == "bottom"@ {
        Some(StartHint::Bottom)
    } else if n == "topological"@ {
        Some(StartHint::Topological)
    } else {
        None
    }
}

/// The colour depth a name stands for; `auto` asks to detect it.
pub open spec fn depth_named(n: Seq<char>) -> Option<DepthChoice> {
    if n == "auto"@ {
        Some(DepthChoice::Detect)
    } else if n == "truecolor"@ || n == "24bit"@ {
        Some(DepthChoice::Fixed(ColorDepth::TrueColor))
    } else if n == "256"@ {
        Some(DepthChoice::Fixed(ColorDepth::Ansi256))
    } else if n == "16"@ {
        Some(DepthChoice::Fixed(ColorDepth::Ansi16))
    } else if n == "none"@ || n == "mono"@ {
        Some(DepthChoice::Fixed(ColorDepth::Mono))
    } else {
        None
    }
}

/// The characters of `name`, each `_` read as `-`.
fn dashed_chars(name: &str) -> (v: Vec<char>)
    ensures
        v@ == dashed(name@),
{
    let c = chars_of(name);
    let mut v: Vec<char> = Vec::new();
    let mut i: usize = 0;
    while i < c.len()
        invariant
            i <= c.len(),
            c@ == name@,
            v@ == dashed(c@.take(i as int)),
        decreases c.len() - i,
    {
        v.push(if c[i] == '_' { '-' } else { c[i] });
        proof {
            assert(dashed(c@.take(i + 1)) =~= dashed(c@.take(i as int)).push(v@[i as int]));
        }
        i += 1;
    }
    proof {
        assert(c@.take(c.len() as int) =~= c@);
    }
    v
}

/// The easing `name` stands for, `_` read as `-`.
pub fn parse_easing(name: &str) -> (e: Option<Easing>)
    ensures
        e == easing_named(dashed(name@)),
{
    let v = dashed_chars(name);
    if eq_lit(&v, "linear") {
        Some(Easing::Linear)
    } else if eq_lit(&v, "ease-out-cubic") {
        Some(Easing::EaseOutCubic)
    } else if eq_lit(&v, "ease-out-quint") {
        Some(Easing::EaseOutQuint)
    } else if eq_lit(&v, "ease-in-out-cubic") {
        Some(Easing::EaseInOutCubic)
    } else {
        None
    }
}

/// The geodesic start tip `name` stands for, `_` read as `-`.
pub fn parse_start(name: &str) -> (s: Option<StartHint>)
    ensures
        s == start_named(dashed(name@)),
{
    let v = dashed_chars(name);
    if eq_lit(&v, "top-left") || eq_lit(&v, "topleft") {
        Some(StartHint::TopLeft)
    } else if eq_lit(&v, "bottom") {
        Some(StartHint::Bottom)
    } else if eq_lit(&v, "topological") {
        Some(StartHint::Topological)
    } else {
        None
    }
}

/// The colour depth `name` stands for. These names hold no `-`, so they are
/// taken exactly as written.
pub fn parse_color_depth(name: &str) -> (d: Option<DepthChoice>)
    ensures
        d == depth_named(name@),
{
    let v = chars_of(name);
    if eq_lit(&v, "auto") {
        Some(DepthChoice::Detect)
    } else if eq_lit(&v, "truecolor") || eq_lit(&v, "24bit") {
        Some(DepthChoice::Fixed(ColorDepth::TrueColor))
    } else if eq_lit(&v, "256") {
        Some(DepthChoice::Fixed(ColorDepth::Ansi256))
    } else if eq_lit(&v, "16") {
        Some(DepthChoice::Fixed(ColorDepth::Ansi16))
    } else if eq_lit(&v, "none") || eq_lit(&v, "mono") {
        Some(DepthChoice::Fixed(ColorDepth::Mono))
    } else {
        None
    }
}

/// The reveals a browser can ask for by name.
#[derive(Clone, Copy, Debug, PartialEq, Eq, Structural)]
pub enum RevealOrdering {
    /// Trace the art's spine.
    Geodesic,
    /// A wipe in this direction.
    Directional(Direction),
}

/// The reveal a name selects: `geodesic`, or a wipe from the `top`,
/// `bottom`, `left` or `right`; any other name gets the automatic wipe.
pub open spec fn ordering_named(n: Seq<char>) -> RevealOrdering {
    if n == "geodesic"@ {
        RevealOrdering::Geodesic
    } else if n == "top"@ {
        RevealOrdering::Directional(Direction::TopToBottom)
    } else if n == "bottom"@ {
        RevealOrdering::Directional(Direction::BottomToTop)
    } else if n == "left"@ {
        RevealOrdering::Directional(Direction::LeftToRight)
    } else if n == "right"@ {
        RevealOrdering::Directional(Direction::RightToLeft)
    } else {
        RevealOrdering::Directional(Direction::Auto)
    }
}

/// The reveal `name` selects (see [`ordering_named`]).
pub fn parse_ordering(name: &str) -> (o: RevealOrdering)
    ensures
        o == ordering_named(name@),
{
    let v = chars_of(name);
    if eq_lit(&v, "geodesic") {
        RevealOrdering::Geodesic
    } else if eq_lit(&v, "top") {
        RevealOrdering::Directional(Direction::TopToBottom)
    } else if eq_lit(&v, "bottom") {
        RevealOrdering::Directional(Direction::BottomToTop)
    } else if eq_lit(&v, "left") {
        RevealOrdering::Directional(Direction::LeftToRight)
    } else if eq_lit(&v, "right") {
        RevealOrdering::Directional(Direction::RightToLeft)
    } else {
        RevealOrdering::Directional(Direction::Auto)
    }
}


/// The reveals a loader's options can ask for by name.
#[derive(Clone, Copy, Debug, PartialEq, Eq, Structural)]
pub enum LoaderOrdering {
    /// The automatic wipe.
    Auto,
    /// Trace the art's spine.
    Geodesic,
    /// Row-major order.
    Scanline,
    /// A wipe along the reading direction of the user's locale.
    Reading,
    /// A wipe from the left.
    Ltr,
    /// A wipe from the right.
    Rtl,
}

/// The reveal a loader's options pick. An explicit `ordering` name wins and
/// must be one of `auto`, `geodesic`, `scanline`, `reading`, `ltr` or `rtl`;
/// without one, the older `geodesic` shorthand picks the geodesic reveal,
/// then the `reading` shorthand the reading wipe, and otherwise `auto`.
pub open spec fn loader_ordering_named(name: Option<Seq<char>>, geodesic: bool, reading: bool) -> Option<
    LoaderOrdering,
> {
    match name {
        Some(n) => if n == "auto"@ {
            Some(LoaderOrdering::Auto)
        } else if n == "geodesic"@ {
            Some(LoaderOrdering::Geodesic)
        } else if n == "scanline"@ {
            Some(LoaderOrdering::Scanline)
        } else if n == "reading"@ {
            Some(LoaderOrdering::Reading)
        } else if n == "ltr"@ {
            Some(LoaderOrdering::Ltr)
        } else if n == "rtl"@ {
            Some(LoaderOrdering::Rtl)
        } else {
            None
        },
        None => if geodesic {
            Some(LoaderOrdering::Geodesic)
        } else if reading {
            Some(LoaderOrdering::Reading)
        } else {
            Some(LoaderOrdering::Auto)
        },
    }
}

/// The reveal a loader's options pick (see [`loader_ordering_named`]);
/// `None` for an unknown name.
pub fn parse_loader_ordering(name: Option<&str>, geodesic: bool, reading: bool) -> (o: Option<LoaderOrdering>)
    ensures
        o == loader_ordering_named(
            match name {
                Some(n) => Some(n@),
                None => None,
            },
            geodesic,
            reading,
        ),
{
    match name {
        Some(n) => {
            let v = chars_of(n);
            if eq_lit(&v, "auto") {
                Some(LoaderOrdering::Auto)
            } else if eq_lit(&v, "geodesic") {
                Some(LoaderOrdering::Geodesic)
            } else if eq_lit(&v, "scanline") {
                Some(LoaderOrdering::Scanline)
            } else if eq_lit(&v, "reading") {
                Some(LoaderOrdering::Reading)
            } else if eq_lit(&v, "ltr") {
                Some(LoaderOrdering::Ltr)
            } else if eq_lit(&v, "rtl") {
                Some(LoaderOrdering::Rtl)
            } else {
                None
            }
        },
        None => if geodesic {
            Some(LoaderOrdering::Geodesic)
        } else if reading {
            Some(LoaderOrdering::Reading)
        } else {
            Some(LoaderOrdering::Auto)
        },
    }
}

/// The geodesic settings a loader's options give: the start tip asked for or
/// the top-left one, and the bridge asked for, held to what a `u16` holds, or
/// a one-cell bridge.
pub fn loader_spine(start: Option<StartHint>, bridge: Option<u32>) -> (g: Geodesic)
    ensures
        g.start == match start {
            Some(s) => s,
            None => StartHint::TopLeft,
        },
        g.bridge == match bridge {
            Some(b) => if b <= 65535 {
                b as int
            } else {
                65535
            },
            None => 1,
        },
{
    let start = match start {
        Some(s) => s,
        None => StartHint::TopLeft,
    };
    let bridge: u16 = match bridge {
        Some(b) => if b <= 65535 {
            b as u16
        } else {
            65535
        },
        None => 1,
    };
    Geodesic { start, bridge }
}

} // verus!
