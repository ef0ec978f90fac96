//! Reveal schedules: the exact, integer form of what each ordering decides.
//!
//! An ordering gives every ink cell a reveal step out of a common
//! denominator; the renderer shows a cell once progress reaches
//! `step / denom`. Background cells carry no step and never appear. Spacing
//! the steps evenly over `0..=denom` makes the first cell reveal at the very
//! start and the last at the very end, with no dead zone at either end.

use crate::art::{Cell, ink_cells_of, ink_mask, ink_mask_of, lemma_ink_upto_cells, lemma_ink_upto_count, Art};
use crate::frame::{frame_text, lemma_everything_shown, lemma_nothing_drawn, lemma_reveal_grows, marks};
use crate::grid::{flood, flood_order, full, near, reach};
use crate::ordering::{
    adapted_bridge, count_true, count_where, single_value, single_value_of, lemma_skeleton_len, skeleton, skeleton_values, skeletonize, valued, wide,
    Geodesic, SkeletonValue, StartHint, Trace,
};
use vstd::prelude::*;

verus! {

/// The denominator that spaces `count` cells evenly from `0` to `1`, so the
/// first sits at `0` and the last at `1`; never zero.
pub open spec fn even_step(count: nat) -> nat {
    if count <= 1 {
        1
    } else {
        (count - 1) as nat
    }
}

/// Executable [`even_step`].
pub fn even_step_of(count: usize) -> (d: usize)
    ensures
        d == even_step(count as nat),
{
    if count <= 1 {
        1
    } else {
        count - 1
    }
}

/// A reveal schedule over a `width x height` grid: cell `i` (row-major)
/// appears once progress reaches `steps[i] / denom`; `None` never appears.
pub struct RankSteps {
    pub width: u16,
    pub height: u16,
    pub steps: Vec<Option<usize>>,
    pub denom: usize,
}

/// `r` is a schedule of `art`: one entry per cell, a step exactly for the
/// ink cells, and every step within the denominator.
pub open spec fn schedules(r: RankSteps, art: Art) -> bool {
    &&& r.steps@.len() == ink_mask_of(art).len()
    &&& forall|v: int|
        0 <= v < r.steps@.len() ==> (#[trigger] r.steps@[v] is Some <==> ink_mask_of(art)[v])
    &&& forall|v: int| 0 <= v < r.steps@.len() && #[trigger] r.steps@[v] is Some ==> r.steps@[v]->0 <= r.denom
}

/// The cells showing once progress reaches step `k` of schedule `r`.
pub open spec fn shown_by(r: RankSteps, k: int) -> Seq<bool> {
    Seq::new(r.steps@.len(), |i: int| r.steps@[i] is Some && r.steps@[i]->0 <= k)
}

/// A schedule reveals like a progress bar: nothing is drawn before its first
/// step, more is drawn as progress grows and never less, and at the last step
/// every ink cell is drawn, once.
pub proof fn lemma_schedule_reveals(art: Art, r: RankSteps, k1: int, k2: int)
    requires
        schedules(r, art),
        k1 <= k2,
    ensures
        marks(frame_text(art, shown_by(r, -1), art.spec_height() as int)) == 0,
        marks(frame_text(art, shown_by(r, k1), art.spec_height() as int)) <= marks(
            frame_text(art, shown_by(r, k2), art.spec_height() as int),
        ),
        marks(frame_text(art, shown_by(r, r.denom as int), art.spec_height() as int)) == ink_cells_of(art).len(),
{
    lemma_nothing_drawn(art, shown_by(r, -1));
    lemma_reveal_grows(art, shown_by(r, k1), shown_by(r, k2));
    assert(shown_by(r, r.denom as int) =~= ink_mask_of(art));
    lemma_everything_shown(art);
}

/// Reveal in reading order: top-to-bottom, left-to-right.
///
/// The dullest possible ordering, a baseline for the others.
#[derive(Clone, Copy, Debug, Default)]
pub struct Scanline;

impl Scanline {
    /// The `k`-th ink cell in reading order gets step `k`, out of one less
    /// than the number of ink cells.
    pub fn rank(&self, art: &Art) -> (r: RankSteps)
        ensures
            r.width == art.spec_width(),
            r.height == art.spec_height(),
            r.steps.len() == ink_mask_of(*art).len(),
            forall|v: int|
                0 <= v < r.steps.len() ==> #[trigger] r.steps@[v] == if ink_mask_of(*art)[v] {
                    Some(count_true(ink_mask_of(*art).take(v)) as usize)
                } else {
                    None
                },
            r.denom == even_step(ink_cells_of(*art).len()),
            forall|v: int|
                0 <= v < r.steps.len() && #[trigger] ink_mask_of(*art)[v] ==> r.steps@[v]->0 <= r.denom,
            forall|u: int, v: int|
                0 <= u < v < r.steps.len() && #[trigger] ink_mask_of(*art)[u] && #[trigger] ink_mask_of(*art)[v]
                    ==> r.steps@[u]->0 < r.steps@[v]->0,
            schedules(r, *art),
    {
        let mask = ink_mask(art);
        let ghost m = mask@;
        let mut steps: Vec<Option<usize>> = Vec::new();
        let mut count: usize = 0;
        let mut v: usize = 0;
        while v < mask.len()
            invariant
                m == mask@,
                v <= mask.len(),
                steps.len() == v,
                count == count_true(m.take(v as int)),
                count <= v,
                forall|u: int|
                    0 <= u < v ==> #[trigger] steps@[u] == if m[u] {
                        Some(count_true(m.take(u)) as usize)
                    } else {
                        None
                    },
            decreases mask.len() - v,
        {
            proof {
                assert(m.take(v + 1).drop_last() =~= m.take(v as int));
                crate::ordering::lemma_count_true_bound(m.take(v as int));
            }
            if mask[v] {
                steps.push(Some(count));
                count += 1;
            } else {
                steps.push(None);
            }
            v += 1;
        }
        let denom = even_step_of(art.ink_count());
        proof {
            let n = m.len() as int;
            lemma_ink_upto_count(*art, n);
            assert(m.take(n) =~= m);
            assert forall|v: int| 0 <= v < n && #[trigger] m[v] implies count_true(m.take(v)) <= even_step(
                count_true(m),
            ) by {
                crate::ordering::lemma_count_true_prefix(m, v, n);
            }
            assert forall|u: int, v: int| 0 <= u < v < n && #[trigger] m[u] && #[trigger] m[v] implies count_true(
                m.take(u),
            ) < count_true(m.take(v)) by {
                crate::ordering::lemma_count_true_prefix(m, u, v);
            }
        }
        RankSteps { width: art.width(), height: art.height(), steps, denom }
    }
}

/// The direction a [`Directional`] reveal sweeps.
#[derive(Clone, Copy, Debug, PartialEq, Eq, Structural)]
pub enum Direction {
    /// Row by row from the top. Good for tall art. (default)
    TopToBottom,
    /// Row by row from the bottom.
    BottomToTop,
    /// Column by column from the left.
    LeftToRight,
    /// Column by column from the right.
    RightToLeft,
    /// Top to bottom unless the art reads much wider than tall.
    Auto,
}

impl Default for Direction {
    fn default() -> (d: Direction)
        ensures
            d == Direction::TopToBottom,
    {
        Direction::TopToBottom
    }
}

/// The direction a wipe actually takes over a `w x h` canvas: `Auto` goes
/// sideways only for genuinely wide art.
pub open spec fn resolved(dir: Direction, w: int, h: int) -> Direction {
    match dir {
        Direction::Auto => if wide(w, h) {
            Direction::LeftToRight
        } else {
            Direction::TopToBottom
        },
        other => other,
    }
}

/// The step of cell `(x, y)` along a wipe in direction `dir`.
pub open spec fn wipe_step(dir: Direction, w: int, h: int, x: int, y: int) -> int {
    match dir {
        Direction::BottomToTop => h - 1 - y,
        Direction::LeftToRight => x,
        Direction::RightToLeft => w - 1 - x,
        _ => y,
    }
}

/// The denominator of a wipe in direction `dir`: one less than the number of
/// rows or columns it sweeps.
pub open spec fn wipe_denom(dir: Direction, w: int, h: int) -> nat {
    match dir {
        Direction::LeftToRight | Direction::RightToLeft => even_step(w as nat),
        _ => even_step(h as nat),
    }
}

/// A wipe spans the whole bar: its denominator is one less than the number of
/// columns it sweeps (sideways) or rows (up or down), and at least one; every
/// cell's step lies between zero and the denominator; and of the two corner
/// cells, the one the wipe starts from is at step zero and the other, once the
/// sweep has two or more lines, at the denominator, so the last line shows
/// exactly when progress reaches the end. A wipe to the right gains one step
/// per column and one to the left loses one, whatever the row; a wipe down
/// gains one per row and one up loses one, whatever the column.
pub proof fn lemma_wipe_spans_the_bar(dir: Direction, w: int, h: int)
    requires
        w >= 1,
        h >= 1,
        dir != Direction::Auto,
    ensures
        ({
            let sideways = dir == Direction::LeftToRight || dir == Direction::RightToLeft;
            let lines = if sideways {
                w
            } else {
                h
            };
            let first = wipe_step(dir, w, h, 0, 0);
            let last = wipe_step(dir, w, h, w - 1, h - 1);
            &&& wipe_denom(dir, w, h) == if lines <= 1 {
                1
            } else {
                lines - 1
            }
            &&& forall|x: int, y: int|
                0 <= x < w && 0 <= y < h ==> 0 <= #[trigger] wipe_step(dir, w, h, x, y) <= wipe_denom(dir, w, h)
            &&& (first == 0 && last == lines - 1) || (last == 0 && first == lines - 1)
        }),
        forall|x: int, y: int|
            0 <= x < w && 0 <= y < h ==> {
                let s = #[trigger] wipe_step(dir, w, h, x, y);
                &&& dir == Direction::LeftToRight ==> s == wipe_step(dir, w, h, 0, y) + x && s == wipe_step(
                    dir,
                    w,
                    h,
                    x,
                    0,
                )
                &&& dir == Direction::RightToLeft ==> s == wipe_step(dir, w, h, 0, y) - x && s == wipe_step(
                    dir,
                    w,
                    h,
                    x,
                    0,
                )
                &&& dir == Direction::TopToBottom ==> s == wipe_step(dir, w, h, x, 0) + y && s == wipe_step(
                    dir,
                    w,
                    h,
                    0,
                    y,
                )
                &&& dir == Direction::BottomToTop ==> s == wipe_step(dir, w, h, x, 0) - y && s == wipe_step(
                    dir,
                    w,
                    h,
                    0,
                    y,
                )
            },
{
}

/// Language subtags written right to left.
pub open spec fn rtl_tag(a: char, b: char) -> bool {
    (a == 'a' && b == 'r') || (a == 'h' && b == 'e') || (a == 'f' && b == 'a') || (a == 'u' && b == 'r')
}

/// ASCII lower case; every other character unchanged.
pub open spec fn ascii_lower(c: char) -> char {
    if 'A' <= c <= 'Z' {
        ((c as u32) + 32) as char
    } else {
        c
    }
}

/// A locale name whose language is written right to left: it begins, in any
/// ASCII case, with `ar`, `he`, `fa` or `ur`.
pub open spec fn locale_rtl(l: Seq<char>) -> bool {
    l.len() >= 2 && rtl_tag(ascii_lower(l[0]), ascii_lower(l[1]))
}

/// `c` is the letter `lo` in either ASCII case.
fn letter_is(c: char, lo: char, up: char) -> (b: bool)
    requires
        'a' <= lo <= 'z',
        up as u32 == lo as u32 - 32,
    ensures
        b == (ascii_lower(c) == lo),
{
    c == lo || c == up
}

/// True when the locale `name` is written right to left.
pub fn locale_is_rtl(name: &str) -> (b: bool)
    ensures
        b == locale_rtl(name@),
{
    let chars = crate::text::chars_of(name);
    if chars.len() < 2 {
        return false;
    }
    let (a, b) = (chars[0], chars[1]);
    (letter_is(a, 'a', 'A') && letter_is(b, 'r', 'R')) || (letter_is(a, 'h', 'H') && letter_is(b, 'e', 'E'))
        || (letter_is(a, 'f', 'F') && letter_is(b, 'a', 'A')) || (letter_is(a, 'u', 'U') && letter_is(
        b,
        'r',
        'R',
    ))
}

/// Reveal the art as a clean directional wipe, ranking each cell by its
/// position along one axis.
#[derive(Clone, Copy, Debug)]
pub struct Directional(pub Direction);

impl Default for Directional {
    /// `Auto`: top to bottom unless the art reads much wider than it is tall.
    fn default() -> (d: Directional)
        ensures
            d.0 == Direction::Auto,
    {
        Directional(Direction::Auto)
    }
}

impl Directional {
    /// Left to right: the wipe follows a left-to-right reader's eye.
    pub fn ltr() -> (d: Self)
        ensures
            d.0 == Direction::LeftToRight,
    {
        Directional(Direction::LeftToRight)
    }

    /// Right to left, for Arabic, Hebrew, Persian and Urdu layouts.
    pub fn rtl() -> (d: Self)
        ensures
            d.0 == Direction::RightToLeft,
    {
        Directional(Direction::RightToLeft)
    }

    /// Wipe along the reading direction of the locale named `locale` (the
    /// user's `LC_ALL` or `LANG`), falling back to left to right when none
    /// is known.
    pub fn reading(locale: Option<&str>) -> (d: Self)
        ensures
            d.0 == match locale {
                Some(l) => if locale_rtl(l@) {
                    Direction::RightToLeft
                } else {
                    Direction::LeftToRight
                },
                None => Direction::LeftToRight,
            },
    {
        let rtl = match locale {
            Some(l) => locale_is_rtl(l),
            None => false,
        };
        if rtl {
            Self::rtl()
        } else {
            Self::ltr()
        }
    }

    /// Each ink cell's step is its row or column counted along the wipe.
    pub fn rank(&self, art: &Art) -> (r: RankSteps)
        ensures
            r.width == art.spec_width(),
            r.height == art.spec_height(),
            r.steps.len() == ink_mask_of(*art).len(),
            ({
                let (w, h) = (art.spec_width() as int, art.spec_height() as int);
                let dir = resolved(self.0, w, h);
                let lines = if dir == Direction::LeftToRight || dir == Direction::RightToLeft {
                    w
                } else {
                    h
                };
                &&& r.denom == wipe_denom(dir, w, h)
                &&& r.denom == if lines <= 1 {
                    1
                } else {
                    lines - 1
                }
                &&& forall|v: int|
                    0 <= v < r.steps.len() ==> #[trigger] r.steps@[v] == if ink_mask_of(*art)[v] {
                        Some(wipe_step(dir, w, h, v % w, v / w) as usize)
                    } else {
                        None
                    }
            }),
            forall|v: int|
                0 <= v < r.steps.len() && #[trigger] ink_mask_of(*art)[v] ==> r.steps@[v]->0 <= r.denom,
            schedules(r, *art),
    {
        let w = art.width();
        let h = art.height();
        let dir = match self.0 {
            Direction::Auto => if crate::ordering::is_wide(w, h) {
                Direction::LeftToRight
            } else {
                Direction::TopToBottom
            },
            other => other,
        };
        let denom = match dir {
            Direction::LeftToRight | Direction::RightToLeft => even_step_of(w as usize),
            _ => even_step_of(h as usize),
        };
        let mask = ink_mask(art);
        let ghost m = mask@;
        let mut steps: Vec<Option<usize>> = Vec::new();
        let mut y: u16 = 0;
        proof {
            assert(m.len() == w * h);
            assert(0 * w == 0);
        }
        if w > 0 {
            while y < h
                invariant
                    m == mask@,
                    m.len() == w * h,
                    w == art.spec_width(),
                    h == art.spec_height(),
                    w > 0,
                    y <= h,
                    dir == resolved(self.0, w as int, h as int),
                    steps.len() == y * w,
                    forall|v: int|
                        0 <= v < y * w ==> #[trigger] steps@[v] == if m[v] {
                            Some(wipe_step(dir, w as int, h as int, v % (w as int), v / (w as int)) as usize)
                        } else {
                            None
                        },
                decreases h - y,
            {
                let mut x: u16 = 0;
                while x < w
                    invariant
                        m == mask@,
                        m.len() == w * h,
                        w == art.spec_width(),
                        h == art.spec_height(),
                        w > 0,
                        y < h,
                        x <= w,
                        dir == resolved(self.0, w as int, h as int),
                        steps.len() == y * w + x,
                        forall|v: int|
                            0 <= v < y * w + x ==> #[trigger] steps@[v] == if m[v] {
                                Some(wipe_step(dir, w as int, h as int, v % (w as int), v / (w as int)) as usize)
                            } else {
                                None
                            },
                    decreases w - x,
                {
                    let i = art.index(x, y);
                    proof {
                        crate::grid::lemma_cell(w as int, x as int, y as int);
                        assert(y * w + x < w * h) by (nonlinear_arith)
                            requires
                                x < w,
                                y < h,
                        ;
                    }
                    if mask[i] {
                        let s: usize = match dir {
                            Direction::BottomToTop => (h - 1 - y) as usize,
                            Direction::LeftToRight => x as usize,
                            Direction::RightToLeft => (w - 1 - x) as usize,
                            _ => y as usize,
                        };
                        steps.push(Some(s));
                    } else {
                        steps.push(None);
                    }
                    proof {
                        assert(steps@[i as int] == if m[i as int] {
                            Some(wipe_step(dir, w as int, h as int, (i as int) % (w as int), (i as int) / (w as int)) as usize)
                        } else {
                            None
                        });
                    }
                    x += 1;
                }
                proof {
                    assert((y + 1) * w == y * w + w) by (nonlinear_arith);
                }
                y += 1;
            }
        }
        proof {
            if w == 0 {
                assert(w * h == 0);
            }
            assert(h * w == w * h) by (nonlinear_arith);
            assert forall|v: int| 0 <= v < steps.len() && #[trigger] m[v] implies steps@[v]->0 <= denom by {
                crate::grid::lemma_coords(w as int, h as int, v);
                assert(steps@[v] == Some(
                    wipe_step(dir, w as int, h as int, v % (w as int), v / (w as int)) as usize,
                ));
            }
        }
        RankSteps { width: w, height: h, steps, denom }
    }
}

/// Where an ink cell falls in the geodesic reveal before ranks are spread
/// evenly: the value of the skeleton cell it inherits (`None` when the
/// skeleton is empty), and how many steps it lies from the skeleton.
#[derive(Clone, Copy, Debug, PartialEq, Eq, Structural)]
pub struct GeodesicKey {
    pub x: u16,
    pub y: u16,
    pub value: Option<SkeletonValue>,
    pub depth: u32,
}

/// `key` is what the Voronoi flood gives cell `v`: the value of the skeleton
/// cell the flood reached it from, `depth` steps away, where no skeleton cell
/// is nearer; a cell the flood never reaches keeps no value and depth zero.
#[verifier::opaque]
pub open spec fn flooded(
    g: Seq<bool>,
    w: int,
    h: int,
    r: int,
    hint: StartHint,
    traces: Map<int, Trace>,
    v: int,
    key: GeodesicKey,
) -> bool {
    if exists|j: nat| near(g, w, h, v, j) {
        exists|o: int|
            0 <= o < g.len() && g[o] && reach(full(g.len() as int), w, h, 0, o, v, key.depth as nat) && (forall|
                j: nat,
            | j < key.depth ==> !near(g, w, h, v, j)) && valued(g, w, h, r, hint, traces, o, key.value) && (exists|
                i: int,
            | 0 <= i < flood_order(g, w, h).len() && flood_order(g, w, h)[i] == (v, o))
    } else {
        key.value is None && key.depth == 0
    }
}

/// The flood gives a cell one key: the value of the skeleton cell that
/// reached it first, and its distance from the skeleton.
pub proof fn lemma_flooded_unique(
    g: Seq<bool>,
    w: int,
    h: int,
    r: int,
    hint: StartHint,
    traces1: Map<int, Trace>,
    traces2: Map<int, Trace>,
    v: int,
    k1: GeodesicKey,
    k2: GeodesicKey,
)
    requires
        flooded(g, w, h, r, hint, traces1, v, k1),
        flooded(g, w, h, r, hint, traces2, v, k2),
    ensures
        k1.value == k2.value,
        k1.depth == k2.depth,
{
    reveal(flooded);
    if exists|j: nat| near(g, w, h, v, j) {
        let q = flood_order(g, w, h);
        let o1 = choose|o: int|
            0 <= o < g.len() && g[o] && reach(full(g.len() as int), w, h, 0, o, v, k1.depth as nat) && (forall|
                j: nat,
            | j < k1.depth ==> !near(g, w, h, v, j)) && valued(g, w, h, r, hint, traces1, o, k1.value) && (exists|
                i: int,
            | 0 <= i < q.len() && q[i] == (v, o));
        let o2 = choose|o: int|
            0 <= o < g.len() && g[o] && reach(full(g.len() as int), w, h, 0, o, v, k2.depth as nat) && (forall|
                j: nat,
            | j < k2.depth ==> !near(g, w, h, v, j)) && valued(g, w, h, r, hint, traces2, o, k2.value) && (exists|
                i: int,
            | 0 <= i < q.len() && q[i] == (v, o));
        let i1 = choose|i: int| 0 <= i < q.len() && q[i] == (v, o1);
        let i2 = choose|i: int| 0 <= i < q.len() && q[i] == (v, o2);
        crate::grid::lemma_flood_queue_distinct(g, w, h, g.len());
        assert(i1 == i2) by {
            if i1 < i2 {
                assert(q[i1].0 != q[i2].0);
            } else if i2 < i1 {
                assert(q[i2].0 != q[i1].0);
            }
        }
        crate::ordering::lemma_valued_unique(g, w, h, r, hint, traces1, traces2, o1, k1.value, k2.value);
        assert(near(g, w, h, v, k1.depth as nat));
        assert(near(g, w, h, v, k2.depth as nat));
        if k1.depth < k2.depth {
            assert(!near(g, w, h, v, k1.depth as nat));
        } else if k2.depth < k1.depth {
            assert(!near(g, w, h, v, k2.depth as nat));
        }
    }
}

/// Every skeleton cell holds the value its piece's trace gives it.
#[verifier::opaque]
spec fn values_facts(
    g: Seq<bool>,
    w: int,
    h: int,
    r: int,
    hint: StartHint,
    traces: Map<int, Trace>,
    vals: Seq<Option<SkeletonValue>>,
) -> bool {
    forall|v: int| 0 <= v < g.len() && #[trigger] g[v] ==> valued(g, w, h, r, hint, traces, v, vals[v])
}

/// `fl` is a flood of the grid from the set cells of `g`.
#[verifier::opaque]
spec fn flood_facts(g: Seq<bool>, w: int, h: int, fl: Seq<Option<(usize, u32)>>) -> bool {
    &&& forall|v: int| 0 <= v < g.len() ==> (#[trigger] fl[v] is Some <==> exists|j: nat| near(g, w, h, v, j))
    &&& forall|v: int|
        0 <= v < g.len() && #[trigger] fl[v] is Some ==> {
            let (o, d) = fl[v]->0;
            &&& o < g.len()
            &&& g[o as int]
            &&& reach(full(g.len() as int), w, h, 0, o as int, v, d as nat)
            &&& forall|j: nat| j < d ==> !near(g, w, h, v, j)
            &&& exists|i: int| 0 <= i < flood_order(g, w, h).len() && flood_order(g, w, h)[i] == (v, o as int)
        }
    &&& forall|a: int, b: int|
        0 <= a < b < flood_order(g, w, h).len() ==> flood_order(g, w, h)[a].0 != flood_order(g, w, h)[b].0
}

/// A cell the flood reaches got there from a cell of the grid.
proof fn lemma_flood_origin(g: Seq<bool>, w: int, h: int, fl: Seq<Option<(usize, u32)>>, v: int)
    requires
        flood_facts(g, w, h, fl),
        0 <= v < g.len(),
    ensures
        fl[v] is Some ==> (fl[v]->0).0 < g.len(),
{
    reveal(flood_facts);
}

/// The key built from the flood's entry for cell `v` is what the flood gives
/// that cell.
proof fn lemma_key_flooded(
    g: Seq<bool>,
    w: int,
    h: int,
    r: int,
    hint: StartHint,
    traces: Map<int, Trace>,
    vals: Seq<Option<SkeletonValue>>,
    fl: Seq<Option<(usize, u32)>>,
    v: int,
    key: GeodesicKey,
)
    requires
        values_facts(g, w, h, r, hint, traces, vals),
        flood_facts(g, w, h, fl),
        0 <= v < g.len(),
        vals.len() == g.len(),
        key == match fl[v] {
            Some((o, d)) => GeodesicKey { x: key.x, y: key.y, value: vals[o as int], depth: d },
            None => GeodesicKey { x: key.x, y: key.y, value: None, depth: 0 },
        },
    ensures
        flooded(g, w, h, r, hint, traces, v, key),
{
    reveal(flooded);
    if fl[v] is Some {
        let (o, d) = fl[v]->0;
        assert({
            &&& o < g.len()
            &&& g[o as int]
            &&& reach(full(g.len() as int), w, h, 0, o as int, v, d as nat)
            &&& forall|j: nat| j < d ==> !near(g, w, h, v, j)
            &&& exists|j: nat| near(g, w, h, v, j)
            &&& exists|i: int| 0 <= i < flood_order(g, w, h).len() && flood_order(g, w, h)[i] == (v, o as int)
        }) by {
            reveal(flood_facts);
        }
        assert(valued(g, w, h, r, hint, traces, o as int, vals[o as int])) by {
            reveal(values_facts);
        }
    } else {
        assert(!exists|j: nat| near(g, w, h, v, j)) by {
            reveal(flood_facts);
        }
    }
}

/// Once the skeleton keeps any cell the flood covers the whole grid, so a
/// flooded cell holds a value exactly when the skeleton is not empty.
proof fn lemma_flooded_value(
    g: Seq<bool>,
    w: int,
    h: int,
    r: int,
    hint: StartHint,
    traces: Map<int, Trace>,
    v: int,
    key: GeodesicKey,
)
    requires
        flooded(g, w, h, r, hint, traces, v, key),
        g.len() == w * h,
        w > 0,
        0 <= v < w * h,
    ensures
        key.value is Some <==> count_true(g) > 0,
{
    reveal(flooded);
    crate::ordering::lemma_count_true_zero(g);
    if count_true(g) > 0 {
        let s = choose|s: int| 0 <= s < g.len() && !!g[s];
        crate::grid::lemma_full_reach(w, h, s, v);
        assert(near(g, w, h, v, crate::grid::chebyshev(w, s, v)));
    } else {
        assert(!exists|j: nat| near(g, w, h, v, j));
    }
}

/// Every key is what the flood gives its cell.
pub open spec fn all_flooded(
    g: Seq<bool>,
    w: int,
    h: int,
    r: int,
    hint: StartHint,
    traces: Map<int, Trace>,
    cells: Seq<Cell>,
    keys: Seq<GeodesicKey>,
) -> bool {
    forall|k: int|
        0 <= k < keys.len() ==> flooded(g, w, h, r, hint, traces, cells[k].y * w + cells[k].x, #[trigger] keys[k])
}

/// `ks` holds the ordering key of every ink cell of `art`, in reading order:
/// the flood's key for the cell, under the skeleton and bridge the ordering
/// `g` works with. A key holds a value exactly when the skeleton keeps a cell.
pub open spec fn keys_of(g: Geodesic, art: Art, ks: Seq<GeodesicKey>) -> bool {
    let (w, h) = (art.spec_width() as int, art.spec_height() as int);
    let sk = skeleton(ink_mask_of(art), w, h);
    let r = adapted_bridge(sk, w, h, g.bridge as int);
    &&& ks.len() == ink_cells_of(art).len()
    &&& forall|k: int|
        #![trigger ks[k]]
        0 <= k < ks.len() ==> ks[k].x == ink_cells_of(art)[k].x && ks[k].y == ink_cells_of(art)[k].y
    &&& exists|traces: Map<int, Trace>| #[trigger] all_flooded(sk, w, h, r, g.start, traces, ink_cells_of(art), ks)
    &&& forall|k: int| 0 <= k < ks.len() ==> (#[trigger] ks[k].value is Some <==> count_true(sk) > 0)
}

proof fn lemma_key_at(g: Geodesic, art: Art, ks: Seq<GeodesicKey>, k: int)
    requires
        keys_of(g, art, ks),
        0 <= k < ks.len(),
    ensures
        ks[k].x == ink_cells_of(art)[k].x,
        ks[k].y == ink_cells_of(art)[k].y,
{
}

/// The keys are determined by the ordering and the art: whichever traces
/// were taken, every cell's key is the same.
pub proof fn lemma_keys_unique(g: Geodesic, art: Art, ks1: Seq<GeodesicKey>, ks2: Seq<GeodesicKey>)
    requires
        keys_of(g, art, ks1),
        keys_of(g, art, ks2),
    ensures
        ks1 == ks2,
{
    let (w, h) = (art.spec_width() as int, art.spec_height() as int);
    let sk = skeleton(ink_mask_of(art), w, h);
    let r = adapted_bridge(sk, w, h, g.bridge as int);
    let cells = ink_cells_of(art);
    let t1 = choose|traces: Map<int, Trace>| #[trigger] all_flooded(sk, w, h, r, g.start, traces, cells, ks1);
    let t2 = choose|traces: Map<int, Trace>| #[trigger] all_flooded(sk, w, h, r, g.start, traces, cells, ks2);
    assert forall|k: int| 0 <= k < ks1.len() implies #[trigger] ks1[k] == ks2[k] by {
        let v = cells[k].y * w + cells[k].x;
        assert(flooded(sk, w, h, r, g.start, t1, v, ks1[k]));
        assert(flooded(sk, w, h, r, g.start, t2, v, ks2[k]));
        lemma_flooded_unique(sk, w, h, r, g.start, t1, t2, v, ks1[k], ks2[k]);
        lemma_key_at(g, art, ks1, k);
        lemma_key_at(g, art, ks2, k);
    }
    assert(ks1 =~= ks2);
}

impl Geodesic {
    /// The ordering key of every ink cell, in reading order. The ink is
    /// thinned to its skeleton, every skeleton cell is valued by the trace of
    /// its piece, and every other cell inherits the value of its nearest
    /// skeleton cell along with its distance from it. The reveal orders the
    /// ink by value, then distance, then reading order.
    pub fn keys(&self, art: &Art) -> (res: Vec<GeodesicKey>)
        ensures
            keys_of(*self, *art, res@),
    {
        let w = art.width();
        let h = art.height();
        let ghost (gw, gh) = (w as int, h as int);
        let skel = skeletonize(art);
        proof {
            lemma_skeleton_len(ink_mask_of(*art), gw, gh);
        }
        let (vals, Ghost(traces)) = skeleton_values(&skel, w, h, self.start, self.bridge);
        let ghost r = adapted_bridge(skel@, gw, gh, self.bridge as int);
        let fl = flood(&skel, w, h);
        let cells = art.ink_cells();
        proof {
            lemma_ink_upto_cells(*art, gw * gh);
            reveal(values_facts);
            reveal(flood_facts);
        }
        let mut res: Vec<GeodesicKey> = Vec::new();
        let mut k: usize = 0;
        while k < cells.len()
            invariant
                k <= cells.len(),
                res.len() == k,
                w == art.spec_width(),
                h == art.spec_height(),
                gw == w,
                gh == h,
                cells@ == ink_cells_of(*art),
                skel.len() == w * h,
                vals.len() == skel.len(),
                fl.len() == skel.len(),
                r == adapted_bridge(skel@, gw, gh, self.bridge as int),
                forall|j: int|
                    0 <= j < cells.len() ==> {
                        let c = #[trigger] cells@[j];
                        &&& c.x < w
                        &&& c.y < h
                        &&& c.y * w + c.x < w * h
                    },
                values_facts(skel@, gw, gh, r, self.start, traces, vals@),
                flood_facts(skel@, gw, gh, fl@),
                forall|j: int|
                    0 <= j < k ==> #[trigger] res[j].x == cells@[j].x && res[j].y == cells@[j].y,
                forall|j: int|
                    0 <= j < k ==> flooded(
                        skel@,
                        gw,
                        gh,
                        r,
                        self.start,
                        traces,
                        cells@[j].y * gw + cells@[j].x,
                        #[trigger] res[j],
                    ),
            decreases cells.len() - k,
        {
            let c = cells[k];
            let i = art.index(c.x, c.y);
            proof {
                assert(cells@[k as int] == c);
            }
            proof {
                lemma_flood_origin(skel@, gw, gh, fl@, i as int);
            }
            let key = match fl[i] {
                Some((o, d)) => GeodesicKey { x: c.x, y: c.y, value: vals[o], depth: d },
                None => GeodesicKey { x: c.x, y: c.y, value: None, depth: 0 },
            };
            proof {
                lemma_key_flooded(skel@, gw, gh, r, self.start, traces, vals@, fl@, i as int, key);
            }
            res.push(key);
            proof {
                assert(res[k as int] == key);
            }
            k += 1;
        }
        proof {
            assert(all_flooded(skel@, gw, gh, r, self.start, traces, cells@, res@));
            assert forall|j: int| 0 <= j < res.len() implies (#[trigger] res[j].value is Some <==> count_true(skel@) > 0) by {
                let c = cells@[j];
                assert(c.y * gw + c.x < gw * gh);
                lemma_flooded_value(skel@, gw, gh, r, self.start, traces, c.y * gw + c.x, res[j]);
            }
        }
        res
    }
}


// ---------------------------------------------------------------------------
// The geodesic reveal order
// ---------------------------------------------------------------------------

/// Key `a`, the `i`-th, is revealed before key `b`, the `j`-th: by value as
/// single precision computes it (a key without a value after every key with
/// one), then by distance from the skeleton, then in reading order.
pub open spec fn key_before(a: GeodesicKey, i: int, b: GeodesicKey, j: int) -> bool {
    let tie = a.depth < b.depth || (a.depth == b.depth && i < j);
    match (a.value, b.value) {
        (Some(x), Some(y)) => single_value(x) < single_value(y) || (single_value(x) == single_value(y) && tie),
        (Some(_), None) => true,
        (None, Some(_)) => false,
        (None, None) => tie,
    }
}

/// The place of the `k`-th key in the geodesic reveal: how many keys come
/// before it.
pub open spec fn geodesic_step(ks: Seq<GeodesicKey>, k: int) -> nat {
    count_where(|j: int| key_before(ks[j], j, ks[k], k), ks.len() as int)
}

proof fn lemma_count_where_within(p: spec_fn(int) -> bool, n: int, k: int)
    requires
        0 <= k < n,
        !p(k),
    ensures
        count_where(p, n) < n,
    decreases n,
{
    if k < n - 1 {
        lemma_count_where_within(p, n - 1, k);
    } else {
        lemma_count_where_at_most(p, n - 1);
    }
}

proof fn lemma_count_where_at_most(p: spec_fn(int) -> bool, n: int)
    requires
        0 <= n,
    ensures
        count_where(p, n) <= n,
    decreases n,
{
    if n > 0 {
        lemma_count_where_at_most(p, n - 1);
    }
}

/// Every value of a flooded key is measured over a span of at least one.
proof fn lemma_flooded_span(
    g: Seq<bool>,
    w: int,
    h: int,
    r: int,
    hint: StartHint,
    traces: Map<int, Trace>,
    v: int,
    key: GeodesicKey,
)
    requires
        flooded(g, w, h, r, hint, traces, v, key),
    ensures
        key.value is Some ==> key.value->0.span >= 1,
{
    reveal(flooded);
}

/// Key `i` comes before key `j`, given each key's value as single precision
/// computes it.
fn key_is_before(vals: &Vec<Option<u128>>, keys: &Vec<GeodesicKey>, i: usize, j: usize) -> (b: bool)
    requires
        vals.len() == keys.len(),
        i < keys.len(),
        j < keys.len(),
        forall|k: int|
            0 <= k < keys.len() ==> (#[trigger] vals@[k] is Some <==> keys@[k].value is Some) && (vals@[k] is Some
                ==> vals@[k]->0 == single_value(keys@[k].value->0)),
    ensures
        b == key_before(keys@[i as int], i as int, keys@[j as int], j as int),
{
    let a = &keys[i];
    let c = &keys[j];
    let tie = a.depth < c.depth || (a.depth == c.depth && i < j);
    proof {
        assert(vals@[i as int] is Some <==> keys@[i as int].value is Some);
        assert(vals@[j as int] is Some <==> keys@[j as int].value is Some);
    }
    match (vals[i], vals[j]) {
        (Some(x), Some(y)) => x < y || (x == y && tie),
        (Some(_), None) => true,
        (None, Some(_)) => false,
        (None, None) => tie,
    }
}

/// The place of every key in the geodesic reveal: key `k` goes to step
/// [`geodesic_step`] of the keys, how many keys come before it.
pub fn geodesic_steps(keys: &Vec<GeodesicKey>) -> (steps: Vec<usize>)
    requires
        forall|k: int| 0 <= k < keys.len() && #[trigger] keys@[k].value is Some ==> keys@[k].value->0.span >= 1,
    ensures
        steps.len() == keys.len(),
        forall|k: int| 0 <= k < keys.len() ==> #[trigger] steps@[k] == geodesic_step(keys@, k),
        forall|k: int| 0 <= k < keys.len() ==> #[trigger] steps@[k] < keys.len(),
{
    let n = keys.len();
    let mut vals: Vec<Option<u128>> = Vec::new();
    let mut k: usize = 0;
    while k < n
        invariant
            n == keys.len(),
            k <= n,
            vals.len() == k,
            forall|q: int| 0 <= q < keys.len() && #[trigger] keys@[q].value is Some ==> keys@[q].value->0.span >= 1,
            forall|q: int|
                0 <= q < k ==> (#[trigger] vals@[q] is Some <==> keys@[q].value is Some) && (vals@[q] is Some
                    ==> vals@[q]->0 == single_value(keys@[q].value->0)),
        decreases n - k,
    {
        let val = match keys[k].value {
            Some(x) => Some(single_value_of(x)),
            None => None,
        };
        vals.push(val);
        proof {
            assert(vals@[k as int] == val);
        }
        k += 1;
    }
    let mut steps: Vec<usize> = Vec::new();
    let mut k: usize = 0;
    while k < n
        invariant
            n == keys.len(),
            k <= n,
            steps.len() == k,
            vals.len() == n,
            forall|q: int|
                0 <= q < n ==> (#[trigger] vals@[q] is Some <==> keys@[q].value is Some) && (vals@[q] is Some
                    ==> vals@[q]->0 == single_value(keys@[q].value->0)),
            forall|q: int| 0 <= q < k ==> #[trigger] steps@[q] == geodesic_step(keys@, q),
            forall|q: int| 0 <= q < k ==> #[trigger] steps@[q] < n,
        decreases n - k,
    {
        let ghost p = |jj: int| key_before(keys@[jj], jj, keys@[k as int], k as int);
        let mut c: usize = 0;
        let mut j: usize = 0;
        while j < n
            invariant
                n == keys.len(),
                k < n,
                j <= n,
                vals.len() == n,
                forall|q: int|
                    0 <= q < n ==> (#[trigger] vals@[q] is Some <==> keys@[q].value is Some) && (vals@[q] is Some
                        ==> vals@[q]->0 == single_value(keys@[q].value->0)),
                p == (|jj: int| key_before(keys@[jj], jj, keys@[k as int], k as int)),
                c == count_where(p, j as int),
                c <= j,
            decreases n - j,
        {
            if key_is_before(&vals, keys, j, k) {
                c += 1;
            }
            j += 1;
        }
        proof {
            assert(!p(k as int));
            lemma_count_where_within(p, n as int, k as int);
        }
        steps.push(c);
        proof {
            assert(steps@[k as int] == c);
        }
        k += 1;
    }
    steps
}

impl Geodesic {
    /// The geodesic reveal: the ink cells ordered by their keys, the `k`-th in
    /// that order at step `k`, out of one less than the number of ink cells.
    /// Ink cell `v` is the `count_true(mask.take(v))`-th key.
    pub fn rank(&self, art: &Art) -> (r: RankSteps)
        ensures
            r.width == art.spec_width(),
            r.height == art.spec_height(),
            schedules(r, *art),
            r.denom == even_step(ink_cells_of(*art).len()),
            exists|ks: Seq<GeodesicKey>|
                #[trigger] keys_of(*self, *art, ks) && forall|v: int|
                    0 <= v < r.steps@.len() && ink_mask_of(*art)[v] ==> #[trigger] r.steps@[v] == Some(
                        geodesic_step(ks, count_true(ink_mask_of(*art).take(v)) as int) as usize,
                    ),
    {
        let keys = self.keys(art);
        proof {
            let (w, h) = (art.spec_width() as int, art.spec_height() as int);
            let sk = skeleton(ink_mask_of(*art), w, h);
            let r = adapted_bridge(sk, w, h, self.bridge as int);
            let traces = choose|traces: Map<int, Trace>|
                #[trigger] all_flooded(sk, w, h, r, self.start, traces, ink_cells_of(*art), keys@);
            assert forall|k: int| 0 <= k < keys.len() && #[trigger] keys@[k].value is Some implies keys@[k].value->0.span
                >= 1 by {
                let c = ink_cells_of(*art)[k];
                lemma_flooded_span(sk, w, h, r, self.start, traces, c.y * w + c.x, keys@[k]);
            }
        }
        let order = geodesic_steps(&keys);
        let mask = ink_mask(art);
        let ghost m = mask@;
        let ghost n = m.len() as int;
        proof {
            lemma_ink_upto_count(*art, n);
            assert(m.take(n) =~= m);
        }
        let mut steps: Vec<Option<usize>> = Vec::new();
        let mut count: usize = 0;
        let mut v: usize = 0;
        while v < mask.len()
            invariant
                m == mask@,
                n == m.len(),
                m == ink_mask_of(*art),
                order.len() == keys.len(),
                keys.len() == count_true(m),
                forall|k: int| 0 <= k < keys.len() ==> #[trigger] order@[k] == geodesic_step(keys@, k),
                forall|k: int| 0 <= k < keys.len() ==> #[trigger] order@[k] < keys.len(),
                v <= mask.len(),
                steps.len() == v,
                count == count_true(m.take(v as int)),
                forall|u: int|
                    0 <= u < v ==> #[trigger] steps@[u] == if m[u] {
                        Some(order@[count_true(m.take(u)) as int])
                    } else {
                        None
                    },
            decreases mask.len() - v,
        {
            proof {
                assert(m.take(v + 1).drop_last() =~= m.take(v as int));
                crate::ordering::lemma_count_true_prefix(m, v as int, n);
                assert(m.take(n) =~= m);
            }
            if mask[v] {
                steps.push(Some(order[count]));
                count += 1;
            } else {
                steps.push(None);
            }
            v += 1;
        }
        let denom = even_step_of(art.ink_count());
        let r = RankSteps { width: art.width(), height: art.height(), steps, denom };
        proof {
            assert(keys_of(*self, *art, keys@));
            assert forall|v: int| 0 <= v < r.steps@.len() && ink_mask_of(*art)[v] implies #[trigger] r.steps@[v]
                == Some(geodesic_step(keys@, count_true(ink_mask_of(*art).take(v)) as int) as usize) by {
                let k = count_true(m.take(v)) as int;
                crate::ordering::lemma_count_true_prefix(m, v, n);
                assert(m.take(n) =~= m);
                assert(0 <= k < keys.len());
                assert(order@[k] == geodesic_step(keys@, k));
            }
            assert forall|v: int| 0 <= v < r.steps@.len() && #[trigger] r.steps@[v] is Some implies r.steps@[v]->0
                <= r.denom by {
                assert(m[v]);
                crate::ordering::lemma_count_true_prefix(m, v, n);
                assert(m.take(n) =~= m);
            }
        }
        r
    }
}

} // verus!
