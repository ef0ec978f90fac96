//! Flat row-major grids and their neighbourhoods.
//!
//! A `w x h` grid stores cell `(x, y)` at index `y * w + x`. Two cells are
//! neighbours within radius `r` when their Chebyshev distance is between one
//! and `r + 1`, so radius `0` is plain 8-connectivity and a larger radius lets
//! a walk step across gaps of up to `r` blank cells.
//!
//! The searches over a grid are breadth-first and expand each cell's
//! neighbours in increasing index order; [`search_order`] and
//! [`flood_order`] state the order they visit cells in, which is what decides
//! between cells at equal distance.

use vstd::arithmetic::div_mod::*;
use vstd::set_lib::*;
use vstd::prelude::*;

verus! {

/// Column of flat index `i` in a grid `w` cells wide.
pub open spec fn col(w: int, i: int) -> int {
    i % w
}

/// Row of flat index `i` in a grid `w` cells wide.
pub open spec fn row(w: int, i: int) -> int {
    i / w
}

/// Absolute difference.
pub open spec fn gap(a: int, b: int) -> int {
    if a <= b {
        b - a
    } else {
        a - b
    }
}

/// `b` lies within Chebyshev distance `r + 1` of `a`, both in the grid, and
/// they are distinct cells.
pub open spec fn within(w: int, h: int, r: int, a: int, b: int) -> bool {
    &&& w > 0
    &&& 0 <= a < w * h
    &&& 0 <= b < w * h
    &&& a != b
    &&& gap(col(w, a), col(w, b)) <= r + 1
    &&& gap(row(w, a), row(w, b)) <= r + 1
}

/// The coordinates of a cell index built from `(x, y)` are `(x, y)` again.
pub proof fn lemma_cell(w: int, x: int, y: int)
    requires
        w > 0,
        0 <= x < w,
        y >= 0,
    ensures
        col(w, y * w + x) == x,
        row(w, y * w + x) == y,
{
    lemma_fundamental_div_mod_converse(y * w + x, w, y, x);
}

/// Every index of a `w x h` grid decomposes into in-range coordinates.
pub proof fn lemma_coords(w: int, h: int, i: int)
    requires
        w > 0,
        0 <= i < w * h,
    ensures
        0 <= col(w, i) < w,
        0 <= row(w, i) < h,
        i == row(w, i) * w + col(w, i),
{
    lemma_fundamental_div_mod(i, w);
    lemma_mod_pos_bound(i, w);
    lemma_div_pos_is_pos(i, w);
    assert(i == w * (i / w) + i % w);
    assert((i / w) * w == w * (i / w)) by (nonlinear_arith);
    if i / w >= h {
        assert((i / w) * w >= h * w) by (nonlinear_arith)
            requires
                i / w >= h,
                w > 0,
        ;
        assert(h * w == w * h) by (nonlinear_arith);
    }
}

/// The flat index of `(x, y)` in a `w x h` grid.
pub fn cell_index(x: usize, y: usize, w: u16, h: u16) -> (i: usize)
    requires
        x < w,
        y < h,
    ensures
        i == y * w + x,
        i < w * h,
        col(w as int, i as int) == x,
        row(w as int, i as int) == y,
{
    proof {
        assert(y * w + x < w * h) by (nonlinear_arith)
            requires
                x < w,
                y < h,
        ;
        assert(w * h <= 65535 * 65535) by (nonlinear_arith)
            requires
                w <= 65535,
                h <= 65535,
        ;
        lemma_cell(w as int, x as int, y as int);
    }
    y * (w as usize) + x
}

/// The flat index of `(x, y)` in a `w x h` grid, or `None` when either axis
/// is out of bounds. Both bounds matter: a bare `y * w + x` would let an
/// out-of-range column alias into the next row.
pub fn flat_index(x: u16, y: u16, w: u16, h: u16) -> (i: Option<usize>)
    ensures
        i is Some <==> (x < w && y < h),
        i is Some ==> i->0 == y * w + x && i->0 < w * h,
{
    if x < w && y < h {
        Some(cell_index(x as usize, y as usize, w, h))
    } else {
        None
    }
}

/// In-bounds coordinates never share a flat index.
pub proof fn lemma_flat_index_distinct(w: int, x1: int, y1: int, x2: int, y2: int)
    requires
        0 <= x1 < w,
        0 <= x2 < w,
        y1 >= 0,
        y2 >= 0,
        y1 * w + x1 == y2 * w + x2,
    ensures
        x1 == x2,
        y1 == y2,
{
    lemma_cell(w, x1, y1);
    lemma_cell(w, x2, y2);
}

/// In-bounds cells within Chebyshev distance `bridge + 1` of `index`, the
/// centre excluded, in increasing index order. `bridge = 0` is plain
/// 8-connectivity.
pub fn offsets(index: usize, w: u16, h: u16, bridge: u16) -> (out: Vec<usize>)
    requires
        index < w * h,
    ensures
        forall|i: int, j: int| 0 <= i < j < out.len() ==> out[i] < out[j],
        forall|k: int|
            0 <= k < out.len() ==> within(w as int, h as int, bridge as int, index as int, #[trigger] out[k] as int),
        forall|b: int|
            within(w as int, h as int, bridge as int, index as int, b) ==> out@.contains(b as usize),
{
    let ghost gw = w as int;
    let ghost gh = h as int;
    let ghost gr = bridge as int;
    let wi = w as usize;
    let hi = h as usize;
    proof {
        if w == 0 {
            assert(w * h == 0) by (nonlinear_arith)
                requires
                    w == 0,
            ;
        }
        lemma_coords(gw, gh, index as int);
    }
    let cx = index % wi;
    let cy = index / wi;
    let r = bridge as usize + 1;
    let y0 = if cy >= r { cy - r } else { 0 };
    let y1 = if cy + r < hi { cy + r } else { hi - 1 };
    let x0 = if cx >= r { cx - r } else { 0 };
    let x1 = if cx + r < wi { cx + r } else { wi - 1 };
    let mut out: Vec<usize> = Vec::new();
    let mut y = y0;
    while y <= y1
        invariant
            gw == w, gh == h, gr == bridge, w > 0, index < w * h,
            wi == w, hi == h, cx == col(gw, index as int), cy == row(gw, index as int),
            cx < w, cy < h, r == bridge + 1,
            y0 <= y <= y1 + 1, y1 < h, x0 <= cx <= x1, x1 < w,
            y0 == (if cy >= r { cy - r } else { 0 }),
            y1 == (if cy + r < hi { cy + r } else { hi - 1 }),
            x0 == (if cx >= r { cx - r } else { 0 }),
            x1 == (if cx + r < wi { cx + r } else { wi - 1 }),
            forall|i: int, j: int| 0 <= i < j < out.len() ==> out[i] < out[j],
            forall|k: int| 0 <= k < out.len() ==> out[k] < y * w,
            forall|k: int|
                0 <= k < out.len() ==> within(gw, gh, gr, index as int, #[trigger] out[k] as int),
            forall|b: int|
                within(gw, gh, gr, index as int, b) && row(gw, b) < y ==> out@.contains(
                    b as usize,
                ),
        decreases y1 + 1 - y,
    {
        let mut x = x0;
        while x <= x1
            invariant
                gw == w, gh == h, gr == bridge, w > 0, index < w * h,
                wi == w, hi == h, cx == col(gw, index as int), cy == row(gw, index as int),
                cx < w, cy < h, r == bridge + 1,
                y0 <= y <= y1, y1 < h, x0 <= x <= x1 + 1, x0 <= cx <= x1, x1 < w,
                y0 == (if cy >= r { cy - r } else { 0 }),
                y1 == (if cy + r < hi { cy + r } else { hi - 1 }),
                x0 == (if cx >= r { cx - r } else { 0 }),
                x1 == (if cx + r < wi { cx + r } else { wi - 1 }),
                forall|i: int, j: int| 0 <= i < j < out.len() ==> out[i] < out[j],
                forall|k: int| 0 <= k < out.len() ==> out[k] < y * w + x,
                forall|k: int|
                    0 <= k < out.len() ==> within(gw, gh, gr, index as int, #[trigger] out[k] as int),
                forall|b: int|
                    within(gw, gh, gr, index as int, b) && (row(gw, b) < y || (row(gw, b) == y
                        && col(gw, b) < x)) ==> out@.contains(b as usize),
            decreases x1 + 1 - x,
        {
            let b = cell_index(x, y, w, h);
            proof {
                lemma_coords(gw, gh, index as int);
            }
            if b != index {
                let ghost old_out = out@;
                out.push(b);
                proof {
                    assert(out@.last() == b);
                    assert forall|c: int|
                        within(gw, gh, gr, index as int, c) && (row(gw, c) < y || (row(gw, c) == y
                            && col(gw, c) < x + 1)) implies out@.contains(c as usize) by {
                        lemma_coords(gw, gh, c);
                        if row(gw, c) == y && col(gw, c) == x {
                            assert(c == b);
                            assert(out@[out.len() - 1] == b);
                        } else {
                            assert(old_out.contains(c as usize));
                            let k = choose|k: int| 0 <= k < old_out.len() && old_out[k] == c as usize;
                            assert(out@[k] == c as usize);
                        }
                    }
                    assert forall|k: int| 0 <= k < out.len() implies out[k] < y * w + x + 1 by {
                        if k < old_out.len() {
                            assert(out[k] == old_out[k]);
                        }
                    }
                }
            } else {
                proof {
                    assert forall|c: int|
                        within(gw, gh, gr, index as int, c) && (row(gw, c) < y || (row(gw, c) == y
                            && col(gw, c) < x + 1)) implies out@.contains(c as usize) by {
                        lemma_coords(gw, gh, c);
                        if row(gw, c) == y && col(gw, c) == x {
                            assert(c == y * w + x);
                        }
                    }
                }
            }
            x = x + 1;
        }
        proof {
            assert forall|c: int|
                within(gw, gh, gr, index as int, c) && row(gw, c) < y + 1 implies out@.contains(
                c as usize,
            ) by {
                lemma_coords(gw, gh, c);
                if row(gw, c) == y {
                    // columns beyond x1 are out of range of the window
                    assert(col(gw, c) <= x1);
                }
            }
            assert forall|k: int| 0 <= k < out.len() implies out[k] < (y + 1) * w by {
                assert(y * w + (x1 + 1) <= (y + 1) * w) by (nonlinear_arith)
                    requires
                        x1 < w,
                ;
            }
        }
        y = y + 1;
    }
    proof {
        assert forall|c: int| within(gw, gh, gr, index as int, c) implies out@.contains(
            c as usize,
        ) by {
            lemma_coords(gw, gh, c);
        }
    }
    out
}


/// One step of a walk over the cells of `mask`: both ends are set and within
/// reach of each other.
pub open spec fn step(mask: Seq<bool>, w: int, h: int, r: int, a: int, b: int) -> bool {
    &&& mask.len() == w * h
    &&& within(w, h, r, a, b)
    &&& mask[a]
    &&& mask[b]
}

/// `p` is a walk over `mask`: a non-empty run of set cells, each a step from
/// the one before.
pub open spec fn is_walk(mask: Seq<bool>, w: int, h: int, r: int, p: Seq<int>) -> bool
    decreases p.len(),
{
    if p.len() == 0 {
        false
    } else if p.len() == 1 {
        0 <= p[0] < mask.len() && mask[p[0]]
    } else {
        is_walk(mask, w, h, r, p.drop_last()) && step(mask, w, h, r, p[p.len() - 2], p.last())
    }
}

/// `v` can be reached from `s` in at most `k` steps over `mask`.
pub open spec fn reach(mask: Seq<bool>, w: int, h: int, r: int, s: int, v: int, k: nat) -> bool {
    exists|p: Seq<int>|
        #[trigger] is_walk(mask, w, h, r, p) && p[0] == s && p.last() == v && p.len() <= k + 1
}

/// `v` lies in the same piece of `mask` as `s`.
pub open spec fn connected(mask: Seq<bool>, w: int, h: int, r: int, s: int, v: int) -> bool {
    exists|k: nat| reach(mask, w, h, r, s, v, k)
}

/// `d` is the length of a shortest walk from `s` to `v` over `mask`.
pub open spec fn shortest(mask: Seq<bool>, w: int, h: int, r: int, s: int, v: int, d: nat) -> bool {
    &&& reach(mask, w, h, r, s, v, d)
    &&& forall|k: nat| k < d ==> !reach(mask, w, h, r, s, v, k)
}

/// Every cell of a walk is a set cell.
pub proof fn lemma_walk_cells(mask: Seq<bool>, w: int, h: int, r: int, p: Seq<int>, i: int)
    requires
        is_walk(mask, w, h, r, p),
        0 <= i < p.len(),
    ensures
        0 <= p[i] < mask.len(),
        mask[p[i]],
    decreases p.len(),
{
    if p.len() > 1 {
        if i < p.len() - 1 {
            lemma_walk_cells(mask, w, h, r, p.drop_last(), i);
        }
    }
}

/// Consecutive cells of a walk are a step apart.
pub proof fn lemma_walk_step(mask: Seq<bool>, w: int, h: int, r: int, p: Seq<int>, i: int)
    requires
        is_walk(mask, w, h, r, p),
        0 <= i < p.len() - 1,
    ensures
        step(mask, w, h, r, p[i], p[i + 1]),
    decreases p.len(),
{
    if i < p.len() - 2 {
        lemma_walk_step(mask, w, h, r, p.drop_last(), i);
    }
}

/// A walk extended by one step is a walk.
pub proof fn lemma_walk_push(mask: Seq<bool>, w: int, h: int, r: int, p: Seq<int>, v: int)
    requires
        is_walk(mask, w, h, r, p),
        step(mask, w, h, r, p.last(), v),
    ensures
        is_walk(mask, w, h, r, p.push(v)),
{
    assert(p.push(v).drop_last() =~= p);
}

/// A prefix of a walk is a walk.
pub proof fn lemma_walk_prefix(mask: Seq<bool>, w: int, h: int, r: int, p: Seq<int>, n: int)
    requires
        is_walk(mask, w, h, r, p),
        1 <= n <= p.len(),
    ensures
        is_walk(mask, w, h, r, p.take(n)),
    decreases p.len(),
{
    if n == p.len() {
        assert(p.take(n) =~= p);
    } else {
        lemma_walk_prefix(mask, w, h, r, p.drop_last(), n);
        assert(p.drop_last().take(n) =~= p.take(n));
    }
}

pub proof fn lemma_reach_start(mask: Seq<bool>, w: int, h: int, r: int, s: int)
    requires
        0 <= s < mask.len(),
        mask[s],
    ensures
        reach(mask, w, h, r, s, s, 0),
{
    let p = seq![s];
    assert(is_walk(mask, w, h, r, p));
}

/// Reachable cells are set cells of the grid.
pub proof fn lemma_reach_in_mask(mask: Seq<bool>, w: int, h: int, r: int, s: int, v: int, k: nat)
    requires
        reach(mask, w, h, r, s, v, k),
    ensures
        0 <= v < mask.len(),
        mask[v],
        0 <= s < mask.len(),
        mask[s],
{
    let p = choose|p: Seq<int>|
        #[trigger] is_walk(mask, w, h, r, p) && p[0] == s && p.last() == v && p.len() <= k + 1;
    lemma_walk_cells(mask, w, h, r, p, 0);
    lemma_walk_cells(mask, w, h, r, p, p.len() - 1);
}

pub proof fn lemma_reach_mono(mask: Seq<bool>, w: int, h: int, r: int, s: int, v: int, k1: nat, k2: nat)
    requires
        reach(mask, w, h, r, s, v, k1),
        k1 <= k2,
    ensures
        reach(mask, w, h, r, s, v, k2),
{
    let p = choose|p: Seq<int>|
        #[trigger] is_walk(mask, w, h, r, p) && p[0] == s && p.last() == v && p.len() <= k1 + 1;
    assert(is_walk(mask, w, h, r, p));
}

pub proof fn lemma_reach_step(mask: Seq<bool>, w: int, h: int, r: int, s: int, u: int, v: int, k: nat)
    requires
        reach(mask, w, h, r, s, u, k),
        step(mask, w, h, r, u, v),
    ensures
        reach(mask, w, h, r, s, v, k + 1),
{
    let p = choose|p: Seq<int>|
        #[trigger] is_walk(mask, w, h, r, p) && p[0] == s && p.last() == u && p.len() <= k + 1;
    lemma_walk_push(mask, w, h, r, p, v);
    assert(is_walk(mask, w, h, r, p.push(v)));
    assert(p.push(v)[0] == s);
}

/// A walk of at least two cells ends one step after a shorter walk.
pub proof fn lemma_reach_back(mask: Seq<bool>, w: int, h: int, r: int, s: int, v: int, k: nat)
    requires
        reach(mask, w, h, r, s, v, k),
        v != s,
    ensures
        k >= 1,
        exists|u: int| #[trigger] reach(mask, w, h, r, s, u, (k - 1) as nat) && step(mask, w, h, r, u, v),
{
    let p = choose|p: Seq<int>|
        #[trigger] is_walk(mask, w, h, r, p) && p[0] == s && p.last() == v && p.len() <= k + 1;
    assert(p.len() >= 2);
    let q = p.drop_last();
    assert(is_walk(mask, w, h, r, q));
    let u = q.last();
    assert(reach(mask, w, h, r, s, u, (k - 1) as nat));
    lemma_walk_step(mask, w, h, r, p, p.len() - 2);
}

/// Walks compose.
pub proof fn lemma_reach_trans(
    mask: Seq<bool>,
    w: int,
    h: int,
    r: int,
    s: int,
    u: int,
    v: int,
    k1: nat,
    k2: nat,
)
    requires
        reach(mask, w, h, r, s, u, k1),
        reach(mask, w, h, r, u, v, k2),
    ensures
        reach(mask, w, h, r, s, v, k1 + k2),
    decreases k2,
{
    if v == u {
        lemma_reach_mono(mask, w, h, r, s, u, k1, k1 + k2);
    } else {
        lemma_reach_back(mask, w, h, r, u, v, k2);
        let t = choose|t: int|
            #[trigger] reach(mask, w, h, r, u, t, (k2 - 1) as nat) && step(mask, w, h, r, t, v);
        lemma_reach_trans(mask, w, h, r, s, u, t, k1, (k2 - 1) as nat);
        lemma_reach_step(mask, w, h, r, s, t, v, (k1 + k2 - 1) as nat);
    }
}

/// Walks reverse.
pub proof fn lemma_reach_sym(mask: Seq<bool>, w: int, h: int, r: int, s: int, v: int, k: nat)
    requires
        reach(mask, w, h, r, s, v, k),
    ensures
        reach(mask, w, h, r, v, s, k),
    decreases k,
{
    lemma_reach_in_mask(mask, w, h, r, s, v, k);
    if v == s {
        lemma_reach_start(mask, w, h, r, s);
        lemma_reach_mono(mask, w, h, r, s, s, 0, k);
    } else {
        lemma_reach_back(mask, w, h, r, s, v, k);
        let u = choose|u: int|
            #[trigger] reach(mask, w, h, r, s, u, (k - 1) as nat) && step(mask, w, h, r, u, v);
        lemma_reach_sym(mask, w, h, r, s, u, (k - 1) as nat);
        assert(step(mask, w, h, r, v, u));
        lemma_reach_start(mask, w, h, r, v);
        lemma_reach_step(mask, w, h, r, v, v, u, 0);
        lemma_reach_trans(mask, w, h, r, v, u, s, 1, (k - 1) as nat);
    }
}

/// A set of cells that holds `s` and is closed under steps holds everything
/// reachable from `s`.
pub proof fn lemma_closed_holds_reach(
    mask: Seq<bool>,
    w: int,
    h: int,
    r: int,
    cells: Seq<usize>,
    s: int,
    v: int,
    k: nat,
)
    requires
        cells.contains(s as usize),
        0 <= s,
        forall|a: int, b: int|
            0 <= a && cells.contains(a as usize) && #[trigger] step(mask, w, h, r, a, b)
                ==> cells.contains(b as usize),
        reach(mask, w, h, r, s, v, k),
    ensures
        cells.contains(v as usize),
    decreases k,
{
    if v != s {
        lemma_reach_back(mask, w, h, r, s, v, k);
        let u = choose|u: int|
            #[trigger] reach(mask, w, h, r, s, u, (k - 1) as nat) && step(mask, w, h, r, u, v);
        lemma_closed_holds_reach(mask, w, h, r, cells, s, u, (k - 1) as nat);
        lemma_reach_in_mask(mask, w, h, r, s, u, (k - 1) as nat);
    }
}

/// A list of distinct indices below `n` has at most `n` entries.
pub proof fn lemma_distinct_bounded(q: Seq<usize>, n: int)
    requires
        q.no_duplicates(),
        forall|j: int| 0 <= j < q.len() ==> q[j] < n,
        n >= 0,
    ensures
        q.len() <= n,
{
    let qi = q.map_values(|x: usize| x as int);
    assert forall|i: int, j: int| 0 <= i < qi.len() && 0 <= j < qi.len() && i != j implies qi[i]
        != qi[j] by {
        assert(q[i] != q[j]);
    }
    assert(qi.no_duplicates());
    qi.unique_seq_to_set();
    lemma_int_range(0, n);
    assert forall|x: int| qi.to_set().contains(x) implies set_int_range(0, n).contains(x) by {
        let j = choose|j: int| 0 <= j < qi.len() && qi[j] == x;
    }
    lemma_len_subset(qi.to_set(), set_int_range(0, n));
}

/// The set cells of `mask` within reach of `c` among the first `n` indices,
/// in increasing index order.
pub open spec fn reach_cells(mask: Seq<bool>, w: int, h: int, r: int, c: int, n: int) -> Seq<int>
    decreases n,
{
    if n <= 0 {
        Seq::empty()
    } else if within(w, h, r, c, n - 1) && mask[n - 1] {
        reach_cells(mask, w, h, r, c, n - 1).push(n - 1)
    } else {
        reach_cells(mask, w, h, r, c, n - 1)
    }
}

/// The set cells of `mask` within reach of `c`, in increasing index order:
/// the order a search expanding `c` takes them in.
pub open spec fn nbr_seq(mask: Seq<bool>, w: int, h: int, r: int, c: int) -> Seq<int> {
    reach_cells(mask, w, h, r, c, mask.len() as int)
}

/// A strictly increasing list of exactly the set cells within reach of `c`
/// below `n` is [`reach_cells`].
proof fn lemma_sorted_cells(mask: Seq<bool>, w: int, h: int, r: int, c: int, s: Seq<int>, n: int)
    requires
        0 <= n <= mask.len(),
        forall|i: int, j: int| 0 <= i < j < s.len() ==> s[i] < s[j],
        forall|x: int| s.contains(x) <==> (0 <= x < n && within(w, h, r, c, x) && mask[x]),
    ensures
        s == reach_cells(mask, w, h, r, c, n),
    decreases n,
{
    if n > 0 {
        if within(w, h, r, c, n - 1) && mask[n - 1] {
            assert(s.contains(n - 1));
            let k = choose|k: int| 0 <= k < s.len() && s[k] == n - 1;
            assert(k == s.len() - 1) by {
                if k < s.len() - 1 {
                    assert(s.contains(s[k + 1]));
                }
            }
            let t = s.drop_last();
            assert forall|x: int| t.contains(x) <==> (0 <= x < n - 1 && within(w, h, r, c, x) && mask[x]) by {
                if t.contains(x) {
                    let j = choose|j: int| 0 <= j < t.len() && t[j] == x;
                    assert(s[j] == x);
                    assert(s.contains(x));
                    assert(s[j] < s[k]);
                }
                if 0 <= x < n - 1 && within(w, h, r, c, x) && mask[x] {
                    assert(s.contains(x));
                    let j = choose|j: int| 0 <= j < s.len() && s[j] == x;
                    assert(j != k);
                    assert(t[j] == x);
                }
            }
            lemma_sorted_cells(mask, w, h, r, c, t, n - 1);
            assert(s =~= t.push(n - 1));
        } else {
            assert forall|x: int| s.contains(x) <==> (0 <= x < n - 1 && within(w, h, r, c, x) && mask[x]) by {
                if s.contains(x) {
                    assert(x != n - 1);
                }
            }
            lemma_sorted_cells(mask, w, h, r, c, s, n - 1);
        }
    } else {
        if s.len() > 0 {
            assert(s.contains(s[0]));
        }
        assert(s =~= Seq::<int>::empty());
    }
}

/// Cells of `mask` within Chebyshev distance `bridge + 1` of `index`, in
/// increasing index order.
pub fn bridged_neighbours(mask: &Vec<bool>, w: u16, h: u16, index: usize, bridge: u16) -> (out:
    Vec<usize>)
    requires
        index < w * h,
        mask.len() == w * h,
    ensures
        forall|i: int, j: int| 0 <= i < j < out.len() ==> out[i] < out[j],
        forall|k: int|
            0 <= k < out.len() ==> within(w as int, h as int, bridge as int, index as int, #[trigger] out[k] as int)
                && mask[out[k] as int],
        forall|b: int|
            within(w as int, h as int, bridge as int, index as int, b) && mask[b] ==> out@.contains(
                b as usize,
            ),
        out.len() == nbr_seq(mask@, w as int, h as int, bridge as int, index as int).len(),
        forall|k: int|
            0 <= k < out.len() ==> #[trigger] out[k] as int == nbr_seq(
                mask@,
                w as int,
                h as int,
                bridge as int,
                index as int,
            )[k],
{
    let all = offsets(index, w, h, bridge);
    let mut out: Vec<usize> = Vec::new();
    let mut i: usize = 0;
    while i < all.len()
        invariant
            index < w * h,
            mask.len() == w * h,
            0 <= i <= all.len(),
            forall|a: int, b: int| 0 <= a < b < all.len() ==> all[a] < all[b],
            forall|k: int|
                0 <= k < all.len() ==> within(w as int, h as int, bridge as int, index as int, #[trigger] all[k] as int),
            forall|b: int|
                within(w as int, h as int, bridge as int, index as int, b) ==> all@.contains(b as usize),
            forall|a: int, b: int| 0 <= a < b < out.len() ==> out[a] < out[b],
            forall|k: int| 0 <= k < out.len() ==> exists|j: int| 0 <= j < i && all[j] == #[trigger] out[k],
            forall|k: int|
                0 <= k < out.len() ==> within(w as int, h as int, bridge as int, index as int, #[trigger] out[k] as int)
                    && mask[out[k] as int],
            forall|j: int| 0 <= j < i && mask[all[j] as int] ==> out@.contains(#[trigger] all[j]),
        decreases all.len() - i,
    {
        let b = all[i];
        if mask[b] {
            let ghost old_out = out@;
            out.push(b);
            proof {
                assert forall|a: int, c: int| 0 <= a < c < out.len() implies out[a] < out[c] by {
                    if c == out.len() - 1 && a < c {
                        let j = choose|j: int| 0 <= j < i && all[j] == #[trigger] old_out[a];
                        assert(out[a] == old_out[a]);
                    }
                }
                assert forall|k: int| 0 <= k < out.len() implies exists|j: int|
                    0 <= j < i + 1 && all[j] == #[trigger] out[k] by {
                    if k < old_out.len() {
                        assert(out[k] == old_out[k]);
                        let j = choose|j: int| 0 <= j < i && all[j] == #[trigger] old_out[k];
                    } else {
                        assert(all[i as int] == out[k]);
                    }
                }
                assert forall|j: int| 0 <= j < i + 1 && mask[all[j] as int] implies out@.contains(
                    #[trigger] all[j],
                ) by {
                    if j < i {
                        let k = choose|k: int| 0 <= k < old_out.len() && old_out[k] == all[j];
                        assert(out@[k] == all[j]);
                    } else {
                        assert(out@[out.len() - 1] == all[j]);
                    }
                }
            }
        }
        i += 1;
    }
    proof {
        assert forall|b: int|
            within(w as int, h as int, bridge as int, index as int, b) && mask[b] implies out@.contains(
            b as usize,
        ) by {
            let j = choose|j: int| 0 <= j < all.len() && all[j] == b as usize;
        }
        let si = Seq::new(out.len() as nat, |k: int| out[k] as int);
        assert forall|x: int| si.contains(x) <==> (0 <= x < mask.len() && within(
            w as int,
            h as int,
            bridge as int,
            index as int,
            x,
        ) && mask[x]) by {
            if si.contains(x) {
                let k = choose|k: int| 0 <= k < si.len() && si[k] == x;
                assert(within(w as int, h as int, bridge as int, index as int, out[k] as int));
            }
            if 0 <= x < mask.len() && within(w as int, h as int, bridge as int, index as int, x) && mask[x] {
                assert(out@.contains(x as usize));
                let k = choose|k: int| 0 <= k < out.len() && out@[k] == x as usize;
                assert(si[k] == x);
            }
        }
        lemma_sorted_cells(mask@, w as int, h as int, bridge as int, index as int, si, mask.len() as int);
    }
    out
}


/// The cells of `s` that are not in `q`, in order.
pub open spec fn fresh(s: Seq<int>, q: Seq<int>) -> Seq<int>
    decreases s.len(),
{
    if s.len() == 0 {
        Seq::empty()
    } else if q.contains(s.last()) {
        fresh(s.drop_last(), q)
    } else {
        fresh(s.drop_last(), q).push(s.last())
    }
}

/// The queue of a breadth-first search from `src` once it has expanded its
/// first `k` cells: each expansion appends the cell's neighbours not yet
/// queued, in increasing index order.
pub open spec fn search_queue(mask: Seq<bool>, w: int, h: int, r: int, src: int, k: nat) -> Seq<int>
    decreases k,
{
    if k == 0 {
        seq![src]
    } else {
        let q = search_queue(mask, w, h, r, src, (k - 1) as nat);
        if k - 1 < q.len() {
            q + fresh(nbr_seq(mask, w, h, r, q[k - 1]), q)
        } else {
            q
        }
    }
}

/// Indices as integers.
pub open spec fn as_ints(q: Seq<usize>) -> Seq<int> {
    q.map_values(|x: usize| x as int)
}

/// The order in which a breadth-first search from `src` visits the cells of
/// its piece.
pub open spec fn search_order(mask: Seq<bool>, w: int, h: int, r: int, src: int) -> Seq<int> {
    search_queue(mask, w, h, r, src, mask.len())
}

/// What `fresh` keeps comes from `s`.
proof fn lemma_fresh_from(s: Seq<int>, q: Seq<int>, x: int)
    requires
        fresh(s, q).contains(x),
    ensures
        s.contains(x),
    decreases s.len(),
{
    if s.len() > 0 {
        let d = s.drop_last();
        if fresh(d, q).contains(x) {
            lemma_fresh_from(d, q, x);
            let j = choose|j: int| 0 <= j < d.len() && d[j] == x;
            assert(s[j] == x);
        } else {
            assert(x == s.last());
        }
    }
}

/// Queueing a cell not yet queued extends the queue by the next fresh
/// neighbour.
proof fn lemma_queue_push(q0: Seq<int>, ns: Seq<int>, k: int, old_queue: Seq<usize>, ni: usize)
    requires
        as_ints(old_queue) == q0 + fresh(ns.take(k), q0),
        0 <= k < ns.len(),
        ns[k] == ni as int,
        !old_queue.contains(ni),
    ensures
        !q0.contains(ni as int),
        as_ints(old_queue.push(ni)) == q0 + fresh(ns.take(k + 1), q0),
{
    let f0 = fresh(ns.take(k), q0);
    assert(as_ints(old_queue).len() == old_queue.len());
    if q0.contains(ni as int) {
        let j = choose|j: int| 0 <= j < q0.len() && q0[j] == ni as int;
        assert((q0 + f0)[j] == q0[j]);
        assert(as_ints(old_queue)[j] == old_queue[j] as int);
        assert(old_queue[j] == ni);
        assert(old_queue.contains(ni));
    }
    assert(ns.take(k + 1).drop_last() =~= ns.take(k));
    assert(ns.take(k + 1).last() == ni as int);
    assert(fresh(ns.take(k + 1), q0) == f0.push(ni as int));
    assert(as_ints(old_queue.push(ni)) =~= as_ints(old_queue).push(ni as int));
    assert(as_ints(old_queue.push(ni)) =~= q0 + fresh(ns.take(k + 1), q0));
}

/// Passing over a neighbour that is already queued leaves the queue as it is.
proof fn lemma_queue_skip(q0: Seq<int>, ns: Seq<int>, k: int, queue: Seq<usize>, ni: usize)
    requires
        as_ints(queue) == q0 + fresh(ns.take(k), q0),
        0 <= k < ns.len(),
        ns[k] == ni as int,
        queue.contains(ni),
        forall|a: int, b: int| 0 <= a < b < ns.len() ==> ns[a] < ns[b],
    ensures
        as_ints(queue) == q0 + fresh(ns.take(k + 1), q0),
{
    let f = fresh(ns.take(k), q0);
    let j = choose|j: int| 0 <= j < queue.len() && queue[j] == ni;
    assert(as_ints(queue).len() == queue.len());
    assert(as_ints(queue)[j] == ni as int);
    assert(as_ints(queue)[j] == (q0 + f)[j]);
    if j >= q0.len() {
        assert(f[j - q0.len()] == ni as int);
        assert(f.contains(ni as int));
        lemma_fresh_from(ns.take(k), q0, ni as int);
        let m = choose|m: int| 0 <= m < ns.take(k).len() && ns.take(k)[m] == ni as int;
        assert(ns[m] < ns[k]);
    } else {
        assert(q0[j] == ni as int);
    }
    assert(q0.contains(ni as int));
    assert(ns.take(k + 1).drop_last() =~= ns.take(k));
    assert(ns.take(k + 1).last() == ni as int);
    assert(fresh(ns.take(k + 1), q0) == f);
}

/// A search that has expanded every cell it queued is done.
proof fn lemma_search_settled(mask: Seq<bool>, w: int, h: int, r: int, src: int, k: nat, m: nat)
    requires
        search_queue(mask, w, h, r, src, k).len() <= k,
        k <= m,
    ensures
        search_queue(mask, w, h, r, src, m) == search_queue(mask, w, h, r, src, k),
    decreases m - k,
{
    if m > k {
        lemma_search_settled(mask, w, h, r, src, k, (m - 1) as nat);
    }
}

/// Every cell reachable within `k` steps has been reached, at distance at most
/// `k`, once the search has expanded every cell it queued.
proof fn lemma_bfs_complete(
    mask: Seq<bool>,
    w: int,
    h: int,
    r: int,
    source: int,
    dist: Seq<Option<u32>>,
    queue: Seq<usize>,
    v: int,
    k: nat,
)
    requires
        dist.len() == mask.len(),
        mask.len() <= usize::MAX,
        0 <= source < mask.len(),
        dist[source] == Some(0u32),
        forall|x: int| 0 <= x < dist.len() && dist[x] is Some ==> queue.contains(x as usize),
        forall|j: int| 0 <= j < queue.len() ==> queue[j] < dist.len(),
        forall|j: int, b: int|
            0 <= j < queue.len() && #[trigger] step(mask, w, h, r, queue[j] as int, b) ==> dist[b]
                is Some && dist[b]->0 <= dist[queue[j] as int]->0 + 1,
        reach(mask, w, h, r, source, v, k),
    ensures
        dist[v] is Some,
        dist[v]->0 <= k,
    decreases k,
{
    if v != source {
        lemma_reach_back(mask, w, h, r, source, v, k);
        let u = choose|u: int|
            #[trigger] reach(mask, w, h, r, source, u, (k - 1) as nat) && step(mask, w, h, r, u, v);
        lemma_bfs_complete(mask, w, h, r, source, dist, queue, u, (k - 1) as nat);
        lemma_reach_in_mask(mask, w, h, r, source, u, (k - 1) as nat);
        let j = choose|j: int| 0 <= j < queue.len() && queue[j] == u as usize;
        assert(step(mask, w, h, r, queue[j] as int, v));
    }
}

/// `mask` with cell `s` set: a search treats its source as a cell of the grid
/// it searches, whatever the mask holds there.
pub open spec fn with_cell(mask: Seq<bool>, s: int) -> Seq<bool> {
    mask.update(s, true)
}

/// Breadth-first search from `source` over the set cells of `mask`, stepping
/// across gaps of up to `bridge` blank cells; the source is searched from
/// whether or not it is set itself. Returns every cell's shortest walk length
/// from `source` (`None` where unreachable) and a reachable cell at the
/// greatest distance: the first one the search dequeues at that distance.
pub fn bfs(mask: &Vec<bool>, w: u16, h: u16, source: usize, bridge: u16) -> (res: (
    Vec<Option<u32>>,
    usize,
))
    requires
        mask.len() == w * h,
        source < mask.len(),
    ensures
        ({
            let m = with_cell(mask@, source as int);
            let (gw, gh, gr, s) = (w as int, h as int, bridge as int, source as int);
            let q = search_order(m, gw, gh, gr, s);
            &&& res.0.len() == mask.len()
            &&& forall|v: int| 0 <= v < mask.len() ==> (res.0[v] is Some <==> connected(m, gw, gh, gr, s, v))
            &&& forall|v: int|
                0 <= v < mask.len() && res.0[v] is Some ==> shortest(m, gw, gh, gr, s, v, res.0[v]->0 as nat)
            &&& res.0[source as int] == Some(0u32)
            &&& res.1 < mask.len()
            &&& res.0[res.1 as int] is Some
            &&& forall|v: int|
                0 <= v < mask.len() && #[trigger] res.0[v] is Some ==> res.0[v]->0 <= res.0[res.1 as int]->0
            &&& forall|j: int| 0 <= j < q.len() ==> 0 <= q[j] < mask.len() && #[trigger] res.0[q[j]] is Some
            &&& exists|i: int|
                0 <= i < q.len() && q[i] == res.1 && forall|j: int|
                    0 <= j < i ==> res.0[q[j]]->0 < res.0[res.1 as int]->0
        }),
{
    if mask[source] {
        proof {
            assert(with_cell(mask@, source as int) =~= mask@);
        }
        search(mask, w, h, source, bridge)
    } else {
        let mut lit: Vec<bool> = Vec::new();
        let mut i: usize = 0;
        while i < mask.len()
            invariant
                i <= mask.len(),
                source < mask.len(),
                lit@ == with_cell(mask@, source as int).take(i as int),
            decreases mask.len() - i,
        {
            lit.push(i == source || mask[i]);
            proof {
                assert(lit@ =~= with_cell(mask@, source as int).take(i + 1));
            }
            i += 1;
        }
        proof {
            assert(lit@ =~= with_cell(mask@, source as int));
        }
        search(&lit, w, h, source, bridge)
    }
}

/// [`bfs`] from a set cell.
pub(crate) fn search(mask: &Vec<bool>, w: u16, h: u16, source: usize, bridge: u16) -> (res: (
    Vec<Option<u32>>,
    usize,
))
    requires
        mask.len() == w * h,
        source < mask.len(),
        mask[source as int],
    ensures
        res.0.len() == mask.len(),
        forall|v: int|
            0 <= v < mask.len() ==> (res.0[v] is Some <==> connected(
                mask@,
                w as int,
                h as int,
                bridge as int,
                source as int,
                v,
            )),
        forall|v: int|
            0 <= v < mask.len() && res.0[v] is Some ==> shortest(
                mask@,
                w as int,
                h as int,
                bridge as int,
                source as int,
                v,
                res.0[v]->0 as nat,
            ),
        res.0[source as int] == Some(0u32),
        res.1 < mask.len(),
        res.0[res.1 as int] is Some,
        forall|v: int|
            0 <= v < mask.len() && #[trigger] res.0[v] is Some ==> res.0[v]->0 <= res.0[res.1 as int]->0,
        ({
            let q = search_order(mask@, w as int, h as int, bridge as int, source as int);
            &&& forall|j: int| 0 <= j < q.len() ==> 0 <= q[j] < mask.len() && #[trigger] res.0[q[j]] is Some
            &&& exists|i: int|
                0 <= i < q.len() && q[i] == res.1 && forall|j: int|
                    0 <= j < i ==> res.0[q[j]]->0 < res.0[res.1 as int]->0
        }),
{
    let ghost gm = mask@;
    let ghost gw = w as int;
    let ghost gh = h as int;
    let ghost gr = bridge as int;
    let n = mask.len();
    proof {
        assert(w * h <= 65535 * 65535) by (nonlinear_arith)
            requires
                w <= 65535,
                h <= 65535,
        ;
    }
    let mut dist: Vec<Option<u32>> = Vec::new();
    let mut i: usize = 0;
    while i < n
        invariant
            i <= n,
            dist.len() == i,
            forall|x: int| 0 <= x < i ==> dist[x] is None,
        decreases n - i,
    {
        dist.push(None);
        i += 1;
    }
    dist.set(source, Some(0));
    let mut queue: Vec<usize> = Vec::new();
    queue.push(source);
    let mut head: usize = 0;
    let mut farthest = source;
    let mut far_d: u32 = 0;
    proof {
        lemma_reach_start(gm, gw, gh, gr, source as int);
        assert(queue@[0] == source);
        assert(as_ints(queue@) =~= search_queue(gm, gw, gh, gr, source as int, 0));
    }
    while head < queue.len()
        invariant
            as_ints(queue@) == search_queue(gm, gw, gh, gr, source as int, head as nat),
            head == 0 ==> farthest == source && far_d == 0,
            head > 0 ==> exists|i: int|
                0 <= i < head && queue[i] == farthest && forall|j: int|
                    0 <= j < i ==> dist[queue[j] as int]->0 < far_d,
            gm == mask@, gw == w, gh == h, gr == bridge,
            n == mask.len(), n == w * h, n <= 65535 * 65535,
            source < n, mask[source as int],
            dist.len() == n,
            head <= queue.len(),
            queue.len() >= 1,
            queue[0] == source,
            dist[source as int] == Some(0u32),
            forall|j: int| 0 <= j < queue.len() ==> queue[j] < n && dist[queue[j] as int] is Some,
            forall|a: int, b: int| 0 <= a < b < queue.len() ==> queue[a] != queue[b],
            forall|x: int| 0 <= x < n && dist[x] is Some ==> queue@.contains(x as usize),
            forall|a: int, b: int|
                0 <= a < b < queue.len() ==> dist[queue[a] as int]->0 <= dist[queue[b] as int]->0,
            head < queue.len() ==> forall|j: int|
                0 <= j < queue.len() ==> dist[queue[j] as int]->0 <= dist[queue[head as int] as int]->0
                    + 1,
            forall|j: int| 0 <= j < queue.len() ==> dist[queue[j] as int]->0 <= j,
            forall|x: int|
                0 <= x < n && dist[x] is Some ==> reach(gm, gw, gh, gr, source as int, x, dist[x]->0 as nat),
            forall|j: int, b: int|
                0 <= j < head && #[trigger] step(gm, gw, gh, gr, queue[j] as int, b) ==> dist[b] is Some
                    && dist[b]->0 <= dist[queue[j] as int]->0 + 1,
            farthest < n,
            dist[farthest as int] == Some(far_d),
            forall|j: int| 0 <= j < head ==> dist[queue[j] as int]->0 <= far_d,
        decreases n - head,
    {
        proof {
            let qs = queue@;
            assert(qs.no_duplicates()) by {
                assert forall|a: int, b: int| 0 <= a < qs.len() && 0 <= b < qs.len() && a != b implies qs[a] != qs[b] by {
                    if a < b {} else {}
                }
            }
            lemma_distinct_bounded(qs, n as int);
        }
        let cur = queue[head];
        let d = match dist[cur] {
            Some(d) => d,
            None => 0,
        };
        let ghost old_far_d = far_d;
        if d > far_d {
            far_d = d;
            farthest = cur;
        }
        proof {
            if head == 0 {
                assert(farthest == queue[0]);
            } else if d <= old_far_d {
                let i = choose|i: int|
                    0 <= i < head && queue[i] == farthest && forall|j: int|
                        0 <= j < i ==> dist[queue[j] as int]->0 < far_d;
            }
        }
        let nbrs = bridged_neighbours(mask, w, h, cur, bridge);
        let ghost q0 = as_ints(queue@);
        let ghost ns = nbr_seq(gm, gw, gh, gr, cur as int);
        let mut k: usize = 0;
        proof {
            assert(ns.take(0) =~= Seq::<int>::empty());
            assert(as_ints(queue@) =~= q0 + fresh(ns.take(0), q0));
        }
        while k < nbrs.len()
            invariant
                q0 == search_queue(gm, gw, gh, gr, source as int, head as nat),
                head < q0.len(),
                q0[head as int] == cur as int,
                ns == nbr_seq(gm, gw, gh, gr, cur as int),
                nbrs.len() == ns.len(),
                forall|m: int| 0 <= m < nbrs.len() ==> #[trigger] nbrs[m] as int == ns[m],
                as_ints(queue@) == q0 + fresh(ns.take(k as int), q0),
                exists|i: int|
                    0 <= i <= head && queue[i] == farthest && forall|j: int|
                        0 <= j < i ==> dist[queue[j] as int]->0 < far_d,
                gm == mask@, gw == w, gh == h, gr == bridge,
                n == mask.len(), n == w * h, n <= 65535 * 65535,
                source < n, mask[source as int],
                dist.len() == n,
                head < queue.len(),
                queue.len() <= n,
                queue[0] == source,
                cur == queue[head as int],
                dist[cur as int] == Some(d),
                d <= head,
                k <= nbrs.len(),
                dist[source as int] == Some(0u32),
                forall|a: int, b: int| 0 <= a < b < nbrs.len() ==> nbrs[a] < nbrs[b],
                forall|m: int|
                    0 <= m < nbrs.len() ==> within(gw, gh, gr, cur as int, #[trigger] nbrs[m] as int)
                        && mask[nbrs[m] as int],
                forall|j: int| 0 <= j < queue.len() ==> queue[j] < n && dist[queue[j] as int] is Some,
                forall|a: int, b: int| 0 <= a < b < queue.len() ==> queue[a] != queue[b],
                forall|x: int| 0 <= x < n && dist[x] is Some ==> queue@.contains(x as usize),
                forall|a: int, b: int|
                    0 <= a < b < queue.len() ==> dist[queue[a] as int]->0 <= dist[queue[b] as int]->0,
                forall|j: int| 0 <= j < queue.len() ==> dist[queue[j] as int]->0 <= d + 1,
                forall|j: int| 0 <= j < queue.len() ==> dist[queue[j] as int]->0 <= j,
                forall|x: int|
                    0 <= x < n && dist[x] is Some ==> reach(gm, gw, gh, gr, source as int, x, dist[x]->0 as nat),
                forall|j: int, b: int|
                    0 <= j < head && #[trigger] step(gm, gw, gh, gr, queue[j] as int, b) ==> dist[b]
                        is Some && dist[b]->0 <= dist[queue[j] as int]->0 + 1,
                forall|m: int|
                    0 <= m < k ==> dist[#[trigger] nbrs[m] as int] is Some && dist[nbrs[m] as int]->0 <= d + 1,
                farthest < n,
                dist[farthest as int] == Some(far_d),
                forall|j: int| 0 <= j <= head ==> dist[queue[j] as int]->0 <= far_d,
            decreases nbrs.len() - k,
        {
            let ni = nbrs[k];
            if dist[ni].is_none() {
                proof {
                    let qs = queue@;
                    assert(qs.no_duplicates()) by {
                        assert forall|a: int, b: int| 0 <= a < qs.len() && 0 <= b < qs.len() && a != b implies qs[a] != qs[b] by {
                            if a < b {} else {}
                        }
                    }
                    lemma_distinct_bounded(qs, n as int);
                    assert(!queue@.contains(ni)) by {
                        if queue@.contains(ni) {
                            let j = choose|j: int| 0 <= j < queue.len() && queue[j] == ni;
                        }
                    }
                    // the new cell is one step past `cur`
                    assert(step(gm, gw, gh, gr, cur as int, ni as int));
                    lemma_reach_step(gm, gw, gh, gr, source as int, cur as int, ni as int, d as nat);
                    let qs2 = queue@.push(ni);
                    assert(qs2.no_duplicates()) by {
                        assert forall|a: int, b: int| 0 <= a < qs2.len() && 0 <= b < qs2.len() && a != b implies qs2[a] != qs2[b] by {
                            if a < b {} else {}
                        }
                    }
                    lemma_distinct_bounded(qs2, n as int);
                }
                let ghost old_queue = queue@;
                let ghost old_dist = dist@;
                dist.set(ni, Some(d + 1));
                queue.push(ni);
                proof {
                    lemma_queue_push(q0, ns, k as int, old_queue, ni);
                    let i = choose|i: int|
                        0 <= i <= head && old_queue[i] == farthest && forall|j: int|
                            0 <= j < i ==> old_dist[old_queue[j] as int]->0 < far_d;
                    assert(queue[i] == farthest);
                    assert forall|j: int| 0 <= j < i implies dist[queue[j] as int]->0 < far_d by {
                        assert(queue[j] == old_queue[j]);
                        assert(old_queue[j] != ni);
                    }
                    assert forall|x: int| 0 <= x < n && dist[x] is Some implies queue@.contains(x as usize) by {
                        if x == ni as int {
                            assert(queue@[queue.len() - 1] == ni);
                        } else {
                            assert(old_dist[x] is Some);
                            let j = choose|j: int| 0 <= j < old_queue.len() && old_queue[j] == x as usize;
                            assert(queue@[j] == x as usize);
                        }
                    }
                    assert forall|j: int| 0 <= j < queue.len() implies queue[j] < n && dist[queue[j] as int] is Some by {
                        if j < old_queue.len() {
                            assert(queue[j] == old_queue[j]);
                        }
                    }
                    assert forall|a: int, b: int| 0 <= a < b < queue.len() implies queue[a] != queue[b] by {
                        if b == queue.len() - 1 {
                            assert(queue[a] == old_queue[a]);
                            assert(old_queue.contains(queue[a]));
                        } else {
                            assert(queue[a] == old_queue[a] && queue[b] == old_queue[b]);
                        }
                    }
                    assert forall|a: int, b: int| 0 <= a < b < queue.len() implies dist[queue[a] as int]->0 <= dist[queue[b] as int]->0 by {
                        assert(queue[a] == old_queue[a]);
                        if b < old_queue.len() {
                            assert(queue[b] == old_queue[b]);
                            assert(old_queue[a] != ni && old_queue[b] != ni);
                        } else {
                            assert(old_queue[a] != ni);
                        }
                    }
                    assert forall|j: int| 0 <= j < queue.len() implies dist[queue[j] as int]->0 <= d + 1 by {
                        if j < old_queue.len() {
                            assert(queue[j] == old_queue[j]);
                            assert(old_queue[j] != ni);
                        }
                    }
                    assert forall|j: int| 0 <= j < queue.len() implies dist[queue[j] as int]->0 <= j by {
                        if j < old_queue.len() {
                            assert(queue[j] == old_queue[j]);
                            assert(old_queue[j] != ni);
                        }
                    }
                    assert forall|x: int| 0 <= x < n && dist[x] is Some implies reach(gm, gw, gh, gr, source as int, x, dist[x]->0 as nat) by {
                        if x != ni as int {
                            assert(old_dist[x] == dist[x]);
                        }
                    }
                    assert forall|j: int, b: int|
                        0 <= j < head && #[trigger] step(gm, gw, gh, gr, queue[j] as int, b) implies dist[b]
                            is Some && dist[b]->0 <= dist[queue[j] as int]->0 + 1 by {
                        assert(queue[j] == old_queue[j]);
                        assert(old_queue[j] != ni);
                        assert(old_dist[b] is Some);
                        assert(b != ni as int);
                    }
                    assert forall|m: int|
                        0 <= m < k + 1 implies dist[#[trigger] nbrs[m] as int] is Some && dist[nbrs[m] as int]->0 <= d + 1 by {
                        if m < k {
                            assert(nbrs[m] != ni);
                        }
                    }
                    assert forall|j: int| 0 <= j <= head implies dist[queue[j] as int]->0 <= far_d by {
                        assert(queue[j] == old_queue[j]);
                        assert(old_queue[j] != ni);
                    }
                    assert(farthest != ni);
                }
            } else {
                proof {
                    let j = choose|j: int| 0 <= j < queue.len() && queue[j] == ni;
                    assert forall|a: int, b: int| 0 <= a < b < ns.len() implies ns[a] < ns[b] by {
                        assert(nbrs[a] < nbrs[b]);
                    }
                    lemma_queue_skip(q0, ns, k as int, queue@, ni);
                }
            }
            k += 1;
        }
        proof {
            assert(ns.take(nbrs.len() as int) =~= ns);
            assert(search_queue(gm, gw, gh, gr, source as int, (head + 1) as nat) == q0 + fresh(ns, q0));
        }
        proof {
            assert forall|j: int, b: int|
                0 <= j < head + 1 && #[trigger] step(gm, gw, gh, gr, queue[j] as int, b) implies dist[b]
                    is Some && dist[b]->0 <= dist[queue[j] as int]->0 + 1 by {
                if j == head {
                    assert(within(gw, gh, gr, cur as int, b) && mask[b]);
                    assert(nbrs@.contains(b as usize));
                    let m = choose|m: int| 0 <= m < nbrs.len() && nbrs[m] == b as usize;
                    assert(dist[nbrs[m] as int] is Some);
                }
            }
            if head + 1 < queue.len() {
                assert(dist[queue[head as int] as int]->0 <= dist[queue[head + 1] as int]->0);
            }
        }
        head += 1;
    }
    proof {
        assert forall|v: int|
            0 <= v < n implies (dist[v] is Some <==> connected(gm, gw, gh, gr, source as int, v)) by {
            if dist[v] is Some {
                assert(reach(gm, gw, gh, gr, source as int, v, dist[v]->0 as nat));
            }
            if connected(gm, gw, gh, gr, source as int, v) {
                let k = choose|k: nat| reach(gm, gw, gh, gr, source as int, v, k);
                lemma_bfs_complete(gm, gw, gh, gr, source as int, dist@, queue@, v, k);
            }
        }
        assert forall|v: int|
            0 <= v < n && dist[v] is Some implies shortest(gm, gw, gh, gr, source as int, v, dist[v]->0 as nat) by {
            assert forall|k: nat| k < dist[v]->0 implies !reach(gm, gw, gh, gr, source as int, v, k) by {
                if reach(gm, gw, gh, gr, source as int, v, k) {
                    lemma_bfs_complete(gm, gw, gh, gr, source as int, dist@, queue@, v, k);
                }
            }
        }
        assert forall|v: int| 0 <= v < n && dist[v] is Some implies dist[v]->0 <= dist[farthest as int]->0 by {
            let j = choose|j: int| 0 <= j < queue.len() && queue[j] == v as usize;
        }
        let qs = queue@;
        assert(qs.no_duplicates()) by {
            assert forall|a: int, b: int| 0 <= a < qs.len() && 0 <= b < qs.len() && a != b implies qs[a] != qs[b] by {
                if a < b {} else {}
            }
        }
        lemma_distinct_bounded(qs, n as int);
        lemma_search_settled(gm, gw, gh, gr, source as int, head as nat, n as nat);
        let q = search_order(gm, gw, gh, gr, source as int);
        assert(q == as_ints(queue@));
        assert forall|j: int| 0 <= j < q.len() implies 0 <= q[j] < n && #[trigger] dist@[q[j]] is Some by {
            assert(q[j] == queue[j] as int);
        }
        let i = choose|i: int|
            0 <= i < head && queue[i] == farthest && forall|j: int|
                0 <= j < i ==> dist[queue[j] as int]->0 < far_d;
        assert(q[i] == farthest);
        assert forall|j: int| 0 <= j < i implies dist@[q[j]]->0 < dist@[farthest as int]->0 by {
            assert(q[j] == queue[j] as int);
        }
    }
    (dist, farthest)
}


/// The facts every finished piece of a component list keeps.
pub open spec fn piece_ok(mask: Seq<bool>, w: int, h: int, r: int, c: Seq<usize>) -> bool {
    &&& c.len() > 0
    &&& forall|a: int, b: int| 0 <= a < b < c.len() ==> c[a] != c[b]
    &&& forall|k: int| 0 <= k < c.len() ==> c[k] < mask.len() && mask[c[k] as int]
    &&& forall|k: int| 0 <= k < c.len() ==> c[0] <= #[trigger] c[k]
    &&& forall|k: int|
        0 <= k < c.len() ==> connected(mask, w, h, r, c[0] as int, #[trigger] c[k] as int)
    &&& forall|a: int, b: int|
        0 <= a && c.contains(a as usize) && #[trigger] step(mask, w, h, r, a, b) ==> c.contains(
            b as usize,
        )
}

proof fn lemma_connected_step(mask: Seq<bool>, w: int, h: int, r: int, s: int, u: int, v: int)
    requires
        connected(mask, w, h, r, s, u),
        step(mask, w, h, r, u, v),
    ensures
        connected(mask, w, h, r, s, v),
{
    let k = choose|k: nat| reach(mask, w, h, r, s, u, k);
    lemma_reach_step(mask, w, h, r, s, u, v, k);
}

/// Every connected piece of `mask`, each as its list of cells, in the order
/// their first cell appears. A piece is a class of cells joined by walks that
/// step across gaps of up to `bridge` blank cells; its first cell is its
/// smallest index.
pub(crate) fn components(mask: &Vec<bool>, w: u16, h: u16, bridge: u16) -> (out: Vec<Vec<usize>>)
    requires
        mask.len() == w * h,
    ensures
        forall|i: int| 0 <= i < out.len() ==> out[i].len() > 0,
        forall|i: int, a: int, b: int|
            0 <= i < out.len() && 0 <= a < b < out[i].len() ==> #[trigger] out[i][a] != #[trigger] out[i][b],
        forall|i: int, k: int|
            0 <= i < out.len() && 0 <= k < out[i].len() ==> #[trigger] out[i][k] < mask.len()
                && out[i][0] <= out[i][k],
        forall|i: int, v: int|
            0 <= i < out.len() && 0 <= v < mask.len() ==> (out[i]@.contains(v as usize) <==> connected(
                mask@,
                w as int,
                h as int,
                bridge as int,
                out[i][0] as int,
                v,
            )),
        forall|i: int, j: int| 0 <= i < j < out.len() ==> out[i][0] < out[j][0],
        forall|v: int|
            0 <= v < mask.len() && mask[v] ==> exists|i: int|
                0 <= i < out.len() && #[trigger] out[i]@.contains(v as usize),
{
    let ghost gm = mask@;
    let ghost gw = w as int;
    let ghost gh = h as int;
    let ghost gr = bridge as int;
    let n = mask.len();
    proof {
        assert(w * h <= 65535 * 65535) by (nonlinear_arith)
            requires
                w <= 65535,
                h <= 65535,
        ;
    }
    let mut seen: Vec<bool> = Vec::new();
    let mut i: usize = 0;
    while i < n
        invariant
            i <= n,
            seen.len() == i,
            forall|x: int| 0 <= x < i ==> !seen[x],
        decreases n - i,
    {
        seen.push(false);
        i += 1;
    }
    let mut out: Vec<Vec<usize>> = Vec::new();
    let ghost mut owner: Seq<int> = Seq::new(n as nat, |v: int| -1);
    let mut seed: usize = 0;
    while seed < n
        invariant
            gm == mask@, gw == w, gh == h, gr == bridge,
            n == mask.len(), n == w * h, n <= 65535 * 65535,
            seed <= n,
            seen.len() == n,
            owner.len() == n,
            forall|v: int| 0 <= v < n ==> owner[v] >= -1,
            forall|v: int| 0 <= v < n ==> (seen[v] <==> owner[v] >= 0),
            forall|v: int|
                0 <= v < n && owner[v] >= 0 ==> owner[v] < out.len() && out[owner[v]]@.contains(
                    v as usize,
                ),
            forall|i: int, k: int|
                0 <= i < out.len() && 0 <= k < out[i].len() ==> out[i][k] < n && owner[out[i][k] as int]
                    == i,
            forall|i: int| 0 <= i < out.len() ==> piece_ok(gm, gw, gh, gr, #[trigger] out[i]@),
            forall|i: int, j: int| 0 <= i < j < out.len() ==> out[i][0] < out[j][0],
            forall|i: int| 0 <= i < out.len() ==> out[i][0] < seed,
            forall|v: int| 0 <= v < seed && mask[v] ==> owner[v] >= 0,
        decreases n - seed,
    {
        if mask[seed] && !seen[seed] {
            let mut cells: Vec<usize> = Vec::new();
            seen.set(seed, true);
            cells.push(seed);
            let mut head: usize = 0;
            proof {
                lemma_reach_start(gm, gw, gh, gr, seed as int);
                assert(cells[0] == seed);
            }
            while head < cells.len()
                invariant
                    gm == mask@, gw == w, gh == h, gr == bridge,
                    n == mask.len(), n == w * h, n <= 65535 * 65535,
                    seed < n, mask[seed as int], owner[seed as int] == -1,
                    seen.len() == n,
                    owner.len() == n,
                    head <= cells.len(),
                    cells.len() >= 1,
                    cells[0] == seed,
                    forall|v: int| 0 <= v < n ==> owner[v] >= -1,
                    forall|v: int|
                        0 <= v < n ==> (seen[v] <==> (owner[v] >= 0 || cells@.contains(v as usize))),
                    forall|v: int|
                        0 <= v < n && owner[v] >= 0 ==> owner[v] < out.len() && out[owner[v]]@.contains(
                            v as usize,
                        ),
                    forall|i: int, k: int|
                        0 <= i < out.len() && 0 <= k < out[i].len() ==> out[i][k] < n
                            && owner[out[i][k] as int] == i,
                    forall|i: int| 0 <= i < out.len() ==> piece_ok(gm, gw, gh, gr, #[trigger] out[i]@),
                    forall|i: int, j: int| 0 <= i < j < out.len() ==> out[i][0] < out[j][0],
                    forall|i: int| 0 <= i < out.len() ==> out[i][0] < seed,
                    forall|v: int| 0 <= v < seed && mask[v] ==> owner[v] >= 0,
                    forall|a: int, b: int| 0 <= a < b < cells.len() ==> cells[a] != cells[b],
                    forall|k: int|
                        0 <= k < cells.len() ==> cells[k] < n && mask[cells[k] as int] && owner[cells[k] as int]
                            == -1,
                    forall|k: int|
                        0 <= k < cells.len() ==> connected(gm, gw, gh, gr, seed as int, #[trigger] cells[k] as int),
                    forall|j: int, b: int|
                        0 <= j < head && #[trigger] step(gm, gw, gh, gr, cells[j] as int, b) ==> cells@.contains(
                            b as usize,
                        ),
                decreases n - head,
            {
                proof {
                    let qs = cells@;
                    assert(qs.no_duplicates()) by {
                        assert forall|a: int, b: int| 0 <= a < qs.len() && 0 <= b < qs.len() && a != b implies qs[a] != qs[b] by {
                            if a < b {} else {}
                        }
                    }
                    lemma_distinct_bounded(qs, n as int);
                }
                let cur = cells[head];
                let nbrs = bridged_neighbours(mask, w, h, cur, bridge);
                let mut k: usize = 0;
                while k < nbrs.len()
                    invariant
                        gm == mask@, gw == w, gh == h, gr == bridge,
                        n == mask.len(), n == w * h, n <= 65535 * 65535,
                        seed < n, mask[seed as int], owner[seed as int] == -1,
                        seen.len() == n,
                        owner.len() == n,
                        head < cells.len(),
                        cells[0] == seed,
                        cur == cells[head as int],
                        k <= nbrs.len(),
                        forall|a: int, b: int| 0 <= a < b < nbrs.len() ==> nbrs[a] < nbrs[b],
                        forall|m: int|
                            0 <= m < nbrs.len() ==> within(gw, gh, gr, cur as int, #[trigger] nbrs[m] as int)
                                && mask[nbrs[m] as int],
                        forall|v: int| 0 <= v < n ==> owner[v] >= -1,
                        forall|v: int|
                            0 <= v < n ==> (seen[v] <==> (owner[v] >= 0 || cells@.contains(v as usize))),
                        forall|v: int|
                            0 <= v < n && owner[v] >= 0 ==> owner[v] < out.len() && out[owner[v]]@.contains(
                                v as usize,
                            ),
                        forall|i: int, kk: int|
                            0 <= i < out.len() && 0 <= kk < out[i].len() ==> out[i][kk] < n
                                && owner[out[i][kk] as int] == i,
                        forall|i: int| 0 <= i < out.len() ==> piece_ok(gm, gw, gh, gr, #[trigger] out[i]@),
                        forall|i: int, j: int| 0 <= i < j < out.len() ==> out[i][0] < out[j][0],
                        forall|i: int| 0 <= i < out.len() ==> out[i][0] < seed,
                        forall|v: int| 0 <= v < seed && mask[v] ==> owner[v] >= 0,
                        forall|a: int, b: int| 0 <= a < b < cells.len() ==> cells[a] != cells[b],
                        forall|kk: int|
                            0 <= kk < cells.len() ==> cells[kk] < n && mask[cells[kk] as int]
                                && owner[cells[kk] as int] == -1,
                        forall|kk: int|
                            0 <= kk < cells.len() ==> connected(gm, gw, gh, gr, seed as int, #[trigger] cells[kk] as int),
                        forall|j: int, b: int|
                            0 <= j < head && #[trigger] step(gm, gw, gh, gr, cells[j] as int, b) ==> cells@.contains(
                                b as usize,
                            ),
                        forall|m: int| 0 <= m < k ==> cells@.contains(#[trigger] nbrs[m]),
                    decreases nbrs.len() - k,
                {
                    let ni = nbrs[k];
                    if !seen[ni] {
                        proof {
                            assert(step(gm, gw, gh, gr, cur as int, ni as int));
                            lemma_connected_step(gm, gw, gh, gr, seed as int, cur as int, ni as int);
                        }
                        let ghost old_cells = cells@;
                        seen.set(ni, true);
                        cells.push(ni);
                        proof {
                            assert forall|v: int| 0 <= v < n implies (seen[v] <==> (owner[v] >= 0
                                || cells@.contains(v as usize))) by {
                                if v == ni as int {
                                    assert(cells@[cells.len() - 1] == ni);
                                } else {
                                    if old_cells.contains(v as usize) {
                                        let j = choose|j: int| 0 <= j < old_cells.len() && old_cells[j] == v as usize;
                                        assert(cells@[j] == v as usize);
                                    }
                                    if cells@.contains(v as usize) {
                                        let j = choose|j: int| 0 <= j < cells.len() && cells@[j] == v as usize;
                                        assert(j < old_cells.len());
                                        assert(old_cells[j] == v as usize);
                                    }
                                }
                            }
                            assert forall|a: int, b: int| 0 <= a < b < cells.len() implies cells[a] != cells[b] by {
                                if b == cells.len() - 1 {
                                    assert(cells[a] == old_cells[a]);
                                    assert(old_cells.contains(old_cells[a]));
                                } else {
                                    assert(cells[a] == old_cells[a] && cells[b] == old_cells[b]);
                                }
                            }
                            assert forall|kk: int| 0 <= kk < cells.len() implies cells[kk] < n && mask[cells[kk] as int]
                                && owner[cells[kk] as int] == -1 by {
                                if kk < old_cells.len() {
                                    assert(cells[kk] == old_cells[kk]);
                                }
                            }
                            assert forall|kk: int| 0 <= kk < cells.len() implies connected(gm, gw, gh, gr, seed as int, #[trigger] cells[kk] as int) by {
                                if kk < old_cells.len() {
                                    assert(cells[kk] == old_cells[kk]);
                                }
                            }
                            assert forall|j: int, b: int|
                                0 <= j < head && #[trigger] step(gm, gw, gh, gr, cells[j] as int, b) implies cells@.contains(
                                    b as usize,
                                ) by {
                                assert(cells[j] == old_cells[j]);
                                assert(old_cells.contains(b as usize));
                                let jj = choose|jj: int| 0 <= jj < old_cells.len() && old_cells[jj] == b as usize;
                                assert(cells@[jj] == b as usize);
                            }
                            assert forall|m: int| 0 <= m < k + 1 implies cells@.contains(#[trigger] nbrs[m]) by {
                                if m < k {
                                    let jj = choose|jj: int| 0 <= jj < old_cells.len() && old_cells[jj] == nbrs[m];
                                    assert(cells@[jj] == nbrs[m]);
                                } else {
                                    assert(cells@[cells.len() - 1] == nbrs[m]);
                                }
                            }
                        }
                    } else {
                        proof {
                            if owner[ni as int] >= 0 {
                                let i = owner[ni as int];
                                assert(piece_ok(gm, gw, gh, gr, out[i]@));
                                assert(step(gm, gw, gh, gr, ni as int, cur as int));
                                assert(out[i]@.contains(cur));
                                let kk = choose|kk: int| 0 <= kk < out[i].len() && out[i][kk] == cur;
                                assert(owner[out[i][kk] as int] == i);
                                assert(false);
                            }
                        }
                    }
                    k += 1;
                }
                proof {
                    assert forall|j: int, b: int|
                        0 <= j < head + 1 && #[trigger] step(gm, gw, gh, gr, cells[j] as int, b) implies cells@.contains(
                            b as usize,
                        ) by {
                        if j == head {
                            assert(nbrs@.contains(b as usize));
                            let m = choose|m: int| 0 <= m < nbrs.len() && nbrs[m] == b as usize;
                            assert(cells@.contains(nbrs[m]));
                        }
                    }
                }
                head += 1;
            }
            let ghost idx = out.len() as int;
            let ghost old_owner = owner;
            let ghost cs = cells@;
            proof {
                owner = Seq::new(n as nat, |v: int| if cs.contains(v as usize) { idx } else { old_owner[v] });
                assert forall|k: int| 0 <= k < cs.len() implies cs[0] <= #[trigger] cs[k] by {
                    if cs[k] < seed {
                        assert(mask[cs[k] as int]);
                        assert(old_owner[cs[k] as int] >= 0);
                    }
                }
                assert forall|a: int, b: int|
                    0 <= a && cs.contains(a as usize) && #[trigger] step(gm, gw, gh, gr, a, b) implies cs.contains(
                        b as usize,
                    ) by {
                    let j = choose|j: int| 0 <= j < cs.len() && cs[j] == a as usize;
                    assert(step(gm, gw, gh, gr, cs[j] as int, b));
                }
                assert(piece_ok(gm, gw, gh, gr, cs));
            }
            let ghost old_out = out@;
            out.push(cells);
            proof {
                assert(out[idx]@ == cs);
                assert forall|i: int| 0 <= i < out.len() implies piece_ok(gm, gw, gh, gr, #[trigger] out[i]@) by {
                    if i < idx {
                        assert(out[i] == old_out[i]);
                    }
                }
                assert forall|v: int| 0 <= v < n implies (seen[v] <==> owner[v] >= 0) by {
                }
                assert forall|v: int|
                    0 <= v < n && owner[v] >= 0 implies owner[v] < out.len() && out[owner[v]]@.contains(
                        v as usize,
                    ) by {
                    if !cs.contains(v as usize) {
                        assert(out[old_owner[v]] == old_out[old_owner[v]]);
                    }
                }
                assert forall|i: int, k: int|
                    0 <= i < out.len() && 0 <= k < out[i].len() implies out[i][k] < n && owner[out[i][k] as int]
                        == i by {
                    if i < idx {
                        assert(out[i] == old_out[i]);
                        assert(old_owner[out[i][k] as int] == i);
                        if cs.contains(out[i][k]) {
                            let j = choose|j: int| 0 <= j < cs.len() && cs[j] == out[i][k];
                            assert(old_owner[cs[j] as int] == -1);
                        }
                    } else {
                        assert(cs.contains(out[i][k]));
                    }
                }
                assert forall|i: int, j: int| 0 <= i < j < out.len() implies out[i][0] < out[j][0] by {
                    if j == idx {
                        assert(out[i] == old_out[i]);
                    } else {
                        assert(out[i] == old_out[i] && out[j] == old_out[j]);
                    }
                }
                assert forall|i: int| 0 <= i < out.len() implies out[i][0] < seed + 1 by {
                    if i < idx {
                        assert(out[i] == old_out[i]);
                    }
                }
                assert forall|v: int| 0 <= v < seed + 1 && mask[v] implies owner[v] >= 0 by {
                    if v == seed {
                        assert(cs[0] == seed);
                        assert(cs.contains(seed));
                    }
                }
            }
        }
        seed += 1;
    }
    proof {
        assert forall|i: int, v: int| 0 <= i < out.len() && 0 <= v < n implies (out[i]@.contains(
            v as usize,
        ) <==> connected(gm, gw, gh, gr, out[i][0] as int, v)) by {
            assert(piece_ok(gm, gw, gh, gr, out[i]@));
            if out[i]@.contains(v as usize) {
                let k = choose|k: int| 0 <= k < out[i].len() && out[i][k] == v as usize;
                assert(connected(gm, gw, gh, gr, out[i][0] as int, out[i][k] as int));
            }
            if connected(gm, gw, gh, gr, out[i][0] as int, v) {
                let k = choose|k: nat| reach(gm, gw, gh, gr, out[i][0] as int, v, k);
                assert(out[i]@.contains(out[i][0]));
                lemma_closed_holds_reach(gm, gw, gh, gr, out[i]@, out[i][0] as int, v, k);
            }
        }
        assert forall|v: int| 0 <= v < n && mask[v] implies exists|i: int|
            0 <= i < out.len() && #[trigger] out[i]@.contains(v as usize) by {
            assert(out[owner[v]]@.contains(v as usize));
        }
        assert forall|i: int, k: int| 0 <= i < out.len() && 0 <= k < out[i].len() implies #[trigger] out[i][k] < n
            && out[i][0] <= out[i][k] by {
            assert(piece_ok(gm, gw, gh, gr, out[i]@));
        }
        assert forall|i: int, a: int, b: int| 0 <= i < out.len() && 0 <= a < b < out[i].len() implies #[trigger] out[i][a] != #[trigger] out[i][b] by {
            assert(piece_ok(gm, gw, gh, gr, out[i]@));
        }
    }
    out
}


/// The cells of the piece of `mask` holding `s`.
pub open spec fn class_of(mask: Seq<bool>, w: int, h: int, r: int, s: int) -> Set<int> {
    Set::new(|v: int| 0 <= v < mask.len() && connected(mask, w, h, r, s, v))
}

/// `m` is a set cell and the smallest index of its piece.
pub open spec fn class_min(mask: Seq<bool>, w: int, h: int, r: int, m: int) -> bool {
    &&& 0 <= m < mask.len()
    &&& mask[m]
    &&& forall|v: int| #[trigger] connected(mask, w, h, r, m, v) ==> m <= v
}

/// A duplicate-free list of exactly the cells of a piece has the piece's size.
proof fn lemma_piece_len(mask: Seq<bool>, w: int, h: int, r: int, c: Seq<usize>)
    requires
        c.len() > 0,
        forall|a: int, b: int| 0 <= a < b < c.len() ==> c[a] != c[b],
        forall|k: int| 0 <= k < c.len() ==> c[k] < mask.len(),
        forall|v: int|
            0 <= v < mask.len() ==> (c.contains(v as usize) <==> connected(mask, w, h, r, c[0] as int, v)),
        mask.len() <= usize::MAX,
    ensures
        class_of(mask, w, h, r, c[0] as int).len() == c.len(),
        class_of(mask, w, h, r, c[0] as int).finite(),
{
    let qi = c.map_values(|x: usize| x as int);
    assert forall|a: int, b: int| 0 <= a < qi.len() && 0 <= b < qi.len() && a != b implies qi[a]
        != qi[b] by {
        if a < b {
            assert(c[a] != c[b]);
        } else {
            assert(c[b] != c[a]);
        }
    }
    assert(qi.no_duplicates());
    qi.unique_seq_to_set();
    assert forall|v: int| qi.to_set().contains(v) <==> class_of(mask, w, h, r, c[0] as int).contains(v) by {
        if qi.to_set().contains(v) {
            let j = choose|j: int| 0 <= j < qi.len() && qi[j] == v;
            assert(c[j] as int == v);
            assert(c.contains(v as usize));
        }
        if class_of(mask, w, h, r, c[0] as int).contains(v) {
            assert(c.contains(v as usize));
            let j = choose|j: int| 0 <= j < c.len() && c[j] == v as usize;
            assert(qi[j] == v);
        }
    }
    assert(qi.to_set() =~= class_of(mask, w, h, r, c[0] as int));
}

/// The size of, and the smallest cell of, the largest piece of `mask`; among
/// equally large pieces, the one whose smallest cell comes last. `None` when
/// the mask has no set cell.
pub fn largest_component(mask: &Vec<bool>, w: u16, h: u16, bridge: u16) -> (res: Option<
    (usize, usize),
>)
    requires
        mask.len() == w * h,
    ensures
        res is None <==> forall|v: int| 0 <= v < mask.len() ==> !mask[v],
        res matches Some((size, seed)) ==> {
            let (gm, gw, gh, gr) = (mask@, w as int, h as int, bridge as int);
            &&& class_min(gm, gw, gh, gr, seed as int)
            &&& class_of(gm, gw, gh, gr, seed as int).len() == size
            &&& forall|m: int|
                class_min(gm, gw, gh, gr, m) ==> #[trigger] class_of(gm, gw, gh, gr, m).len() <= size
            &&& forall|m: int|
                class_min(gm, gw, gh, gr, m) && #[trigger] class_of(gm, gw, gh, gr, m).len() == size
                    ==> m <= seed
        },
{
    let ghost gm = mask@;
    let ghost gw = w as int;
    let ghost gh = h as int;
    let ghost gr = bridge as int;
    proof {
        assert(w * h <= 65535 * 65535) by (nonlinear_arith)
            requires
                w <= 65535,
                h <= 65535,
        ;
    }
    let comps = components(mask, w, h, bridge);
    // Facts about every piece, gathered once.
    proof {
        assert forall|i: int| 0 <= i < comps.len() implies class_min(gm, gw, gh, gr, #[trigger] comps[i][0] as int)
            && class_of(gm, gw, gh, gr, comps[i][0] as int).len() == comps[i].len() by {
            assert(comps[i]@.contains(comps[i][0]));
            assert(connected(gm, gw, gh, gr, comps[i][0] as int, comps[i][0] as int));
            let k = choose|k: nat| reach(gm, gw, gh, gr, comps[i][0] as int, comps[i][0] as int, k);
            lemma_reach_in_mask(gm, gw, gh, gr, comps[i][0] as int, comps[i][0] as int, k);
            assert forall|v: int| #[trigger] connected(gm, gw, gh, gr, comps[i][0] as int, v) implies comps[i][0] <= v by {
                let k2 = choose|k2: nat| reach(gm, gw, gh, gr, comps[i][0] as int, v, k2);
                lemma_reach_in_mask(gm, gw, gh, gr, comps[i][0] as int, v, k2);
                assert(comps[i]@.contains(v as usize));
                let j = choose|j: int| 0 <= j < comps[i].len() && comps[i][j] == v as usize;
                assert(comps[i][0] <= comps[i][j]);
            }
            assert forall|a: int, b: int| 0 <= a < b < comps[i].len() implies comps[i][a] != comps[i][b] by {
                assert(comps[i][a] != comps[i][b]);
            }
            assert forall|k2: int| 0 <= k2 < comps[i].len() implies comps[i][k2] < mask.len() by {
                assert(comps[i][k2] < mask.len());
            }
            lemma_piece_len(gm, gw, gh, gr, comps[i]@);
        }
    }
    let mut best: Option<(usize, usize)> = None;
    let mut best_i: usize = 0;
    let mut i: usize = 0;
    while i < comps.len()
        invariant
            gm == mask@, gw == w, gh == h, gr == bridge,
            i <= comps.len(),
            forall|j: int| 0 <= j < comps.len() ==> comps[j].len() > 0,
            best is None <==> i == 0,
            best matches Some((size, seed)) ==> best_i < i && size == comps[best_i as int].len()
                && seed == comps[best_i as int][0]
                && (forall|j: int| 0 <= j < i ==> comps[j].len() <= size)
                && (forall|j: int| 0 <= j < i && #[trigger] comps[j].len() == size ==> j <= best_i),
        decreases comps.len() - i,
    {
        let c = &comps[i];
        let better = match best {
            None => true,
            Some((size, _)) => c.len() >= size,
        };
        if better {
            best = Some((c.len(), c[0]));
            best_i = i;
        }
        i += 1;
    }
    proof {
        if best is None {
            assert forall|v: int| 0 <= v < mask.len() implies !mask[v] by {
                if mask[v] {
                    let j = choose|j: int| 0 <= j < comps.len() && #[trigger] comps[j]@.contains(v as usize);
                }
            }
        } else {
            let (size, seed) = best->0;
            let m_ok = |m: int| class_min(gm, gw, gh, gr, m);
            assert forall|m: int| class_min(gm, gw, gh, gr, m) implies exists|j: int|
                0 <= j < comps.len() && #[trigger] comps[j][0] == m as usize by {
                let j = choose|j: int| 0 <= j < comps.len() && #[trigger] comps[j]@.contains(m as usize);
                assert(connected(gm, gw, gh, gr, comps[j][0] as int, m));
                let k = choose|k: nat| reach(gm, gw, gh, gr, comps[j][0] as int, m, k);
                lemma_reach_sym(gm, gw, gh, gr, comps[j][0] as int, m, k);
                assert(connected(gm, gw, gh, gr, m, comps[j][0] as int));
                let kk = choose|kk: int| 0 <= kk < comps[j].len() && comps[j][kk] == m as usize;
                assert(comps[j][0] <= comps[j][kk]);
                assert(class_min(gm, gw, gh, gr, comps[j][0] as int));
            }
            assert forall|m: int| class_min(gm, gw, gh, gr, m) implies #[trigger] class_of(gm, gw, gh, gr, m).len() <= size by {
                let j = choose|j: int| 0 <= j < comps.len() && #[trigger] comps[j][0] == m as usize;
                assert(class_min(gm, gw, gh, gr, comps[j][0] as int));
            }
            assert forall|m: int|
                class_min(gm, gw, gh, gr, m) && #[trigger] class_of(gm, gw, gh, gr, m).len() == size implies m <= seed by {
                let j = choose|j: int| 0 <= j < comps.len() && #[trigger] comps[j][0] == m as usize;
                assert(class_min(gm, gw, gh, gr, comps[j][0] as int));
                assert(comps[j].len() == size);
                assert(j <= best_i);
                if j < best_i {
                    assert(comps[j][0] < comps[best_i as int][0]);
                }
            }
            assert(class_min(gm, gw, gh, gr, comps[best_i as int][0] as int));
        }
    }
    best
}


/// A grid of `n` cells, every one of them set.
#[verifier::opaque]
pub open spec fn full(n: int) -> Seq<bool> {
    Seq::new(n as nat, |i: int| true)
}

/// Every cell of the whole grid is set.
pub proof fn lemma_full(n: int, i: int)
    requires
        n >= 0,
    ensures
        full(n).len() == n,
        0 <= i < n ==> full(n)[i],
{
    reveal(full);
}

/// The cells of a flood queue, whose entries are a cell and the source it
/// was reached from.
pub open spec fn cells_of(q: Seq<(int, int)>) -> Seq<int> {
    q.map_values(|e: (int, int)| e.0)
}

/// Every cell of `s`, reached from `o`.
pub open spec fn tagged(s: Seq<int>, o: int) -> Seq<(int, int)> {
    s.map_values(|v: int| (v, o))
}

/// The sources among the first `n` cells of `src`, each its own origin, in
/// index order.
pub open spec fn seeds(src: Seq<bool>, n: int) -> Seq<(int, int)>
    decreases n,
{
    if n <= 0 {
        Seq::empty()
    } else if src[n - 1] {
        seeds(src, n - 1).push((n - 1, n - 1))
    } else {
        seeds(src, n - 1)
    }
}

/// The queue of a flood from every set cell of `src` once it has expanded
/// its first `k` entries: each expansion appends the cell's neighbours not
/// yet queued, in increasing index order, reached from the same source.
pub open spec fn flood_queue(src: Seq<bool>, w: int, h: int, k: nat) -> Seq<(int, int)>
    decreases k,
{
    if k == 0 {
        seeds(src, src.len() as int)
    } else {
        let q = flood_queue(src, w, h, (k - 1) as nat);
        if k - 1 < q.len() {
            q + tagged(fresh(nbr_seq(full(src.len() as int), w, h, 0, q[k - 1].0), cells_of(q)), q[k - 1].1)
        } else {
            q
        }
    }
}

/// The order in which a flood from every set cell of `src` reaches the grid,
/// each cell with the source it was reached from.
pub open spec fn flood_order(src: Seq<bool>, w: int, h: int) -> Seq<(int, int)> {
    flood_queue(src, w, h, src.len())
}

/// The queue entries: each queued cell with its recorded origin.
pub open spec fn entries(queue: Seq<usize>, orig: Seq<usize>) -> Seq<(int, int)> {
    Seq::new(queue.len(), |j: int| (queue[j] as int, orig[queue[j] as int] as int))
}

/// The neighbours a search takes in are in increasing order, below `n`.
proof fn lemma_reach_cells_sorted(mask: Seq<bool>, w: int, h: int, r: int, c: int, n: int)
    ensures
        forall|a: int, b: int|
            0 <= a < b < reach_cells(mask, w, h, r, c, n).len() ==> reach_cells(mask, w, h, r, c, n)[a]
                < reach_cells(mask, w, h, r, c, n)[b],
        forall|a: int| 0 <= a < reach_cells(mask, w, h, r, c, n).len() ==> reach_cells(mask, w, h, r, c, n)[a] < n,
    decreases n,
{
    if n > 0 {
        lemma_reach_cells_sorted(mask, w, h, r, c, n - 1);
        let p = reach_cells(mask, w, h, r, c, n - 1);
        let q = reach_cells(mask, w, h, r, c, n);
        if within(w, h, r, c, n - 1) && mask[n - 1] {
            assert forall|a: int| 0 <= a < p.len() implies q[a] == p[a] && q[a] < n - 1 by {}
        } else {
            assert(q == p);
        }
    }
}

/// `fresh` keeps the order of `s` and only what `q` lacks.
proof fn lemma_fresh_sorted(s: Seq<int>, q: Seq<int>)
    requires
        forall|a: int, b: int| 0 <= a < b < s.len() ==> s[a] < s[b],
    ensures
        forall|a: int, b: int| 0 <= a < b < fresh(s, q).len() ==> fresh(s, q)[a] < fresh(s, q)[b],
        forall|a: int| 0 <= a < fresh(s, q).len() ==> !q.contains(#[trigger] fresh(s, q)[a]),
    decreases s.len(),
{
    if s.len() > 0 {
        let d = s.drop_last();
        lemma_fresh_sorted(d, q);
        let fd = fresh(d, q);
        assert forall|a: int| 0 <= a < fd.len() implies fd[a] < s.last() by {
            assert(fd.contains(fd[a]));
            lemma_fresh_from(d, q, fd[a]);
            let j = choose|j: int| 0 <= j < d.len() && d[j] == fd[a];
        }
    }
}

/// The sources a flood starts from are in increasing order, below `n`, each
/// its own origin.
proof fn lemma_seeds_sorted(src: Seq<bool>, n: int)
    ensures
        forall|a: int, b: int| 0 <= a < b < seeds(src, n).len() ==> seeds(src, n)[a].0 < seeds(src, n)[b].0,
        forall|a: int| 0 <= a < seeds(src, n).len() ==> 0 <= #[trigger] seeds(src, n)[a].0 < n,
    decreases n,
{
    if n > 0 {
        lemma_seeds_sorted(src, n - 1);
        let p = seeds(src, n - 1);
        let q = seeds(src, n);
        if src[n - 1] {
            assert forall|a: int| 0 <= a < p.len() implies q[a] == p[a] && 0 <= p[a].0 < n - 1 by {}
        } else {
            assert(q == p);
        }
    }
}

/// A flood queues every cell at most once.
pub proof fn lemma_flood_queue_distinct(src: Seq<bool>, w: int, h: int, k: nat)
    ensures
        forall|a: int, b: int|
            0 <= a < b < flood_queue(src, w, h, k).len() ==> flood_queue(src, w, h, k)[a].0 != flood_queue(
                src,
                w,
                h,
                k,
            )[b].0,
    decreases k,
{
    if k == 0 {
        lemma_seeds_sorted(src, src.len() as int);
    } else {
        lemma_flood_queue_distinct(src, w, h, (k - 1) as nat);
        let q = flood_queue(src, w, h, (k - 1) as nat);
        if k - 1 < q.len() {
            let ns = nbr_seq(full(src.len() as int), w, h, 0, q[k - 1].0);
            lemma_full(src.len() as int, 0);
            lemma_reach_cells_sorted(full(src.len() as int), w, h, 0, q[k - 1].0, src.len() as int);
            lemma_fresh_sorted(ns, cells_of(q));
            let t = tagged(fresh(ns, cells_of(q)), q[k - 1].1);
            let q2 = flood_queue(src, w, h, k);
            assert(q2 == q + t);
            assert forall|a: int, b: int| 0 <= a < b < q2.len() implies q2[a].0 != q2[b].0 by {
                if b >= q.len() {
                    let fb = fresh(ns, cells_of(q))[b - q.len()];
                    assert(q2[b].0 == fb);
                    if a < q.len() {
                        assert(cells_of(q)[a] == q[a].0);
                        assert(cells_of(q).contains(q[a].0));
                    } else {
                        assert(q2[a].0 == fresh(ns, cells_of(q))[a - q.len()]);
                    }
                }
            }
        }
    }
}

/// A flood that has expanded every entry it queued is done.
proof fn lemma_flood_settled(src: Seq<bool>, w: int, h: int, k: nat, m: nat)
    requires
        flood_queue(src, w, h, k).len() <= k,
        k <= m,
    ensures
        flood_queue(src, w, h, m) == flood_queue(src, w, h, k),
    decreases m - k,
{
    if m > k {
        lemma_flood_settled(src, w, h, k, (m - 1) as nat);
    }
}

/// Across the whole grid the neighbours [`offsets`] lists are [`nbr_seq`]'s.
proof fn lemma_offsets_seq(n: int, w: int, h: int, c: int, out: Seq<usize>)
    requires
        n == w * h,
        0 <= n <= usize::MAX,
        forall|i: int, j: int| 0 <= i < j < out.len() ==> out[i] < out[j],
        forall|k: int| 0 <= k < out.len() ==> within(w, h, 0, c, #[trigger] out[k] as int),
        forall|b: int| within(w, h, 0, c, b) ==> out.contains(b as usize),
    ensures
        as_ints(out) == nbr_seq(full(n), w, h, 0, c),
{
    let f = full(n);
    let si = as_ints(out);
    lemma_full(n, 0);
    assert forall|x: int| si.contains(x) <==> (0 <= x < f.len() && within(w, h, 0, c, x) && f[x]) by {
        lemma_full(n, x);
        if si.contains(x) {
            let k = choose|k: int| 0 <= k < si.len() && si[k] == x;
            assert(within(w, h, 0, c, out[k] as int));
        }
        if 0 <= x < f.len() && within(w, h, 0, c, x) && f[x] {
            assert(out.contains(x as usize));
            let k = choose|k: int| 0 <= k < out.len() && out[k] == x as usize;
            assert(si.len() == out.len());
            assert(si[k] == out[k] as int);
        }
    }
    lemma_sorted_cells(f, w, h, 0, c, si, n);
}

/// Queueing a cell not yet queued, with the expanding entry's origin, extends
/// the flood queue by the next fresh neighbour.
proof fn lemma_flood_push(
    q0: Seq<(int, int)>,
    ns: Seq<int>,
    k: int,
    o: usize,
    old_queue: Seq<usize>,
    old_orig: Seq<usize>,
    ni: usize,
)
    requires
        entries(old_queue, old_orig) == q0 + tagged(fresh(ns.take(k), cells_of(q0)), o as int),
        forall|j: int| 0 <= j < old_queue.len() ==> old_queue[j] < old_orig.len(),
        ni < old_orig.len(),
        0 <= k < ns.len(),
        ns[k] == ni as int,
        !old_queue.contains(ni),
    ensures
        !cells_of(q0).contains(ni as int),
        entries(old_queue.push(ni), old_orig.update(ni as int, o)) == q0 + tagged(
            fresh(ns.take(k + 1), cells_of(q0)),
            o as int,
        ),
{
    let f0 = fresh(ns.take(k), cells_of(q0));
    let e = entries(old_queue, old_orig);
    assert(e.len() == old_queue.len());
    assert(e.len() == q0.len() + f0.len());
    assert(cells_of(q0).len() == q0.len());
    if cells_of(q0).contains(ni as int) {
        let j = choose|j: int| 0 <= j < cells_of(q0).len() && cells_of(q0)[j] == ni as int;
        assert(e[j] == (q0 + tagged(f0, o as int))[j]);
        assert(e[j].0 == old_queue[j] as int);
        assert(old_queue[j] == ni);
        assert(old_queue.contains(ni));
    }
    assert(ns.take(k + 1).drop_last() =~= ns.take(k));
    assert(ns.take(k + 1).last() == ni as int);
    assert(fresh(ns.take(k + 1), cells_of(q0)) == f0.push(ni as int));
    let e2 = entries(old_queue.push(ni), old_orig.update(ni as int, o));
    assert forall|j: int| 0 <= j < old_queue.len() implies e2[j] == e[j] by {
        assert(old_queue.push(ni)[j] == old_queue[j]);
        if old_queue[j] == ni {
            assert(old_queue.contains(ni));
        }
    }
    assert(e2 =~= e.push((ni as int, o as int)));
    assert(tagged(f0.push(ni as int), o as int) =~= tagged(f0, o as int).push((ni as int, o as int)));
    assert(e2 =~= q0 + tagged(fresh(ns.take(k + 1), cells_of(q0)), o as int));
}

/// Passing over a neighbour already queued leaves the flood queue as it is.
proof fn lemma_flood_skip(
    q0: Seq<(int, int)>,
    ns: Seq<int>,
    k: int,
    o: int,
    queue: Seq<usize>,
    orig: Seq<usize>,
    ni: usize,
)
    requires
        entries(queue, orig) == q0 + tagged(fresh(ns.take(k), cells_of(q0)), o),
        0 <= k < ns.len(),
        ns[k] == ni as int,
        queue.contains(ni),
        forall|a: int, b: int| 0 <= a < b < ns.len() ==> ns[a] < ns[b],
    ensures
        entries(queue, orig) == q0 + tagged(fresh(ns.take(k + 1), cells_of(q0)), o),
{
    let f = fresh(ns.take(k), cells_of(q0));
    let e = entries(queue, orig);
    assert(e.len() == queue.len());
    assert(e.len() == q0.len() + f.len());
    assert(cells_of(q0).len() == q0.len());
    let j = choose|j: int| 0 <= j < queue.len() && queue[j] == ni;
    assert(e[j].0 == ni as int);
    assert(e[j] == (q0 + tagged(f, o))[j]);
    if j >= q0.len() {
        assert(tagged(f, o)[j - q0.len()] == e[j]);
        assert(f[j - q0.len()] == ni as int);
        assert(f.contains(ni as int));
        lemma_fresh_from(ns.take(k), cells_of(q0), ni as int);
        let m = choose|m: int| 0 <= m < ns.take(k).len() && ns.take(k)[m] == ni as int;
        assert(ns[m] < ns[k]);
    } else {
        assert(cells_of(q0)[j] == ni as int);
    }
    assert(cells_of(q0).contains(ni as int));
    assert(ns.take(k + 1).drop_last() =~= ns.take(k));
    assert(ns.take(k + 1).last() == ni as int);
    assert(fresh(ns.take(k + 1), cells_of(q0)) == f);
}

/// The Chebyshev distance between cells `a` and `b`.
pub open spec fn chebyshev(w: int, a: int, b: int) -> nat {
    let (gx, gy) = (gap(col(w, a), col(w, b)), gap(row(w, a), row(w, b)));
    (if gx >= gy {
        gx
    } else {
        gy
    }) as nat
}

/// Across the whole grid every cell reaches every other, one straight or
/// diagonal step at a time.
pub proof fn lemma_full_reach(w: int, h: int, s: int, v: int)
    requires
        w > 0,
        0 <= s < w * h,
        0 <= v < w * h,
    ensures
        reach(full(w * h), w, h, 0, s, v, chebyshev(w, s, v)),
    decreases chebyshev(w, s, v),
{
    let f = full(w * h);
    lemma_full(w * h, s);
    lemma_full(w * h, v);
    if v == s {
        lemma_reach_start(f, w, h, 0, s);
    } else {
        lemma_coords(w, h, s);
        lemma_coords(w, h, v);
        let (sx, sy, vx, vy) = (col(w, s), row(w, s), col(w, v), row(w, v));
        let ux = if vx < sx {
            vx + 1
        } else if vx > sx {
            vx - 1
        } else {
            vx
        };
        let uy = if vy < sy {
            vy + 1
        } else if vy > sy {
            vy - 1
        } else {
            vy
        };
        let u = uy * w + ux;
        lemma_cell(w, ux, uy);
        assert(u < w * h) by (nonlinear_arith)
            requires
                u == uy * w + ux,
                0 <= ux < w,
                0 <= uy < h,
        ;
        assert(u != v) by {
            if u == v {
                assert(vx == sx && vy == sy);
                assert(v == vy * w + vx && s == sy * w + sx);
            }
        }
        lemma_full(w * h, u);
        lemma_full_reach(w, h, s, u);
        lemma_reach_step(f, w, h, 0, s, u, v, chebyshev(w, s, u));
    }
}

/// `v` can be reached within `k` steps across the whole grid from some cell
/// that is set in `src`.
pub open spec fn near(src: Seq<bool>, w: int, h: int, v: int, k: nat) -> bool {
    exists|s: int| 0 <= s < src.len() && src[s] && #[trigger] reach(full(src.len() as int), w, h, 0, s, v, k)
}

/// Every cell within `k` steps of a source has been reached, at depth at
/// most `k`, once the flood has expanded every cell it queued.
proof fn lemma_flood_complete(
    src: Seq<bool>,
    w: int,
    h: int,
    dist: Seq<Option<u32>>,
    queue: Seq<usize>,
    s: int,
    v: int,
    k: nat,
)
    requires
        dist.len() == src.len(),
        src.len() <= usize::MAX,
        forall|x: int| 0 <= x < src.len() && src[x] ==> #[trigger] dist[x] == Some(0u32),
        forall|x: int| 0 <= x < dist.len() && dist[x] is Some ==> queue.contains(x as usize),
        forall|j: int| 0 <= j < queue.len() ==> queue[j] < dist.len(),
        forall|j: int, b: int|
            0 <= j < queue.len() && #[trigger] step(full(src.len() as int), w, h, 0, queue[j] as int, b)
                ==> dist[b] is Some && dist[b]->0 <= dist[queue[j] as int]->0 + 1,
        0 <= s < src.len(),
        src[s],
        reach(full(src.len() as int), w, h, 0, s, v, k),
    ensures
        dist[v] is Some,
        dist[v]->0 <= k,
    decreases k,
{
    let f = full(src.len() as int);
    if v != s {
        lemma_reach_back(f, w, h, 0, s, v, k);
        let u = choose|u: int| #[trigger] reach(f, w, h, 0, s, u, (k - 1) as nat) && step(f, w, h, 0, u, v);
        lemma_flood_complete(src, w, h, dist, queue, s, u, (k - 1) as nat);
        lemma_reach_in_mask(f, w, h, 0, s, u, (k - 1) as nat);
        lemma_full(src.len() as int, u);
        lemma_full(src.len() as int, v);
        let j = choose|j: int| 0 <= j < queue.len() && queue[j] == u as usize;
        assert(step(f, w, h, 0, queue[j] as int, v));
    }
}

/// Breadth-first flood of the whole grid from every cell set in `src` at
/// once, sources taken in index order. Each cell reached gets the source it
/// was reached from and its depth, the number of 8-neighbour steps from that
/// source, which is the fewest steps from any source.
pub fn flood(src: &Vec<bool>, w: u16, h: u16) -> (res: Vec<Option<(usize, u32)>>)
    requires
        src.len() == w * h,
    ensures
        res.len() == src.len(),
        forall|v: int|
            0 <= v < src.len() ==> (#[trigger] res[v] is Some <==> exists|k: nat| near(src@, w as int, h as int, v, k)),
        forall|v: int|
            0 <= v < src.len() && #[trigger] res[v] is Some ==> {
                let (o, d) = res[v]->0;
                &&& o < src.len()
                &&& src[o as int]
                &&& reach(full(src.len() as int), w as int, h as int, 0, o as int, v, d as nat)
                &&& forall|k: nat| k < d ==> !near(src@, w as int, h as int, v, k)
            },
        ({
            let q = flood_order(src@, w as int, h as int);
            &&& forall|a: int, b: int| 0 <= a < b < q.len() ==> q[a].0 != q[b].0
            &&& forall|v: int|
                0 <= v < src.len() && #[trigger] res[v] is Some ==> exists|j: int|
                    0 <= j < q.len() && q[j] == (v, (res[v]->0).0 as int)
        }),
{
    let ghost gs = src@;
    let ghost gw = w as int;
    let ghost gh = h as int;
    let n = src.len();
    let ghost f = full(n as int);
    proof {
        assert(w * h <= 65535 * 65535) by (nonlinear_arith)
            requires
                w <= 65535,
                h <= 65535,
        ;
    }
    let mut dist: Vec<Option<u32>> = Vec::new();
    let mut orig: Vec<usize> = Vec::new();
    let mut queue: Vec<usize> = Vec::new();
    let mut i: usize = 0;
    while i < n
        invariant
            gs == src@,
            f == full(n as int),
            n == src.len(),
            i <= n,
            dist.len() == i,
            orig.len() == i,
            forall|x: int| 0 <= x < i ==> (#[trigger] dist[x] is Some <==> gs[x]),
            forall|x: int| 0 <= x < i && #[trigger] gs[x] ==> dist[x] == Some(0u32) && orig[x] == x,
            forall|j: int| 0 <= j < queue.len() ==> queue[j] < i && gs[queue[j] as int],
            forall|a: int, b: int| 0 <= a < b < queue.len() ==> queue[a] < queue[b],
            forall|x: int| 0 <= x < i && #[trigger] gs[x] ==> queue@.contains(x as usize),
            entries(queue@, orig@) == seeds(gs, i as int),
        decreases n - i,
    {
        let ghost q_before = queue@;
        let ghost o_before = orig@;
        if src[i] {
            let ghost oq = queue@;
            dist.push(Some(0));
            queue.push(i);
            proof {
                assert(queue@[queue.len() - 1] == i);
                assert forall|x: int| 0 <= x < i + 1 && gs[x] implies queue@.contains(x as usize) by {
                    if x < i {
                        assert(oq.contains(x as usize));
                        let j = choose|j: int| 0 <= j < oq.len() && oq[j] == x as usize;
                        assert(queue@[j] == x as usize);
                    }
                }
            }
        } else {
            dist.push(None);
        }
        orig.push(i);
        proof {
            let e0 = entries(q_before, o_before);
            let e1 = entries(queue@, orig@);
            assert forall|j: int| 0 <= j < q_before.len() implies e1[j] == e0[j] by {
                assert(queue@[j] == q_before[j]);
                assert(orig@[q_before[j] as int] == o_before[q_before[j] as int]);
            }
            if gs[i as int] {
                assert(e1 =~= e0.push((i as int, i as int)));
            } else {
                assert(e1 =~= e0);
            }
        }
        i += 1;
    }
    let mut head: usize = 0;
    proof {
        assert forall|x: int| 0 <= x < n && #[trigger] dist[x] is Some implies orig[x] < n && gs[orig[x] as int] && reach(f, gw, gh, 0, orig[x] as int, x, dist[x]->0 as nat) by {
            assert(gs[x]);
            lemma_full(n as int, x);
            lemma_reach_start(f, gw, gh, 0, x);
        }
        assert forall|x: int| 0 <= x < n && #[trigger] dist[x] is Some implies queue@.contains(x as usize) by {
            assert(gs[x]);
        }
        assert(flood_queue(gs, gw, gh, 0) == seeds(gs, n as int));
    }
    while head < queue.len()
        invariant
            entries(queue@, orig@) == flood_queue(gs, gw, gh, head as nat),
            gs == src@,
            gw == w,
            gh == h,
            f == full(n as int),
            n == src.len(),
            n == w * h,
            n <= 65535 * 65535,
            dist.len() == n,
            orig.len() == n,
            head <= queue.len(),
            forall|x: int| 0 <= x < n && gs[x] ==> #[trigger] dist[x] == Some(0u32),
            forall|j: int| 0 <= j < queue.len() ==> queue[j] < n && dist[queue[j] as int] is Some,
            forall|a: int, b: int| 0 <= a < b < queue.len() ==> queue[a] != queue[b],
            forall|x: int| 0 <= x < n && dist[x] is Some ==> queue@.contains(x as usize),
            forall|a: int, b: int|
                0 <= a < b < queue.len() ==> dist[queue[a] as int]->0 <= dist[queue[b] as int]->0,
            head < queue.len() ==> forall|j: int|
                0 <= j < queue.len() ==> dist[queue[j] as int]->0 <= dist[queue[head as int] as int]->0 + 1,
            forall|j: int| 0 <= j < queue.len() ==> dist[queue[j] as int]->0 <= j,
            forall|x: int|
                0 <= x < n && #[trigger] dist[x] is Some ==> orig[x] < n && gs[orig[x] as int] && reach(
                    f,
                    gw,
                    gh,
                    0,
                    orig[x] as int,
                    x,
                    dist[x]->0 as nat,
                ),
            forall|j: int, b: int|
                0 <= j < head && #[trigger] step(f, gw, gh, 0, queue[j] as int, b) ==> dist[b] is Some
                    && dist[b]->0 <= dist[queue[j] as int]->0 + 1,
        decreases n - head,
    {
        proof {
            let qs = queue@;
            assert(qs.no_duplicates()) by {
                assert forall|a: int, b: int| 0 <= a < qs.len() && 0 <= b < qs.len() && a != b implies qs[a] != qs[b] by {
                    if a < b {} else {}
                }
            }
            lemma_distinct_bounded(qs, n as int);
        }
        let cur = queue[head];
        let d = match dist[cur] {
            Some(d) => d,
            None => 0,
        };
        let o = orig[cur];
        let nbrs = offsets(cur, w, h, 0);
        let ghost q0 = entries(queue@, orig@);
        let ghost ns = nbr_seq(f, gw, gh, 0, cur as int);
        proof {
            lemma_offsets_seq(n as int, gw, gh, cur as int, nbrs@);
            assert forall|m: int| 0 <= m < nbrs.len() implies #[trigger] nbrs[m] as int == ns[m] by {
                assert(as_ints(nbrs@)[m] == nbrs[m] as int);
            }
            assert(ns.take(0) =~= Seq::<int>::empty());
            assert(tagged(fresh(ns.take(0), cells_of(q0)), o as int) =~= Seq::<(int, int)>::empty());
            assert(entries(queue@, orig@) =~= q0 + tagged(fresh(ns.take(0), cells_of(q0)), o as int));
            assert(q0[head as int] == (cur as int, o as int));
        }
        let mut k: usize = 0;
        while k < nbrs.len()
            invariant
                q0 == flood_queue(gs, gw, gh, head as nat),
                head < q0.len(),
                q0[head as int] == (cur as int, o as int),
                ns == nbr_seq(f, gw, gh, 0, cur as int),
                nbrs.len() == ns.len(),
                forall|m: int| 0 <= m < nbrs.len() ==> #[trigger] nbrs[m] as int == ns[m],
                entries(queue@, orig@) == q0 + tagged(fresh(ns.take(k as int), cells_of(q0)), o as int),
                gs == src@,
                gw == w,
                gh == h,
                f == full(n as int),
                n == src.len(),
                n == w * h,
                n <= 65535 * 65535,
                dist.len() == n,
                orig.len() == n,
                head < queue.len(),
                queue.len() <= n,
                cur == queue[head as int],
                dist[cur as int] == Some(d),
                o == orig[cur as int],
                o < n,
                gs[o as int],
                reach(f, gw, gh, 0, o as int, cur as int, d as nat),
                d <= head,
                k <= nbrs.len(),
                forall|x: int| 0 <= x < n && gs[x] ==> #[trigger] dist[x] == Some(0u32),
                forall|a: int, b: int| 0 <= a < b < nbrs.len() ==> nbrs[a] < nbrs[b],
                forall|m: int| 0 <= m < nbrs.len() ==> within(gw, gh, 0, cur as int, #[trigger] nbrs[m] as int),
                forall|j: int| 0 <= j < queue.len() ==> queue[j] < n && dist[queue[j] as int] is Some,
                forall|a: int, b: int| 0 <= a < b < queue.len() ==> queue[a] != queue[b],
                forall|x: int| 0 <= x < n && dist[x] is Some ==> queue@.contains(x as usize),
                forall|a: int, b: int|
                    0 <= a < b < queue.len() ==> dist[queue[a] as int]->0 <= dist[queue[b] as int]->0,
                forall|j: int| 0 <= j < queue.len() ==> dist[queue[j] as int]->0 <= d + 1,
                forall|j: int| 0 <= j < queue.len() ==> dist[queue[j] as int]->0 <= j,
                forall|x: int|
                    0 <= x < n && #[trigger] dist[x] is Some ==> orig[x] < n && gs[orig[x] as int] && reach(
                        f,
                        gw,
                        gh,
                        0,
                        orig[x] as int,
                        x,
                        dist[x]->0 as nat,
                    ),
                forall|j: int, b: int|
                    0 <= j < head && #[trigger] step(f, gw, gh, 0, queue[j] as int, b) ==> dist[b] is Some
                        && dist[b]->0 <= dist[queue[j] as int]->0 + 1,
                forall|m: int|
                    0 <= m < k ==> dist[#[trigger] nbrs[m] as int] is Some && dist[nbrs[m] as int]->0 <= d + 1,
            decreases nbrs.len() - k,
        {
            let ni = nbrs[k];
            if dist[ni].is_none() {
                proof {
                    let qs = queue@;
                    assert(qs.no_duplicates()) by {
                        assert forall|a: int, b: int| 0 <= a < qs.len() && 0 <= b < qs.len() && a != b implies qs[a] != qs[b] by {
                            if a < b {} else {}
                        }
                    }
                    lemma_distinct_bounded(qs, n as int);
                    assert(!queue@.contains(ni)) by {
                        if queue@.contains(ni) {
                            let j = choose|j: int| 0 <= j < queue.len() && queue[j] == ni;
                        }
                    }
                    lemma_full(n as int, cur as int);
                    lemma_full(n as int, ni as int);
                    assert(step(f, gw, gh, 0, cur as int, ni as int));
                    lemma_reach_step(f, gw, gh, 0, o as int, cur as int, ni as int, d as nat);
                    let qs2 = queue@.push(ni);
                    assert(qs2.no_duplicates()) by {
                        assert forall|a: int, b: int| 0 <= a < qs2.len() && 0 <= b < qs2.len() && a != b implies qs2[a] != qs2[b] by {
                            if a < b {} else {}
                        }
                    }
                    lemma_distinct_bounded(qs2, n as int);
                }
                let ghost old_queue = queue@;
                let ghost old_dist = dist@;
                let ghost old_orig = orig@;
                dist.set(ni, Some(d + 1));
                orig.set(ni, o);
                queue.push(ni);
                proof {
                    lemma_flood_push(q0, ns, k as int, o, old_queue, old_orig, ni);
                    assert forall|x: int| 0 <= x < n && dist[x] is Some implies queue@.contains(x as usize) by {
                        if x == ni as int {
                            assert(queue@[queue.len() - 1] == ni);
                        } else {
                            assert(old_dist[x] is Some);
                            let j = choose|j: int| 0 <= j < old_queue.len() && old_queue[j] == x as usize;
                            assert(queue@[j] == x as usize);
                        }
                    }
                    assert forall|j: int| 0 <= j < queue.len() implies queue[j] < n && dist[queue[j] as int] is Some by {
                        if j < old_queue.len() {
                            assert(queue[j] == old_queue[j]);
                        }
                    }
                    assert forall|a: int, b: int| 0 <= a < b < queue.len() implies queue[a] != queue[b] by {
                        if b == queue.len() - 1 {
                            assert(queue[a] == old_queue[a]);
                            assert(old_queue.contains(queue[a]));
                        } else {
                            assert(queue[a] == old_queue[a] && queue[b] == old_queue[b]);
                        }
                    }
                    assert forall|a: int, b: int| 0 <= a < b < queue.len() implies dist[queue[a] as int]->0 <= dist[queue[b] as int]->0 by {
                        assert(queue[a] == old_queue[a]);
                        if b < old_queue.len() {
                            assert(queue[b] == old_queue[b]);
                            assert(old_queue[a] != ni && old_queue[b] != ni);
                        } else {
                            assert(old_queue[a] != ni);
                        }
                    }
                    assert forall|j: int| 0 <= j < queue.len() implies dist[queue[j] as int]->0 <= d + 1 by {
                        if j < old_queue.len() {
                            assert(queue[j] == old_queue[j]);
                            assert(old_queue[j] != ni);
                        }
                    }
                    assert forall|j: int| 0 <= j < queue.len() implies dist[queue[j] as int]->0 <= j by {
                        if j < old_queue.len() {
                            assert(queue[j] == old_queue[j]);
                            assert(old_queue[j] != ni);
                        }
                    }
                    assert forall|x: int| 0 <= x < n && #[trigger] dist[x] is Some implies orig[x] < n && gs[orig[x] as int] && reach(
                        f,
                        gw,
                        gh,
                        0,
                        orig[x] as int,
                        x,
                        dist[x]->0 as nat,
                    ) by {
                        if x != ni as int {
                            assert(old_dist[x] == dist[x]);
                            assert(old_orig[x] == orig[x]);
                        }
                    }
                    assert forall|j: int, b: int|
                        0 <= j < head && #[trigger] step(f, gw, gh, 0, queue[j] as int, b) implies dist[b] is Some
                            && dist[b]->0 <= dist[queue[j] as int]->0 + 1 by {
                        assert(queue[j] == old_queue[j]);
                        assert(old_queue[j] != ni);
                        assert(old_dist[b] is Some);
                        assert(b != ni as int);
                    }
                    assert forall|m: int|
                        0 <= m < k + 1 implies dist[#[trigger] nbrs[m] as int] is Some && dist[nbrs[m] as int]->0 <= d + 1 by {
                        if m < k {
                            assert(nbrs[m] != ni);
                        }
                    }
                    assert forall|x: int| 0 <= x < n && gs[x] implies #[trigger] dist[x] == Some(0u32) by {
                        assert(old_dist[x] is Some);
                        assert(x != ni as int);
                    }
                }
            } else {
                proof {
                    let j = choose|j: int| 0 <= j < queue.len() && queue[j] == ni;
                    assert forall|a: int, b: int| 0 <= a < b < ns.len() implies ns[a] < ns[b] by {
                        assert(nbrs[a] < nbrs[b]);
                    }
                    lemma_flood_skip(q0, ns, k as int, o as int, queue@, orig@, ni);
                }
            }
            k += 1;
        }
        proof {
            assert(ns.take(nbrs.len() as int) =~= ns);
            assert(flood_queue(gs, gw, gh, (head + 1) as nat) == q0 + tagged(fresh(ns, cells_of(q0)), o as int));
            assert forall|j: int, b: int|
                0 <= j < head + 1 && #[trigger] step(f, gw, gh, 0, queue[j] as int, b) implies dist[b] is Some
                    && dist[b]->0 <= dist[queue[j] as int]->0 + 1 by {
                if j == head {
                    assert(within(gw, gh, 0, cur as int, b));
                    assert(nbrs@.contains(b as usize));
                    let m = choose|m: int| 0 <= m < nbrs.len() && nbrs[m] == b as usize;
                    assert(dist[nbrs[m] as int] is Some);
                }
            }
            if head + 1 < queue.len() {
                assert(dist[queue[head as int] as int]->0 <= dist[queue[head + 1] as int]->0);
            }
        }
        head += 1;
    }
    let mut res: Vec<Option<(usize, u32)>> = Vec::new();
    let mut i: usize = 0;
    while i < n
        invariant
            i <= n,
            n == src.len(),
            dist.len() == n,
            orig.len() == n,
            res.len() == i,
            forall|x: int|
                0 <= x < i ==> #[trigger] res[x] == match dist[x] {
                    Some(d) => Some((orig[x], d)),
                    None => None,
                },
        decreases n - i,
    {
        let e = match dist[i] {
            Some(d) => Some((orig[i], d)),
            None => None,
        };
        res.push(e);
        i += 1;
    }
    proof {
        assert forall|v: int| 0 <= v < n implies (#[trigger] res[v] is Some <==> exists|k: nat| near(gs, gw, gh, v, k)) by {
            if dist[v] is Some {
                assert(near(gs, gw, gh, v, dist[v]->0 as nat));
            }
            if exists|k: nat| near(gs, gw, gh, v, k) {
                let k = choose|k: nat| near(gs, gw, gh, v, k);
                let s = choose|s: int| 0 <= s < gs.len() && gs[s] && #[trigger] reach(f, gw, gh, 0, s, v, k);
                lemma_flood_complete(gs, gw, gh, dist@, queue@, s, v, k);
            }
        }
        assert forall|v: int| 0 <= v < n && #[trigger] res[v] is Some implies forall|k: nat|
            k < dist[v]->0 ==> !near(gs, gw, gh, v, k) by {
            assert forall|k: nat| k < dist[v]->0 implies !near(gs, gw, gh, v, k) by {
                if near(gs, gw, gh, v, k) {
                    let s = choose|s: int| 0 <= s < gs.len() && gs[s] && #[trigger] reach(f, gw, gh, 0, s, v, k);
                    lemma_flood_complete(gs, gw, gh, dist@, queue@, s, v, k);
                }
            }
        }
        let qs = queue@;
        assert(qs.no_duplicates()) by {
            assert forall|a: int, b: int| 0 <= a < qs.len() && 0 <= b < qs.len() && a != b implies qs[a] != qs[b] by {
                if a < b {} else {}
            }
        }
        lemma_distinct_bounded(qs, n as int);
        lemma_flood_settled(gs, gw, gh, head as nat, n as nat);
        let q = flood_order(gs, gw, gh);
        assert(q == entries(queue@, orig@));
        assert forall|a: int, b: int| 0 <= a < b < q.len() implies q[a].0 != q[b].0 by {
            assert(q[a].0 == queue[a] as int && q[b].0 == queue[b] as int);
        }
        assert forall|v: int| 0 <= v < n && #[trigger] res[v] is Some implies exists|j: int|
            0 <= j < q.len() && q[j] == (v, (res[v]->0).0 as int) by {
            let j = choose|j: int| 0 <= j < queue.len() && queue[j] == v as usize;
            assert(q[j] == (queue[j] as int, orig[queue[j] as int] as int));
        }
    }
    res
}

} // verus!
