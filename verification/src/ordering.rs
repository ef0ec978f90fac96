//! Orderings: how the ink of a picture is put in reveal order.
//!
//! The geometry lives here: which cells are ink, the Zhang-Suen skeleton of
//! the ink, its pieces and their tip-to-tip traces, the directional wipe, and
//! the diagnostics that describe how well a piece of art suits a spine trace.
//! Turning the resulting order into fractional ranks is left to the caller.

use vstd::arithmetic::div_mod::*;
use vstd::prelude::*;

use crate::art::{ink_mask, ink_mask_of, Art};
use crate::grid::{class_min, class_of, col, components, connected, largest_component, reach, row, shortest, step};

verus! {

// ---------------------------------------------------------------------------
// Counting
// ---------------------------------------------------------------------------

/// Number of `true` entries.
pub open spec fn count_true(s: Seq<bool>) -> nat
    decreases s.len(),
{
    if s.len() == 0 {
        0
    } else {
        count_true(s.drop_last()) + if s.last() {
            1nat
        } else {
            0nat
        }
    }
}

pub proof fn lemma_count_true_bound(s: Seq<bool>)
    ensures
        count_true(s) <= s.len(),
    decreases s.len(),
{
    if s.len() > 0 {
        lemma_count_true_bound(s.drop_last());
    }
}

pub proof fn lemma_count_true_zero(s: Seq<bool>)
    ensures
        count_true(s) == 0 <==> forall|i: int| 0 <= i < s.len() ==> !s[i],
    decreases s.len(),
{
    if s.len() > 0 {
        lemma_count_true_zero(s.drop_last());
        if count_true(s) == 0 {
            assert forall|i: int| 0 <= i < s.len() implies !s[i] by {
                if i < s.len() - 1 {
                    assert(s[i] == s.drop_last()[i]);
                }
            }
        }
        if forall|i: int| 0 <= i < s.len() ==> !s[i] {
            assert forall|i: int| 0 <= i < s.drop_last().len() implies !s.drop_last()[i] by {
                assert(s[i] == s.drop_last()[i]);
            }
        }
    }
}

/// Counting set entries over prefixes only grows, and strictly across a set
/// entry.
pub proof fn lemma_count_true_prefix(s: Seq<bool>, a: int, b: int)
    requires
        0 <= a <= b <= s.len(),
    ensures
        count_true(s.take(a)) <= count_true(s.take(b)),
        a < b && s[a] ==> count_true(s.take(a)) < count_true(s.take(b)),
    decreases b - a,
{
    if a < b {
        lemma_count_true_prefix(s, a, b - 1);
        assert(s.take(b).drop_last() =~= s.take(b - 1));
        if a == b - 1 {
            assert(s.take(b).last() == s[a]);
        }
    }
}

/// Number of set cells.
pub fn count_set(s: &Vec<bool>) -> (n: usize)
    ensures
        n == count_true(s@),
{
    let mut n: usize = 0;
    let mut i: usize = 0;
    while i < s.len()
        invariant
            i <= s.len(),
            n == count_true(s@.take(i as int)),
            n <= i,
        decreases s.len() - i,
    {
        proof {
            assert(s@.take(i + 1).drop_last() =~= s@.take(i as int));
            lemma_count_true_bound(s@.take(i as int));
        }
        if s[i] {
            n += 1;
        }
        i += 1;
    }
    proof {
        assert(s@.take(s.len() as int) =~= s@);
    }
    n
}

// ---------------------------------------------------------------------------
// The single-precision connectivity threshold
// ---------------------------------------------------------------------------

/// The power of two by which rounding a count to single precision (a 24-bit
/// significand) scales its last kept digit.
pub open spec fn single_unit(x: nat) -> nat
    decreases x,
{
    if x < 0x100_0000 {
        1
    } else {
        2 * single_unit(x / 2)
    }
}

/// `x` rounded to the nearest value with a 24-bit significand, ties to even:
/// what converting the integer to `f32` gives.
pub open spec fn round_single(x: nat) -> nat {
    let unit = single_unit(x);
    let q = x / unit;
    let rem = x % unit;
    let up = 2 * rem > unit || (2 * rem == unit && q % 2 == 1);
    (if up {
        q + 1
    } else {
        q
    }) * unit
}

/// `STRICT_CONNECTED_MIN`, `0.6`, as the single-precision value it is stored
/// as: this many 2^-24ths.
pub const STRICT_CONNECTED_MIN_SCALED: u64 = 10066330;

/// The largest strictly connected piece covers at least `STRICT_CONNECTED_MIN`
/// of the `count` set cells (a `count` of zero counting as one), compared the
/// way single-precision arithmetic compares them: both counts are rounded to
/// `f32`, the product is rounded to `f32`, and the two are compared exactly.
pub open spec fn mostly_connected(strict: nat, count: nat) -> bool {
    let c = if count == 0 {
        1nat
    } else {
        count
    };
    round_single(strict) * 0x100_0000 >= round_single(
        STRICT_CONNECTED_MIN_SCALED as nat * round_single(c),
    )
}

proof fn lemma_unit_pos(x: nat)
    ensures
        single_unit(x) >= 1,
    decreases x,
{
    if x >= 0x100_0000 {
        lemma_unit_pos(x / 2);
    }
}

/// Beyond 24 bits the unit is at most a 2^-23 share of the value.
proof fn lemma_unit_small(x: nat)
    requires
        x >= 0x100_0000,
    ensures
        single_unit(x) * 0x100_0000 <= 2 * x,
    decreases x,
{
    if x / 2 >= 0x100_0000 {
        lemma_unit_small(x / 2);
    } else {
        assert(single_unit(x / 2) == 1);
    }
}

proof fn lemma_round_single_bound(x: nat)
    ensures
        round_single(x) <= 2 * x,
        x > 0 ==> round_single(x) >= 1,
{
    let unit = single_unit(x);
    lemma_unit_pos(x);
    lemma_fundamental_div_mod(x as int, unit as int);
    lemma_mod_pos_bound(x as int, unit as int);
    let q = x / unit;
    assert(x == unit * q + x % unit);
    if x >= 0x100_0000 {
        lemma_unit_small(x);
        assert(unit <= x);
        assert(q >= 1) by {
            if q == 0 {
                assert(unit * q == 0) by (nonlinear_arith)
                    requires
                        q == 0,
                ;
                assert(x == x % unit);
            }
        }
        assert((q + 1) * unit == unit * q + unit) by (nonlinear_arith);
        assert(q * unit >= 1) by (nonlinear_arith)
            requires
                q >= 1,
                unit >= 1,
        ;
    } else {
        assert(unit == 1);
        lemma_div_basics(x as int);
        assert(q == x);
    }
    let up = 2 * (x % unit) > unit || (2 * (x % unit) == unit && q % 2 == 1);
    let qq = if up { q + 1 } else { q };
    assert(round_single(x) == qq * unit);
    if x >= 0x100_0000 {
        assert(qq * unit <= (q + 1) * unit) by (nonlinear_arith)
            requires
                qq <= q + 1,
                unit >= 1,
        ;
    } else {
        assert(x % unit == 0);
        assert(qq == q);
        assert(qq * unit == q);
    }
    if x > 0 {
        assert(qq * unit >= 1) by (nonlinear_arith)
            requires
                qq >= 1,
                unit >= 1,
        ;
    }
}

/// The unit rounding `x` to single precision keeps, and how many of them fit
/// in `x`.
fn single_split(x: u128) -> (r: (u128, u128))
    requires
        x < 0x4000_0000_0000_0000_0000_0000_0000_0000,
    ensures
        r.0 == single_unit(x as nat),
        r.1 == x as nat / r.0 as nat,
        r.0 >= 1,
        r.1 < 0x100_0000,
        r.0 <= 0x80_0000_0000_0000_0000_0000_0000,
        r.0 == 1 || r.0 * 0x80_0000 <= x,
{
    let mut q: u128 = x;
    let mut unit: u128 = 1;
    while q >= 0x100_0000
        invariant
            unit >= 1,
            q == x as nat / unit as nat,
            single_unit(x as nat) == unit * single_unit(q as nat),
            unit <= 0x80_0000_0000_0000_0000_0000_0000,
            unit == 1 || unit * 0x80_0000 <= x,
            x < 0x4000_0000_0000_0000_0000_0000_0000_0000,
        decreases q,
    {
        proof {
            lemma_div_denominator(x as int, unit as int, 2);
            assert(q as nat / 2 == x as nat / (unit as nat * 2));
            assert(single_unit(q as nat) == 2 * single_unit((q / 2) as nat));
            assert(unit * single_unit(q as nat) == (unit * 2) * single_unit((q / 2) as nat))
                by (nonlinear_arith)
                requires
                    single_unit(q as nat) == 2 * single_unit((q / 2) as nat),
            ;
            lemma_fundamental_div_mod(x as int, unit as int);
            lemma_mod_pos_bound(x as int, unit as int);
            assert(unit * q <= x);
            assert(unit * 0x100_0000 <= unit * q) by (nonlinear_arith)
                requires
                    q >= 0x100_0000,
                    unit >= 1,
            ;
        }
        q = q / 2;
        unit = unit * 2;
    }
    proof {
        assert(single_unit(q as nat) == 1);
        assert(unit * single_unit(q as nat) == unit) by (nonlinear_arith)
            requires
                single_unit(q as nat) == 1,
        ;
    }
    (unit, q)
}

/// Rounds a count to single precision.
fn round_to_single(x: u128) -> (r: u128)
    requires
        x < 0x4000_0000_0000_0000_0000_0000_0000_0000,
    ensures
        r == round_single(x as nat),
{
    let (unit, q) = single_split(x);
    proof {
        lemma_fundamental_div_mod(x as int, unit as int);
        lemma_mod_pos_bound(x as int, unit as int);
        assert(unit * q <= x);
    }
    let rem: u128 = x - unit * q;
    proof {
        assert(rem == x as nat % unit as nat);
    }
    let up = 2 * rem > unit || (2 * rem == unit && q % 2 == 1);
    let qq: u128 = if up { q + 1 } else { q };
    proof {
        assert(qq * unit <= 0x100_0000 * 0x80_0000_0000_0000_0000_0000_0000) by (nonlinear_arith)
            requires
                qq <= 0x100_0000,
                unit <= 0x80_0000_0000_0000_0000_0000_0000,
        ;
    }
    qq * unit
}

/// `a / b` rounded to the nearest value with a 24-bit significand, ties to
/// even, on a grid no finer than whole units: what single-precision division
/// gives, counted in units, for any quotient of at least 2^23 units.
pub open spec fn round_ratio(a: nat, b: nat) -> nat {
    let n = a / b;
    let unit = single_unit(n);
    let q = n / unit;
    let t = (n % unit) * b + a % b;
    let up = 2 * t > unit * b || (2 * t == unit * b && q % 2 == 1);
    (if up {
        q + 1
    } else {
        q
    }) * unit
}

/// Rounds a quotient to single precision.
fn round_ratio_exec(a: u128, b: u128) -> (r: u128)
    requires
        1 <= b <= 0x2_0000_0000,
        a < 0x100_0000_0000_0000_0000_0000,
    ensures
        r == round_ratio(a as nat, b as nat),
        r < 0x400_0000_0000_0000_0000_0000,
{
    let n = a / b;
    let (unit, q) = single_split(n);
    proof {
        lemma_fundamental_div_mod(a as int, b as int);
        lemma_mod_pos_bound(a as int, b as int);
        lemma_fundamental_div_mod(n as int, unit as int);
        lemma_mod_pos_bound(n as int, unit as int);
        assert(b * n <= a);
        assert(unit * q <= n);
        assert(n <= a) by {
            assert(b * n >= n) by (nonlinear_arith)
                requires
                    b >= 1,
            ;
        }
        assert(unit <= 0x2_0000_0000_0000_0000);
    }
    let rn: u128 = n - unit * q;
    let ra: u128 = a - b * n;
    proof {
        assert(rn == n as nat % unit as nat);
        assert(ra == a as nat % b as nat);
        assert(rn * b <= unit * b) by (nonlinear_arith)
            requires
                rn <= unit,
        ;
        assert(unit * b <= 0x2_0000_0000_0000_0000 * 0x2_0000_0000) by (nonlinear_arith)
            requires
                unit <= 0x2_0000_0000_0000_0000,
                b <= 0x2_0000_0000,
        ;
    }
    let t: u128 = rn * b + ra;
    let ub: u128 = unit * b;
    let up = 2 * t > ub || (2 * t == ub && q % 2 == 1);
    let qq: u128 = if up { q + 1 } else { q };
    proof {
        assert(qq * unit <= 0x100_0000 * 0x2_0000_0000_0000_0000) by (nonlinear_arith)
            requires
                qq <= 0x100_0000,
                unit <= 0x2_0000_0000_0000_0000,
        ;
    }
    qq * unit
}

/// True when `strict` covers at least `STRICT_CONNECTED_MIN` of `count`, in
/// single precision.
pub fn is_mostly_connected(strict: usize, count: usize) -> (b: bool)
    requires
        strict <= 0xFFFF_FFFF,
        count <= 0xFFFF_FFFF,
    ensures
        b == mostly_connected(strict as nat, count as nat),
{
    let c: u128 = if count == 0 { 1 } else { count as u128 };
    let rs = round_to_single(strict as u128);
    let rc = round_to_single(c);
    proof {
        lemma_round_single_bound(c as nat);
        lemma_round_single_bound(strict as nat);
    }
    let prod = (STRICT_CONNECTED_MIN_SCALED as u128) * rc;
    let rp = round_to_single(prod);
    rs * 0x100_0000 >= rp
}


// ---------------------------------------------------------------------------
// Pieces, their sizes, and bridging
// ---------------------------------------------------------------------------

/// `size` is the size of the largest piece of `mask`.
pub open spec fn is_largest(mask: Seq<bool>, w: int, h: int, r: int, size: nat) -> bool {
    &&& exists|m: int| class_min(mask, w, h, r, m) && #[trigger] class_of(mask, w, h, r, m).len() == size
    &&& forall|m: int| class_min(mask, w, h, r, m) ==> #[trigger] class_of(mask, w, h, r, m).len() <= size
}

/// The size of the largest piece of `mask`, or `0` when it has no set cell.
pub open spec fn largest_size(mask: Seq<bool>, w: int, h: int, r: int) -> nat {
    if exists|size: nat| is_largest(mask, w, h, r, size) {
        choose|size: nat| is_largest(mask, w, h, r, size)
    } else {
        0
    }
}

/// `seed` is the smallest cell of the piece a spine is traced through: a
/// largest piece, the one whose smallest cell comes last among equals.
pub open spec fn is_largest_seed(mask: Seq<bool>, w: int, h: int, r: int, seed: int) -> bool {
    &&& class_min(mask, w, h, r, seed)
    &&& class_of(mask, w, h, r, seed).len() == largest_size(mask, w, h, r)
    &&& forall|m: int|
        class_min(mask, w, h, r, m) && #[trigger] class_of(mask, w, h, r, m).len() == largest_size(
            mask,
            w,
            h,
            r,
        ) ==> m <= seed
}

/// The gap a walk may step across: `bridge`, unless the mask is already
/// whole (its largest strict piece covers `STRICT_CONNECTED_MIN` of it), in
/// which case `0`, so connected art never gains shortcuts.
pub open spec fn adapted_bridge(mask: Seq<bool>, w: int, h: int, bridge: int) -> int {
    if bridge == 0 {
        0
    } else if count_true(mask) > 0 && mostly_connected(largest_size(mask, w, h, 0), count_true(mask)) {
        0
    } else {
        bridge
    }
}

/// What `largest_component` reports is the largest size and its seed.
proof fn lemma_largest_facts(mask: Seq<bool>, w: int, h: int, r: int, size: nat, seed: int)
    requires
        class_min(mask, w, h, r, seed),
        class_of(mask, w, h, r, seed).len() == size,
        forall|m: int| class_min(mask, w, h, r, m) ==> #[trigger] class_of(mask, w, h, r, m).len() <= size,
        forall|m: int|
            class_min(mask, w, h, r, m) && #[trigger] class_of(mask, w, h, r, m).len() == size ==> m <= seed,
    ensures
        largest_size(mask, w, h, r) == size,
        is_largest_seed(mask, w, h, r, seed),
{
    assert(is_largest(mask, w, h, r, size));
    let s2 = choose|s2: nat| is_largest(mask, w, h, r, s2);
    let m2 = choose|m: int| class_min(mask, w, h, r, m) && #[trigger] class_of(mask, w, h, r, m).len() == s2;
    assert(class_of(mask, w, h, r, m2).len() <= size);
    assert(class_of(mask, w, h, r, seed).len() <= s2);
}

/// The gap the spine may step across for this mask (see [`adapted_bridge`]).
pub fn adaptive_bridge(mask: &Vec<bool>, w: u16, h: u16, bridge: u16) -> (r: u16)
    requires
        mask.len() == w * h,
    ensures
        r == adapted_bridge(mask@, w as int, h as int, bridge as int),
{
    if bridge == 0 {
        return 0;
    }
    proof {
        assert(w * h <= 0xFFFF_FFFF) by (nonlinear_arith)
            requires
                w <= 65535,
                h <= 65535,
        ;
    }
    let count = count_set(mask);
    proof {
        lemma_count_true_bound(mask@);
        lemma_count_true_zero(mask@);
    }
    match largest_component(mask, w, h, 0) {
        Some((strict, seed)) => {
            proof {
                lemma_largest_facts(mask@, w as int, h as int, 0, strict as nat, seed as int);
                assert(class_of(mask@, w as int, h as int, 0, seed as int).len() <= mask.len()) by {
                    lemma_class_bounded(mask@, w as int, h as int, 0, seed as int);
                }
            }
            if is_mostly_connected(strict, count) {
                0
            } else {
                bridge
            }
        },
        None => bridge,
    }
}

/// A piece has no more cells than the mask.
pub proof fn lemma_class_bounded(mask: Seq<bool>, w: int, h: int, r: int, s: int)
    ensures
        class_of(mask, w, h, r, s).finite(),
        class_of(mask, w, h, r, s).len() <= mask.len(),
{
    vstd::set_lib::lemma_int_range(0, mask.len() as int);
    vstd::set_lib::lemma_len_subset(class_of(mask, w, h, r, s), vstd::set_lib::set_int_range(0, mask.len() as int));
}

// ---------------------------------------------------------------------------
// Tracing a piece tip to tip
// ---------------------------------------------------------------------------

/// Which end of the spine the geodesic reveal starts at.
#[derive(Clone, Copy, Debug, PartialEq, Eq, Structural)]
pub enum StartHint {
    /// The tip nearest the top-left. Deterministic and reads like text.
    TopLeft,
    /// The tip nearest the bottom of the canvas.
    Bottom,
    /// Whichever diameter endpoint the sweep happens to find, purely topological.
    Topological,
}

/// The length of a shortest walk from `s` to `v`.
pub open spec fn distance(mask: Seq<bool>, w: int, h: int, r: int, s: int, v: int) -> nat {
    choose|d: nat| shortest(mask, w, h, r, s, v, d)
}

pub proof fn lemma_distance(mask: Seq<bool>, w: int, h: int, r: int, s: int, v: int, d: nat)
    requires
        shortest(mask, w, h, r, s, v, d),
    ensures
        distance(mask, w, h, r, s, v) == d,
{
    let d2 = distance(mask, w, h, r, s, v);
    assert(shortest(mask, w, h, r, s, v, d2));
    if d2 < d {
        assert(!reach(mask, w, h, r, s, v, d2));
    } else if d < d2 {
        assert(!reach(mask, w, h, r, s, v, d));
    }
}

/// `a` is a cell of the piece of `s` at the greatest distance from `s`.
pub open spec fn is_farthest(mask: Seq<bool>, w: int, h: int, r: int, s: int, a: int) -> bool {
    &&& connected(mask, w, h, r, s, a)
    &&& forall|v: int|
        #[trigger] connected(mask, w, h, r, s, v) ==> distance(mask, w, h, r, s, v) <= distance(
            mask,
            w,
            h,
            r,
            s,
            a,
        )
}

/// `a` is where a breadth-first search from `s` ends up: the first cell it
/// visits at the greatest distance from `s`.
pub open spec fn is_search_far(mask: Seq<bool>, w: int, h: int, r: int, s: int, a: int) -> bool {
    let q = crate::grid::search_order(mask, w, h, r, s);
    &&& is_farthest(mask, w, h, r, s, a)
    &&& exists|i: int|
        0 <= i < q.len() && q[i] == a && forall|j: int|
            0 <= j < i ==> distance(mask, w, h, r, s, q[j]) < distance(mask, w, h, r, s, a)
}

/// There is only one such cell.
pub proof fn lemma_search_far_unique(mask: Seq<bool>, w: int, h: int, r: int, s: int, a: int, b: int)
    requires
        is_search_far(mask, w, h, r, s, a),
        is_search_far(mask, w, h, r, s, b),
    ensures
        a == b,
{
    let q = crate::grid::search_order(mask, w, h, r, s);
    let i = choose|i: int|
        0 <= i < q.len() && q[i] == a && forall|j: int|
            0 <= j < i ==> distance(mask, w, h, r, s, q[j]) < distance(mask, w, h, r, s, a);
    let k = choose|k: int|
        0 <= k < q.len() && q[k] == b && forall|j: int|
            0 <= j < k ==> distance(mask, w, h, r, s, q[j]) < distance(mask, w, h, r, s, b);
    assert(distance(mask, w, h, r, s, a) <= distance(mask, w, h, r, s, b));
    assert(distance(mask, w, h, r, s, b) <= distance(mask, w, h, r, s, a));
    if i < k {
        assert(distance(mask, w, h, r, s, q[i]) < distance(mask, w, h, r, s, b));
    } else if k < i {
        assert(distance(mask, w, h, r, s, q[k]) < distance(mask, w, h, r, s, a));
    }
}

/// The tip a trace starts from: `a` unless the hint prefers `b`. Top-left
/// compares (row, column) pairs; bottom compares rows.
pub open spec fn chosen_tip(w: int, hint: StartHint, a: int, b: int) -> int {
    let (ax, ay, bx, by) = (col(w, a), row(w, a), col(w, b), row(w, b));
    let start_is_a = match hint {
        StartHint::Topological => true,
        StartHint::TopLeft => ay < by || (ay == by && ax <= bx),
        StartHint::Bottom => ay >= by,
    };
    if start_is_a {
        a
    } else {
        b
    }
}

/// With the top-left hint the start is whichever tip comes first in reading
/// order: on a higher row, or on the same row further left. In a grid `w`
/// cells wide that is the tip with the smaller flat index.
pub proof fn lemma_top_left_tip(w: int, a: int, b: int)
    requires
        w > 0,
        a >= 0,
        b >= 0,
    ensures
        chosen_tip(w, StartHint::TopLeft, a, b) == if a <= b {
            a
        } else {
            b
        },
{
    lemma_fundamental_div_mod(a, w);
    lemma_fundamental_div_mod(b, w);
    lemma_mod_pos_bound(a, w);
    lemma_mod_pos_bound(b, w);
    let (qa, ra, qb, rb) = (a / w, a % w, b / w, b % w);
    if qa < qb {
        assert(a < b) by (nonlinear_arith)
            requires
                a == w * qa + ra,
                b == w * qb + rb,
                0 <= ra < w,
                0 <= rb < w,
                qa < qb,
        ;
    } else if qb < qa {
        assert(b < a) by (nonlinear_arith)
            requires
                a == w * qa + ra,
                b == w * qb + rb,
                0 <= ra < w,
                0 <= rb < w,
                qb < qa,
        ;
    }
}

/// With the bottom hint the start is a tip on the lowest row of the two (the
/// first tip when both share a row); with the topological hint it is always
/// the first tip, the far end of the sweep from the seed.
pub proof fn lemma_bottom_and_topological_tips(w: int, a: int, b: int)
    requires
        w > 0,
    ensures
        chosen_tip(w, StartHint::Bottom, a, b) == a || chosen_tip(w, StartHint::Bottom, a, b) == b,
        row(w, chosen_tip(w, StartHint::Bottom, a, b)) >= row(w, a),
        row(w, chosen_tip(w, StartHint::Bottom, a, b)) >= row(w, b),
        row(w, a) == row(w, b) ==> chosen_tip(w, StartHint::Bottom, a, b) == a,
        chosen_tip(w, StartHint::Topological, a, b) == a,
{
}

/// A traced piece: geodesic distance from the chosen start tip to every cell
/// it reaches, and the piece's diameter (the greatest such distance).
pub struct Trace {
    pub dist: Vec<Option<u32>>,
    pub diameter: u32,
    /// The tip the distances are measured from.
    pub start: Ghost<int>,
    /// The two ends the double sweep found.
    pub tips: Ghost<(int, int)>,
}

/// `t` traces the piece of `seed`: `a` is where a breadth-first search from
/// `seed` ends up (the first cell it visits at the greatest distance), `b`
/// where one from `a` ends up, the distances are measured from the tip the
/// hint picks, and the diameter is the greatest of them.
pub open spec fn is_trace(mask: Seq<bool>, w: int, h: int, r: int, seed: int, hint: StartHint, t: Trace) -> bool {
    let (a, b) = t.tips@;
    let s = t.start@;
    &&& is_search_far(mask, w, h, r, seed, a)
    &&& is_search_far(mask, w, h, r, a, b)
    &&& s == chosen_tip(w, hint, a, b)
    &&& t.dist.len() == mask.len()
    &&& forall|v: int|
        0 <= v < mask.len() ==> (#[trigger] t.dist@[v] is Some <==> connected(mask, w, h, r, s, v))
    &&& forall|v: int|
        0 <= v < mask.len() && #[trigger] t.dist@[v] is Some ==> t.dist@[v]->0 == distance(
            mask,
            w,
            h,
            r,
            s,
            v,
        )
    &&& forall|v: int|
        0 <= v < mask.len() && #[trigger] t.dist@[v] is Some ==> t.dist@[v]->0 <= t.diameter
    &&& exists|v: int| 0 <= v < mask.len() && #[trigger] t.dist@[v] == Some(t.diameter)
}

/// A top-left trace measures every distance from the tip that comes first in
/// reading order, which is therefore at distance zero: a vertical stroke is
/// traced from its top cell, a horizontal one from its left end.
pub proof fn lemma_top_left_trace(mask: Seq<bool>, w: int, h: int, r: int, seed: int, t: Trace)
    requires
        is_trace(mask, w, h, r, seed, StartHint::TopLeft, t),
        w > 0,
    ensures
        t.start@ == if t.tips@.0 <= t.tips@.1 {
            t.tips@.0
        } else {
            t.tips@.1
        },
        0 <= t.start@ < mask.len(),
        t.dist@[t.start@] == Some(0u32),
{
    let (a, b) = t.tips@;
    let ka = choose|k: nat| crate::grid::reach(mask, w, h, r, seed, a, k);
    crate::grid::lemma_reach_in_mask(mask, w, h, r, seed, a, ka);
    let kb = choose|k: nat| crate::grid::reach(mask, w, h, r, a, b, k);
    crate::grid::lemma_reach_in_mask(mask, w, h, r, a, b, kb);
    lemma_top_left_tip(w, a, b);
    let s = t.start@;
    let p = seq![s];
    assert(crate::grid::is_walk(mask, w, h, r, p));
    assert(crate::grid::reach(mask, w, h, r, s, s, 0));
    assert(connected(mask, w, h, r, s, s));
    assert(shortest(mask, w, h, r, s, s, 0));
    assert(t.dist@[s] is Some);
    lemma_distance(mask, w, h, r, s, s, 0);
}


/// the hint picks, the distances and the diameter are all determined.
pub proof fn lemma_trace_unique(
    mask: Seq<bool>,
    w: int,
    h: int,
    r: int,
    seed: int,
    hint: StartHint,
    t1: Trace,
    t2: Trace,
)
    requires
        is_trace(mask, w, h, r, seed, hint, t1),
        is_trace(mask, w, h, r, seed, hint, t2),
    ensures
        t1.tips@ == t2.tips@,
        t1.start@ == t2.start@,
        t1.dist@ == t2.dist@,
        t1.diameter == t2.diameter,
{
    let (a1, b1) = t1.tips@;
    let (a2, b2) = t2.tips@;
    lemma_search_far_unique(mask, w, h, r, seed, a1, a2);
    lemma_search_far_unique(mask, w, h, r, a1, b1, b2);
    assert(t1.dist@ =~= t2.dist@) by {
        assert forall|v: int| 0 <= v < t1.dist@.len() implies t1.dist@[v] == t2.dist@[v] by {
            if t1.dist@[v] is Some {
                assert(t2.dist@[v] is Some);
            }
        }
    }
    let v1 = choose|v: int| 0 <= v < mask.len() && #[trigger] t1.dist@[v] == Some(t1.diameter);
    let v2 = choose|v: int| 0 <= v < mask.len() && #[trigger] t2.dist@[v] == Some(t2.diameter);
    assert(t2.dist@[v1] is Some);
    assert(t1.dist@[v2] is Some);
}

/// What one breadth-first sweep establishes about its far cell.
proof fn lemma_sweep_far(
    mask: Seq<bool>,
    w: int,
    h: int,
    r: int,
    s: int,
    dist: Seq<Option<u32>>,
    far: int,
)
    requires
        dist.len() == mask.len(),
        forall|v: int| 0 <= v < mask.len() ==> (dist[v] is Some <==> connected(mask, w, h, r, s, v)),
        forall|v: int|
            0 <= v < mask.len() && dist[v] is Some ==> shortest(mask, w, h, r, s, v, dist[v]->0 as nat),
        0 <= far < mask.len(),
        dist[far] is Some,
        forall|v: int| 0 <= v < mask.len() && #[trigger] dist[v] is Some ==> dist[v]->0 <= dist[far]->0,
        ({
            let q = crate::grid::search_order(mask, w, h, r, s);
            &&& forall|j: int| 0 <= j < q.len() ==> 0 <= q[j] < mask.len() && #[trigger] dist[q[j]] is Some
            &&& exists|i: int|
                0 <= i < q.len() && q[i] == far && forall|j: int| 0 <= j < i ==> dist[q[j]]->0 < dist[far]->0
        }),
    ensures
        is_search_far(mask, w, h, r, s, far),
        forall|v: int|
            0 <= v < mask.len() && #[trigger] dist[v] is Some ==> dist[v]->0 == distance(mask, w, h, r, s, v),
        mask[far],
{
    assert forall|v: int| 0 <= v < mask.len() && #[trigger] dist[v] is Some implies dist[v]->0
        == distance(mask, w, h, r, s, v) by {
        lemma_distance(mask, w, h, r, s, v, dist[v]->0 as nat);
    }
    assert forall|v: int| #[trigger] connected(mask, w, h, r, s, v) implies distance(
        mask,
        w,
        h,
        r,
        s,
        v,
    ) <= distance(mask, w, h, r, s, far) by {
        let k = choose|k: nat| reach(mask, w, h, r, s, v, k);
        crate::grid::lemma_reach_in_mask(mask, w, h, r, s, v, k);
        assert(dist[v] is Some);
    }
    let k = choose|k: nat| reach(mask, w, h, r, s, far, k);
    crate::grid::lemma_reach_in_mask(mask, w, h, r, s, far, k);
    let q = crate::grid::search_order(mask, w, h, r, s);
    let i = choose|i: int|
        0 <= i < q.len() && q[i] == far && forall|j: int| 0 <= j < i ==> dist[q[j]]->0 < dist[far]->0;
    assert forall|j: int| 0 <= j < i implies distance(mask, w, h, r, s, q[j]) < distance(mask, w, h, r, s, far) by {
        assert(dist[q[j]] is Some);
    }
}

/// Trace the piece containing `seed` tip to tip: a double breadth-first sweep
/// finds the two ends `(a, b)` of a longest geodesic, then `hint` picks which
/// end the distances are measured from.
pub fn trace(mask: &Vec<bool>, w: u16, h: u16, seed: usize, hint: StartHint, bridge: u16) -> (t: Trace)
    requires
        mask.len() == w * h,
        seed < mask.len(),
        mask[seed as int],
    ensures
        is_trace(mask@, w as int, h as int, bridge as int, seed as int, hint, t),
{
    let ghost (gm, gw, gh, gr) = (mask@, w as int, h as int, bridge as int);
    let (d0, far_a) = crate::grid::search(mask, w, h, seed, bridge);
    proof {
        lemma_sweep_far(gm, gw, gh, gr, seed as int, d0@, far_a as int);
    }
    let (dist_a, far_b) = crate::grid::search(mask, w, h, far_a, bridge);
    proof {
        lemma_sweep_far(gm, gw, gh, gr, far_a as int, dist_a@, far_b as int);
    }
    let (dist_b, _) = crate::grid::search(mask, w, h, far_b, bridge);
    proof {
        assert forall|v: int| 0 <= v < mask.len() && #[trigger] dist_b@[v] is Some implies dist_b@[v]->0
            == distance(gm, gw, gh, gr, far_b as int, v) by {
            lemma_distance(gm, gw, gh, gr, far_b as int, v, dist_b@[v]->0 as nat);
        }
        assert(w > 0) by {
            if w == 0 {
                assert(w * h == 0) by (nonlinear_arith)
                    requires
                        w == 0,
                ;
            }
        }
        crate::grid::lemma_coords(gw, gh, far_a as int);
        crate::grid::lemma_coords(gw, gh, far_b as int);
    }
    let wi = w as usize;
    let (ax, ay) = (far_a % wi, far_a / wi);
    let (bx, by) = (far_b % wi, far_b / wi);
    let start_is_a = match hint {
        StartHint::Topological => true,
        StartHint::TopLeft => ay < by || (ay == by && ax <= bx),
        StartHint::Bottom => ay >= by,
    };
    let dist = if start_is_a { dist_a } else { dist_b };
    let ghost start = if start_is_a { far_a as int } else { far_b as int };
    let mut diameter: u32 = 0;
    let mut i: usize = 0;
    while i < dist.len()
        invariant
            i <= dist.len(),
            dist.len() == mask.len(),
            dist@[start] == Some(0u32),
            0 <= start < mask.len(),
            forall|v: int| 0 <= v < i && #[trigger] dist@[v] is Some ==> dist@[v]->0 <= diameter,
            exists|v: int| 0 <= v < mask.len() && #[trigger] dist@[v] == Some(diameter),
        decreases dist.len() - i,
    {
        if let Some(d) = dist[i] {
            if d > diameter {
                diameter = d;
            }
        }
        i += 1;
    }
    Trace { dist, diameter, start: Ghost(start), tips: Ghost((far_a as int, far_b as int)) }
}


// ---------------------------------------------------------------------------
// Zhang-Suen thinning
// ---------------------------------------------------------------------------

/// The cell at signed coordinates `(x, y)` is set; everything outside the
/// grid is clear.
pub open spec fn px(g: Seq<bool>, w: int, h: int, x: int, y: int) -> bool {
    0 <= x < w && 0 <= y < h && g[y * w + x]
}

/// 1 for `true`, 0 for `false`.
pub open spec fn bit(b: bool) -> nat {
    if b {
        1
    } else {
        0
    }
}

/// The Zhang-Suen deletion test for a set cell whose eight neighbours,
/// clockwise from north (p2..p9), are `p0..p7`, in sub-iteration `step`: two
/// to six set neighbours, exactly one clear-to-set transition around the ring,
/// and the step's pair of three-neighbour products both zero.
pub open spec fn zs_deletable(
    step: int,
    p0: bool,
    p1: bool,
    p2: bool,
    p3: bool,
    p4: bool,
    p5: bool,
    p6: bool,
    p7: bool,
) -> bool {
    let count = bit(p0) + bit(p1) + bit(p2) + bit(p3) + bit(p4) + bit(p5) + bit(p6) + bit(p7);
    let transitions = bit(!p0 && p1) + bit(!p1 && p2) + bit(!p2 && p3) + bit(!p3 && p4) + bit(
        !p4 && p5,
    ) + bit(!p5 && p6) + bit(!p6 && p7) + bit(!p7 && p0);
    &&& 2 <= count <= 6
    &&& transitions == 1
    &&& if step == 0 {
        !(p0 && p2 && p4) && !(p2 && p4 && p6)
    } else {
        !(p0 && p2 && p6) && !(p0 && p4 && p6)
    }
}

/// The Zhang-Suen deletion test for cell `(x, y)` of `g`.
pub open spec fn zs_removable(g: Seq<bool>, w: int, h: int, step: int, x: int, y: int) -> bool {
    &&& px(g, w, h, x, y)
    &&& zs_deletable(
        step,
        px(g, w, h, x, y - 1),
        px(g, w, h, x + 1, y - 1),
        px(g, w, h, x + 1, y),
        px(g, w, h, x + 1, y + 1),
        px(g, w, h, x, y + 1),
        px(g, w, h, x - 1, y + 1),
        px(g, w, h, x - 1, y),
        px(g, w, h, x - 1, y - 1),
    )
}

/// One sub-iteration: every removable cell is cleared at once.
pub open spec fn zs_pass(g: Seq<bool>, w: int, h: int, step: int) -> Seq<bool> {
    Seq::new(g.len(), |i: int| g[i] && !zs_removable(g, w, h, step, i % w, i / w))
}

/// One full Zhang-Suen iteration.
pub open spec fn zs_round(g: Seq<bool>, w: int, h: int) -> Seq<bool> {
    zs_pass(zs_pass(g, w, h, 0), w, h, 1)
}

/// Iterate until nothing changes, or `fuel` iterations have run.
pub open spec fn thin(g: Seq<bool>, w: int, h: int, fuel: nat) -> Seq<bool>
    decreases fuel,
{
    if fuel == 0 || zs_round(g, w, h) == g {
        g
    } else {
        thin(zs_round(g, w, h), w, h, (fuel - 1) as nat)
    }
}

/// The Zhang-Suen skeleton: thinning run to its fixpoint (each iteration that
/// changes anything clears a cell, so `len + 1` iterations always suffice).
pub open spec fn skeleton(g: Seq<bool>, w: int, h: int) -> Seq<bool> {
    thin(g, w, h, g.len() + 1)
}

/// A subset has no more set cells; a proper subset has fewer.
proof fn lemma_count_subset(a: Seq<bool>, b: Seq<bool>)
    requires
        a.len() == b.len(),
        forall|i: int| 0 <= i < a.len() && a[i] ==> b[i],
    ensures
        count_true(a) <= count_true(b),
        a != b ==> count_true(a) < count_true(b),
    decreases a.len(),
{
    if a.len() == 0 {
        assert(a =~= b);
    } else {
        let (da, db) = (a.drop_last(), b.drop_last());
        assert forall|i: int| 0 <= i < da.len() && da[i] implies db[i] by {
            assert(da[i] == a[i] && db[i] == b[i]);
        }
        lemma_count_subset(da, db);
        assert(count_true(a) == count_true(da) + bit(a.last()));
        assert(count_true(b) == count_true(db) + bit(b.last()));
        assert(a.last() ==> b.last());
        if a != b {
            if da == db {
                assert(a.last() != b.last()) by {
                    if a.last() == b.last() {
                        assert forall|i: int| 0 <= i < a.len() implies a[i] == b[i] by {
                            if i < a.len() - 1 {
                                assert(a[i] == da[i]);
                                assert(b[i] == db[i]);
                            }
                        }
                        assert(a =~= b);
                    }
                }
            }
        }
    }
}

/// Thinning only ever clears cells.
proof fn lemma_pass_subset(g: Seq<bool>, w: int, h: int, step: int)
    ensures
        zs_pass(g, w, h, step).len() == g.len(),
        forall|i: int| 0 <= i < g.len() && #[trigger] zs_pass(g, w, h, step)[i] ==> g[i],
{
}

/// Once thinning is at its fixpoint, more fuel changes nothing; with enough
/// fuel the result does not depend on how much.
proof fn lemma_thin_fuel(g: Seq<bool>, w: int, h: int, f1: nat, f2: nat)
    requires
        f1 > count_true(g),
        f2 > count_true(g),
    ensures
        thin(g, w, h, f1) == thin(g, w, h, f2),
    decreases f1,
{
    if zs_round(g, w, h) != g {
        let g1 = zs_pass(g, w, h, 0);
        lemma_pass_subset(g, w, h, 0);
        lemma_pass_subset(g1, w, h, 1);
        lemma_count_subset(zs_round(g, w, h), g);
        lemma_thin_fuel(zs_round(g, w, h), w, h, (f1 - 1) as nat, (f2 - 1) as nat);
    }
}

/// The signed-coordinate cell test, in executable form.
fn cell_set(g: &Vec<bool>, w: u16, h: u16, x: i64, y: i64) -> (b: bool)
    requires
        g.len() == w * h,
    ensures
        b == px(g@, w as int, h as int, x as int, y as int),
{
    if x >= 0 && y >= 0 && x < w as i64 && y < h as i64 {
        let i = crate::grid::cell_index(x as usize, y as usize, w, h);
        g[i]
    } else {
        false
    }
}

/// The deletion test on a ring of eight neighbours, in executable form.
fn deletable(step: u8, p0: bool, p1: bool, p2: bool, p3: bool, p4: bool, p5: bool, p6: bool, p7: bool) -> (res: bool)
    ensures
        res == zs_deletable(step as int, p0, p1, p2, p3, p4, p5, p6, p7),
{
    let b0: u8 = if p0 { 1 } else { 0 };
    let b1: u8 = if p1 { 1 } else { 0 };
    let b2: u8 = if p2 { 1 } else { 0 };
    let b3: u8 = if p3 { 1 } else { 0 };
    let b4: u8 = if p4 { 1 } else { 0 };
    let b5: u8 = if p5 { 1 } else { 0 };
    let b6: u8 = if p6 { 1 } else { 0 };
    let b7: u8 = if p7 { 1 } else { 0 };
    let b = b0 + b1 + b2 + b3 + b4 + b5 + b6 + b7;
    let t0: u8 = if !p0 && p1 { 1 } else { 0 };
    let t1: u8 = if !p1 && p2 { 1 } else { 0 };
    let t2: u8 = if !p2 && p3 { 1 } else { 0 };
    let t3: u8 = if !p3 && p4 { 1 } else { 0 };
    let t4: u8 = if !p4 && p5 { 1 } else { 0 };
    let t5: u8 = if !p5 && p6 { 1 } else { 0 };
    let t6: u8 = if !p6 && p7 { 1 } else { 0 };
    let t7: u8 = if !p7 && p0 { 1 } else { 0 };
    let a = t0 + t1 + t2 + t3 + t4 + t5 + t6 + t7;
    if !(2 <= b && b <= 6) {
        return false;
    }
    if a != 1 {
        return false;
    }
    let (c1, c2) = if step == 0 {
        (p0 && p2 && p4, p2 && p4 && p6)
    } else {
        (p0 && p2 && p6, p0 && p4 && p6)
    };
    !c1 && !c2
}

/// The Zhang-Suen deletion test, in executable form.
fn removable(g: &Vec<bool>, w: u16, h: u16, step: u8, x: i64, y: i64) -> (b: bool)
    requires
        g.len() == w * h,
        0 <= x < w,
        0 <= y < h,
    ensures
        b == zs_removable(g@, w as int, h as int, step as int, x as int, y as int),
{
    if !cell_set(g, w, h, x, y) {
        return false;
    }
    let p0 = cell_set(g, w, h, x, y - 1);
    let p1 = cell_set(g, w, h, x + 1, y - 1);
    let p2 = cell_set(g, w, h, x + 1, y);
    let p3 = cell_set(g, w, h, x + 1, y + 1);
    let p4 = cell_set(g, w, h, x, y + 1);
    let p5 = cell_set(g, w, h, x - 1, y + 1);
    let p6 = cell_set(g, w, h, x - 1, y);
    let p7 = cell_set(g, w, h, x - 1, y - 1);
    deletable(step, p0, p1, p2, p3, p4, p5, p6, p7)
}

/// One Zhang-Suen sub-iteration over the whole grid; also reports whether it
/// cleared anything.
fn thin_pass(g: &Vec<bool>, w: u16, h: u16, step: u8) -> (res: (Vec<bool>, bool))
    requires
        g.len() == w * h,
    ensures
        res.0@ == zs_pass(g@, w as int, h as int, step as int),
        res.1 == (res.0@ != g@),
{
    let ghost target = zs_pass(g@, w as int, h as int, step as int);
    let mut next: Vec<bool> = Vec::new();
    let mut removed = false;
    let mut y: u16 = 0;
    proof {
        if w == 0 {
            assert(w * h == 0) by (nonlinear_arith)
                requires
                    w == 0,
            ;
        }
    }
    while y < h
        invariant
            g.len() == w * h,
            y <= h,
            w > 0 || g.len() == 0,
            next.len() == y * w,
            target.len() == g.len(),
            target == zs_pass(g@, w as int, h as int, step as int),
            forall|i: int| 0 <= i < next.len() ==> next@[i] == target[i],
            removed == (exists|i: int| 0 <= i < next.len() && next@[i] != g@[i]),
        decreases h - y,
    {
        let mut x: u16 = 0;
        while x < w
            invariant
                g.len() == w * h,
                y < h,
                x <= w,
                next.len() == y * w + x,
                target.len() == g.len(),
                target == zs_pass(g@, w as int, h as int, step as int),
            target == zs_pass(g@, w as int, h as int, step as int),
                forall|i: int| 0 <= i < next.len() ==> next@[i] == target[i],
                removed == (exists|i: int| 0 <= i < next.len() && next@[i] != g@[i]),
            decreases w - x,
        {
            let i = crate::grid::cell_index(x as usize, y as usize, w, h);
            let rm = removable(g, w, h, step, x as i64, y as i64);
            let keep = g[i] && !rm;
            proof {
                assert(i == next.len());
                assert(i as int % w as int == x as int);
                assert(i as int / w as int == y as int);
                assert(rm == zs_removable(g@, w as int, h as int, step as int, i as int % w as int, i as int / w as int));
                assert(target == Seq::new(g@.len(), |k: int| g@[k] && !zs_removable(g@, w as int, h as int, step as int, k % (w as int), k / (w as int))));
                assert(target[i as int] == (g@[i as int] && !zs_removable(g@, w as int, h as int, step as int, i as int % w as int, i as int / w as int)));
                assert(target[i as int] == keep);
            }
            let ghost old_next = next@;
            next.push(keep);
            if keep != g[i] {
                removed = true;
            }
            proof {
                if !removed {
                    assert forall|j: int| 0 <= j < next.len() implies next@[j] == g@[j] by {
                        if j < old_next.len() {
                            assert(next@[j] == old_next[j]);
                        }
                    }
                } else {
                    if keep != g[i as int] {
                        assert(next@[i as int] != g@[i as int]);
                    } else {
                        let j = choose|j: int| 0 <= j < old_next.len() && old_next[j] != g@[j];
                        assert(next@[j] == old_next[j]);
                    }
                }
                assert forall|j: int| 0 <= j < next.len() implies next@[j] == target[j] by {
                    if j < old_next.len() {
                        assert(next@[j] == old_next[j]);
                    }
                }
            }
            x += 1;
        }
        proof {
            assert((y + 1) * w == y * w + w) by (nonlinear_arith);
        }
        y += 1;
    }
    proof {
        assert(h * w == w * h) by (nonlinear_arith);
        assert(next.len() == g.len());
        assert(next@ =~= target);
        if !removed {
            assert(next@ =~= g@);
        }
    }
    (next, removed)
}

/// Zhang-Suen thinning: reduce the set cells to a one-cell-wide skeleton, the
/// medial axis. A solid shape collapses to the centerline a pen would trace; a
/// shape that is already a line is left unchanged.
pub fn skeletonize_mask(mask: &Vec<bool>, w: u16, h: u16) -> (g: Vec<bool>)
    requires
        mask.len() == w * h,
    ensures
        g@ == skeleton(mask@, w as int, h as int),
{
    let ghost g0 = mask@;
    let ghost n = mask.len() as nat;
    let mut g: Vec<bool> = Vec::new();
    let mut i: usize = 0;
    while i < mask.len()
        invariant
            i <= mask.len(),
            g.len() == i,
            forall|j: int| 0 <= j < i ==> g@[j] == mask@[j],
        decreases mask.len() - i,
    {
        g.push(mask[i]);
        i += 1;
    }
    proof {
        assert(g@ =~= g0);
        lemma_count_true_bound(g0);
    }
    let ghost mut iters: nat = 0;
    loop
        invariant
            g.len() == w * h,
            mask.len() == w * h,
            g0 == mask@,
            n == g0.len(),
            iters + count_true(g@) <= count_true(g0),
            count_true(g0) <= n,
            thin(g0, w as int, h as int, n + 1) == thin(g@, w as int, h as int, (n + 1 - iters) as nat),
        ensures
            g@ == thin(g0, w as int, h as int, n + 1),
        decreases count_true(g@),
    {
        let (g1, r1) = thin_pass(&g, w, h, 0);
        let (g2, r2) = thin_pass(&g1, w, h, 1);
        proof {
            lemma_pass_subset(g@, w as int, h as int, 0);
            lemma_pass_subset(g1@, w as int, h as int, 1);
            lemma_count_subset(g1@, g@);
            lemma_count_subset(g2@, g1@);
            assert(zs_round(g@, w as int, h as int) == g2@);
            if r1 || r2 {
                assert(g2@ != g@) by {
                    if g2@ == g@ {
                        if r1 {
                            assert(count_true(g1@) < count_true(g@));
                        }
                    }
                }
                lemma_count_subset(g2@, g@);
                assert((n + 1 - iters) as nat > 0);
                assert(thin(g@, w as int, h as int, (n + 1 - iters) as nat) == thin(
                    g2@,
                    w as int,
                    h as int,
                    ((n + 1 - iters) - 1) as nat,
                ));
            } else {
                assert(g2@ == g@);
            }
        }
        let done = !(r1 || r2);
        g = g2;
        if done {
            break;
        }
        proof {
            iters = iters + 1;
        }
    }
    g
}


/// The Zhang-Suen skeleton of the art's ink.
pub fn skeletonize(art: &Art) -> (g: Vec<bool>)
    ensures
        g@ == skeleton(ink_mask_of(*art), art.spec_width() as int, art.spec_height() as int),
        g@.len() == ink_mask_of(*art).len(),
        forall|i: int| 0 <= i < g@.len() && #[trigger] g@[i] ==> ink_mask_of(*art)[i],
        skeleton(g@, art.spec_width() as int, art.spec_height() as int) == g@,
{
    proof {
        lemma_skeleton_within(ink_mask_of(*art), art.spec_width() as int, art.spec_height() as int);
    }
    let mask = ink_mask(art);
    skeletonize_mask(&mask, art.width(), art.height())
}

/// A skeleton is its own skeleton: art whose ink is exactly the skeleton of
/// other art of the same size thins to that same skeleton, so a shape that is
/// already thinned is left unchanged.
pub proof fn lemma_skeletonize_settles(art: Art, thinned: Art)
    requires
        thinned.spec_width() == art.spec_width(),
        thinned.spec_height() == art.spec_height(),
        ink_mask_of(thinned) == skeleton(ink_mask_of(art), art.spec_width() as int, art.spec_height() as int),
    ensures
        skeleton(ink_mask_of(thinned), thinned.spec_width() as int, thinned.spec_height() as int) == ink_mask_of(
            thinned,
        ),
{
    lemma_skeleton_within(ink_mask_of(art), art.spec_width() as int, art.spec_height() as int);
}

// ---------------------------------------------------------------------------
// Counting pieces
// ---------------------------------------------------------------------------

/// Number of `i` in `0..n` with `p(i)`.
pub open spec fn count_where(p: spec_fn(int) -> bool, n: int) -> nat
    decreases n,
{
    if n <= 0 {
        0
    } else {
        count_where(p, n - 1) + if p(n - 1) {
            1nat
        } else {
            0nat
        }
    }
}

/// Number of pieces of `mask`: one per smallest cell.
pub open spec fn piece_count(mask: Seq<bool>, w: int, h: int, r: int) -> nat {
    count_where(|m: int| class_min(mask, w, h, r, m), mask.len() as int)
}

/// A strictly increasing list of exactly the witnesses below `n` has one entry
/// per witness.
proof fn lemma_count_sorted(p: spec_fn(int) -> bool, s: Seq<int>, n: int)
    requires
        n >= 0,
        forall|i: int, j: int| 0 <= i < j < s.len() ==> s[i] < s[j],
        forall|x: int| s.contains(x) <==> (0 <= x < n && p(x)),
    ensures
        s.len() == count_where(p, n),
    decreases n,
{
    if n > 0 {
        if p(n - 1) {
            assert(s.contains(n - 1));
            let k = choose|k: int| 0 <= k < s.len() && s[k] == n - 1;
            assert(k == s.len() - 1) by {
                if k < s.len() - 1 {
                    assert(s.contains(s[k + 1]));
                }
            }
            let t = s.drop_last();
            assert forall|x: int| t.contains(x) <==> (0 <= x < n - 1 && p(x)) by {
                if t.contains(x) {
                    let j = choose|j: int| 0 <= j < t.len() && t[j] == x;
                    assert(s[j] == x);
                    assert(s.contains(x));
                    assert(s[j] < s[k]);
                }
                if 0 <= x < n - 1 && p(x) {
                    assert(s.contains(x));
                    let j = choose|j: int| 0 <= j < s.len() && s[j] == x;
                    assert(j != k);
                    assert(t[j] == x);
                }
            }
            lemma_count_sorted(p, t, n - 1);
            assert(count_where(p, n) == count_where(p, n - 1) + 1);
        } else {
            assert forall|x: int| s.contains(x) <==> (0 <= x < n - 1 && p(x)) by {
                if s.contains(x) {
                    assert(x != n - 1);
                }
            }
            lemma_count_sorted(p, s, n - 1);
            assert(count_where(p, n) == count_where(p, n - 1));
        }
    } else {
        if s.len() > 0 {
            assert(s.contains(s[0]));
        }
    }
}

/// The first cells of a complete piece list are exactly the smallest cells
/// of the pieces.
proof fn lemma_piece_firsts(mask: Seq<bool>, w: int, h: int, r: int, out: Seq<Vec<usize>>)
    requires
        mask.len() <= usize::MAX,
        forall|i: int| 0 <= i < out.len() ==> out[i].len() > 0,
        forall|i: int, k: int|
            0 <= i < out.len() && 0 <= k < out[i].len() ==> #[trigger] out[i][k] < mask.len()
                && out[i][0] <= out[i][k],
        forall|i: int, v: int|
            0 <= i < out.len() && 0 <= v < mask.len() ==> (out[i]@.contains(v as usize) <==> connected(
                mask,
                w,
                h,
                r,
                out[i][0] as int,
                v,
            )),
        forall|v: int|
            0 <= v < mask.len() && mask[v] ==> exists|i: int|
                0 <= i < out.len() && #[trigger] out[i]@.contains(v as usize),
    ensures
        forall|i: int| 0 <= i < out.len() ==> class_min(mask, w, h, r, #[trigger] out[i][0] as int),
        forall|m: int|
            class_min(mask, w, h, r, m) ==> exists|i: int| 0 <= i < out.len() && #[trigger] out[i][0] == m as usize,
{
    assert forall|i: int| 0 <= i < out.len() implies class_min(mask, w, h, r, #[trigger] out[i][0] as int) by {
        assert(out[i]@.contains(out[i][0]));
        assert(out[i][0] < mask.len());
        assert(connected(mask, w, h, r, out[i][0] as int, out[i][0] as int));
        let k = choose|k: nat| reach(mask, w, h, r, out[i][0] as int, out[i][0] as int, k);
        crate::grid::lemma_reach_in_mask(mask, w, h, r, out[i][0] as int, out[i][0] as int, k);
        assert forall|v: int| #[trigger] connected(mask, w, h, r, out[i][0] as int, v) implies out[i][0] <= v by {
            let k2 = choose|k2: nat| reach(mask, w, h, r, out[i][0] as int, v, k2);
            crate::grid::lemma_reach_in_mask(mask, w, h, r, out[i][0] as int, v, k2);
            assert(out[i]@.contains(v as usize));
            let j = choose|j: int| 0 <= j < out[i].len() && out[i][j] == v as usize;
            assert(out[i][0] <= out[i][j]);
        }
    }
    assert forall|m: int| class_min(mask, w, h, r, m) implies exists|i: int|
        0 <= i < out.len() && #[trigger] out[i][0] == m as usize by {
        let j = choose|j: int| 0 <= j < out.len() && #[trigger] out[j]@.contains(m as usize);
        assert(connected(mask, w, h, r, out[j][0] as int, m));
        let k = choose|k: nat| reach(mask, w, h, r, out[j][0] as int, m, k);
        crate::grid::lemma_reach_sym(mask, w, h, r, out[j][0] as int, m, k);
        assert(connected(mask, w, h, r, m, out[j][0] as int));
        let kk = choose|kk: int| 0 <= kk < out[j].len() && out[j][kk] == m as usize;
        assert(out[j][0] <= out[j][kk]);
    }
}

/// Number of pieces of `mask` once walks may step across `bridge` blank cells.
pub fn count_pieces(mask: &Vec<bool>, w: u16, h: u16, bridge: u16) -> (n: usize)
    requires
        mask.len() == w * h,
    ensures
        n == piece_count(mask@, w as int, h as int, bridge as int),
{
    let comps = components(mask, w, h, bridge);
    proof {
        assert(w * h <= 65535 * 65535) by (nonlinear_arith)
            requires
                w <= 65535,
                h <= 65535,
        ;
        let (gm, gw, gh, gr) = (mask@, w as int, h as int, bridge as int);
        lemma_piece_firsts(gm, gw, gh, gr, comps@);
        let firsts = Seq::new(comps.len() as nat, |i: int| comps@[i][0] as int);
        let p = |m: int| class_min(gm, gw, gh, gr, m);
        assert forall|x: int| firsts.contains(x) <==> (0 <= x < mask.len() && p(x)) by {
            if firsts.contains(x) {
                let i = choose|i: int| 0 <= i < firsts.len() && firsts[i] == x;
                assert(class_min(gm, gw, gh, gr, comps@[i][0] as int));
            }
            if 0 <= x < mask.len() && p(x) {
                let i = choose|i: int| 0 <= i < comps.len() && #[trigger] comps@[i][0] == x as usize;
                assert(firsts[i] == x);
            }
        }
        lemma_count_sorted(p, firsts, mask.len() as int);
    }
    comps.len()
}

// ---------------------------------------------------------------------------
// The spine
// ---------------------------------------------------------------------------

/// Trace the largest piece of `mask` tip to tip, bridging only if it is
/// genuinely fragmented. `None` when the mask is empty.
pub fn spine(mask: &Vec<bool>, w: u16, h: u16, hint: StartHint, bridge: u16) -> (res: Option<Trace>)
    requires
        mask.len() == w * h,
    ensures
        res is None <==> count_true(mask@) == 0,
        res matches Some(t) ==> {
            let r = adapted_bridge(mask@, w as int, h as int, bridge as int);
            exists|seed: int|
                is_largest_seed(mask@, w as int, h as int, r, seed) && #[trigger] is_trace(
                    mask@,
                    w as int,
                    h as int,
                    r,
                    seed,
                    hint,
                    t,
                )
        },
{
    let b = adaptive_bridge(mask, w, h, bridge);
    proof {
        lemma_count_true_zero(mask@);
    }
    match largest_component(mask, w, h, b) {
        None => None,
        Some((size, seed)) => {
            proof {
                lemma_largest_facts(mask@, w as int, h as int, b as int, size as nat, seed as int);
            }
            let t = trace(mask, w, h, seed, hint, b);
            proof {
                assert(is_trace(mask@, w as int, h as int, b as int, seed as int, hint, t));
                assert(is_largest_seed(mask@, w as int, h as int, b as int, seed as int));
                let r = adapted_bridge(mask@, w as int, h as int, bridge as int);
                assert(r == b as int);
                assert(exists|sd: int|
                    is_largest_seed(mask@, w as int, h as int, r, sd) && #[trigger] is_trace(
                        mask@,
                        w as int,
                        h as int,
                        r,
                        sd,
                        hint,
                        t,
                    ));
            }
            let res = Some(t);
            proof {
                let r = adapted_bridge(mask@, w as int, h as int, bridge as int);
                assert(res->0 == t);
                assert(exists|sd: int|
                    is_largest_seed(mask@, w as int, h as int, r, sd) && #[trigger] is_trace(
                        mask@,
                        w as int,
                        h as int,
                        r,
                        sd,
                        hint,
                        res->0,
                    ));
            }
            res
        },
    }
}

// ---------------------------------------------------------------------------
// Geodesic diagnostics
// ---------------------------------------------------------------------------

/// Reveal by tracing the art's skeleton.
///
/// The ink is thinned to a one-cell-wide skeleton (Zhang-Suen), each
/// connected piece of it is traced tip to tip by geodesic distance, and the
/// pieces are ordered along the art's dominant axis. The flesh around the
/// skeleton inherits the value of its nearest centerline cell (see
/// [`Geodesic::keys`]).
#[derive(Clone, Copy, Debug)]
pub struct Geodesic {
    /// Which tip of the spine the reveal begins from.
    pub start: StartHint,
    /// The largest gap, in blank cells, the spine may step across. Bridging
    /// only engages when the art is actually fragmented, so it stitches the
    /// separate strokes of hand-drawn ASCII into one body without ever adding
    /// shortcuts to art that was already connected. `0` disables it.
    pub bridge: u16,
}

impl Default for StartHint {
    fn default() -> (s: StartHint)
        ensures
            s == StartHint::TopLeft,
    {
        StartHint::TopLeft
    }
}

impl Default for Geodesic {
    /// Start at the top-left tip and bridge single-cell gaps when the art is
    /// fragmented.
    fn default() -> (g: Geodesic)
        ensures
            g.start == StartHint::TopLeft,
            g.bridge == 1,
    {
        Geodesic::new()
    }
}

impl Geodesic {
    /// Start at the top-left tip and bridge single-cell gaps when the art is
    /// fragmented, which is what most hand-drawn ASCII needs.
    pub fn new() -> (g: Geodesic)
        ensures
            g.start == StartHint::TopLeft,
            g.bridge == 1,
    {
        Geodesic { start: StartHint::TopLeft, bridge: 1 }
    }
}

/// Diagnostics describing how well a piece of art suits geodesic reveal.
#[derive(Clone, Copy, Debug, PartialEq, Eq, Structural)]
pub struct GeodesicReport {
    /// Total ink cells in the art.
    pub ink_cells: usize,
    /// Size of the largest strictly 8-connected component of the ink.
    pub connected_cells: usize,
    /// Cells remaining after thinning, i.e. the length of the drawn centerline.
    pub skeleton_cells: usize,
    /// Separate pieces the skeleton breaks into once bridging has been applied.
    pub pieces: usize,
    /// Longest geodesic through the largest skeleton piece, in cells: the spine
    /// the reveal actually traces.
    pub spine_length: u32,
}

/// What [`Geodesic::diagnose`] reports on `art`, but for the spine length,
/// which the caller pins down against a trace.
pub open spec fn report_matches(g: Geodesic, art: Art, rep: GeodesicReport) -> bool {
    let (w, h) = (art.spec_width() as int, art.spec_height() as int);
    let ink = ink_mask_of(art);
    let skel = skeleton(ink, w, h);
    let b = adapted_bridge(skel, w, h, g.bridge as int);
    if count_true(ink) == 0 {
        rep == GeodesicReport {
            ink_cells: 0,
            connected_cells: 0,
            skeleton_cells: 0,
            pieces: 0,
            spine_length: 0,
        }
    } else {
        &&& rep.ink_cells == count_true(ink)
        &&& rep.connected_cells == largest_size(ink, w, h, 0)
        &&& rep.skeleton_cells == count_true(skel)
        &&& rep.pieces == piece_count(skel, w, h, b)
        &&& (count_true(skel) == 0 ==> rep.spine_length == 0)
        &&& (count_true(skel) > 0 ==> exists|t: Trace, seed: int|
            #![trigger is_trace(skel, w, h, b, seed, g.start, t)]
            is_largest_seed(skel, w, h, b, seed) && is_trace(skel, w, h, b, seed, g.start, t)
                && t.diameter == rep.spine_length)
    }
}

/// The set cells of `mask`, as a set of indices.
spec fn set_cells(mask: Seq<bool>) -> Set<int> {
    Set::new(|v: int| 0 <= v < mask.len() && mask[v])
}

/// There are as many set cells as `count_true` counts.
proof fn lemma_set_cells_len(mask: Seq<bool>)
    ensures
        set_cells(mask).finite(),
        set_cells(mask).len() == count_true(mask),
    decreases mask.len(),
{
    if mask.len() == 0 {
        assert(set_cells(mask) =~= Set::<int>::empty());
    } else {
        let d = mask.drop_last();
        lemma_set_cells_len(d);
        let n = mask.len() - 1;
        if mask.last() {
            assert(set_cells(mask) =~= set_cells(d).insert(n));
        } else {
            assert(set_cells(mask) =~= set_cells(d));
        }
    }
}

/// No piece is larger than the mask's set cells.
proof fn lemma_largest_bounded(mask: Seq<bool>, w: int, h: int, r: int)
    ensures
        largest_size(mask, w, h, r) <= count_true(mask),
{
    if exists|size: nat| is_largest(mask, w, h, r, size) {
        let size = choose|size: nat| is_largest(mask, w, h, r, size);
        let m = choose|m: int| class_min(mask, w, h, r, m) && #[trigger] class_of(mask, w, h, r, m).len() == size;
        assert(class_of(mask, w, h, r, m).subset_of(set_cells(mask))) by {
            assert forall|v: int| class_of(mask, w, h, r, m).contains(v) implies set_cells(mask).contains(v) by {
                let k = choose|k: nat| reach(mask, w, h, r, m, v, k);
                crate::grid::lemma_reach_in_mask(mask, w, h, r, m, v, k);
            }
        }
        lemma_set_cells_len(mask);
        vstd::set_lib::lemma_len_subset(class_of(mask, w, h, r, m), set_cells(mask));
    }
}

/// Counting only set cells, among the first `n`, counts no more than there
/// are.
proof fn lemma_count_where_bounded(p: spec_fn(int) -> bool, mask: Seq<bool>, n: int)
    requires
        0 <= n <= mask.len(),
        forall|i: int| 0 <= i < n && #[trigger] p(i) ==> mask[i],
    ensures
        count_where(p, n) <= count_true(mask.take(n)),
    decreases n,
{
    if n > 0 {
        lemma_count_where_bounded(p, mask, n - 1);
        assert(mask.take(n).drop_last() =~= mask.take(n - 1));
    }
}

/// A mask has no more pieces than set cells: each piece holds its smallest
/// cell.
proof fn lemma_pieces_bounded(mask: Seq<bool>, w: int, h: int, r: int)
    ensures
        piece_count(mask, w, h, r) <= count_true(mask),
{
    let p = |m: int| class_min(mask, w, h, r, m);
    lemma_count_where_bounded(p, mask, mask.len() as int);
    assert(mask.take(mask.len() as int) =~= mask);
}

impl Geodesic {
    /// Inspect the art without building a full reveal order.
    pub fn diagnose(&self, art: &Art) -> (rep: GeodesicReport)
        ensures
            report_matches(*self, *art, rep),
            rep.connected_cells <= rep.ink_cells,
            rep.skeleton_cells <= rep.ink_cells,
            rep.pieces <= rep.skeleton_cells,
    {
        let (w, h) = (art.width(), art.height());
        let ink = ink_mask(art);
        let ink_cells = count_set(&ink);
        if ink_cells == 0 {
            return GeodesicReport {
                ink_cells: 0,
                connected_cells: 0,
                skeleton_cells: 0,
                pieces: 0,
                spine_length: 0,
            };
        }
        let connected_cells = match largest_component(&ink, w, h, 0) {
            Some((size, seed)) => {
                proof {
                    lemma_largest_facts(ink@, w as int, h as int, 0, size as nat, seed as int);
                }
                size
            },
            None => {
                proof {
                    lemma_count_true_zero(ink@);
                }
                0
            },
        };
        let skel = skeletonize_mask(&ink, w, h);
        proof {
            lemma_thin_len(ink@, w as int, h as int, ink@.len() + 1);
        }
        let skeleton_cells = count_set(&skel);
        let bridge = adaptive_bridge(&skel, w, h, self.bridge);
        let pieces = count_pieces(&skel, w, h, bridge);
        let spine_length = match spine(&skel, w, h, self.start, self.bridge) {
            Some(t) => t.diameter,
            None => 0,
        };
        proof {
            let (gw, gh) = (w as int, h as int);
            lemma_largest_bounded(ink@, gw, gh, 0);
            lemma_skeleton_within(ink@, gw, gh);
            lemma_count_subset(skel@, ink@);
            lemma_pieces_bounded(skel@, gw, gh, bridge as int);
        }
        GeodesicReport { ink_cells, connected_cells, skeleton_cells, pieces, spine_length }
    }
}

/// Thinning keeps the grid's size.
proof fn lemma_thin_len(g: Seq<bool>, w: int, h: int, fuel: nat)
    ensures
        thin(g, w, h, fuel).len() == g.len(),
    decreases fuel,
{
    if fuel > 0 && zs_round(g, w, h) != g {
        lemma_thin_len(zs_round(g, w, h), w, h, (fuel - 1) as nat);
    }
}


/// The skeleton has as many cells as the grid it was thinned from.
pub proof fn lemma_skeleton_len(g: Seq<bool>, w: int, h: int)
    ensures
        skeleton(g, w, h).len() == g.len(),
{
    lemma_thin_len(g, w, h, g.len() + 1);
}

/// Thinning with more fuel than set cells only clears cells and stops at a
/// grid that one more round leaves unchanged.
proof fn lemma_thin_settles(g: Seq<bool>, w: int, h: int, fuel: nat)
    requires
        fuel > count_true(g),
    ensures
        thin(g, w, h, fuel).len() == g.len(),
        forall|i: int| 0 <= i < g.len() && #[trigger] thin(g, w, h, fuel)[i] ==> g[i],
        zs_round(thin(g, w, h, fuel), w, h) == thin(g, w, h, fuel),
    decreases fuel,
{
    let r = zs_round(g, w, h);
    if r != g {
        let g1 = zs_pass(g, w, h, 0);
        lemma_pass_subset(g, w, h, 0);
        lemma_pass_subset(g1, w, h, 1);
        lemma_count_subset(r, g);
        lemma_thin_settles(r, w, h, (fuel - 1) as nat);
        assert forall|i: int| 0 <= i < g.len() && #[trigger] thin(g, w, h, fuel)[i] implies g[i] by {
            assert(thin(g, w, h, fuel) == thin(r, w, h, (fuel - 1) as nat));
            assert(r[i] ==> g1[i]);
        }
    }
}

/// The skeleton lies within the ink it was thinned from, is a fixpoint of
/// thinning, and so skeletonizing a skeleton gives it back unchanged.
pub proof fn lemma_skeleton_within(g: Seq<bool>, w: int, h: int)
    ensures
        skeleton(g, w, h).len() == g.len(),
        forall|i: int| 0 <= i < g.len() && #[trigger] skeleton(g, w, h)[i] ==> g[i],
        zs_round(skeleton(g, w, h), w, h) == skeleton(g, w, h),
        skeleton(skeleton(g, w, h), w, h) == skeleton(g, w, h),
{
    lemma_count_true_bound(g);
    lemma_thin_settles(g, w, h, g.len() + 1);
    let s = skeleton(g, w, h);
    assert(thin(s, w, h, s.len() + 1) == s);
}

// ---------------------------------------------------------------------------
// Ordering the pieces of the skeleton
// ---------------------------------------------------------------------------

/// True when the art reads as wide rather than tall, correcting for terminal
/// cells being roughly twice as tall as they are wide.
pub open spec fn wide(w: int, h: int) -> bool {
    w > 2 * h
}

/// True when the art reads as wide rather than tall.
pub fn is_wide(w: u16, h: u16) -> (b: bool)
    ensures
        b == wide(w as int, h as int),
{
    w as u32 > 2 * h as u32
}

/// The coordinate pieces are ordered along: the column for wide art, the row
/// otherwise.
pub open spec fn axis(w: int, horizontal: bool, i: int) -> int {
    if horizontal {
        col(w, i)
    } else {
        row(w, i)
    }
}

/// `l` is the leading edge of the piece of `m`: the smallest axis coordinate
/// among its cells.
pub open spec fn is_lead(mask: Seq<bool>, w: int, h: int, r: int, horizontal: bool, m: int, l: int) -> bool {
    &&& exists|v: int| #[trigger] connected(mask, w, h, r, m, v) && axis(w, horizontal, v) == l
    &&& forall|v: int| #[trigger] connected(mask, w, h, r, m, v) ==> l <= axis(w, horizontal, v)
}

/// The leading edge of the piece of `m`.
pub open spec fn lead_of(mask: Seq<bool>, w: int, h: int, r: int, horizontal: bool, m: int) -> int {
    choose|l: int| is_lead(mask, w, h, r, horizontal, m, l)
}

/// The place of the piece whose smallest cell is `m` once the pieces are
/// ordered by leading edge, ties kept in order of their smallest cell.
pub open spec fn piece_rank(mask: Seq<bool>, w: int, h: int, r: int, horizontal: bool, m: int) -> nat {
    count_where(
        |m2: int|
            class_min(mask, w, h, r, m2) && (lead_of(mask, w, h, r, horizontal, m2) < lead_of(
                mask,
                w,
                h,
                r,
                horizontal,
                m,
            ) || (lead_of(mask, w, h, r, horizontal, m2) == lead_of(mask, w, h, r, horizontal, m)
                && m2 < m)),
        mask.len() as int,
    )
}

/// Where a skeleton cell falls in the reveal: its piece's place, and its
/// distance along the piece's trace out of the trace's span.
#[derive(Clone, Copy, Debug, PartialEq, Eq, Structural)]
pub struct SkeletonValue {
    /// The piece's place in reading order along the dominant axis.
    pub piece: usize,
    /// Geodesic distance from the piece's start tip.
    pub dist: u32,
    /// The piece's diameter, at least 1.
    pub span: u32,
}

/// `2^55`. Every single-precision value a skeleton value turns into is a whole
/// number of `2^-55`ths: a nonzero quotient `dist / span` of 32-bit counts is
/// at least `2^-32`, so its last significand bit is worth at least `2^-55`.
pub const KEY_SCALE: u128 = 0x80_0000_0000_0000;

/// The skeleton value as single precision computes `piece + dist / span`, in
/// units of `2^-55`: each count rounded to `f32`, their quotient rounded, and
/// the sum rounded.
pub open spec fn single_value(v: SkeletonValue) -> nat {
    let frac = round_ratio(round_single(v.dist as nat) * KEY_SCALE as nat, round_single(v.span as nat));
    round_single(round_single(v.piece as nat) * KEY_SCALE as nat + frac)
}

/// Executable [`single_value`].
pub fn single_value_of(v: SkeletonValue) -> (r: u128)
    requires
        v.span >= 1,
    ensures
        r == single_value(v),
{
    proof {
        lemma_round_single_bound(v.dist as nat);
        lemma_round_single_bound(v.span as nat);
        lemma_round_single_bound(v.piece as nat);
    }
    let d = round_to_single(v.dist as u128);
    let sp = round_to_single(v.span as u128);
    proof {
        assert(KEY_SCALE == 0x80_0000_0000_0000);
        assert(d < 0x2_0000_0000);
        assert(1 <= sp <= 0x2_0000_0000);
        vstd::arithmetic::mul::lemma_mul_strict_inequality(d as int, 0x2_0000_0000int, 0x80_0000_0000_0000int);
    }
    let frac = round_ratio_exec(d * KEY_SCALE, sp);
    let pc = round_to_single(v.piece as u128);
    proof {
        assert(pc <= 0x2_0000_0000_0000_0000);
        vstd::arithmetic::mul::lemma_mul_inequality(pc as int, 0x2_0000_0000_0000_0000int, 0x80_0000_0000_0000int);
    }
    round_to_single(pc * KEY_SCALE + frac)
}

proof fn lemma_lead_unique(mask: Seq<bool>, w: int, h: int, r: int, horizontal: bool, m: int, l: int)
    requires
        is_lead(mask, w, h, r, horizontal, m, l),
    ensures
        lead_of(mask, w, h, r, horizontal, m) == l,
{
    let l2 = lead_of(mask, w, h, r, horizontal, m);
    assert(is_lead(mask, w, h, r, horizontal, m, l2));
    let v1 = choose|v: int| #[trigger] connected(mask, w, h, r, m, v) && axis(w, horizontal, v) == l;
    let v2 = choose|v: int| #[trigger] connected(mask, w, h, r, m, v) && axis(w, horizontal, v) == l2;
}

/// Count of the entries of `s` that satisfy `q`.
pub open spec fn count_in(s: Seq<int>, q: spec_fn(int) -> bool) -> nat
    decreases s.len(),
{
    if s.len() == 0 {
        0
    } else {
        count_in(s.drop_last(), q) + if q(s.last()) {
            1nat
        } else {
            0nat
        }
    }
}

/// Counting a filter over a sorted list of exactly the witnesses of `p`.
proof fn lemma_count_in_sorted(p: spec_fn(int) -> bool, q: spec_fn(int) -> bool, s: Seq<int>, n: int)
    requires
        n >= 0,
        forall|i: int, j: int| 0 <= i < j < s.len() ==> s[i] < s[j],
        forall|x: int| s.contains(x) <==> (0 <= x < n && p(x)),
    ensures
        count_in(s, q) == count_where(|x: int| p(x) && q(x), n),
    decreases n,
{
    let pq = |x: int| p(x) && q(x);
    if n > 0 {
        if p(n - 1) {
            assert(s.contains(n - 1));
            let k = choose|k: int| 0 <= k < s.len() && s[k] == n - 1;
            assert(k == s.len() - 1) by {
                if k < s.len() - 1 {
                    assert(s.contains(s[k + 1]));
                }
            }
            let t = s.drop_last();
            assert forall|x: int| t.contains(x) <==> (0 <= x < n - 1 && p(x)) by {
                if t.contains(x) {
                    let j = choose|j: int| 0 <= j < t.len() && t[j] == x;
                    assert(s[j] == x);
                    assert(s.contains(x));
                    assert(s[j] < s[k]);
                }
                if 0 <= x < n - 1 && p(x) {
                    assert(s.contains(x));
                    let j = choose|j: int| 0 <= j < s.len() && s[j] == x;
                    assert(j != k);
                    assert(t[j] == x);
                }
            }
            lemma_count_in_sorted(p, q, t, n - 1);
            assert(count_where(pq, n) == count_where(pq, n - 1) + if pq(n - 1) { 1nat } else { 0nat });
        } else {
            assert forall|x: int| s.contains(x) <==> (0 <= x < n - 1 && p(x)) by {
                if s.contains(x) {
                    assert(x != n - 1);
                }
            }
            lemma_count_in_sorted(p, q, s, n - 1);
            assert(count_where(pq, n) == count_where(pq, n - 1));
        }
    } else {
        if s.len() > 0 {
            assert(s.contains(s[0]));
        }
    }
}

/// The smallest axis coordinate over a list of cells.
fn lead_of_cells(cells: &Vec<usize>, w: u16, horizontal: bool) -> (l: u16)
    requires
        cells.len() > 0,
        w > 0,
        forall|k: int| 0 <= k < cells.len() ==> cells[k] < 65536 * w,
    ensures
        exists|k: int| 0 <= k < cells.len() && axis(w as int, horizontal, cells[k] as int) == l,
        forall|k: int| 0 <= k < cells.len() ==> l <= axis(w as int, horizontal, #[trigger] cells[k] as int),
{
    let wi = w as usize;
    let mut best: u16 = 0;
    let mut i: usize = 0;
    while i < cells.len()
        invariant
            w > 0,
            wi == w,
            i <= cells.len(),
            forall|k: int| 0 <= k < cells.len() ==> cells[k] < 65536 * w,
            i > 0 ==> exists|k: int| 0 <= k < i && axis(w as int, horizontal, cells[k] as int) == best,
            forall|k: int| 0 <= k < i ==> best <= axis(w as int, horizontal, #[trigger] cells[k] as int),
        decreases cells.len() - i,
    {
        let c = cells[i];
        proof {
            vstd::arithmetic::div_mod::lemma_div_pos_is_pos(c as int, w as int);
            vstd::arithmetic::div_mod::lemma_mod_pos_bound(c as int, w as int);
            assert(c as int / w as int <= 65535) by {
                vstd::arithmetic::div_mod::lemma_div_is_ordered(c as int, 65536 * w - 1, w as int);
                assert((65536 * w - 1) / (w as int) < 65536) by {
                    vstd::arithmetic::div_mod::lemma_div_by_multiple_is_strongly_ordered(65536 * w - 1, 65536 * w, 65536, w as int);
                    vstd::arithmetic::div_mod::lemma_div_multiples_vanish(65536, w as int);
                }
            }
        }
        let a: u16 = if horizontal { (c % wi) as u16 } else { (c / wi) as u16 };
        if i == 0 || a < best {
            best = a;
        }
        i += 1;
    }
    best
}

/// The leading edge of every piece along the axis.
fn piece_leads(
    skel: &Vec<bool>,
    w: u16,
    h: u16,
    Ghost(r): Ghost<int>,
    horizontal: bool,
    comps: &Vec<Vec<usize>>,
) -> (leads: Vec<u16>)
    requires
        skel.len() == w * h,
        forall|j: int| 0 <= j < comps.len() ==> comps[j].len() > 0,
        forall|j: int, k: int|
            0 <= j < comps.len() && 0 <= k < comps[j].len() ==> #[trigger] comps[j][k] < skel.len(),
        forall|j: int, v: int|
            0 <= j < comps.len() && 0 <= v < skel.len() ==> (comps[j]@.contains(v as usize) <==> connected(
                skel@,
                w as int,
                h as int,
                r,
                comps[j][0] as int,
                v,
            )),
    ensures
        leads.len() == comps.len(),
        forall|j: int|
            0 <= j < comps.len() ==> is_lead(
                skel@,
                w as int,
                h as int,
                r,
                horizontal,
                comps[j][0] as int,
                #[trigger] leads@[j] as int,
            ),
{
    let ghost (gm, gw, gh) = (skel@, w as int, h as int);
    let n = skel.len();
    proof {
        assert(w * h <= 65536 * w) by (nonlinear_arith)
            requires
                h <= 65535,
        ;
    }
    let mut leads: Vec<u16> = Vec::new();
    let mut i: usize = 0;
    while i < comps.len()
        invariant
            gm == skel@,
            gw == w,
            gh == h,
            n == skel.len(),
            n == w * h,
            n <= 65536 * w,
            i <= comps.len(),
            leads.len() == i,
            forall|j: int| 0 <= j < comps.len() ==> comps[j].len() > 0,
            forall|j: int, k: int| 0 <= j < comps.len() && 0 <= k < comps[j].len() ==> #[trigger] comps[j][k] < n,
            forall|j: int, v: int|
                0 <= j < comps.len() && 0 <= v < n ==> (comps[j]@.contains(v as usize) <==> connected(
                    gm,
                    gw,
                    gh,
                    r,
                    comps[j][0] as int,
                    v,
                )),
            forall|j: int|
                0 <= j < i ==> is_lead(gm, gw, gh, r, horizontal, comps[j][0] as int, #[trigger] leads@[j] as int),
        decreases comps.len() - i,
    {
        proof {
            assert(w > 0) by {
                assert(comps[i as int][0] < n);
            }
            assert forall|k: int| 0 <= k < comps[i as int].len() implies comps[i as int][k] < 65536 * w by {
                assert(comps[i as int][k] < n);
            }
        }
        let l = lead_of_cells(&comps[i], w, horizontal);
        proof {
            let c = comps[i as int];
            let m = c[0] as int;
            assert forall|v: int| #[trigger] connected(gm, gw, gh, r, m, v) implies l <= axis(gw, horizontal, v) by {
                let k = choose|k: nat| reach(gm, gw, gh, r, m, v, k);
                crate::grid::lemma_reach_in_mask(gm, gw, gh, r, m, v, k);
                assert(c@.contains(v as usize));
                let kk = choose|kk: int| 0 <= kk < c.len() && c[kk] == v as usize;
                assert(l <= axis(gw, horizontal, c[kk] as int));
            }
            let kk = choose|kk: int| 0 <= kk < c.len() && axis(gw, horizontal, c[kk] as int) == l;
            assert(c[kk] < n);
            assert(c@.contains(c[kk]));
            assert(connected(gm, gw, gh, r, m, c[kk] as int));
        }
        leads.push(l);
        i += 1;
    }
    leads
}

/// `x` is the value the trace of `v`'s piece gives it: some piece's smallest
/// cell `m` reaches `v`, `traces` holds a trace of that piece, and `x` records
/// the piece's place, `v`'s distance along the trace and the trace's span.
pub open spec fn valued(
    gm: Seq<bool>,
    gw: int,
    gh: int,
    r: int,
    hint: StartHint,
    traces: Map<int, Trace>,
    v: int,
    x: Option<SkeletonValue>,
) -> bool {
    exists|m: int|
        #![trigger traces[m]]
        class_min(gm, gw, gh, r, m) && connected(gm, gw, gh, r, m, v) && traces.dom().contains(m)
            && is_trace(gm, gw, gh, r, m, hint, traces[m]) && x == Some(
            SkeletonValue {
                piece: piece_rank(gm, gw, gh, r, wide(gw, gh), m) as usize,
                dist: traces[m].dist@[v]->0,
                span: if traces[m].diameter == 0 {
                    1
                } else {
                    traces[m].diameter
                },
            },
        )
}

/// A skeleton cell's value does not depend on which traces were taken: every
/// trace of a piece is the same trace.
pub proof fn lemma_valued_unique(
    gm: Seq<bool>,
    gw: int,
    gh: int,
    r: int,
    hint: StartHint,
    traces1: Map<int, Trace>,
    traces2: Map<int, Trace>,
    v: int,
    x1: Option<SkeletonValue>,
    x2: Option<SkeletonValue>,
)
    requires
        valued(gm, gw, gh, r, hint, traces1, v, x1),
        valued(gm, gw, gh, r, hint, traces2, v, x2),
    ensures
        x1 == x2,
{
    let m1 = choose|m: int|
        #![trigger traces1[m]]
        class_min(gm, gw, gh, r, m) && connected(gm, gw, gh, r, m, v) && traces1.dom().contains(m) && is_trace(
            gm,
            gw,
            gh,
            r,
            m,
            hint,
            traces1[m],
        ) && x1 == Some(
            SkeletonValue {
                piece: piece_rank(gm, gw, gh, r, wide(gw, gh), m) as usize,
                dist: traces1[m].dist@[v]->0,
                span: if traces1[m].diameter == 0 {
                    1
                } else {
                    traces1[m].diameter
                },
            },
        );
    let m2 = choose|m: int|
        #![trigger traces2[m]]
        class_min(gm, gw, gh, r, m) && connected(gm, gw, gh, r, m, v) && traces2.dom().contains(m) && is_trace(
            gm,
            gw,
            gh,
            r,
            m,
            hint,
            traces2[m],
        ) && x2 == Some(
            SkeletonValue {
                piece: piece_rank(gm, gw, gh, r, wide(gw, gh), m) as usize,
                dist: traces2[m].dist@[v]->0,
                span: if traces2[m].diameter == 0 {
                    1
                } else {
                    traces2[m].diameter
                },
            },
        );
    lemma_connected_sym(gm, gw, gh, r, m2, v);
    lemma_connected_trans(gm, gw, gh, r, m1, v, m2);
    lemma_connected_sym(gm, gw, gh, r, m1, m2);
    assert(m1 <= m2 && m2 <= m1);
    lemma_trace_unique(gm, gw, gh, r, m1, hint, traces1[m1], traces2[m1]);
}

/// A trace of a piece reaches every cell of that piece.
proof fn lemma_trace_covers(gm: Seq<bool>, gw: int, gh: int, r: int, seed: int, hint: StartHint, t: Trace, v: int)
    requires
        is_trace(gm, gw, gh, r, seed, hint, t),
        connected(gm, gw, gh, r, seed, v),
        0 <= v < gm.len(),
    ensures
        t.dist@[v] is Some,
{
    let (ta, tb) = t.tips@;
    let st = t.start@;
    assert(connected(gm, gw, gh, r, seed, ta));
    assert(connected(gm, gw, gh, r, ta, tb));
    lemma_connected_trans(gm, gw, gh, r, seed, ta, tb);
    lemma_connected_sym(gm, gw, gh, r, seed, st);
    lemma_connected_trans(gm, gw, gh, r, st, seed, v);
}

/// Pieces `0..i` have been recorded: exactly their cells hold values, each
/// accounted for by a recorded trace, and every recorded key lies below the
/// smallest cell of piece `i`.
#[verifier::opaque]
spec fn filled(
    gm: Seq<bool>,
    gw: int,
    gh: int,
    r: int,
    hint: StartHint,
    comps: Seq<Vec<usize>>,
    i: int,
    traces: Map<int, Trace>,
    value: Seq<Option<SkeletonValue>>,
) -> bool {
    &&& forall|m: int| #[trigger] traces.dom().contains(m) && i < comps.len() ==> m < comps[i][0]
    &&& forall|v: int| 0 <= v < gm.len() ==> (#[trigger] value[v] is Some ==> gm[v])
    &&& forall|v: int|
        0 <= v < gm.len() && gm[v] ==> (#[trigger] value[v] is Some <==> exists|j: int|
            0 <= j < i && #[trigger] comps[j]@.contains(v as usize))
    &&& forall|v: int|
        0 <= v < gm.len() && #[trigger] value[v] is Some ==> valued(gm, gw, gh, r, hint, traces, v, value[v])
}

/// Recording piece `i` with its trace `t` extends what has been recorded.
proof fn lemma_filled_step(
    gm: Seq<bool>,
    gw: int,
    gh: int,
    r: int,
    hint: StartHint,
    comps: Seq<Vec<usize>>,
    i: int,
    traces: Map<int, Trace>,
    value: Seq<Option<SkeletonValue>>,
    t: Trace,
    next: Seq<Option<SkeletonValue>>,
)
    requires
        filled(gm, gw, gh, r, hint, comps, i, traces, value),
        0 <= i < comps.len(),
        comps[i].len() > 0,
        value.len() == gm.len(),
        next.len() == gm.len(),
        forall|j: int, k: int| 0 <= j < k < comps.len() ==> comps[j][0] < comps[k][0],
        class_min(gm, gw, gh, r, comps[i][0] as int),
        is_trace(gm, gw, gh, r, comps[i][0] as int, hint, t),
        forall|v: int|
            0 <= v < gm.len() ==> (comps[i]@.contains(v as usize) <==> connected(
                gm,
                gw,
                gh,
                r,
                comps[i][0] as int,
                v,
            )),
        forall|v: int|
            0 <= v < gm.len() ==> #[trigger] next[v] == if comps[i]@.contains(v as usize) {
                Some(
                    SkeletonValue {
                        piece: piece_rank(gm, gw, gh, r, wide(gw, gh), comps[i][0] as int) as usize,
                        dist: t.dist@[v]->0,
                        span: if t.diameter == 0 {
                            1
                        } else {
                            t.diameter
                        },
                    },
                )
            } else {
                value[v]
            },
    ensures
        filled(gm, gw, gh, r, hint, comps, i + 1, traces.insert(comps[i][0] as int, t), next),
{
    reveal(filled);
    let seed = comps[i][0] as int;
    let nt = traces.insert(seed, t);
    let c = comps[i];
    assert forall|v: int| 0 <= v < gm.len() && #[trigger] next[v] is Some implies valued(
        gm,
        gw,
        gh,
        r,
        hint,
        nt,
        v,
        next[v],
    ) by {
        if c@.contains(v as usize) {
            lemma_valued_new(gm, gw, gh, r, hint, traces, seed, t, v, next[v]);
        } else {
            assert(value[v] is Some);
            lemma_valued_insert(gm, gw, gh, r, hint, traces, seed, t, v, value[v]);
        }
    }
    assert forall|v: int| 0 <= v < gm.len() && #[trigger] next[v] is Some implies gm[v] by {
        if c@.contains(v as usize) {
            assert(connected(gm, gw, gh, r, seed, v));
            let k = choose|k: nat| reach(gm, gw, gh, r, seed, v, k);
            crate::grid::lemma_reach_in_mask(gm, gw, gh, r, seed, v, k);
        }
    }
    assert forall|v: int| 0 <= v < gm.len() && gm[v] implies (#[trigger] next[v] is Some <==> exists|j: int|
        0 <= j < i + 1 && #[trigger] comps[j]@.contains(v as usize)) by {
        if exists|j: int| 0 <= j < i + 1 && #[trigger] comps[j]@.contains(v as usize) {
            let j = choose|j: int| 0 <= j < i + 1 && #[trigger] comps[j]@.contains(v as usize);
            if j < i {
                assert(value[v] is Some);
            }
        }
        if next[v] is Some && !c@.contains(v as usize) {
            assert(value[v] is Some);
        }
    }
    assert forall|m: int| #[trigger] nt.dom().contains(m) && i + 1 < comps.len() implies m < comps[i + 1][0] by {
        assert(comps[i][0] < comps[i + 1][0]);
    }
}

/// A freshly recorded trace accounts for the cells of its own piece.
proof fn lemma_valued_new(
    gm: Seq<bool>,
    gw: int,
    gh: int,
    r: int,
    hint: StartHint,
    traces: Map<int, Trace>,
    seed: int,
    t: Trace,
    v: int,
    x: Option<SkeletonValue>,
)
    requires
        class_min(gm, gw, gh, r, seed),
        connected(gm, gw, gh, r, seed, v),
        is_trace(gm, gw, gh, r, seed, hint, t),
        x == Some(
            SkeletonValue {
                piece: piece_rank(gm, gw, gh, r, wide(gw, gh), seed) as usize,
                dist: t.dist@[v]->0,
                span: if t.diameter == 0 {
                    1
                } else {
                    t.diameter
                },
            },
        ),
    ensures
        valued(gm, gw, gh, r, hint, traces.insert(seed, t), v, x),
{
    assert(traces.insert(seed, t)[seed] == t);
}

/// Recording a trace under a key above every recorded one keeps each value
/// that was already accounted for.
proof fn lemma_valued_insert(
    gm: Seq<bool>,
    gw: int,
    gh: int,
    r: int,
    hint: StartHint,
    traces: Map<int, Trace>,
    seed: int,
    t: Trace,
    v: int,
    x: Option<SkeletonValue>,
)
    requires
        valued(gm, gw, gh, r, hint, traces, v, x),
        forall|m: int| #[trigger] traces.dom().contains(m) ==> m < seed,
    ensures
        valued(gm, gw, gh, r, hint, traces.insert(seed, t), v, x),
{
    let m = choose|m: int|
        #![trigger traces[m]]
        class_min(gm, gw, gh, r, m) && connected(gm, gw, gh, r, m, v) && traces.dom().contains(m)
            && is_trace(gm, gw, gh, r, m, hint, traces[m]) && x == Some(
            SkeletonValue {
                piece: piece_rank(gm, gw, gh, r, wide(gw, gh), m) as usize,
                dist: traces[m].dist@[v]->0,
                span: if traces[m].diameter == 0 {
                    1
                } else {
                    traces[m].diameter
                },
            },
        );
    assert(traces.insert(seed, t)[m] == traces[m]);
}

/// The place of piece `i` among the pieces: how many lead it along the axis,
/// ties broken by the order of their smallest cells.
fn piece_place(
    skel: &Vec<bool>,
    w: u16,
    h: u16,
    Ghost(r): Ghost<int>,
    horizontal: bool,
    comps: &Vec<Vec<usize>>,
    leads: &Vec<u16>,
    i: usize,
) -> (rank: usize)
    requires
        i < comps.len(),
        leads.len() == comps.len(),
        skel.len() == w * h,
        forall|j: int| 0 <= j < comps.len() ==> comps[j].len() > 0,
        forall|j: int, k: int| 0 <= j < k < comps.len() ==> comps[j][0] < comps[k][0],
        forall|j: int| 0 <= j < comps.len() ==> #[trigger] comps[j][0] < skel.len(),
        forall|j: int| 0 <= j < comps.len() ==> class_min(skel@, w as int, h as int, r, #[trigger] comps[j][0] as int),
        forall|m: int|
            class_min(skel@, w as int, h as int, r, m) ==> exists|j: int|
                0 <= j < comps.len() && #[trigger] comps[j][0] == m as usize,
        forall|j: int|
            0 <= j < comps.len() ==> is_lead(
                skel@,
                w as int,
                h as int,
                r,
                horizontal,
                comps[j][0] as int,
                #[trigger] leads@[j] as int,
            ),
    ensures
        rank == piece_rank(skel@, w as int, h as int, r, horizontal, comps[i as int][0] as int),
{
    let ghost (gm, gw, gh) = (skel@, w as int, h as int);
    let ghost n = skel.len() as int;
    let seed = comps[i][0];
    let mut rank: usize = 0;
    let mut j: usize = 0;
    let ghost q = |m2: int|
        lead_of(gm, gw, gh, r, horizontal, m2) < lead_of(gm, gw, gh, r, horizontal, seed as int) || (
        lead_of(gm, gw, gh, r, horizontal, m2) == lead_of(gm, gw, gh, r, horizontal, seed as int)
            && m2 < seed);
    let ghost firsts = Seq::new(comps.len() as nat, |k: int| comps[k][0] as int);
    proof {
        lemma_lead_unique(gm, gw, gh, r, horizontal, seed as int, leads@[i as int] as int);
    }
    while j < comps.len()
        invariant
            j <= comps.len(),
            i < comps.len(),
            seed == comps[i as int][0],
            leads.len() == comps.len(),
            rank <= j,
            firsts == Seq::new(comps.len() as nat, |k: int| comps[k][0] as int),
            q == (|m2: int|
                lead_of(gm, gw, gh, r, horizontal, m2) < lead_of(gm, gw, gh, r, horizontal, seed as int)
                    || (lead_of(gm, gw, gh, r, horizontal, m2) == lead_of(
                    gm,
                    gw,
                    gh,
                    r,
                    horizontal,
                    seed as int,
                ) && m2 < seed)),
            forall|jj: int, k: int| 0 <= jj < k < comps.len() ==> comps[jj][0] < comps[k][0],
            forall|jj: int|
                0 <= jj < comps.len() ==> is_lead(
                    gm,
                    gw,
                    gh,
                    r,
                    horizontal,
                    comps[jj][0] as int,
                    #[trigger] leads@[jj] as int,
                ),
            forall|jj: int| 0 <= jj < comps.len() ==> comps[jj].len() > 0,
            lead_of(gm, gw, gh, r, horizontal, seed as int) == leads@[i as int],
            rank == count_in(firsts.take(j as int), q),
        decreases comps.len() - j,
    {
        proof {
            assert(firsts.take(j + 1).drop_last() =~= firsts.take(j as int));
            lemma_lead_unique(gm, gw, gh, r, horizontal, comps[j as int][0] as int, leads@[j as int] as int);
            if j < i {
                assert(comps[j as int][0] < comps[i as int][0]);
            } else if j > i {
                assert(comps[i as int][0] < comps[j as int][0]);
            }
        }
        if leads[j] < leads[i] || (leads[j] == leads[i] && j < i) {
            rank += 1;
        }
        j += 1;
    }
    proof {
        assert(firsts.take(comps.len() as int) =~= firsts);
        assert forall|a: int, bb: int| 0 <= a < bb < firsts.len() implies firsts[a] < firsts[bb] by {}
        assert forall|x: int| firsts.contains(x) <==> (0 <= x < n && class_min(gm, gw, gh, r, x)) by {
            if firsts.contains(x) {
                let k = choose|k: int| 0 <= k < firsts.len() && firsts[k] == x;
                assert(class_min(gm, gw, gh, r, comps[k][0] as int));
                assert(comps[k][0] < skel.len());
            }
            if 0 <= x < n && class_min(gm, gw, gh, r, x) {
                let k = choose|k: int| 0 <= k < comps.len() && #[trigger] comps[k][0] == x as usize;
                assert(firsts[k] == x);
            }
        }
        let p = |x: int| class_min(gm, gw, gh, r, x);
        lemma_count_in_sorted(p, q, firsts, n);
        assert((|x: int| p(x) && q(x)) =~= (|m2: int|
            class_min(gm, gw, gh, r, m2) && (lead_of(gm, gw, gh, r, horizontal, m2) < lead_of(
                gm,
                gw,
                gh,
                r,
                horizontal,
                seed as int,
            ) || (lead_of(gm, gw, gh, r, horizontal, m2) == lead_of(gm, gw, gh, r, horizontal, seed as int)
                && m2 < seed))));
        assert(rank == piece_rank(gm, gw, gh, r, horizontal, seed as int));
    }
    rank
}

/// Give every cell of `cells` its value along trace `t` in piece `piece`.
fn fill_piece(
    value: &mut Vec<Option<SkeletonValue>>,
    cells: &Vec<usize>,
    t: &Trace,
    piece: usize,
    span: u32,
)
    requires
        t.dist.len() == old(value).len(),
        forall|k: int|
            0 <= k < cells.len() ==> #[trigger] cells[k] < old(value).len() && t.dist@[cells[k] as int] is Some,
    ensures
        final(value).len() == old(value).len(),
        forall|v: int|
            0 <= v < old(value).len() ==> #[trigger] final(value)@[v] == if cells@.contains(v as usize) {
                Some(SkeletonValue { piece, dist: t.dist@[v]->0, span })
            } else {
                old(value)@[v]
            },
{
    let ghost start = value@;
    let mut k: usize = 0;
    while k < cells.len()
        invariant
            k <= cells.len(),
            value.len() == start.len(),
            t.dist.len() == start.len(),
            forall|kk: int|
                0 <= kk < cells.len() ==> #[trigger] cells[kk] < start.len() && t.dist@[cells[kk] as int] is Some,
            forall|v: int|
                0 <= v < start.len() ==> #[trigger] value@[v] == if cells@.take(k as int).contains(v as usize) {
                    Some(SkeletonValue { piece, dist: t.dist@[v]->0, span })
                } else {
                    start[v]
                },
        decreases cells.len() - k,
    {
        let cell = cells[k];
        let d = match t.dist[cell] {
            Some(d) => d,
            None => 0,
        };
        let ghost before = value@;
        value.set(cell, Some(SkeletonValue { piece, dist: d, span }));
        proof {
            assert forall|v: int| 0 <= v < start.len() implies #[trigger] value@[v] == if cells@.take(
                k + 1,
            ).contains(v as usize) {
                Some(SkeletonValue { piece, dist: t.dist@[v]->0, span })
            } else {
                start[v]
            } by {
                if cells@.take(k + 1).contains(v as usize) && v != cell as int {
                    let kk = choose|kk: int| 0 <= kk < k + 1 && #[trigger] cells@.take(k + 1)[kk] == v as usize;
                    assert(kk < k);
                    assert(cells@.take(k as int)[kk] == v as usize);
                }
                if cells@.take(k as int).contains(v as usize) {
                    let kk = choose|kk: int| 0 <= kk < k && #[trigger] cells@.take(k as int)[kk] == v as usize;
                    assert(cells@.take(k + 1)[kk] == v as usize);
                }
                if v == cell as int {
                    assert(cells@.take(k + 1)[k as int] == v as usize);
                }
            }
        }
        k += 1;
    }
    proof {
        assert(cells@.take(cells.len() as int) =~= cells@);
    }
}

/// A reveal value for every skeleton cell. Each connected piece of the
/// skeleton is traced tip to tip, and the pieces are ordered along the art's
/// dominant axis, so a multi-letter logo paints letter by letter in reading
/// order while a single shape just traces its centerline. `None` off the
/// skeleton. The second result records the trace each piece was measured by,
/// keyed by the piece's smallest cell.
#[verifier::rlimit(40)]
pub fn skeleton_values(skel: &Vec<bool>, w: u16, h: u16, hint: StartHint, bridge: u16) -> (res: (
    Vec<Option<SkeletonValue>>,
    Ghost<Map<int, Trace>>,
))
    requires
        skel.len() == w * h,
    ensures
        res.0.len() == skel.len(),
        forall|v: int| 0 <= v < skel.len() ==> (#[trigger] res.0@[v] is Some <==> skel@[v]),
        forall|v: int|
            0 <= v < skel.len() && #[trigger] skel@[v] ==> valued(
                skel@,
                w as int,
                h as int,
                adapted_bridge(skel@, w as int, h as int, bridge as int),
                hint,
                res.1@,
                v,
                res.0@[v],
            ),
{
    let ghost (gm, gw, gh) = (skel@, w as int, h as int);
    let n = skel.len();
    let mut value: Vec<Option<SkeletonValue>> = Vec::new();
    let mut i: usize = 0;
    while i < n
        invariant
            i <= n,
            value.len() == i,
            forall|k: int| 0 <= k < i ==> value@[k] is None,
        decreases n - i,
    {
        value.push(None);
        i += 1;
    }
    let ghost mut traces: Map<int, Trace> = Map::empty();
    proof {
        assert(w * h <= 65535 * 65535) by (nonlinear_arith)
            requires
                w <= 65535,
                h <= 65535,
        ;
    }
    let b = adaptive_bridge(skel, w, h, bridge);
    let ghost r = b as int;
    let horizontal = is_wide(w, h);
    let comps = components(skel, w, h, b);
    proof {
        lemma_piece_firsts(gm, gw, gh, r, comps@);
        if n > 0 {
            assert(w > 0) by {
                if w == 0 {
                    assert(w * h == 0) by (nonlinear_arith)
                        requires
                            w == 0,
                    ;
                }
            }
        }
    }
    let leads = piece_leads(skel, w, h, Ghost(r), horizontal, &comps);
    proof {
        reveal(filled);
    }
    // Trace each piece and record its cells' values.
    let mut i: usize = 0;
    while i < comps.len()
        invariant
            gm == skel@,
            gw == w,
            gh == h,
            r == b,
            r == adapted_bridge(gm, gw, gh, bridge as int),
            horizontal == wide(gw, gh),
            n == skel.len(),
            n == w * h,
            i <= comps.len(),
            leads.len() == comps.len(),
            value.len() == n,
            forall|j: int| 0 <= j < comps.len() ==> comps[j].len() > 0,
            forall|j: int, k: int|
                0 <= j < comps.len() && 0 <= k < comps[j].len() ==> #[trigger] comps[j][k] < n && comps[j][0]
                    <= comps[j][k],
            forall|j: int, v: int|
                0 <= j < comps.len() && 0 <= v < n ==> (comps[j]@.contains(v as usize) <==> connected(
                    gm,
                    gw,
                    gh,
                    r,
                    comps[j][0] as int,
                    v,
                )),
            forall|j: int, k: int| 0 <= j < k < comps.len() ==> comps[j][0] < comps[k][0],
            forall|v: int|
                0 <= v < n && gm[v] ==> exists|j: int|
                    0 <= j < comps.len() && #[trigger] comps[j]@.contains(v as usize),
            forall|j: int| 0 <= j < comps.len() ==> class_min(gm, gw, gh, r, #[trigger] comps[j][0] as int),
            forall|m: int|
                class_min(gm, gw, gh, r, m) ==> exists|j: int|
                    0 <= j < comps.len() && #[trigger] comps[j][0] == m as usize,
            forall|j: int|
                0 <= j < comps.len() ==> is_lead(
                    gm,
                    gw,
                    gh,
                    r,
                    horizontal,
                    comps[j][0] as int,
                    #[trigger] leads@[j] as int,
                ),
            filled(gm, gw, gh, r, hint, comps@, i as int, traces, value@),
        decreases comps.len() - i,
    {
        let c = &comps[i];
        let seed = c[0];
        proof {
            assert(c[0] < n);
            assert(c@.contains(c[0]));
            assert(connected(gm, gw, gh, r, seed as int, seed as int));
            let k = choose|k: nat| reach(gm, gw, gh, r, seed as int, seed as int, k);
            crate::grid::lemma_reach_in_mask(gm, gw, gh, r, seed as int, seed as int, k);
        }
        let t = trace(skel, w, h, seed, hint, b);
        let span = if t.diameter == 0 {
            1
        } else {
            t.diameter
        };
        let rank = piece_place(skel, w, h, Ghost(r), horizontal, &comps, &leads, i);
        proof {
            assert forall|k: int| 0 <= k < c.len() implies #[trigger] c[k] < value.len() && t.dist@[c[k] as int] is Some by {
                let cell = c[k];
                assert(cell < n);
                assert(c@.contains(cell));
                lemma_trace_covers(gm, gw, gh, r, seed as int, hint, t, cell as int);
            }
        }
        let ghost old_value = value@;
        let ghost old_traces = traces;
        fill_piece(&mut value, c, &t, rank, span);
        proof {
            lemma_filled_step(gm, gw, gh, r, hint, comps@, i as int, old_traces, old_value, t, value@);
            traces = traces.insert(seed as int, t);
        }
        i += 1;
    }
    proof {
        reveal(filled);
        assert forall|v: int| 0 <= v < n implies (#[trigger] value@[v] is Some <==> gm[v]) by {
            if gm[v] {
                let j = choose|j: int| 0 <= j < comps.len() && #[trigger] comps[j]@.contains(v as usize);
            }
        }
    }
    (value, Ghost(traces))
}

proof fn lemma_connected_sym(mask: Seq<bool>, w: int, h: int, r: int, s: int, v: int)
    requires
        connected(mask, w, h, r, s, v),
    ensures
        connected(mask, w, h, r, v, s),
{
    let k = choose|k: nat| reach(mask, w, h, r, s, v, k);
    crate::grid::lemma_reach_sym(mask, w, h, r, s, v, k);
}

proof fn lemma_connected_trans(mask: Seq<bool>, w: int, h: int, r: int, s: int, u: int, v: int)
    requires
        connected(mask, w, h, r, s, u),
        connected(mask, w, h, r, u, v),
    ensures
        connected(mask, w, h, r, s, v),
{
    let k1 = choose|k: nat| reach(mask, w, h, r, s, u, k);
    let k2 = choose|k: nat| reach(mask, w, h, r, u, v, k);
    crate::grid::lemma_reach_trans(mask, w, h, r, s, u, v, k1, k2);
}

} // verus!
