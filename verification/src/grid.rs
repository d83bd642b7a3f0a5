//! Wrap-aware sub-rectangle traversal over a toroidal 2-D index space.
//!
//! A world coordinate `(wx, wy)` maps to the storage index
//! `(wx mod w) + (wy mod h) * w`.  The traversal enumerates a half-open world
//! rectangle in row-major order while splitting each axis into at most three
//! contiguous runs, so no modulo is computed in the innermost loops.

use vstd::prelude::*;

verus! {

use vstd::arithmetic::div_mod::{
    lemma_fundamental_div_mod,
    lemma_fundamental_div_mod_converse,
    lemma_div_is_ordered,
    lemma_mod_bound,
};

broadcast use vstd::arithmetic::mul::lemma_mul_is_commutative;


/// Storage index of world coordinate `(wx, wy)` in a `w` by `h` toroidal grid.
pub open spec fn wrap_index(w: int, h: int, wx: int, wy: int) -> int {
    wx % w + (wy % h) * w
}

/// The `k`-th visit (row-major) of the world rectangle starting at
/// `(x1, y1)` with width `x2 - x1`: world x, world y, and storage index.
pub open spec fn rect_visit(w: int, h: int, x1: int, x2: int, y1: int, k: int) -> (
    usize,
    usize,
    usize,
) {
    let rw = x2 - x1;
    let wx = x1 + k % rw;
    let wy = y1 + k / rw;
    ((wx) as usize, (wy) as usize, (wrap_index(w, h, wx, wy)) as usize)
}

/// The row-major visit index at which the traversal of the rectangle
/// `[x1, x2) x [y1, ..)` reaches the world cell `(wx, wy)`.
pub open spec fn visit_of(x1: int, x2: int, y1: int, wx: int, wy: int) -> int {
    (wy - y1) * (x2 - x1) + (wx - x1)
}

/// The storage index of every world coordinate is in bounds.
pub proof fn lemma_wrap_index_bounds(w: int, h: int, wx: int, wy: int)
    requires
        w > 0,
        h > 0,
        wx >= 0,
        wy >= 0,
    ensures
        0 <= wrap_index(w, h, wx, wy) < w * h,
{
    lemma_mod_bound(wx, w);
    lemma_mod_bound(wy, h);
    assert((wy % h) * w <= (h - 1) * w) by (nonlinear_arith)
        requires
            w > 0,
            0 <= wy % h <= h - 1,
    ;
    assert(wx % w + (h - 1) * w < w * h) by (nonlinear_arith)
        requires
            w > 0,
            wx % w < w,
    ;
}

/// Appends the visits of one contiguous storage run: storage x `xa..xb` in the
/// row with base index `base`, world x starting at `wx0`.
fn emit_run(
    out: &mut Vec<(usize, usize, usize)>,
    wx0: usize,
    wy: usize,
    base: usize,
    xa: usize,
    xb: usize,
)
    requires
        xa <= xb,
        base + xb <= usize::MAX,
        wx0 + (xb - xa) <= usize::MAX,
    ensures
        final(out)@.len() == old(out)@.len() + (xb - xa),
        forall|j: int| 0 <= j < old(out)@.len() ==> final(out)@[j] == old(out)@[j],
        forall|i: int|
            0 <= i < xb - xa ==> #[trigger] final(out)@[old(out)@.len() + i] == (
                (wx0 + i) as usize,
                wy,
                (base + xa + i) as usize,
            ),
{
    let mut x = xa;
    let mut wx = wx0;
    while x < xb
        invariant
            xa <= x <= xb,
            wx == wx0 + (x - xa),
            base + xb <= usize::MAX,
            wx0 + (xb - xa) <= usize::MAX,
            out@.len() == old(out)@.len() + (x - xa),
            forall|j: int| 0 <= j < old(out)@.len() ==> out@[j] == old(out)@[j],
            forall|i: int|
                0 <= i < x - xa ==> #[trigger] out@[old(out)@.len() + i] == (
                    (wx0 + i) as usize,
                    wy,
                    (base + xa + i) as usize,
                ),
        decreases xb - x,
    {
        out.push((wx, wy, base + x));
        x = x + 1;
        wx = wx + 1;
    }
}

/// Appends the visits of one world row `wy`, world x `x1..x2`, split into at
/// most three contiguous storage runs.  `row` is the storage row, `wy mod h`
/// to the caller.
fn emit_row(
    out: &mut Vec<(usize, usize, usize)>,
    w: usize,
    row: usize,
    wy: usize,
    x1: usize,
    x2: usize,
)
    requires
        w > 0,
        x1 < x2,
        x2 - x1 <= w,
        row * w + w <= usize::MAX,
    ensures
        final(out)@.len() == old(out)@.len() + (x2 - x1),
        forall|j: int| 0 <= j < old(out)@.len() ==> final(out)@[j] == old(out)@[j],
        forall|i: int|
            0 <= i < x2 - x1 ==> #[trigger] final(out)@[old(out)@.len() + i] == (
                (x1 + i) as usize,
                wy,
                (row * w + (x1 + i) % (w as int)) as usize,
            ),
{
    proof {
        lemma_fundamental_div_mod(x1 as int, w as int);
        lemma_fundamental_div_mod((x2 - 1) as int, w as int);
        lemma_mod_bound(x1 as int, w as int);
        lemma_mod_bound((x2 - 1) as int, w as int);
        lemma_div_is_ordered(x1 as int, (x2 - 1) as int, w as int);
    }
    let base = row * w;
    let xs = x1 % w;
    let xe = (x2 - 1) % w + 1;
    let q1 = x1 / w;
    let q2 = (x2 - 1) / w;
    let vw = q2 - q1;
    let ghost old_len = out@.len();
    if vw == 0 {
        emit_run(out, x1, wy, base, xs, xe);
        proof {
            assert forall|i: int| 0 <= i < x2 - x1 implies #[trigger] out@[old_len + i] == (
                (x1 + i) as usize,
                wy,
                (base + (x1 + i) % (w as int)) as usize,
            ) by {
                lemma_fundamental_div_mod_converse((x1 + i) as int, w as int, q1 as int, xs + i);
            }
        }
    } else {
        proof {
            assert((w - xs) + (vw - 1) * w + xe == x2 - x1 && (vw - 1) * w >= 0)
                by (nonlinear_arith)
                requires
                    x1 == w * q1 + xs,
                    x2 - 1 == w * q2 + (xe - 1),
                    vw == q2 - q1,
                    vw >= 1,
                    w > 0,
            ;
        }
        emit_run(out, x1, wy, base, xs, w);
        proof {
            assert forall|i: int| 0 <= i < w - xs implies #[trigger] out@[old_len + i] == (
                (x1 + i) as usize,
                wy,
                (base + (x1 + i) % (w as int)) as usize,
            ) by {
                lemma_fundamental_div_mod_converse((x1 + i) as int, w as int, q1 as int, xs + i);
            }
        }
        let mut r: usize = 1;
        let mut wx: usize = x1 + (w - xs);
        while r < vw
            invariant
                1 <= r <= vw,
                w > 0,
                x1 < x2,
                x1 == w * q1 + xs,
                x2 - 1 == w * q2 + (xe - 1),
                0 <= xs < w,
                1 <= xe <= w,
                vw == q2 - q1,
                base == row * w,
                base + w <= usize::MAX,
                wx == x1 + (w - xs) + (r - 1) * w,
                wx + (vw - r) * w + xe == x2,
                (vw - r) * w >= 0,
                out@.len() == old_len + (wx - x1),
                old_len == old(out)@.len(),
                forall|j: int| 0 <= j < old_len ==> out@[j] == old(out)@[j],
                forall|i: int|
                    0 <= i < wx - x1 ==> #[trigger] out@[old_len + i] == (
                        (x1 + i) as usize,
                        wy,
                        (base + (x1 + i) % (w as int)) as usize,
                    ),
            decreases vw - r,
        {
            proof {
                assert(wx + w <= x2 && (vw - (r + 1)) * w == (vw - r) * w - w && (vw - (r + 1))
                    * w >= 0 && r * w == (r - 1) * w + w) by (nonlinear_arith)
                    requires
                        wx + (vw - r) * w + xe == x2,
                        1 <= r < vw,
                        w > 0,
                        xe >= 1,
                ;
            }
            let ghost prev = out@;
            emit_run(out, wx, wy, base, 0, w);
            proof {
                assert forall|i: int| 0 <= i < (wx - x1) + w implies #[trigger] out@[old_len + i]
                    == ((x1 + i) as usize, wy, (base + (x1 + i) % (w as int)) as usize) by {
                    if i < wx - x1 {
                        assert(out@[old_len + i] == prev[old_len + i]);
                    } else {
                        let j = i - (wx - x1);
                        assert(old_len + i == prev.len() + j);
                        assert(out@[prev.len() + j] == ((wx + j) as usize, wy, (base + 0 + j) as usize));
                        assert(x1 + i == wx + j);
                        assert(wx + j == w * (q1 + r) + j) by (nonlinear_arith)
                            requires
                                wx == x1 + (w - xs) + (r - 1) * w,
                                x1 == w * q1 + xs,
                                w > 0,
                                0 <= j,
                        ;
                        lemma_fundamental_div_mod_converse((x1 + i) as int, w as int, q1 + r, j);
                    }
                }
            }
            r = r + 1;
            wx = wx + w;
        }
        // Final partial run.
        proof {
            assert(wx + xe == x2) by (nonlinear_arith)
                requires
                    wx + (vw - r) * w + xe == x2,
                    r == vw,
            ;
        }
        let ghost prev = out@;
        emit_run(out, wx, wy, base, 0, xe);
        proof {
            assert forall|i: int| 0 <= i < x2 - x1 implies #[trigger] out@[old_len + i] == (
                (x1 + i) as usize,
                wy,
                (base + (x1 + i) % (w as int)) as usize,
            ) by {
                if i < wx - x1 {
                    assert(out@[old_len + i] == prev[old_len + i]);
                } else {
                    let j = i - (wx - x1);
                    assert(old_len + i == prev.len() + j);
                    assert(out@[prev.len() + j] == ((wx + j) as usize, wy, (base + 0 + j) as usize));
                    assert(x1 + i == wx + j);
                    assert(wx + j == w * (q1 + vw) + j) by (nonlinear_arith)
                        requires
                            wx == x1 + (w - xs) + (vw - 1) * w,
                            x1 == w * q1 + xs,
                            w > 0,
                            0 <= j,
                    ;
                    lemma_fundamental_div_mod_converse((x1 + i) as int, w as int, q1 + vw, j);
                }
            }
        }
    }
}

/// Visits every world cell of the half-open rectangle `[x1, x2) x [y1, y2)`
/// of a `w` by `h` toroidal grid exactly once, in row-major order (x ascending
/// within a row, rows ascending), and returns the visits as
/// `(world_x, world_y, storage_index)` triples, where `storage_index` is the
/// in-bounds offset `(world_x mod w) + (world_y mod h) * w`.
///
/// The rectangle must not span more than the grid on either axis, or the same
/// storage cell would be visited more than once.
pub fn for_each_sub_wrapping(
    w: usize,
    h: usize,
    x1: usize,
    x2: usize,
    y1: usize,
    y2: usize,
) -> (r: Vec<(usize, usize, usize)>)
    requires
        w > 0,
        h > 0,
        x1 < x2,
        y1 < y2,
        x2 - x1 <= w,
        y2 - y1 <= h,
        w * h <= usize::MAX,
    ensures
        r@.len() == (x2 - x1) * (y2 - y1),
        forall|k: int|
            0 <= k < r@.len() ==> #[trigger] r@[k] == rect_visit(
                w as int,
                h as int,
                x1 as int,
                x2 as int,
                y1 as int,
                k,
            ),
{
    let mut out: Vec<(usize, usize, usize)> = Vec::new();
    let rh = y2 - y1;
    let ghost rw = x2 - x1;
    let mut row = y1 % h;
    let mut t: usize = 0;
    proof {
        lemma_fundamental_div_mod(y1 as int, h as int);
        lemma_mod_bound(y1 as int, h as int);
    }
    while t < rh
        invariant
            0 <= t <= rh,
            rh == y2 - y1,
            rw == x2 - x1,
            w > 0,
            h > 0,
            x1 < x2,
            y1 + rh == y2,
            x2 - x1 <= w,
            w * h <= usize::MAX,
            row == (y1 + t) as int % h as int,
            out@.len() == t * rw,
            forall|k: int|
                0 <= k < out@.len() ==> #[trigger] out@[k] == rect_visit(
                    w as int,
                    h as int,
                    x1 as int,
                    x2 as int,
                    y1 as int,
                    k,
                ),
        decreases rh - t,
    {
        proof {
            lemma_mod_bound((y1 + t) as int, h as int);
            assert(row * w + w <= h * w) by (nonlinear_arith)
                requires
                    0 <= row,
                    row < h,
                    w > 0,
            ;
        }
        let wy = y1 + t;
        let ghost prev = out@;
        emit_row(&mut out, w, row, wy, x1, x2);
        proof {
            assert(prev.len() == t * rw);
            assert((t + 1) * rw == t * rw + rw) by (nonlinear_arith);
            assert forall|k: int| 0 <= k < out@.len() implies #[trigger] out@[k] == rect_visit(
                w as int,
                h as int,
                x1 as int,
                x2 as int,
                y1 as int,
                k,
            ) by {
                if k < prev.len() {
                    assert(out@[k] == prev[k]);
                } else {
                    let i = k - prev.len();
                    assert(out@[prev.len() + i] == (
                        (x1 + i) as usize,
                        wy,
                        (row * w + (x1 + i) % (w as int)) as usize,
                    ));
                    lemma_fundamental_div_mod_converse(k, rw as int, t as int, i);
                    assert(k % (rw as int) == i && k / (rw as int) == t);
                }
            }
        }
        // Advance to the next storage row, wrapping at the grid edge.
        proof {
            let p = (y1 + t) as int / h as int;
            lemma_fundamental_div_mod((y1 + t) as int, h as int);
            if row + 1 == h {
                assert((p + 1) * h == p * h + h) by (nonlinear_arith);
                lemma_fundamental_div_mod_converse((y1 + t + 1) as int, h as int, p + 1, 0);
            } else {
                lemma_fundamental_div_mod_converse((y1 + t + 1) as int, h as int, p, row + 1);
            }
        }
        row = row + 1;
        if row == h {
            row = 0;
        }
        t = t + 1;
    }
    proof {
        assert(out@.len() == rh * rw) by (nonlinear_arith)
            requires
                out@.len() == rh * rw,
        ;
    }
    out
}

/// Law (traversal completeness and uniqueness): for every grid dimension pair
/// and every rectangle whose span does not exceed the grid on either axis, the
/// row-major enumeration `rect_visit` is a bijection between `[0, count)` and
/// the world cells of the rectangle, and no two visits share a storage index.
/// Hence each world cell of the rectangle is visited exactly once, the set of
/// visited world coordinates is exactly the mathematical rectangle, and no
/// storage cell is touched twice.
pub proof fn lemma_traversal_complete_unique(
    w: int,
    h: int,
    x1: int,
    x2: int,
    y1: int,
    y2: int,
)
    requires
        w > 0,
        h > 0,
        0 <= x1 < x2,
        0 <= y1 < y2,
        x2 - x1 <= w,
        y2 - y1 <= h,
        x2 <= usize::MAX,
        y2 <= usize::MAX,
        w * h <= usize::MAX,
    ensures
        // Every visit lands in the rectangle.
        forall|k: int|
            0 <= k < (x2 - x1) * (y2 - y1) ==> {
                let (vx, vy, _) = #[trigger] rect_visit(w, h, x1, x2, y1, k);
                x1 <= vx < x2 && y1 <= vy < y2
            },
        // Completeness: every cell of the rectangle is reached, at the visit
        // index `visit_of` gives.
        forall|wx: int, wy: int|
            x1 <= wx < x2 && y1 <= wy < y2 ==> 0 <= #[trigger] visit_of(x1, x2, y1, wx, wy) < (x2
                - x1) * (y2 - y1) && rect_visit(w, h, x1, x2, y1, visit_of(x1, x2, y1, wx, wy)) == (
                (wx) as usize,
                (wy) as usize,
                (wrap_index(w, h, wx, wy)) as usize,
            ),
        // Uniqueness: distinct visits have distinct world cells and distinct
        // storage indices.
        forall|k1: int, k2: int|
            #![trigger rect_visit(w, h, x1, x2, y1, k1), rect_visit(w, h, x1, x2, y1, k2)]
            0 <= k1 < k2 < (x2 - x1) * (y2 - y1) ==> rect_visit(w, h, x1, x2, y1, k1).0
                != rect_visit(w, h, x1, x2, y1, k2).0 || rect_visit(w, h, x1, x2, y1, k1).1
                != rect_visit(w, h, x1, x2, y1, k2).1,
        forall|k1: int, k2: int|
            #![trigger rect_visit(w, h, x1, x2, y1, k1), rect_visit(w, h, x1, x2, y1, k2)]
            0 <= k1 < k2 < (x2 - x1) * (y2 - y1) ==> rect_visit(w, h, x1, x2, y1, k1).2
                != rect_visit(w, h, x1, x2, y1, k2).2,
{
    let rw = x2 - x1;
    let rh = y2 - y1;
    let count = rw * rh;
    assert forall|k: int| 0 <= k < count implies {
        let (vx, vy, _) = #[trigger] rect_visit(w, h, x1, x2, y1, k);
        x1 <= vx < x2 && y1 <= vy < y2
    } by {
        lemma_visit_in_rect(w, h, x1, x2, y1, y2, k);
    }
    assert forall|wx: int, wy: int|
        x1 <= wx < x2 && y1 <= wy < y2 implies 0 <= #[trigger] visit_of(x1, x2, y1, wx, wy) < (x2
        - x1) * (y2 - y1) && rect_visit(w, h, x1, x2, y1, visit_of(x1, x2, y1, wx, wy)) == (
        (wx) as usize,
        (wy) as usize,
        (wrap_index(w, h, wx, wy)) as usize,
    ) by {
        let k = (wy - y1) * rw + (wx - x1);
        lemma_fundamental_div_mod_converse(k, rw, wy - y1, wx - x1);
        assert(k < count) by (nonlinear_arith)
            requires
                k == (wy - y1) * rw + (wx - x1),
                count == rw * rh,
                0 <= wx - x1 < rw,
                0 <= wy - y1 < rh,
        ;
        assert(0 <= k) by (nonlinear_arith)
            requires
                k == (wy - y1) * rw + (wx - x1),
                0 <= wx - x1 < rw,
                0 <= wy - y1,
        ;
        assert(rect_visit(w, h, x1, x2, y1, k) == (
            (wx) as usize,
            (wy) as usize,
            (wrap_index(w, h, wx, wy)) as usize,
        ));
    }
    assert forall|k1: int, k2: int|
        #![trigger rect_visit(w, h, x1, x2, y1, k1), rect_visit(w, h, x1, x2, y1, k2)]
        0 <= k1 < k2 < count implies rect_visit(
        w,
        h,
        x1,
        x2,
        y1,
        k1,
    ).0 != rect_visit(w, h, x1, x2, y1, k2).0 || rect_visit(w, h, x1, x2, y1, k1).1 != rect_visit(
        w,
        h,
        x1,
        x2,
        y1,
        k2,
    ).1 by {
        lemma_visit_in_rect(w, h, x1, x2, y1, y2, k1);
        lemma_visit_in_rect(w, h, x1, x2, y1, y2, k2);
        lemma_fundamental_div_mod(k1, rw);
        lemma_fundamental_div_mod(k2, rw);
    }
    assert forall|k1: int, k2: int|
        #![trigger rect_visit(w, h, x1, x2, y1, k1), rect_visit(w, h, x1, x2, y1, k2)]
        0 <= k1 < k2 < count implies rect_visit(
        w,
        h,
        x1,
        x2,
        y1,
        k1,
    ).2 != rect_visit(w, h, x1, x2, y1, k2).2 by {
        lemma_visit_in_rect(w, h, x1, x2, y1, y2, k1);
        lemma_visit_in_rect(w, h, x1, x2, y1, y2, k2);
        lemma_fundamental_div_mod(k1, rw);
        lemma_fundamental_div_mod(k2, rw);
        let wxa = x1 + k1 % rw;
        let wya = y1 + k1 / rw;
        let wxb = x1 + k2 % rw;
        let wyb = y1 + k2 / rw;
        lemma_wrap_index_bounds(w, h, wxa, wya);
        lemma_wrap_index_bounds(w, h, wxb, wyb);
        if wrap_index(w, h, wxa, wya) == wrap_index(w, h, wxb, wyb) {
            lemma_mod_bound(wxa, w);
            lemma_mod_bound(wxb, w);
            lemma_mod_bound(wya, h);
            lemma_mod_bound(wyb, h);
            // Base-w decomposition of the shared storage index is unique.
            assert(wxa % w == wxb % w && wya % h == wyb % h) by (nonlinear_arith)
                requires
                    wxa % w + (wya % h) * w == wxb % w + (wyb % h) * w,
                    0 <= wxa % w < w,
                    0 <= wxb % w < w,
                    0 <= wya % h,
                    0 <= wyb % h,
            ;
            lemma_same_mod_close(wxa, wxb, w);
            lemma_same_mod_close(wya, wyb, h);
        }
    }
}

/// A visit index in range yields a world cell inside the rectangle.
proof fn lemma_visit_in_rect(w: int, h: int, x1: int, x2: int, y1: int, y2: int, k: int)
    requires
        w > 0,
        h > 0,
        x1 < x2,
        y1 < y2,
        0 <= k < (x2 - x1) * (y2 - y1),
    ensures
        x1 <= x1 + k % (x2 - x1) < x2,
        y1 <= y1 + k / (x2 - x1) < y2,
{
    let rw = x2 - x1;
    lemma_mod_bound(k, rw);
    lemma_fundamental_div_mod(k, rw);
    assert(k / rw >= 0) by (nonlinear_arith)
        requires
            k >= 0,
            rw > 0,
            k == rw * (k / rw) + k % rw,
            0 <= k % rw < rw,
    ;
    assert(k / rw < y2 - y1) by (nonlinear_arith)
        requires
            k < rw * (y2 - y1),
            rw > 0,
            k == rw * (k / rw) + k % rw,
            0 <= k % rw < rw,
    ;
}

/// Two non-negative integers closer together than `m` with equal remainders
/// modulo `m` are equal.
proof fn lemma_same_mod_close(a: int, b: int, m: int)
    requires
        m > 0,
        0 <= a,
        0 <= b,
        a - b < m,
        b - a < m,
        a % m == b % m,
    ensures
        a == b,
{
    lemma_fundamental_div_mod(a, m);
    lemma_fundamental_div_mod(b, m);
    assert(a == b) by (nonlinear_arith)
        requires
            a == m * (a / m) + a % m,
            b == m * (b / m) + b % m,
            a % m == b % m,
            a - b < m,
            b - a < m,
            m > 0,
    ;
}

/// True when the traversal of the rectangle `[x1, x2) x [y1, y2)` writes the
/// storage index `idx`.
pub open spec fn rect_covers(w: int, h: int, x1: int, x2: int, y1: int, y2: int, idx: int) -> bool {
    exists|i: int, j: int|
        0 <= i < x2 - x1 && 0 <= j < y2 - y1 && #[trigger] wrap_index(w, h, x1 + i, y1 + j) == idx
}

/// A visit index in range yields a world cell inside the rectangle and an
/// in-bounds storage index, with no truncation in either.
pub proof fn lemma_rect_visit_bounds(w: int, h: int, x1: int, x2: int, y1: int, y2: int, k: int)
    requires
        w > 0,
        h > 0,
        0 <= x1 < x2,
        0 <= y1 < y2,
        x2 <= usize::MAX,
        y2 <= usize::MAX,
        w * h <= usize::MAX,
        0 <= k < (x2 - x1) * (y2 - y1),
    ensures
        ({
            let (vx, vy, idx) = rect_visit(w, h, x1, x2, y1, k);
            x1 <= vx < x2 && y1 <= vy < y2 && vx == x1 + k % (x2 - x1) && vy == y1 + k / (x2 - x1)
                && idx == wrap_index(w, h, x1 + k % (x2 - x1), y1 + k / (x2 - x1)) && 0 <= idx < w
                * h && rect_covers(w, h, x1, x2, y1, y2, idx as int)
        }),
{
    lemma_visit_in_rect(w, h, x1, x2, y1, y2, k);
    let rw = x2 - x1;
    lemma_wrap_index_bounds(w, h, x1 + k % rw, y1 + k / rw);
    let (vx, vy, idx) = rect_visit(w, h, x1, x2, y1, k);
    assert(0 <= k % rw < rw && 0 <= k / rw < y2 - y1);
    assert(wrap_index(w, h, x1 + (k % rw), y1 + (k / rw)) == idx);
}

} // verus!
