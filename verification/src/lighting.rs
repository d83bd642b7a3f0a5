//! Multi-source light diffusion over the wrap-addressed grids.
//!
//! Each tick, the fade map is rebuilt from the visible tiles and every
//! open-sky cell is seeded at full brightness; a FIFO breadth-first
//! relaxation then spreads light until no cell can raise a neighbour any
//! further.  The FIFO order is a deliberate approximation of true
//! shortest-path light decay: a cell may be relaxed more than once, but the
//! final brightness field is the least fixpoint above the seeds and so does
//! not depend on the relaxation order.

use vstd::prelude::*;

verus! {

use crate::array2d::Array2D;
use crate::common::ifdiv;
use crate::fast_array2d::FastArray2D;
use crate::grid::{wrap_index, rect_visit, for_each_sub_wrapping, lemma_rect_visit_bounds};
use crate::tile::{Tile, TILE_SIZE};
use vstd::arithmetic::div_mod::{
    lemma_fundamental_div_mod,
    lemma_fundamental_div_mod_converse,
    lemma_mod_bound,
};

broadcast use vstd::arithmetic::mul::lemma_mul_is_commutative;

/// Value representing maximal brightness.
pub const MAX_BRIGHTNESS: u8 = 16;

/// Value representing maximal darkness.
pub const MIN_BRIGHTNESS: u8 = 0;

/// The fade forced onto the border cells at allocation.
pub const MAX_FADE: u8 = MAX_BRIGHTNESS;

/// Least amount of fade that can occur.
pub const MIN_FADE: u8 = 1;

/// Fade of free space.
pub const TRANSPARENT_FADE: u8 = MIN_FADE;

/// Fade of solid blocks.
pub const OPAQUE_FADE: u8 = TRANSPARENT_FADE * 3;

/// The furthest a light source can reach, in tiles; keep equal to
/// `MAX_BRIGHTNESS / MIN_FADE` and to the load-buffer sizing.
pub const MAX_LIGHT_DISTANCE: usize = 16;

/// A storage index of a `w` by `h` light map that is not on the outer border.
/// Only interior cells are ever relaxed; the border is a sentinel ring.
pub open spec fn is_interior(w: int, h: int, c: int) -> bool {
    &&& w >= 3
    &&& h >= 3
    &&& 1 <= c % w < w - 1
    &&& 1 <= c / w < h - 1
}

/// No neighbour of the interior cell `c` can still be raised by relaxing `c`:
/// all four orthogonal neighbours already carry at least `c`'s brightness
/// less `c`'s fade.
pub open spec fn relaxed_at(light: Seq<u8>, fade: Seq<u8>, w: int, c: int) -> bool {
    &&& light[c - 1] >= light[c] - fade[c]
    &&& light[c + 1] >= light[c] - fade[c]
    &&& light[c - w] >= light[c] - fade[c]
    &&& light[c + w] >= light[c] - fade[c]
}

/// No further relaxation is possible anywhere in the interior.
pub open spec fn settled(light: Seq<u8>, fade: Seq<u8>, w: int, h: int) -> bool {
    forall|c: int| #[trigger] is_interior(w, h, c) ==> relaxed_at(light, fade, w, c)
}

/// `a` is pointwise at least `b`.
pub open spec fn dominates(a: Seq<u8>, b: Seq<u8>) -> bool {
    &&& a.len() == b.len()
    &&& forall|c: int| 0 <= c < a.len() ==> #[trigger] a[c] >= b[c]
}

/// A brightness field that sits above the seeds and admits no further
/// relaxation.  The diffusion result is the least such field.
pub open spec fn is_model(m: Seq<u8>, init: Seq<u8>, fade: Seq<u8>, w: int, h: int) -> bool {
    &&& m.len() == init.len()
    &&& dominates(m, init)
    &&& settled(m, fade, w, h)
}

/// Total darkness deficit: how far each cell sits below full brightness,
/// summed.  Every relaxation strictly shrinks it, which bounds the work the
/// FIFO loop can do.
#[verifier::opaque]
pub open spec fn deficit(light: Seq<u8>) -> int
    decreases light.len(),
{
    if light.len() == 0 {
        0
    } else {
        deficit(light.drop_last()) + (MAX_BRIGHTNESS - light.last())
    }
}

/// Raising one cell lowers the deficit by exactly the raise.
proof fn lemma_deficit_update(light: Seq<u8>, c: int, v: u8)
    requires
        0 <= c < light.len(),
    ensures
        deficit(light.update(c, v)) == deficit(light) - (v - light[c]),
    decreases light.len(),
{
    reveal_with_fuel(deficit, 2);
    let updated = light.update(c, v);
    if c == light.len() - 1 {
        assert(updated.drop_last() =~= light.drop_last());
    } else {
        assert(updated.drop_last() =~= light.drop_last().update(c, v));
        lemma_deficit_update(light.drop_last(), c, v);
    }
}

/// A field that never exceeds full brightness has a non-negative deficit.
proof fn lemma_deficit_nonneg(light: Seq<u8>)
    requires
        forall|c: int| 0 <= c < light.len() ==> #[trigger] light[c] <= MAX_BRIGHTNESS,
    ensures
        deficit(light) >= 0,
    decreases light.len(),
{
    reveal_with_fuel(deficit, 2);
    if light.len() > 0 {
        lemma_deficit_nonneg(light.drop_last());
    }
}

/// An interior cell's four orthogonal neighbours are in bounds and distinct
/// from it and from each other.
pub proof fn lemma_interior_neighbors(w: int, h: int, c: int)
    requires
        is_interior(w, h, c),
    ensures
        w <= c,
        c + w < w * h,
        1 <= c,
        c + 1 < w * h,
        c - 1 != c + 1 && c - 1 != c - w && c - 1 != c + w && c + 1 != c - w && c + 1 != c + w && c
            - w != c + w,
{
    lemma_fundamental_div_mod(c, w);
    lemma_mod_bound(c, w);
    let q = c / w;
    assert(c >= w) by (nonlinear_arith)
        requires
            c == w * q + c % w,
            q >= 1,
            c % w >= 0,
            w >= 3,
    ;
    assert(c + w < w * h) by (nonlinear_arith)
        requires
            c == w * q + c % w,
            q < h - 1,
            c % w < w - 1,
            w >= 3,
    ;
}

/// The border ring of the seed field is pinned at full brightness, so
/// relaxation can never write outside the interior.
pub open spec fn valid_seed(init: Seq<u8>, w: int, h: int) -> bool {
    forall|c: int|
        0 <= c < init.len() && !is_interior(w, h, c) ==> #[trigger] init[c] == MAX_BRIGHTNESS
}

/// The facts the relaxation loop carries about the evolving brightness field:
/// it stays within brightness bounds, only grows interior cells, and stays
/// pointwise below every model of the seeds.
pub open spec fn lit_inv(light: Seq<u8>, init: Seq<u8>, fade: Seq<u8>, w: int, h: int) -> bool {
    &&& light.len() == init.len()
    &&& dominates(light, init)
    &&& (forall|c: int| 0 <= c < light.len() ==> #[trigger] light[c] <= MAX_BRIGHTNESS)
    &&& (forall|c: int|
        0 <= c < light.len() && !is_interior(w, h, c) ==> #[trigger] light[c] == init[c])
    &&& (forall|m: Seq<u8>| #[trigger] is_model(m, init, fade, w, h) ==> dominates(m, light))
}

/// One relaxation step: raises the cell `n` to `nb` if that is a strict
/// improvement, and then queues `n`; otherwise leaves everything untouched.
/// The caller justifies the raise by showing every model of the seeds already
/// sits at or above `nb` there.
fn relax_neighbor(
    light: &mut Array2D<u8>,
    queue: &mut Vec<usize>,
    n: usize,
    nb: u8,
    Ghost(init): Ghost<Seq<u8>>,
    Ghost(fade): Ghost<Seq<u8>>,
)
    requires
        old(light).wf(),
        old(light).spec_width() >= 3,
        old(light).spec_height() >= 3,
        lit_inv(
            old(light).contents(),
            init,
            fade,
            old(light).spec_width(),
            old(light).spec_height(),
        ),
        valid_seed(init, old(light).spec_width(), old(light).spec_height()),
        n < old(light).contents().len(),
        nb <= MAX_BRIGHTNESS,
        forall|m: Seq<u8>|
            #[trigger] is_model(m, init, fade, old(light).spec_width(), old(light).spec_height())
                ==> nb <= m[n as int],
    ensures
        final(light).wf(),
        final(light).spec_width() == old(light).spec_width(),
        final(light).spec_height() == old(light).spec_height(),
        lit_inv(
            final(light).contents(),
            init,
            fade,
            old(light).spec_width(),
            old(light).spec_height(),
        ),
        old(light).contents()[n as int] < nb ==> final(light).contents() == old(
            light,
        ).contents().update(n as int, nb) && final(queue)@ == old(queue)@.push(n) && is_interior(
            old(light).spec_width(),
            old(light).spec_height(),
            n as int,
        ) && deficit(final(light).contents()) < deficit(old(light).contents()),
        old(light).contents()[n as int] >= nb ==> final(light).contents() == old(light).contents()
            && final(queue)@ == old(queue)@,
        final(light).contents()[n as int] >= nb,
        dominates(final(light).contents(), old(light).contents()),
{
    let ghost w = old(light).spec_width();
    let ghost h = old(light).spec_height();
    let cur = *light.get_index(n);
    if cur < nb {
        proof {
            // A border cell already sits at full brightness, so a strict
            // improvement target must be interior.
            if !is_interior(w, h, n as int) {
                assert(old(light).contents()[n as int] == init[n as int]);
                assert(init[n as int] == MAX_BRIGHTNESS);
            }
            lemma_deficit_update(old(light).contents(), n as int, nb);
        }
        light.set_index(n, nb);
        queue.push(n);
        proof {
            let new = light.contents();
            let prev = old(light).contents();
            assert forall|m: Seq<u8>| #[trigger] is_model(m, init, fade, w, h) implies dominates(
                m,
                new,
            ) by {
                assert(dominates(m, prev));
                assert(nb <= m[n as int]);
                assert forall|c: int| 0 <= c < new.len() implies #[trigger] m[c] >= new[c] by {
                    if c != n as int {
                        assert(new[c] == prev[c]);
                    }
                }
            }
        }
    }
}

/// What one call of `relax_neighbor` on cell `n` guarantees, phrased over
/// the sequences before and after the call.
spec fn relax_step(
    lpre: Seq<u8>,
    lpost: Seq<u8>,
    qpre: Seq<usize>,
    qpost: Seq<usize>,
    n: int,
    nb: u8,
    w: int,
    h: int,
) -> bool {
    &&& lpre.len() == lpost.len()
    &&& (lpre[n] < nb ==> lpost == lpre.update(n, nb) && qpost == qpre.push(n as usize)
        && is_interior(w, h, n) && deficit(lpost) < deficit(lpre))
    &&& (lpre[n] >= nb ==> lpost == lpre && qpost == qpre)
    &&& lpost[n] >= nb
    &&& dominates(lpost, lpre)
}

/// One round of the FIFO loop keeps its bookkeeping: after the popped cell
/// `c` has offered `nb` to its four neighbours, every interior cell that can
/// still fire sits in the queue ahead of the new head, the queue still holds
/// only interior cells, and either some cell rose (shrinking the deficit) or
/// nothing at all changed.
#[verifier::rlimit(100)]
proof fn lemma_relax_round(
    fd: Seq<u8>,
    w: int,
    h: int,
    l0: Seq<u8>,
    l1: Seq<u8>,
    l2: Seq<u8>,
    l3: Seq<u8>,
    l4: Seq<u8>,
    q0: Seq<usize>,
    q1: Seq<usize>,
    q2: Seq<usize>,
    q3: Seq<usize>,
    q4: Seq<usize>,
    c: int,
    nb: u8,
    head0: int,
)
    requires
        w >= 3,
        h >= 3,
        l0.len() == fd.len(),
        l0.len() == w * h,
        l0.len() <= usize::MAX,
        is_interior(w, h, c),
        0 <= head0 < q0.len(),
        q0[head0] as int == c,
        forall|q: int| 0 <= q < q0.len() ==> is_interior(w, h, #[trigger] q0[q] as int),
        forall|d: int|
            #[trigger] is_interior(w, h, d) && !relaxed_at(l0, fd, w, d) ==> exists|q: int|
                head0 <= q < q0.len() && q0[q] as int == d,
        nb >= l0[c] - fd[c],
        relax_step(l0, l1, q0, q1, c - 1, nb, w, h),
        relax_step(l1, l2, q1, q2, c + 1, nb, w, h),
        relax_step(l2, l3, q2, q3, c - w, nb, w, h),
        relax_step(l3, l4, q3, q4, c + w, nb, w, h),
    ensures
        l4.len() == l0.len(),
        forall|q: int| 0 <= q < q4.len() ==> is_interior(w, h, #[trigger] q4[q] as int),
        forall|d: int|
            #[trigger] is_interior(w, h, d) && !relaxed_at(l4, fd, w, d) ==> exists|q: int|
                head0 + 1 <= q < q4.len() && q4[q] as int == d,
        deficit(l4) < deficit(l0) || (l4 == l0 && q4 == q0),
{
    lemma_interior_neighbors(w, h, c);
    // The queue only grows, preserving its prefix, and gains only interior
    // cells.
    assert(q0.len() <= q1.len() <= q2.len() <= q3.len() <= q4.len());
    assert forall|q: int| 0 <= q < q4.len() implies is_interior(w, h, #[trigger] q4[q] as int) by {
        if q < q0.len() {
            assert(q4[q] == q0[q]);
        } else if q < q1.len() {
            assert(q1 == q0.push((c - 1) as usize));
            assert(q4[q] == q1[q]);
        } else if q < q2.len() {
            assert(q2 == q1.push((c + 1) as usize));
            assert(q4[q] == q2[q]);
        } else if q < q3.len() {
            assert(q3 == q2.push((c - w) as usize));
            assert(q4[q] == q3[q]);
        } else {
            assert(q4 == q3.push((c + w) as usize));
        }
    }
    // The popped cell itself is settled now: it kept its value and its
    // neighbours all cover nb.
    assert(l4[c] == l0[c]);
    assert(l4[c - 1] >= nb && l4[c + 1] >= nb && l4[c - w] >= nb && l4[c + w] >= nb);
    assert(relaxed_at(l4, fd, w, c));
    assert forall|d: int| #[trigger] is_interior(w, h, d) && !relaxed_at(l4, fd, w, d) implies exists|
        q: int,
    | head0 + 1 <= q < q4.len() && q4[q] as int == d by {
        lemma_interior_neighbors(w, h, d);
        if l4[d] == l0[d] {
            assert(d != c);
            assert(l0[d - 1] <= l4[d - 1] && l0[d + 1] <= l4[d + 1] && l0[d - w] <= l4[d - w] && l0[
                d + w] <= l4[d + w]);
            assert(!relaxed_at(l0, fd, w, d));
            let q = choose|q: int| head0 <= q < q0.len() && q0[q] as int == d;
            assert(q != head0);
            assert(q4[q] == q0[q]);
        } else {
            if l1[d] != l0[d] {
                assert(d == c - 1);
                assert(q1 == q0.push((c - 1) as usize));
                assert(q1[q0.len() as int] as int == d);
                assert(q4[q0.len() as int] as int == d);
            } else if l2[d] != l1[d] {
                assert(d == c + 1);
                assert(q2 == q1.push((c + 1) as usize));
                assert(q2[q1.len() as int] as int == d);
                assert(q4[q1.len() as int] as int == d);
            } else if l3[d] != l2[d] {
                assert(d == c - w);
                assert(q3 == q2.push((c - w) as usize));
                assert(q3[q2.len() as int] as int == d);
                assert(q4[q2.len() as int] as int == d);
            } else {
                assert(l4[d] != l3[d]);
                assert(d == c + w);
                assert(q4 == q3.push((c + w) as usize));
                assert(q4[q3.len() as int] as int == d);
            }
        }
    }
    // Either a cell rose somewhere, or the whole round was a no-op.
    if l1 != l0 {
        assert(deficit(l1) < deficit(l0));
        assert(deficit(l2) <= deficit(l1) && deficit(l3) <= deficit(l2) && deficit(l4) <= deficit(
            l3,
        ));
    } else if l2 != l1 {
        assert(deficit(l2) < deficit(l1));
        assert(deficit(l3) <= deficit(l2) && deficit(l4) <= deficit(l3));
    } else if l3 != l2 {
        assert(deficit(l3) < deficit(l2));
        assert(deficit(l4) <= deficit(l3));
    } else if l4 != l3 {
        assert(deficit(l4) < deficit(l3));
    }
}

/// Pops the queued cell at `head` and offers its faded brightness to its four
/// orthogonal neighbours, queueing every neighbour that rose.
#[verifier::rlimit(100)]
#[verifier::spinoff_prover]
fn process_cell(
    light: &mut Array2D<u8>,
    fade: &Array2D<u8>,
    queue: &mut Vec<usize>,
    head: usize,
    Ghost(init): Ghost<Seq<u8>>,
    Ghost(fd): Ghost<Seq<u8>>,
)
    requires
        old(light).wf(),
        fade.wf(),
        fade.spec_width() == old(light).spec_width(),
        fade.spec_height() == old(light).spec_height(),
        old(light).spec_width() >= 3,
        old(light).spec_height() >= 3,
        fd == fade.contents(),
        fd.len() == init.len(),
        init.len() == old(light).contents().len(),
        head < old(queue)@.len(),
        forall|q: int|
            0 <= q < old(queue)@.len() ==> is_interior(
                old(light).spec_width(),
                old(light).spec_height(),
                #[trigger] old(queue)@[q] as int,
            ),
        lit_inv(old(light).contents(), init, fd, old(light).spec_width(), old(light).spec_height()),
        valid_seed(init, old(light).spec_width(), old(light).spec_height()),
        forall|c: int|
            #[trigger] is_interior(old(light).spec_width(), old(light).spec_height(), c)
                && !relaxed_at(old(light).contents(), fd, old(light).spec_width(), c) ==> exists|
                q: int,
            | head <= q < old(queue)@.len() && old(queue)@[q] as int == c,
    ensures
        final(light).wf(),
        final(light).spec_width() == old(light).spec_width(),
        final(light).spec_height() == old(light).spec_height(),
        final(light).contents().len() == old(light).contents().len(),
        old(queue)@.len() <= final(queue)@.len(),
        forall|q: int|
            0 <= q < final(queue)@.len() ==> is_interior(
                old(light).spec_width(),
                old(light).spec_height(),
                #[trigger] final(queue)@[q] as int,
            ),
        lit_inv(
            final(light).contents(),
            init,
            fd,
            old(light).spec_width(),
            old(light).spec_height(),
        ),
        forall|c: int|
            #[trigger] is_interior(old(light).spec_width(), old(light).spec_height(), c)
                && !relaxed_at(final(light).contents(), fd, old(light).spec_width(), c) ==> exists|
                q: int,
            | head + 1 <= q < final(queue)@.len() && final(queue)@[q] as int == c,
        deficit(final(light).contents()) < deficit(old(light).contents()) || (final(light).contents() == old(light).contents() && final(queue)@ == old(queue)@),
{
    let ghost wi = old(light).spec_width();
    let ghost hi = old(light).spec_height();
    let ghost l0 = light.contents();
    let ghost q0 = queue@;
    let (w, _h) = light.size();
    let len = light.raw().len();
    let c = queue[head];
    proof {
        lemma_interior_neighbors(wi, hi, c as int);
    }
    let b = *light.get_index(c);
    let f = *fade.get_index(c);
    let nb = if b >= f {
        b - f
    } else {
        0
    };
    proof {
        // Every model already covers nb at each of c's neighbours: it is
        // settled at c and sits above the current field.
        assert forall|m: Seq<u8>| #[trigger] is_model(m, init, fd, wi, hi) implies nb <= m[c as int
            - 1] && nb <= m[c as int + 1] && nb <= m[c as int - wi] && nb <= m[c as int + wi] by {
            assert(dominates(m, l0));
            assert(m[c as int] >= l0[c as int]);
            assert(relaxed_at(m, fd, wi, c as int));
        }
    }
    relax_neighbor(light, queue, c - 1, nb, Ghost(init), Ghost(fd));
    let ghost l1 = light.contents();
    let ghost q1 = queue@;
    relax_neighbor(light, queue, c + 1, nb, Ghost(init), Ghost(fd));
    let ghost l2 = light.contents();
    let ghost q2 = queue@;
    relax_neighbor(light, queue, c - w, nb, Ghost(init), Ghost(fd));
    let ghost l3 = light.contents();
    let ghost q3 = queue@;
    relax_neighbor(light, queue, c + w, nb, Ghost(init), Ghost(fd));
    proof {
        let l4 = light.contents();
        let q4 = queue@;
        assert(relax_step(l0, l1, q0, q1, c as int - 1, nb, wi, hi));
        assert(relax_step(l1, l2, q1, q2, c as int + 1, nb, wi, hi));
        assert(relax_step(l2, l3, q2, q3, c as int - wi, nb, wi, hi));
        assert(relax_step(l3, l4, q3, q4, c as int + wi, nb, wi, hi));
        lemma_relax_round(
            fd,
            wi,
            hi,
            l0,
            l1,
            l2,
            l3,
            l4,
            q0,
            q1,
            q2,
            q3,
            q4,
            c as int,
            nb,
            head as int,
        );
    }
}

/// FIFO breadth-first relaxation from the queued source cells.  Pops a cell,
/// subtracts its fade from its brightness (saturating), and raises any of its
/// four orthogonal neighbours that sit strictly below that value, queueing
/// each raised cell.  On return no further relaxation is possible, the field
/// has only grown, the border ring is untouched, and the result sits below
/// every brightness field that covers the seeds and admits no relaxation: the
/// outcome is the least fixpoint above the seeds, independent of the FIFO
/// order.
pub fn propogate_light_map_unbounded(
    light: &mut Array2D<u8>,
    fade: &Array2D<u8>,
    lights: Vec<usize>,
)
    requires
        old(light).wf(),
        fade.wf(),
        fade.spec_width() == old(light).spec_width(),
        fade.spec_height() == old(light).spec_height(),
        old(light).spec_width() >= 3,
        old(light).spec_height() >= 3,
        forall|q: int|
            0 <= q < lights@.len() ==> is_interior(
                old(light).spec_width(),
                old(light).spec_height(),
                #[trigger] lights@[q] as int,
            ),
        forall|c: int|
            0 <= c < old(light).contents().len() ==> #[trigger] old(light).contents()[c]
                <= MAX_BRIGHTNESS,
        valid_seed(old(light).contents(), old(light).spec_width(), old(light).spec_height()),
        forall|c: int|
            #[trigger] is_interior(old(light).spec_width(), old(light).spec_height(), c)
                && !relaxed_at(
                old(light).contents(),
                fade.contents(),
                old(light).spec_width(),
                c,
            ) ==> exists|q: int| 0 <= q < lights@.len() && lights@[q] as int == c,
    ensures
        final(light).wf(),
        final(light).spec_width() == old(light).spec_width(),
        final(light).spec_height() == old(light).spec_height(),
        dominates(final(light).contents(), old(light).contents()),
        forall|c: int|
            0 <= c < final(light).contents().len() && !is_interior(
                old(light).spec_width(),
                old(light).spec_height(),
                c,
            ) ==> #[trigger] final(light).contents()[c] == old(light).contents()[c],
        forall|c: int|
            0 <= c < final(light).contents().len() ==> #[trigger] final(light).contents()[c]
                <= MAX_BRIGHTNESS,
        settled(
            final(light).contents(),
            fade.contents(),
            old(light).spec_width(),
            old(light).spec_height(),
        ),
        forall|m: Seq<u8>|
            #[trigger] is_model(
                m,
                old(light).contents(),
                fade.contents(),
                old(light).spec_width(),
                old(light).spec_height(),
            ) ==> dominates(m, final(light).contents()),
{
    let ghost wi = old(light).spec_width();
    let ghost hi = old(light).spec_height();
    let ghost init = light.contents();
    let ghost fd = fade.contents();
    let mut queue: Vec<usize> = lights;
    let mut head: usize = 0;
    while head < queue.len()
        invariant
            light.wf(),
            fade.wf(),
            wi == light.spec_width(),
            hi == light.spec_height(),
            wi == fade.spec_width(),
            hi == fade.spec_height(),
            wi >= 3,
            hi >= 3,
            fd == fade.contents(),
            fd.len() == init.len(),
            init.len() == light.contents().len(),
            head <= queue@.len(),
            forall|q: int|
                0 <= q < queue@.len() ==> is_interior(wi, hi, #[trigger] queue@[q] as int),
            lit_inv(light.contents(), init, fd, wi, hi),
            valid_seed(init, wi, hi),
            forall|c: int|
                #[trigger] is_interior(wi, hi, c) && !relaxed_at(light.contents(), fd, wi, c)
                    ==> exists|q: int| head <= q < queue@.len() && queue@[q] as int == c,
        decreases deficit(light.contents()), queue@.len() - head,
    {
        proof {
            lemma_deficit_nonneg(light.contents());
        }
        process_cell(light, fade, &mut queue, head, Ghost(init), Ghost(fd));
        proof {
            lemma_deficit_nonneg(light.contents());
        }
        head = head + 1;
    }
}

/// Row-major position of the interior cell `c` within the interior rectangle
/// of a `w`-wide light map.
pub open spec fn gen_pos(w: int, c: int) -> int {
    (c / w - 1) * (w - 2) + (c % w - 1)
}

/// The interior cell at row-major interior position `k` of a `w`-wide light
/// map.
pub open spec fn gen_cell(w: int, k: int) -> int {
    (1 + k / (w - 2)) * w + (1 + k % (w - 2))
}

/// Interior cells and interior positions are in bijection.
pub proof fn lemma_gen_cell(w: int, h: int, k: int)
    requires
        w >= 3,
        h >= 3,
        0 <= k < (w - 2) * (h - 2),
    ensures
        is_interior(w, h, gen_cell(w, k)),
        gen_pos(w, gen_cell(w, k)) == k,
        gen_cell(w, k) % w == 1 + k % (w - 2),
        gen_cell(w, k) / w == 1 + k / (w - 2),
        0 <= gen_cell(w, k) < w * h,
{
    let rw = w - 2;
    lemma_mod_bound(k, rw);
    lemma_fundamental_div_mod(k, rw);
    assert(0 <= k / rw < h - 2) by (nonlinear_arith)
        requires
            k == rw * (k / rw) + k % rw,
            0 <= k < rw * (h - 2),
            0 <= k % rw < rw,
            rw >= 1,
    ;
    let c = gen_cell(w, k);
    lemma_fundamental_div_mod_converse(c, w, 1 + k / rw, 1 + k % rw);
    lemma_interior_neighbors(w, h, c);
}

/// The interior position of an interior cell leads back to that cell.
pub proof fn lemma_gen_pos(w: int, h: int, c: int)
    requires
        is_interior(w, h, c),
    ensures
        0 <= gen_pos(w, c) < (w - 2) * (h - 2),
        gen_cell(w, gen_pos(w, c)) == c,
{
    let rw = w - 2;
    let k = gen_pos(w, c);
    lemma_fundamental_div_mod(c, w);
    lemma_mod_bound(c, w);
    lemma_fundamental_div_mod_converse(k, rw, c / w - 1, c % w - 1);
    assert(0 <= k < rw * (h - 2)) by (nonlinear_arith)
        requires
            k == (c / w - 1) * rw + (c % w - 1),
            0 <= c % w - 1 < rw,
            0 <= c / w - 1 < h - 2,
            rw >= 1,
    ;
    assert(gen_cell(w, k) == c) by (nonlinear_arith)
        requires
            k % rw == c % w - 1,
            k / rw == c / w - 1,
            gen_cell(w, k) == (1 + k / rw) * w + (1 + k % rw),
            c == w * (c / w) + c % w,
    ;
}

/// Clears every interior cell of the light map to full darkness, leaving the
/// border ring untouched.
pub fn clear_interior(light: &mut Array2D<u8>)
    requires
        old(light).wf(),
        old(light).spec_width() >= 3,
        old(light).spec_height() >= 3,
    ensures
        final(light).wf(),
        final(light).spec_width() == old(light).spec_width(),
        final(light).spec_height() == old(light).spec_height(),
        forall|c: int|
            0 <= c < final(light).contents().len() ==> #[trigger] final(light).contents()[c] == (
            if is_interior(old(light).spec_width(), old(light).spec_height(), c) {
                MIN_BRIGHTNESS
            } else {
                old(light).contents()[c]
            }),
{
    let (w, h) = light.size();
    let ghost wi = w as int;
    let ghost hi = h as int;
    let n = light.raw().len();
    let visits = for_each_sub_wrapping(w, h, 1, w - 1, 1, h - 1);
    let mut k: usize = 0;
    while k < visits.len()
        invariant
            light.wf(),
            wi == light.spec_width(),
            hi == light.spec_height(),
            wi >= 3,
            hi >= 3,
            wi <= usize::MAX,
            hi <= usize::MAX,
            n == light.contents().len(),
            n == wi * hi,
            k <= visits@.len(),
            visits@.len() == (wi - 2) * (hi - 2),
            forall|kk: int|
                0 <= kk < visits@.len() ==> #[trigger] visits@[kk] == rect_visit(
                    wi,
                    hi,
                    1,
                    wi - 1,
                    1,
                    kk,
                ),
            forall|c: int|
                0 <= c < n ==> #[trigger] light.contents()[c] == (
                if is_interior(wi, hi, c) && gen_pos(wi, c) < k {
                    MIN_BRIGHTNESS
                } else {
                    old(light).contents()[c]
                }),
        decreases visits@.len() - k,
    {
        proof {
            lemma_rect_visit_bounds(wi, hi, 1, wi - 1, 1, hi - 1, k as int);
            lemma_gen_cell(wi, hi, k as int);
            lemma_small_mod_int((1 + k as int % (wi - 2)), wi);
            lemma_small_mod_int((1 + k as int / (wi - 2)), hi);
        }
        let (_, _, idx) = visits[k];
        light.set_index(idx, MIN_BRIGHTNESS);
        proof {
            assert(idx as int == gen_cell(wi, k as int));
            assert forall|c: int| 0 <= c < n implies #[trigger] light.contents()[c] == (
            if is_interior(wi, hi, c) && gen_pos(wi, c) < k + 1 {
                MIN_BRIGHTNESS
            } else {
                old(light).contents()[c]
            }) by {
                if c != idx as int && is_interior(wi, hi, c) && gen_pos(wi, c) == k as int {
                    lemma_gen_pos(wi, hi, c);
                }
            }
        }
        k = k + 1;
    }
    proof {
        assert forall|c: int| 0 <= c < n implies #[trigger] light.contents()[c] == (
        if is_interior(wi, hi, c) {
            MIN_BRIGHTNESS
        } else {
            old(light).contents()[c]
        }) by {
            if is_interior(wi, hi, c) {
                lemma_gen_pos(wi, hi, c);
            }
        }
    }
}

/// A value already below the modulus is its own remainder.
proof fn lemma_small_mod_int(x: int, m: int)
    requires
        0 <= x < m,
    ensures
        x % m == x,
{
    lemma_fundamental_div_mod_converse(x, m, 0, x);
}

/// Storage index in the tile grids of the world tile that the light-map cell
/// `c` covers, for a light window whose tile origin is `(x, y)`.
pub open spec fn tile_index(tw: int, th: int, x: int, y: int, w: int, c: int) -> int {
    wrap_index(tw, th, x + c % w, y + c / w)
}

/// Both tile layers under light-map cell `c` are open sky.
pub open spec fn sky_at(
    fgs: Seq<Tile>,
    bgs: Seq<Tile>,
    tw: int,
    th: int,
    x: int,
    y: int,
    w: int,
    c: int,
) -> bool {
    &&& fgs[tile_index(tw, th, x, y, w, c)] == Tile::Air
    &&& bgs[tile_index(tw, th, x, y, w, c)] == Tile::Air
}

/// The fade the tiles under light-map cell `c` dictate: open sky fades least,
/// a bare background wall is transparent, a solid foreground is opaque.
pub open spec fn fade_of(
    fgs: Seq<Tile>,
    bgs: Seq<Tile>,
    tw: int,
    th: int,
    x: int,
    y: int,
    w: int,
    c: int,
) -> u8 {
    let t = tile_index(tw, th, x, y, w, c);
    if fgs[t] == Tile::Air && bgs[t] == Tile::Air {
        MIN_FADE
    } else if fgs[t] == Tile::Air {
        TRANSPARENT_FADE
    } else {
        OPAQUE_FADE
    }
}

/// The tile-space origin of the light window for a viewport at pixel `view_x`.
pub open spec fn view_tile_origin(view_x: int) -> int {
    let t = view_x / TILE_SIZE as int;
    if t >= MAX_LIGHT_DISTANCE {
        t - MAX_LIGHT_DISTANCE
    } else {
        0
    }
}

/// Interior positions enumerate interior cells in ascending storage order.
proof fn lemma_gen_cell_mono(w: int, h: int, k1: int, k2: int)
    requires
        w >= 3,
        h >= 3,
        0 <= k1 < k2 < (w - 2) * (h - 2),
    ensures
        gen_cell(w, k1) < gen_cell(w, k2),
{
    let rw = w - 2;
    lemma_fundamental_div_mod(k1, rw);
    lemma_fundamental_div_mod(k2, rw);
    lemma_mod_bound(k1, rw);
    lemma_mod_bound(k2, rw);
    assert(gen_cell(w, k1) < gen_cell(w, k2)) by (nonlinear_arith)
        requires
            k1 == rw * (k1 / rw) + k1 % rw,
            k2 == rw * (k2 / rw) + k2 % rw,
            0 <= k1 % rw < rw,
            0 <= k2 % rw < rw,
            k1 < k2,
            3 <= w,
            rw == w - 2,
            gen_cell(w, k1) == (1 + k1 / rw) * w + (1 + k1 % rw),
            gen_cell(w, k2) == (1 + k2 / rw) * w + (1 + k2 % rw),
    ;
}

/// Rebuilds the fade map and the brightness seeds from the tiles under the
/// light window: an open-sky cell (both layers air) becomes a full-brightness
/// light source and is queued; a cell with only a background wall fades
/// transparently; a solid foreground fades opaquely.  Only the interior of
/// the light window is touched, and the returned queue lists exactly the
/// open-sky interior cells, in ascending storage order.
#[verifier::rlimit(100)]
#[verifier::spinoff_prover]
pub fn gen_fade_map(
    view_x: usize,
    view_y: usize,
    foreground_tiles: &FastArray2D<Tile>,
    background_tiles: &FastArray2D<Tile>,
    fade_map: &mut Array2D<u8>,
    light_map: &mut Array2D<u8>,
) -> (lights: Vec<usize>)
    requires
        old(light_map).wf(),
        old(fade_map).wf(),
        old(fade_map).spec_width() == old(light_map).spec_width(),
        old(fade_map).spec_height() == old(light_map).spec_height(),
        old(light_map).spec_width() >= 3,
        old(light_map).spec_height() >= 3,
        foreground_tiles.wf(),
        background_tiles.wf(),
        background_tiles.spec_width() == foreground_tiles.spec_width(),
        background_tiles.spec_height() == foreground_tiles.spec_height(),
        old(light_map).spec_width() - 2 <= foreground_tiles.spec_width(),
        old(light_map).spec_height() - 2 <= foreground_tiles.spec_height(),
        view_x as int / TILE_SIZE as int + old(light_map).spec_width() <= usize::MAX,
        view_y as int / TILE_SIZE as int + old(light_map).spec_height() <= usize::MAX,
    ensures
        ({
            let w = old(light_map).spec_width();
            let h = old(light_map).spec_height();
            let tw = foreground_tiles.spec_width();
            let th = foreground_tiles.spec_height();
            let x = view_tile_origin(view_x as int);
            let y = view_tile_origin(view_y as int);
            let fgs = foreground_tiles.contents();
            let bgs = background_tiles.contents();
            &&& final(light_map).wf()
            &&& final(light_map).spec_width() == w
            &&& final(light_map).spec_height() == h
            &&& final(fade_map).wf()
            &&& final(fade_map).spec_width() == w
            &&& final(fade_map).spec_height() == h
            &&& (forall|c: int|
                0 <= c < final(light_map).contents().len()
                    ==> #[trigger] final(light_map).contents()[c] == (
                if is_interior(w, h, c) && sky_at(fgs, bgs, tw, th, x, y, w, c) {
                    MAX_BRIGHTNESS
                } else {
                    old(light_map).contents()[c]
                }))
            &&& (forall|c: int|
                0 <= c < final(fade_map).contents().len()
                    ==> #[trigger] final(fade_map).contents()[c] == (
                if is_interior(w, h, c) {
                    fade_of(fgs, bgs, tw, th, x, y, w, c)
                } else {
                    old(fade_map).contents()[c]
                }))
            &&& (forall|q: int|
                0 <= q < lights@.len() ==> is_interior(w, h, #[trigger] lights@[q] as int)
                    && sky_at(fgs, bgs, tw, th, x, y, w, lights@[q] as int))
            &&& (forall|c: int|
                is_interior(w, h, c) && #[trigger] sky_at(fgs, bgs, tw, th, x, y, w, c)
                    ==> exists|q: int| 0 <= q < lights@.len() && lights@[q] as int == c)
            &&& (forall|q1: int, q2: int|
                0 <= q1 < q2 < lights@.len() ==> #[trigger] lights@[q1] < #[trigger] lights@[q2])
        }),
{
    let (w, h) = light_map.size();
    let (tw, th) = foreground_tiles.size();
    let ghost wi = w as int;
    let ghost hi = h as int;
    let ghost twi = tw as int;
    let ghost thi = th as int;
    let ghost fgs = foreground_tiles.contents();
    let ghost bgs = background_tiles.contents();
    let n = light_map.raw().len();
    let tx = ifdiv(view_x, TILE_SIZE);
    let ty = ifdiv(view_y, TILE_SIZE);
    let x = if tx >= MAX_LIGHT_DISTANCE {
        tx - MAX_LIGHT_DISTANCE
    } else {
        0
    };
    let y = if ty >= MAX_LIGHT_DISTANCE {
        ty - MAX_LIGHT_DISTANCE
    } else {
        0
    };
    let ghost xi = x as int;
    let ghost yi = y as int;
    proof {
        foreground_tiles.lemma_wf_dims();
        background_tiles.lemma_wf_dims();
    }
    let visits = for_each_sub_wrapping(tw, th, x + 1, x + w - 1, y + 1, y + h - 1);
    let mut lights: Vec<usize> = Vec::new();
    let mut k: usize = 0;
    while k < visits.len()
        invariant
            light_map.wf(),
            fade_map.wf(),
            wi == light_map.spec_width(),
            hi == light_map.spec_height(),
            wi == fade_map.spec_width(),
            hi == fade_map.spec_height(),
            wi >= 3,
            hi >= 3,
            wi <= usize::MAX,
            hi <= usize::MAX,
            foreground_tiles.wf(),
            background_tiles.wf(),
            twi == foreground_tiles.spec_width(),
            thi == foreground_tiles.spec_height(),
            twi == background_tiles.spec_width(),
            thi == background_tiles.spec_height(),
            twi > 0,
            thi > 0,
            twi * thi <= usize::MAX,
            fgs == foreground_tiles.contents(),
            bgs == background_tiles.contents(),
            fgs.len() == twi * thi,
            bgs.len() == twi * thi,
            n == light_map.contents().len(),
            n == wi * hi,
            fade_map.contents().len() == n,
            xi == x as int,
            yi == y as int,
            wi == w as int,
            hi == h as int,
            twi == tw as int,
            thi == th as int,
            x + w <= usize::MAX,
            y + h <= usize::MAX,
            wi - 2 <= twi,
            hi - 2 <= thi,
            k <= visits@.len(),
            visits@.len() == (wi - 2) * (hi - 2),
            forall|kk: int|
                0 <= kk < visits@.len() ==> #[trigger] visits@[kk] == rect_visit(
                    twi,
                    thi,
                    xi + 1,
                    xi + wi - 1,
                    yi + 1,
                    kk,
                ),
            forall|c: int|
                0 <= c < n ==> #[trigger] light_map.contents()[c] == (
                if is_interior(wi, hi, c) && gen_pos(wi, c) < k && sky_at(
                    fgs,
                    bgs,
                    twi,
                    thi,
                    xi,
                    yi,
                    wi,
                    c,
                ) {
                    MAX_BRIGHTNESS
                } else {
                    old(light_map).contents()[c]
                }),
            forall|c: int|
                0 <= c < n ==> #[trigger] fade_map.contents()[c] == (
                if is_interior(wi, hi, c) && gen_pos(wi, c) < k {
                    fade_of(fgs, bgs, twi, thi, xi, yi, wi, c)
                } else {
                    old(fade_map).contents()[c]
                }),
            forall|q: int|
                0 <= q < lights@.len() ==> is_interior(wi, hi, #[trigger] lights@[q] as int)
                    && sky_at(fgs, bgs, twi, thi, xi, yi, wi, lights@[q] as int) && (gen_pos(
                    wi,
                    lights@[q] as int,
                ) < k) && ((lights@[q] as int) < gen_cell(wi, k as int)),
            forall|c: int|
                is_interior(wi, hi, c) && gen_pos(wi, c) < k && #[trigger] sky_at(
                    fgs,
                    bgs,
                    twi,
                    thi,
                    xi,
                    yi,
                    wi,
                    c,
                ) ==> exists|q: int| 0 <= q < lights@.len() && lights@[q] as int == c,
            forall|q1: int, q2: int|
                0 <= q1 < q2 < lights@.len() ==> #[trigger] lights@[q1] < #[trigger] lights@[q2],
        decreases visits@.len() - k,
    {
        proof {
            lemma_rect_visit_bounds(twi, thi, xi + 1, xi + wi - 1, yi + 1, yi + hi - 1, k as int);
            lemma_gen_cell(wi, hi, k as int);
            assert((hi - 1) * wi + (wi - 1) < wi * hi) by (nonlinear_arith)
                requires
                    wi >= 3,
                    hi >= 3,
            ;
        }
        let (vx, vy, t_idx) = visits[k];
        proof {
            assert((vy as int - yi) * wi <= (hi - 1) * wi) by (nonlinear_arith)
                requires
                    vy as int - yi <= hi - 1,
                    wi >= 3,
            ;
        }
        let li = (vx - x) + (vy - y) * w;
        proof {
            assert(li as int == gen_cell(wi, k as int));
            assert(tile_index(twi, thi, xi, yi, wi, li as int) == t_idx as int);
        }
        let fg_tile = *foreground_tiles.get_index(t_idx);
        let bg_tile = *background_tiles.get_index(t_idx);
        let ghost prev_light = light_map.contents();
        let ghost prev_fade = fade_map.contents();
        let ghost prev_lights = lights@;
        match (fg_tile, bg_tile) {
            (Tile::Air, Tile::Air) => {
                light_map.set_index(li, MAX_BRIGHTNESS);
                fade_map.set_index(li, MIN_FADE);
                lights.push(li);
            },
            (Tile::Air, _) => {
                fade_map.set_index(li, TRANSPARENT_FADE);
            },
            (_, _) => {
                fade_map.set_index(li, OPAQUE_FADE);
            },
        }
        proof {
            let kk1 = k + 1;
            assert forall|c: int| 0 <= c < n implies #[trigger] light_map.contents()[c] == (
            if is_interior(wi, hi, c) && gen_pos(wi, c) < kk1 && sky_at(
                fgs,
                bgs,
                twi,
                thi,
                xi,
                yi,
                wi,
                c,
            ) {
                MAX_BRIGHTNESS
            } else {
                old(light_map).contents()[c]
            }) by {
                if c != li as int && is_interior(wi, hi, c) && gen_pos(wi, c) == k as int {
                    lemma_gen_pos(wi, hi, c);
                }
            }
            assert forall|c: int| 0 <= c < n implies #[trigger] fade_map.contents()[c] == (
            if is_interior(wi, hi, c) && gen_pos(wi, c) < kk1 {
                fade_of(fgs, bgs, twi, thi, xi, yi, wi, c)
            } else {
                old(fade_map).contents()[c]
            }) by {
                if c != li as int && is_interior(wi, hi, c) && gen_pos(wi, c) == k as int {
                    lemma_gen_pos(wi, hi, c);
                }
            }
            if k + 1 < visits@.len() {
                lemma_gen_cell_mono(wi, hi, k as int, k as int + 1);
            }
            assert forall|q: int| 0 <= q < lights@.len() implies is_interior(
                wi,
                hi,
                #[trigger] lights@[q] as int,
            ) && sky_at(fgs, bgs, twi, thi, xi, yi, wi, lights@[q] as int) && (gen_pos(
                wi,
                lights@[q] as int,
            ) < kk1) && ((lights@[q] as int) < gen_cell(wi, kk1 as int)) by {
                if q < prev_lights.len() {
                    assert(lights@[q] == prev_lights[q]);
                    if k as int + 1 < (wi - 2) * (hi - 2) {
                    } else {
                        lemma_gen_cell_mono_edge(wi, hi, k as int);
                    }
                } else {
                    lemma_gen_cell_mono_edge(wi, hi, k as int);
                }
            }
            assert forall|c: int|
                is_interior(wi, hi, c) && gen_pos(wi, c) < kk1 && #[trigger] sky_at(
                    fgs,
                    bgs,
                    twi,
                    thi,
                    xi,
                    yi,
                    wi,
                    c,
                ) implies exists|q: int| 0 <= q < lights@.len() && lights@[q] as int == c by {
                if gen_pos(wi, c) < k as int {
                    let q = choose|q: int| 0 <= q < prev_lights.len() && prev_lights[q] as int == c;
                    assert(lights@[q] as int == c);
                } else {
                    lemma_gen_pos(wi, hi, c);
                    assert(c == li as int);
                    assert(lights@[lights@.len() - 1] as int == c);
                }
            }
        }
        k = k + 1;
    }
    proof {
        assert forall|c: int|
            is_interior(wi, hi, c) && #[trigger] sky_at(fgs, bgs, twi, thi, xi, yi, wi, c) implies exists|
            q: int,
        | 0 <= q < lights@.len() && lights@[q] as int == c by {
            lemma_gen_pos(wi, hi, c);
        }
        assert forall|c: int| 0 <= c < n implies #[trigger] light_map.contents()[c] == (
        if is_interior(wi, hi, c) && sky_at(fgs, bgs, twi, thi, xi, yi, wi, c) {
            MAX_BRIGHTNESS
        } else {
            old(light_map).contents()[c]
        }) by {
            if is_interior(wi, hi, c) {
                lemma_gen_pos(wi, hi, c);
            }
        }
        assert forall|c: int| 0 <= c < n implies #[trigger] fade_map.contents()[c] == (
        if is_interior(wi, hi, c) {
            fade_of(fgs, bgs, twi, thi, xi, yi, wi, c)
        } else {
            old(fade_map).contents()[c]
        }) by {
            if is_interior(wi, hi, c) {
                lemma_gen_pos(wi, hi, c);
            }
        }
    }
    lights
}

/// An interior position strictly below the cell count maps to a cell strictly
/// below the cell at any later position, and in particular below the
/// successor's cell even at the last position, where the successor cell is
/// taken by the formula alone.
proof fn lemma_gen_cell_mono_edge(w: int, h: int, k: int)
    requires
        w >= 3,
        h >= 3,
        0 <= k < (w - 2) * (h - 2),
    ensures
        gen_cell(w, k) < gen_cell(w, k + 1),
        forall|kk: int| 0 <= kk < k ==> #[trigger] gen_cell(w, kk) < gen_cell(w, k + 1),
{
    let rw = w - 2;
    lemma_fundamental_div_mod(k, rw);
    lemma_fundamental_div_mod(k + 1, rw);
    lemma_mod_bound(k, rw);
    lemma_mod_bound(k + 1, rw);
    assert(gen_cell(w, k) < gen_cell(w, k + 1)) by (nonlinear_arith)
        requires
            k == rw * (k / rw) + k % rw,
            k + 1 == rw * ((k + 1) / rw) + (k + 1) % rw,
            0 <= k % rw < rw,
            0 <= (k + 1) % rw < rw,
            3 <= w,
            rw == w - 2,
            gen_cell(w, k) == (1 + k / rw) * w + (1 + k % rw),
            gen_cell(w, k + 1) == (1 + (k + 1) / rw) * w + (1 + (k + 1) % rw),
    ;
    assert forall|kk: int| 0 <= kk < k implies #[trigger] gen_cell(w, kk) < gen_cell(w, k + 1) by {
        lemma_gen_cell_mono(w, h, kk, k);
    }
}

/// The brightness field immediately after a tick's clear-and-seed phase:
/// interior open-sky cells at full brightness, all other interior cells
/// fully dark, the border ring untouched.
pub open spec fn seeded_light(
    old_light: Seq<u8>,
    fgs: Seq<Tile>,
    bgs: Seq<Tile>,
    tw: int,
    th: int,
    x: int,
    y: int,
    w: int,
    h: int,
) -> Seq<u8> {
    Seq::new(
        old_light.len(),
        |c: int|
            if is_interior(w, h, c) {
                if sky_at(fgs, bgs, tw, th, x, y, w, c) {
                    MAX_BRIGHTNESS
                } else {
                    MIN_BRIGHTNESS
                }
            } else {
                old_light[c]
            },
    )
}

/// The fade field after a tick's seed phase: interior cells as the tiles
/// dictate, the border ring untouched.
pub open spec fn seeded_fade(
    old_fade: Seq<u8>,
    fgs: Seq<Tile>,
    bgs: Seq<Tile>,
    tw: int,
    th: int,
    x: int,
    y: int,
    w: int,
    h: int,
) -> Seq<u8> {
    Seq::new(
        old_fade.len(),
        |c: int|
            if is_interior(w, h, c) {
                fade_of(fgs, bgs, tw, th, x, y, w, c)
            } else {
                old_fade[c]
            },
    )
}

/// One full lighting tick: clears the interior of the light map, rebuilds
/// the fade map and the light sources from the tiles under the window, and
/// runs the diffusion to convergence.  Afterwards the fade map is exactly
/// what the tiles dictate, no further relaxation is possible anywhere, and
/// the brightness field is the least fixpoint above the seeded sources, so
/// the result is independent of relaxation order.
pub fn update_lighting(
    view_x: usize,
    view_y: usize,
    _view_w: usize,
    _view_h: usize,
    foreground_tiles: &FastArray2D<Tile>,
    background_tiles: &FastArray2D<Tile>,
    light_map: &mut Array2D<u8>,
    fade_map: &mut Array2D<u8>,
)
    requires
        old(light_map).wf(),
        old(fade_map).wf(),
        old(fade_map).spec_width() == old(light_map).spec_width(),
        old(fade_map).spec_height() == old(light_map).spec_height(),
        old(light_map).spec_width() >= 3,
        old(light_map).spec_height() >= 3,
        foreground_tiles.wf(),
        background_tiles.wf(),
        background_tiles.spec_width() == foreground_tiles.spec_width(),
        background_tiles.spec_height() == foreground_tiles.spec_height(),
        old(light_map).spec_width() - 2 <= foreground_tiles.spec_width(),
        old(light_map).spec_height() - 2 <= foreground_tiles.spec_height(),
        valid_seed(old(light_map).contents(), old(light_map).spec_width(), old(light_map).spec_height()),
        view_x as int / TILE_SIZE as int + old(light_map).spec_width() <= usize::MAX,
        view_y as int / TILE_SIZE as int + old(light_map).spec_height() <= usize::MAX,
    ensures
        ({
            let w = old(light_map).spec_width();
            let h = old(light_map).spec_height();
            let tw = foreground_tiles.spec_width();
            let th = foreground_tiles.spec_height();
            let x = view_tile_origin(view_x as int);
            let y = view_tile_origin(view_y as int);
            let fgs = foreground_tiles.contents();
            let bgs = background_tiles.contents();
            let seeds = seeded_light(old(light_map).contents(), fgs, bgs, tw, th, x, y, w, h);
            &&& final(light_map).wf()
            &&& final(light_map).spec_width() == w
            &&& final(light_map).spec_height() == h
            &&& final(fade_map).wf()
            &&& final(fade_map).spec_width() == w
            &&& final(fade_map).spec_height() == h
            &&& final(fade_map).contents() == seeded_fade(
                old(fade_map).contents(),
                fgs,
                bgs,
                tw,
                th,
                x,
                y,
                w,
                h,
            )
            &&& settled(final(light_map).contents(), final(fade_map).contents(), w, h)
            &&& dominates(final(light_map).contents(), seeds)
            &&& (forall|m: Seq<u8>|
                #[trigger] is_model(m, seeds, final(fade_map).contents(), w, h) ==> dominates(
                    m,
                    final(light_map).contents(),
                ))
            &&& (forall|c: int|
                0 <= c < final(light_map).contents().len() && !is_interior(w, h, c)
                    ==> #[trigger] final(light_map).contents()[c] == old(light_map).contents()[c])
            &&& (forall|c: int|
                0 <= c < final(light_map).contents().len()
                    ==> #[trigger] final(light_map).contents()[c] <= MAX_BRIGHTNESS)
        }),
{
    let ghost wi = old(light_map).spec_width();
    let ghost hi = old(light_map).spec_height();
    let ghost twi = foreground_tiles.spec_width();
    let ghost thi = foreground_tiles.spec_height();
    let ghost xi = view_tile_origin(view_x as int);
    let ghost yi = view_tile_origin(view_y as int);
    let ghost fgs = foreground_tiles.contents();
    let ghost bgs = background_tiles.contents();
    let ghost light0 = light_map.contents();
    let ghost fade0 = fade_map.contents();
    let ghost seeds = seeded_light(light0, fgs, bgs, twi, thi, xi, yi, wi, hi);
    let ghost sfade = seeded_fade(fade0, fgs, bgs, twi, thi, xi, yi, wi, hi);
    clear_interior(light_map);
    let lights = gen_fade_map(
        view_x,
        view_y,
        foreground_tiles,
        background_tiles,
        fade_map,
        light_map,
    );
    proof {
        assert(light_map.contents() =~= seeds);
        assert(fade_map.contents() =~= sfade);
        // Every light value is within bounds, and the border ring still sits
        // at full brightness.
        assert forall|c: int| 0 <= c < light_map.contents().len() implies #[trigger] light_map
            .contents()[c] <= MAX_BRIGHTNESS by {}
        // Any interior cell that is not a queued source is fully dark and so
        // already relaxed.
        assert forall|c: int|
            #[trigger] is_interior(wi, hi, c) && !relaxed_at(
                light_map.contents(),
                fade_map.contents(),
                wi,
                c,
            ) implies exists|q: int| 0 <= q < lights@.len() && lights@[q] as int == c by {
            lemma_interior_neighbors(wi, hi, c);
            if !sky_at(fgs, bgs, twi, thi, xi, yi, wi, c) {
                assert(light_map.contents()[c] == MIN_BRIGHTNESS);
                assert(relaxed_at(light_map.contents(), fade_map.contents(), wi, c));
            }
        }
    }
    propogate_light_map_unbounded(light_map, fade_map, lights);
}

} // verus!
