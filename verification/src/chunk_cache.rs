//! Chunk streaming: a wrap-addressed grid of `(chunk_x, chunk_y)` tags records
//! which world chunk each cache slot currently stands for.  As the viewport
//! moves, `request_chunks_from_server` retags the slots of the newly resident
//! chunk rectangle and emits one fetch request per changed tag.  Inbound chunk
//! and tile updates are applied only while the target slot still carries the
//! sender's chunk tag, which silently discards data that arrives after the
//! viewport has moved on.

use vstd::prelude::*;

verus! {

use crate::common::{ifdiv, icdiv};
use crate::fast_array2d::FastArray2D;
use crate::grid::{
    wrap_index,
    rect_visit,
    rect_covers,
    for_each_sub_wrapping,
    lemma_rect_visit_bounds,
    lemma_traversal_complete_unique,
};
use crate::net_event::NetEvent;
use crate::tile::{Tile, TILE_SIZE, CHUNK_SIZE, CHUNK_LOAD_BUFFER_SIZE};
use vstd::arithmetic::div_mod::{
    lemma_fundamental_div_mod,
    lemma_fundamental_div_mod_converse,
    lemma_div_is_ordered,
    lemma_mod_bound,
};

/// Load-buffer margin, in pixels, kept resident around the viewport.
pub const CHUNK_LOAD_BUFFER_SIZE_PX: usize = CHUNK_LOAD_BUFFER_SIZE * CHUNK_SIZE;

/// Chunk size in pixels.
pub const CHUNK_SIZE_PX: usize = TILE_SIZE * CHUNK_SIZE;

/// First chunk column that must be resident for a viewport at pixel `x`.
pub open spec fn window_x1(x: int) -> int {
    (if x >= CHUNK_LOAD_BUFFER_SIZE_PX {
        x - CHUNK_LOAD_BUFFER_SIZE_PX
    } else {
        0
    }) / CHUNK_SIZE_PX as int
}

/// One past the last chunk column that must be resident for a viewport at
/// pixel `x` with pixel width `w`.
pub open spec fn window_x2(x: int, w: int) -> int {
    (x + w + CHUNK_LOAD_BUFFER_SIZE_PX + (CHUNK_SIZE_PX - 1)) / CHUNK_SIZE_PX as int
}

/// The tag a slot carries once the chunk at visit `k` of the rectangle
/// `[x1, x2) x [y1, ..)` has been assigned to it.
pub open spec fn visit_tag(x1: int, x2: int, y1: int, k: int) -> (u16, u16) {
    (((x1 + k % (x2 - x1)) as u16), ((y1 + k / (x2 - x1)) as u16))
}

/// The fetch requests that retagging the first `k` visits of the chunk
/// rectangle emits, given the tags the cache held before the call: one
/// `RequestChunk` per visit whose slot was not already tagged with that
/// chunk, in traversal order.
pub open spec fn chunk_requests(
    tags: Seq<(u16, u16)>,
    w: int,
    h: int,
    x1: int,
    x2: int,
    y1: int,
    y2: int,
    k: int,
) -> Seq<NetEvent>
    decreases k,
{
    if k <= 0 {
        Seq::empty()
    } else {
        let prev = chunk_requests(tags, w, h, x1, x2, y1, y2, k - 1);
        let (vx, vy, idx) = rect_visit(w, h, x1, x2, y1, k - 1);
        if tags[idx as int] != visit_tag(x1, x2, y1, k - 1) {
            prev.push(NetEvent::RequestChunk((vx) as u16, (vy) as u16))
        } else {
            prev
        }
    }
}

/// The resident chunk window is never empty: the ceiling end always lies
/// beyond the floor start.
proof fn lemma_window_nonempty(x: int, w: int)
    requires
        x >= 0,
        w >= 0,
    ensures
        window_x1(x) < window_x2(x, w),
{
    let d = CHUNK_SIZE_PX as int;
    let a = if x >= CHUNK_LOAD_BUFFER_SIZE_PX {
        x - CHUNK_LOAD_BUFFER_SIZE_PX
    } else {
        0
    };
    let b = x + w + CHUNK_LOAD_BUFFER_SIZE_PX + (d - 1);
    lemma_fundamental_div_mod(a, d);
    lemma_mod_bound(a, d);
    let qa = a / d;
    let ra = a % d;
    // The window end covers at least one chunk past the start.
    assert(b >= a + 2 * d - 1);
    if ra == 0 {
        lemma_div_is_ordered(a + 2 * d - 1, b, d);
        lemma_fundamental_div_mod_converse(a + 2 * d - 1, d, qa + 1, d - 1);
    } else {
        lemma_div_is_ordered(a + 2 * d - 1, b, d);
        lemma_fundamental_div_mod_converse(a + 2 * d - 1, d, qa + 2, ra - 1);
    }
}

/// Compares the chunk rectangle that should now be resident for the viewport
/// at pixel position `(x, y)` with pixel size `(w, h)` against the cache
/// tags; retags every slot of that rectangle with the chunk it now stands
/// for, and appends to `outbound` exactly one `RequestChunk` per slot whose
/// tag changed, in traversal order.
pub fn request_chunks_from_server(
    x: usize,
    y: usize,
    w: usize,
    h: usize,
    chunks: &mut FastArray2D<(u16, u16)>,
    outbound: &mut Vec<NetEvent>,
)
    requires
        old(chunks).wf(),
        x + w + CHUNK_LOAD_BUFFER_SIZE_PX + CHUNK_SIZE_PX <= usize::MAX,
        y + h + CHUNK_LOAD_BUFFER_SIZE_PX + CHUNK_SIZE_PX <= usize::MAX,
        window_x2(x as int, w as int) - window_x1(x as int) <= old(chunks).spec_width(),
        window_x2(y as int, h as int) - window_x1(y as int) <= old(chunks).spec_height(),
        window_x2(x as int, w as int) <= 0x1_0000,
        window_x2(y as int, h as int) <= 0x1_0000,
    ensures
        final(chunks).wf(),
        final(chunks).spec_w_exp() == old(chunks).spec_w_exp(),
        final(chunks).spec_h_exp() == old(chunks).spec_h_exp(),
        final(chunks).spec_width() == old(chunks).spec_width(),
        final(chunks).spec_height() == old(chunks).spec_height(),
        // Every slot of the resident rectangle now carries its chunk's tag.
        forall|i: int, j: int|
            0 <= i < window_x2(x as int, w as int) - window_x1(x as int) && 0 <= j < window_x2(
                y as int,
                h as int,
            ) - window_x1(y as int) ==> #[trigger] final(chunks).cell(
                window_x1(x as int) + i,
                window_x1(y as int) + j,
            ) == (((window_x1(x as int) + i) as u16), ((window_x1(y as int) + j) as u16)),
        // Slots outside the rectangle's storage image are untouched.
        forall|idx: int|
            0 <= idx < old(chunks).contents().len() && !rect_covers(
                old(chunks).spec_width(),
                old(chunks).spec_height(),
                window_x1(x as int),
                window_x2(x as int, w as int),
                window_x1(y as int),
                window_x2(y as int, h as int),
                idx,
            ) ==> #[trigger] final(chunks).contents()[idx] == old(chunks).contents()[idx],
        // Exactly the transition requests are emitted, in traversal order.
        final(outbound)@ == old(outbound)@ + chunk_requests(
            old(chunks).contents(),
            old(chunks).spec_width(),
            old(chunks).spec_height(),
            window_x1(x as int),
            window_x2(x as int, w as int),
            window_x1(y as int),
            window_x2(y as int, h as int),
            (window_x2(x as int, w as int) - window_x1(x as int)) * (window_x2(y as int, h as int)
                - window_x1(y as int)),
        ),
{
    let x1 = ifdiv(
        if x >= CHUNK_LOAD_BUFFER_SIZE_PX {
            x - CHUNK_LOAD_BUFFER_SIZE_PX
        } else {
            0
        },
        CHUNK_SIZE_PX,
    );
    let y1 = ifdiv(
        if y >= CHUNK_LOAD_BUFFER_SIZE_PX {
            y - CHUNK_LOAD_BUFFER_SIZE_PX
        } else {
            0
        },
        CHUNK_SIZE_PX,
    );
    let x2 = icdiv(x + w + CHUNK_LOAD_BUFFER_SIZE_PX, CHUNK_SIZE_PX);
    let y2 = icdiv(y + h + CHUNK_LOAD_BUFFER_SIZE_PX, CHUNK_SIZE_PX);
    proof {
        lemma_window_nonempty(x as int, w as int);
        lemma_window_nonempty(y as int, h as int);
        chunks.lemma_wf_dims();
        lemma_traversal_complete_unique(
            chunks.spec_width(),
            chunks.spec_height(),
            x1 as int,
            x2 as int,
            y1 as int,
            y2 as int,
        );
    }
    let (cw, ch) = chunks.size();
    let ghost wi = cw as int;
    let ghost hi = ch as int;
    let ghost x1i = x1 as int;
    let ghost x2i = x2 as int;
    let ghost y1i = y1 as int;
    let ghost y2i = y2 as int;
    let ghost count = (x2i - x1i) * (y2i - y1i);
    let visits = for_each_sub_wrapping(cw, ch, x1, x2, y1, y2);
    let mut k: usize = 0;
    while k < visits.len()
        invariant
            chunks.wf(),
            wi == chunks.spec_width(),
            hi == chunks.spec_height(),
            chunks.spec_w_exp() == old(chunks).spec_w_exp(),
            chunks.spec_h_exp() == old(chunks).spec_h_exp(),
            chunks.contents().len() == old(chunks).contents().len(),
            wi > 0,
            hi > 0,
            wi * hi <= usize::MAX,
            chunks.contents().len() == wi * hi,
            x1 < x2,
            y1 < y2,
            x2 - x1 <= wi,
            y2 - y1 <= hi,
            x2 <= 0x1_0000,
            y2 <= 0x1_0000,
            x1i == x1 as int,
            x2i == x2 as int,
            y1i == y1 as int,
            y2i == y2 as int,
            count == (x2i - x1i) * (y2i - y1i),
            k <= visits@.len(),
            visits@.len() == count,
            forall|kk: int|
                0 <= kk < visits@.len() ==> #[trigger] visits@[kk] == rect_visit(
                    wi,
                    hi,
                    x1i,
                    x2i,
                    y1i,
                    kk,
                ),
            forall|k1: int, k2: int|
                #![trigger rect_visit(wi, hi, x1i, x2i, y1i, k1), rect_visit(wi, hi, x1i, x2i, y1i, k2)]
                0 <= k1 < k2 < count ==> rect_visit(wi, hi, x1i, x2i, y1i, k1).2 != rect_visit(
                    wi,
                    hi,
                    x1i,
                    x2i,
                    y1i,
                    k2,
                ).2,
            outbound@ == old(outbound)@ + chunk_requests(
                old(chunks).contents(),
                wi,
                hi,
                x1i,
                x2i,
                y1i,
                y2i,
                k as int,
            ),
            forall|kk: int|
                0 <= kk < k ==> #[trigger] chunks.contents()[visits@[kk].2 as int] == visit_tag(
                    x1i,
                    x2i,
                    y1i,
                    kk,
                ),
            forall|kk: int|
                k <= kk < count ==> #[trigger] chunks.contents()[visits@[kk].2 as int] == old(
                    chunks,
                ).contents()[visits@[kk].2 as int],
            forall|idx: int|
                0 <= idx < old(chunks).contents().len() && !rect_covers(
                    wi,
                    hi,
                    x1i,
                    x2i,
                    y1i,
                    y2i,
                    idx,
                ) ==> #[trigger] chunks.contents()[idx] == old(chunks).contents()[idx],
        decreases visits@.len() - k,
    {
        proof {
            lemma_rect_visit_bounds(wi, hi, x1i, x2i, y1i, y2i, k as int);
        }
        let (vx, vy, idx) = visits[k];
        let nx = vx as u16;
        let ny = vy as u16;
        let cur = *chunks.get_index(idx);
        let ghost prev = chunks.contents();
        let ghost prev_out = outbound@;
        if cur.0 != nx || cur.1 != ny {
            chunks.set_index(idx, (nx, ny));
            outbound.push(NetEvent::RequestChunk(nx, ny));
        }
        proof {
            assert(prev[idx as int] == old(chunks).contents()[idx as int]);
            assert(chunk_requests(old(chunks).contents(), wi, hi, x1i, x2i, y1i, y2i, k + 1)
                == if old(chunks).contents()[rect_visit(wi, hi, x1i, x2i, y1i, k as int).2 as int]
                != visit_tag(x1i, x2i, y1i, k as int) {
                chunk_requests(old(chunks).contents(), wi, hi, x1i, x2i, y1i, y2i, k as int).push(
                    NetEvent::RequestChunk(
                        (rect_visit(wi, hi, x1i, x2i, y1i, k as int).0) as u16,
                        (rect_visit(wi, hi, x1i, x2i, y1i, k as int).1) as u16,
                    ),
                )
            } else {
                chunk_requests(old(chunks).contents(), wi, hi, x1i, x2i, y1i, y2i, k as int)
            });
            assert(visit_tag(x1i, x2i, y1i, k as int) == (nx, ny));
            assert(outbound@ == old(outbound)@ + chunk_requests(
                old(chunks).contents(),
                wi,
                hi,
                x1i,
                x2i,
                y1i,
                y2i,
                k + 1,
            ));
            assert forall|kk: int| 0 <= kk < k + 1 implies #[trigger] chunks.contents()[visits@[kk].2 as int]
                == visit_tag(x1i, x2i, y1i, kk) by {
                if kk < k {
                    lemma_rect_visit_bounds(wi, hi, x1i, x2i, y1i, y2i, kk);
                    assert(visits@[kk] == rect_visit(wi, hi, x1i, x2i, y1i, kk));
                    assert(rect_visit(wi, hi, x1i, x2i, y1i, kk).2 != rect_visit(
                        wi,
                        hi,
                        x1i,
                        x2i,
                        y1i,
                        k as int,
                    ).2);
                    assert(chunks.contents()[visits@[kk].2 as int] == prev[visits@[kk].2 as int]);
                } else {
                    assert(chunks.contents()[idx as int] == (nx, ny));
                }
            }
            assert forall|kk: int| k + 1 <= kk < count implies #[trigger] chunks.contents()[visits@[kk].2 as int]
                == old(chunks).contents()[visits@[kk].2 as int] by {
                lemma_rect_visit_bounds(wi, hi, x1i, x2i, y1i, y2i, kk);
                assert(visits@[kk] == rect_visit(wi, hi, x1i, x2i, y1i, kk));
                assert(rect_visit(wi, hi, x1i, x2i, y1i, kk).2 != rect_visit(
                    wi,
                    hi,
                    x1i,
                    x2i,
                    y1i,
                    k as int,
                ).2);
                assert(chunks.contents()[visits@[kk].2 as int] == prev[visits@[kk].2 as int]);
            }
        }
        k = k + 1;
    }
    proof {
        assert forall|i: int, j: int|
            0 <= i < x2i - x1i && 0 <= j < y2i - y1i implies #[trigger] chunks.cell(
            x1i + i,
            y1i + j,
        ) == (((x1i + i) as u16), ((y1i + j) as u16)) by {
            let kk = j * (x2i - x1i) + i;
            lemma_fundamental_div_mod_converse(kk, x2i - x1i, j, i);
            assert(0 <= kk < count) by (nonlinear_arith)
                requires
                    kk == j * (x2i - x1i) + i,
                    count == (x2i - x1i) * (y2i - y1i),
                    0 <= i < x2i - x1i,
                    0 <= j < y2i - y1i,
            ;
            lemma_rect_visit_bounds(wi, hi, x1i, x2i, y1i, y2i, kk);
            assert(chunks.contents()[visits@[kk].2 as int] == visit_tag(x1i, x2i, y1i, kk));
        }
    }
}

/// Applies an inbound chunk payload to a tile grid only when the cache still
/// tags the target slot with exactly that chunk; a stale chunk (one whose
/// slot has been reassigned since the request) leaves the tiles unchanged.
pub fn apply_update_chunk(
    chunks: &FastArray2D<(u16, u16)>,
    tiles: &mut FastArray2D<Tile>,
    cx: u16,
    cy: u16,
    data: Vec<Tile>,
) -> (applied: bool)
    requires
        chunks.wf(),
        old(tiles).wf(),
        data@.len() == CHUNK_SIZE * CHUNK_SIZE,
        CHUNK_SIZE <= old(tiles).spec_width(),
        CHUNK_SIZE <= old(tiles).spec_height(),
    ensures
        applied == (chunks.cell(cx as int, cy as int) == ((cx, cy))),
        final(tiles).wf(),
        final(tiles).spec_w_exp() == old(tiles).spec_w_exp(),
        final(tiles).spec_h_exp() == old(tiles).spec_h_exp(),
        final(tiles).spec_width() == old(tiles).spec_width(),
        final(tiles).spec_height() == old(tiles).spec_height(),
        applied ==> forall|i: int, j: int|
            0 <= i < CHUNK_SIZE && 0 <= j < CHUNK_SIZE ==> #[trigger] final(tiles).cell(
                CHUNK_SIZE * cx as int + i,
                CHUNK_SIZE * cy as int + j,
            ) == data@[j * CHUNK_SIZE + i],
        applied ==> forall|idx: int|
            0 <= idx < old(tiles).contents().len() && !rect_covers(
                old(tiles).spec_width(),
                old(tiles).spec_height(),
                CHUNK_SIZE * cx as int,
                CHUNK_SIZE * (cx as int + 1),
                CHUNK_SIZE * cy as int,
                CHUNK_SIZE * (cy as int + 1),
                idx,
            ) ==> #[trigger] final(tiles).contents()[idx] == old(tiles).contents()[idx],
        !applied ==> *final(tiles) == *old(tiles),
{
    let tag = *chunks.get_wrapping(cx as usize, cy as usize);
    if tag.0 == cx && tag.1 == cy {
        tiles.splice_wrapping(
            CHUNK_SIZE * cx as usize,
            CHUNK_SIZE * (cx as usize + 1),
            CHUNK_SIZE * cy as usize,
            CHUNK_SIZE * (cy as usize + 1),
            data,
        );
        true
    } else {
        false
    }
}

/// Applies an inbound single-tile update only when the cache still tags the
/// tile's chunk; a stale update leaves the tiles unchanged.
pub fn apply_update_tile(
    chunks: &FastArray2D<(u16, u16)>,
    tiles: &mut FastArray2D<Tile>,
    x: u16,
    y: u16,
    tile: Tile,
) -> (applied: bool)
    requires
        chunks.wf(),
        old(tiles).wf(),
    ensures
        applied == (chunks.cell(x as int / CHUNK_SIZE as int, y as int / CHUNK_SIZE as int) == ((
            (x as int / CHUNK_SIZE as int) as u16,
            (y as int / CHUNK_SIZE as int) as u16,
        ))),
        final(tiles).wf(),
        final(tiles).spec_width() == old(tiles).spec_width(),
        final(tiles).spec_height() == old(tiles).spec_height(),
        applied ==> final(tiles).contents() == old(tiles).contents().update(
            wrap_index(old(tiles).spec_width(), old(tiles).spec_height(), x as int, y as int),
            tile,
        ),
        !applied ==> *final(tiles) == *old(tiles),
{
    let chunk_x = x as usize / CHUNK_SIZE;
    let chunk_y = y as usize / CHUNK_SIZE;
    let tag = *chunks.get_wrapping(chunk_x, chunk_y);
    proof {
        lemma_mod_bound(x as int, CHUNK_SIZE as int);
    }
    if tag.0 as usize == chunk_x && tag.1 as usize == chunk_y {
        tiles.set_wrapping(x as usize, y as usize, tile);
        true
    } else {
        false
    }
}

/// A local foreground edit: clears the tile under the cursor and queues the
/// break event for the server.
pub fn break_foreground(
    tiles: &mut FastArray2D<Tile>,
    outbound: &mut Vec<NetEvent>,
    x: usize,
    y: usize,
)
    requires
        old(tiles).wf(),
        x < 0x1_0000,
        y < 0x1_0000,
    ensures
        final(tiles).wf(),
        final(tiles).spec_width() == old(tiles).spec_width(),
        final(tiles).spec_height() == old(tiles).spec_height(),
        final(tiles).contents() == old(tiles).contents().update(
            wrap_index(old(tiles).spec_width(), old(tiles).spec_height(), x as int, y as int),
            Tile::Air,
        ),
        final(outbound)@ == old(outbound)@.push(
            NetEvent::BreakForeground((x) as u16, (y) as u16),
        ),
{
    tiles.set_wrapping(x, y, Tile::Air);
    outbound.push(NetEvent::BreakForeground(x as u16, y as u16));
}

/// A local background edit: clears the tile under the cursor and queues the
/// break event for the server.
pub fn break_background(
    tiles: &mut FastArray2D<Tile>,
    outbound: &mut Vec<NetEvent>,
    x: usize,
    y: usize,
)
    requires
        old(tiles).wf(),
        x < 0x1_0000,
        y < 0x1_0000,
    ensures
        final(tiles).wf(),
        final(tiles).spec_width() == old(tiles).spec_width(),
        final(tiles).spec_height() == old(tiles).spec_height(),
        final(tiles).contents() == old(tiles).contents().update(
            wrap_index(old(tiles).spec_width(), old(tiles).spec_height(), x as int, y as int),
            Tile::Air,
        ),
        final(outbound)@ == old(outbound)@.push(
            NetEvent::BreakBackground((x) as u16, (y) as u16),
        ),
{
    tiles.set_wrapping(x, y, Tile::Air);
    outbound.push(NetEvent::BreakBackground(x as u16, y as u16));
}

/// The requests from the first `k` visits contain the fetch request for the
/// rectangle cell `(i, j)` exactly when that cell's visit has happened and its
/// slot was not already tagged with its chunk.
proof fn lemma_requests_prefix(
    tags: Seq<(u16, u16)>,
    w: int,
    h: int,
    x1: int,
    x2: int,
    y1: int,
    y2: int,
    i: int,
    j: int,
    k: int,
)
    requires
        w > 0,
        h > 0,
        0 <= x1 < x2,
        0 <= y1 < y2,
        x2 - x1 <= w,
        y2 - y1 <= h,
        x2 <= 0x1_0000,
        y2 <= 0x1_0000,
        w * h <= usize::MAX,
        tags.len() == w * h,
        0 <= i < x2 - x1,
        0 <= j < y2 - y1,
        0 <= k <= (x2 - x1) * (y2 - y1),
    ensures
        chunk_requests(tags, w, h, x1, x2, y1, y2, k).contains(
            NetEvent::RequestChunk(((x1 + i) as u16), ((y1 + j) as u16)),
        ) <==> (crate::grid::visit_of(x1, x2, y1, x1 + i, y1 + j) < k && tags[wrap_index(
            w,
            h,
            x1 + i,
            y1 + j,
        )] != ((((x1 + i) as u16), ((y1 + j) as u16)))),
    decreases k,
{
    let req = NetEvent::RequestChunk(((x1 + i) as u16), ((y1 + j) as u16));
    let target = crate::grid::visit_of(x1, x2, y1, x1 + i, y1 + j);
    let kc = j * (x2 - x1) + i;
    lemma_fundamental_div_mod_converse(kc, x2 - x1, j, i);
    assert(0 <= kc < (x2 - x1) * (y2 - y1)) by (nonlinear_arith)
        requires
            kc == j * (x2 - x1) + i,
            0 <= i < x2 - x1,
            0 <= j < y2 - y1,
    ;
    if k == 0 {
    } else {
        lemma_requests_prefix(tags, w, h, x1, x2, y1, y2, i, j, k - 1);
        let prev = chunk_requests(tags, w, h, x1, x2, y1, y2, k - 1);
        let cur = chunk_requests(tags, w, h, x1, x2, y1, y2, k);
        let (vx, vy, idx) = rect_visit(w, h, x1, x2, y1, k - 1);
        lemma_rect_visit_bounds(w, h, x1, x2, y1, y2, k - 1);
        let pushed = NetEvent::RequestChunk((vx) as u16, (vy) as u16);
        // The pushed event names cell (i, j) exactly when this is its visit.
        assert((pushed == req) <==> (k - 1 == target)) by {
            assert(x1 <= vx < x2 && y1 <= vy < y2);
            if pushed == req {
                assert((vx as int) % 0x1_0000 == (x1 + i) % 0x1_0000);
                vstd::arithmetic::div_mod::lemma_small_mod(vx as nat, 0x1_0000);
                vstd::arithmetic::div_mod::lemma_small_mod((x1 + i) as nat, 0x1_0000);
                vstd::arithmetic::div_mod::lemma_small_mod(vy as nat, 0x1_0000);
                vstd::arithmetic::div_mod::lemma_small_mod((y1 + j) as nat, 0x1_0000);
                assert(vx as int == x1 + i && vy as int == y1 + j);
                lemma_fundamental_div_mod(k - 1, x2 - x1);
                lemma_fundamental_div_mod(kc, x2 - x1);
            }
            if k - 1 == target {
                assert(vx as int == x1 + (k - 1) % (x2 - x1));
                assert((k - 1) % (x2 - x1) == i && (k - 1) / (x2 - x1) == j);
                assert(vx as int == x1 + i && vy as int == y1 + j);
            }
        }
        if tags[idx as int] != visit_tag(x1, x2, y1, k - 1) {
            assert(cur == prev.push(pushed));
            if prev.contains(req) {
                let n = choose|n: int| 0 <= n < prev.len() && prev[n] == req;
                assert(cur[n] == req);
            }
            if pushed == req {
                assert(idx as int == wrap_index(w, h, x1 + i, y1 + j));
                assert(visit_tag(x1, x2, y1, k - 1) == req_tag(x1, x2, y1, i, j));
                assert(cur[cur.len() - 1] == req);
            }
            if cur.contains(req) {
                let n = choose|n: int| 0 <= n < cur.len() && cur[n] == req;
                if n < prev.len() {
                    assert(prev[n] == req);
                } else {
                    assert(pushed == req);
                }
            }
        } else {
            assert(cur == prev);
            if k - 1 == target {
                assert(idx as int == wrap_index(w, h, x1 + i, y1 + j));
                assert(visit_tag(x1, x2, y1, k - 1) == req_tag(x1, x2, y1, i, j));
            }
        }
    }
}

/// The tag that the rectangle cell `(i, j)` should carry.
spec fn req_tag(x1: int, x2: int, y1: int, i: int, j: int) -> (u16, u16) {
    (((x1 + i) as u16), ((y1 + j) as u16))
}

/// Law (cache transition): over a refresh of the chunk rectangle
/// `[x1, x2) x [y1, y2)`, the fetch request for the chunk at rectangle cell
/// `(i, j)` is emitted exactly when the slot that chunk maps to was not
/// already tagged with it before the call.  Applied to each call of a
/// sequence of refreshes, whose ensures also says that afterwards every slot
/// of the rectangle carries its chunk's tag, this pins down exactly one
/// request per (slot, chunk) assignment transition.
pub proof fn lemma_cache_transition(
    tags: Seq<(u16, u16)>,
    w: int,
    h: int,
    x1: int,
    x2: int,
    y1: int,
    y2: int,
    i: int,
    j: int,
)
    requires
        w > 0,
        h > 0,
        0 <= x1 < x2,
        0 <= y1 < y2,
        x2 - x1 <= w,
        y2 - y1 <= h,
        x2 <= 0x1_0000,
        y2 <= 0x1_0000,
        w * h <= usize::MAX,
        tags.len() == w * h,
        0 <= i < x2 - x1,
        0 <= j < y2 - y1,
    ensures
        chunk_requests(tags, w, h, x1, x2, y1, y2, (x2 - x1) * (y2 - y1)).contains(
            NetEvent::RequestChunk(((x1 + i) as u16), ((y1 + j) as u16)),
        ) <==> tags[wrap_index(w, h, x1 + i, y1 + j)] != ((((x1 + i) as u16), ((y1 + j) as u16))),
{
    let count = (x2 - x1) * (y2 - y1);
    lemma_requests_prefix(tags, w, h, x1, x2, y1, y2, i, j, count);
    let target = crate::grid::visit_of(x1, x2, y1, x1 + i, y1 + j);
    assert(0 <= target < count) by (nonlinear_arith)
        requires
            target == j * (x2 - x1) + i,
            count == (x2 - x1) * (y2 - y1),
            0 <= i < x2 - x1,
            0 <= j < y2 - y1,
    ;
}

/// Law (window fits by construction): a cache with at least
/// `ceil((w + 2 * CHUNK_LOAD_BUFFER_SIZE * TILE_SIZE) / CHUNK_SIZE_PX)` slots
/// per axis — the count the client sizes its cache from, before rounding up
/// to a power of two — always holds the resident chunk window of a viewport
/// of pixel size `w`, wherever the viewport sits.  This discharges the
/// rectangle-within-dimensions precondition of the refresh at construction
/// time, once per session instead of per call.
pub proof fn lemma_window_fits(x: int, w: int, slots: int)
    requires
        x >= 0,
        w >= 0,
        slots >= (w + 2 * (CHUNK_LOAD_BUFFER_SIZE * TILE_SIZE) + (CHUNK_SIZE_PX - 1))
            / CHUNK_SIZE_PX as int,
    ensures
        window_x2(x, w) - window_x1(x) <= slots,
{
    let d = CHUNK_SIZE_PX as int;
    let a = if x >= CHUNK_LOAD_BUFFER_SIZE_PX {
        x - CHUNK_LOAD_BUFFER_SIZE_PX
    } else {
        0
    };
    let b = x + w + CHUNK_LOAD_BUFFER_SIZE_PX + (d - 1);
    lemma_fundamental_div_mod(a, d);
    lemma_mod_bound(a, d);
    let q = a / d;
    let r = a % d;
    // The viewport origin sits within one chunk above the window start.
    assert(x <= a + CHUNK_LOAD_BUFFER_SIZE_PX);
    assert(b <= a + w + 2 * CHUNK_LOAD_BUFFER_SIZE_PX + (d - 1));
    vstd::arithmetic::div_mod::lemma_div_is_ordered(
        b,
        a + w + 2 * CHUNK_LOAD_BUFFER_SIZE_PX + (d - 1),
        d,
    );
    vstd::arithmetic::div_mod::lemma_hoist_over_denominator(
        r + w + 2 * CHUNK_LOAD_BUFFER_SIZE_PX + (d - 1),
        q,
        d as nat,
    );
    assert(q * d == d * q) by (nonlinear_arith);
    assert(a + w + 2 * CHUNK_LOAD_BUFFER_SIZE_PX + (d - 1) == (r + w + 2
        * CHUNK_LOAD_BUFFER_SIZE_PX + (d - 1)) + q * d);
    vstd::arithmetic::div_mod::lemma_div_is_ordered(
        r + w + 2 * CHUNK_LOAD_BUFFER_SIZE_PX + (d - 1),
        w + 2 * (CHUNK_LOAD_BUFFER_SIZE * TILE_SIZE) + (d - 1),
        d,
    );
}

} // verus!
