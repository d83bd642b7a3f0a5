//! The tile-gathering core of collision resolution: given the tile rectangle
//! a moving box has just entered, collect the solid tiles in it.  Mapping a
//! box's position to that rectangle, and correcting the box against what is
//! collected, happens at the caller's edge in simulation-rate coordinates.

use vstd::prelude::*;

verus! {

use crate::fast_array2d::FastArray2D;
use crate::grid::{rect_visit, for_each_sub_wrapping, lemma_rect_visit_bounds};
use crate::tile::Tile;

/// The solid (non-air) tiles among the first `k` visits of the rectangle, in
/// traversal order.
pub open spec fn solid_tiles(
    tiles: Seq<Tile>,
    w: int,
    h: int,
    x1: int,
    x2: int,
    y1: int,
    y2: int,
    k: int,
) -> Seq<Tile>
    decreases k,
{
    if k <= 0 {
        Seq::empty()
    } else {
        let prev = solid_tiles(tiles, w, h, x1, x2, y1, y2, k - 1);
        let (_, _, idx) = rect_visit(w, h, x1, x2, y1, k - 1);
        if tiles[idx as int] != Tile::Air {
            prev.push(tiles[idx as int])
        } else {
            prev
        }
    }
}

/// Appends to `vec` exactly the solid tiles of the world rectangle
/// `[x1, x2) x [y1, y2)`, in row-major traversal order.
pub fn collect_solid_tiles(
    tiles: &FastArray2D<Tile>,
    x1: usize,
    x2: usize,
    y1: usize,
    y2: usize,
    vec: &mut Vec<Tile>,
)
    requires
        tiles.wf(),
        x1 < x2,
        y1 < y2,
        x2 - x1 <= tiles.spec_width(),
        y2 - y1 <= tiles.spec_height(),
    ensures
        final(vec)@ == old(vec)@ + solid_tiles(
            tiles.contents(),
            tiles.spec_width(),
            tiles.spec_height(),
            x1 as int,
            x2 as int,
            y1 as int,
            y2 as int,
            (x2 - x1) * (y2 - y1),
        ),
{
    let (w, h) = tiles.size();
    let ghost wi = w as int;
    let ghost hi = h as int;
    proof {
        tiles.lemma_wf_dims();
    }
    let visits = for_each_sub_wrapping(w, h, x1, x2, y1, y2);
    let mut k: usize = 0;
    while k < visits.len()
        invariant
            tiles.wf(),
            wi == tiles.spec_width(),
            hi == tiles.spec_height(),
            wi > 0,
            hi > 0,
            wi * hi <= usize::MAX,
            tiles.contents().len() == wi * hi,
            x1 < x2,
            y1 < y2,
            x2 - x1 <= wi,
            y2 - y1 <= hi,
            k <= visits@.len(),
            visits@.len() == (x2 - x1) * (y2 - y1),
            forall|kk: int|
                0 <= kk < visits@.len() ==> #[trigger] visits@[kk] == rect_visit(
                    wi,
                    hi,
                    x1 as int,
                    x2 as int,
                    y1 as int,
                    kk,
                ),
            vec@ == old(vec)@ + solid_tiles(
                tiles.contents(),
                wi,
                hi,
                x1 as int,
                x2 as int,
                y1 as int,
                y2 as int,
                k as int,
            ),
        decreases visits@.len() - k,
    {
        proof {
            lemma_rect_visit_bounds(wi, hi, x1 as int, x2 as int, y1 as int, y2 as int, k as int);
        }
        let (_, _, idx) = visits[k];
        let tile = *tiles.get_index(idx);
        match tile {
            Tile::Air => {},
            _ => {
                vec.push(tile);
            },
        }
        k = k + 1;
    }
}

} // verus!
