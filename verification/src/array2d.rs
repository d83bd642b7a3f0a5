//! A fixed-capacity 2-D container addressed by world coordinates modulo its
//! dimensions, with wrap-aware bulk operations built on the traversal of
//! [`crate::grid`].  This is the general form whose wrapped addressing divides
//! by the dimensions; the masked power-of-two form is
//! [`crate::fast_array2d::FastArray2D`].

use vstd::prelude::*;

verus! {

use crate::grid::{wrap_index, rect_visit, rect_covers, for_each_sub_wrapping};
use crate::grid::{
    lemma_wrap_index_bounds,
    lemma_rect_visit_bounds,
    lemma_traversal_complete_unique,
};
use vstd::arithmetic::div_mod::{lemma_fundamental_div_mod_converse, lemma_mod_bound};

/// Error of the bounds-checked operations.
#[derive(Debug, PartialEq, Eq, Structural, Clone, Copy)]
pub enum Array2DErr {
    OutOfBounds,
}

/// A `width` by `height` grid stored row-major in one contiguous buffer.
#[derive(Debug, Clone)]
pub struct Array2D<T> {
    width: usize,
    height: usize,
    data: Vec<T>,
}

impl<T> Array2D<T> {
    /// Grid width, as a mathematical integer.
    pub closed spec fn spec_width(&self) -> int {
        self.width as int
    }

    /// Grid height, as a mathematical integer.
    pub closed spec fn spec_height(&self) -> int {
        self.height as int
    }

    /// The backing store, row-major.
    pub closed spec fn contents(&self) -> Seq<T> {
        self.data@
    }

    /// Well-formed: the backing store holds exactly one value per cell.
    pub open spec fn wf(&self) -> bool {
        self.contents().len() == self.spec_width() * self.spec_height()
    }

    /// The value stored for world coordinate `(wx, wy)`, which wraps modulo
    /// the dimensions.
    pub open spec fn cell(&self, wx: int, wy: int) -> T {
        self.contents()[wrap_index(self.spec_width(), self.spec_height(), wx, wy)]
    }

    /// Wraps a grid around an existing row-major buffer.
    pub fn from_box(width: usize, height: usize, data: Vec<T>) -> (r: Array2D<T>)
        requires
            data@.len() == width * height,
        ensures
            r.wf(),
            r.spec_width() == width,
            r.spec_height() == height,
            r.contents() == data@,
    {
        Array2D { width, height, data }
    }

    /// Gives the backing buffer up, row-major.
    pub fn into_raw(self) -> (r: Vec<T>)
        ensures
            r@ == self.contents(),
    {
        self.data
    }

    /// The backing buffer, row-major.
    pub fn raw(&self) -> (r: &Vec<T>)
        ensures
            r@ == self.contents(),
    {
        &self.data
    }

    /// `(width, height)`.
    pub fn size(&self) -> (r: (usize, usize))
        ensures
            r.0 == self.spec_width(),
            r.1 == self.spec_height(),
    {
        (self.width, self.height)
    }

    /// Bounds-checked read of the cell at storage coordinate `(x, y)`.
    pub fn get(&self, x: usize, y: usize) -> (r: Option<&T>)
        requires
            self.wf(),
        ensures
            match r {
                Some(t) => x < self.spec_width() && y < self.spec_height() && *t
                    == self.contents()[x + y * self.spec_width()],
                None => x >= self.spec_width() || y >= self.spec_height(),
            },
    {
        if x < self.width && y < self.height {
            let n = self.data.len();
            proof {
                lemma_index_in_bounds(
                    self.spec_width(),
                    self.spec_height(),
                    x as int,
                    y as int,
                );
            }
            Some(&self.data[x + y * self.width])
        } else {
            None
        }
    }

    /// Bounds-checked write of the cell at storage coordinate `(x, y)`.
    pub fn set(&mut self, x: usize, y: usize, t: T)
        requires
            old(self).wf(),
            x < old(self).spec_width(),
            y < old(self).spec_height(),
        ensures
            final(self).wf(),
            final(self).spec_width() == old(self).spec_width(),
            final(self).spec_height() == old(self).spec_height(),
            final(self).contents() == old(self).contents().update(
                x + y * old(self).spec_width(),
                t,
            ),
    {
        let n = self.data.len();
        proof {
            lemma_index_in_bounds(self.spec_width(), self.spec_height(), x as int, y as int);
        }
        let i = x + y * self.width;
        self.data.set(i, t);
    }

    /// Reads the cell for world coordinate `(x, y)`, wrapping modulo the
    /// dimensions; never out of bounds.
    pub fn get_wrapping(&self, x: usize, y: usize) -> (r: &T)
        requires
            self.wf(),
            self.spec_width() > 0,
            self.spec_height() > 0,
        ensures
            *r == self.cell(x as int, y as int),
    {
        let n = self.data.len();
        proof {
            lemma_mod_bound(x as int, self.spec_width());
            lemma_mod_bound(y as int, self.spec_height());
            lemma_wrap_index_bounds(self.spec_width(), self.spec_height(), x as int, y as int);
        }
        &self.data[(x % self.width) + (y % self.height) * self.width]
    }

    /// Writes the cell for world coordinate `(x, y)`, wrapping modulo the
    /// dimensions; never out of bounds.
    pub fn set_wrapping(&mut self, x: usize, y: usize, t: T)
        requires
            old(self).wf(),
            old(self).spec_width() > 0,
            old(self).spec_height() > 0,
        ensures
            final(self).wf(),
            final(self).spec_width() == old(self).spec_width(),
            final(self).spec_height() == old(self).spec_height(),
            final(self).contents() == old(self).contents().update(
                wrap_index(old(self).spec_width(), old(self).spec_height(), x as int, y as int),
                t,
            ),
    {
        let n = self.data.len();
        proof {
            lemma_mod_bound(x as int, self.spec_width());
            lemma_mod_bound(y as int, self.spec_height());
            lemma_wrap_index_bounds(self.spec_width(), self.spec_height(), x as int, y as int);
        }
        let i = (x % self.width) + (y % self.height) * self.width;
        self.data.set(i, t);
    }

    /// Reads the backing store at a storage index, as the traversal hands
    /// indices out.
    pub fn get_index(&self, i: usize) -> (r: &T)
        requires
            i < self.contents().len(),
        ensures
            *r == self.contents()[i as int],
    {
        &self.data[i]
    }

    /// Writes the backing store at a storage index, as the traversal hands
    /// indices out.
    pub fn set_index(&mut self, i: usize, t: T)
        requires
            i < old(self).contents().len(),
        ensures
            final(self).wf() == old(self).wf(),
            final(self).spec_width() == old(self).spec_width(),
            final(self).spec_height() == old(self).spec_height(),
            final(self).contents() == old(self).contents().update(i as int, t),
    {
        self.data.set(i, t);
    }

    /// True when the storage rectangle `[x1, x2) x [y1, y2)` starts inside the
    /// grid and ends no later than its edges.
    pub fn inbounds(&self, x1: usize, x2: usize, y1: usize, y2: usize) -> (r: bool)
        ensures
            r == (x1 < self.spec_width() && y1 < self.spec_height() && x2 <= self.spec_width()
                && y2 <= self.spec_height()),
    {
        x1 < self.width && y1 < self.height && x2 <= self.width && y2 <= self.height
    }
}

impl<T: Copy> Array2D<T> {
    /// Reads the world rectangle `[x1, x2) x [y1, y2)` in row-major traversal
    /// order, returning each visited cell as `(world_x, world_y, value)`.
    pub fn for_each_sub_wrapping(&self, x1: usize, x2: usize, y1: usize, y2: usize) -> (r: Vec<
        (usize, usize, T),
    >)
        requires
            self.wf(),
            self.spec_width() > 0,
            self.spec_height() > 0,
            x1 < x2,
            y1 < y2,
            x2 - x1 <= self.spec_width(),
            y2 - y1 <= self.spec_height(),
        ensures
            r@.len() == (x2 - x1) * (y2 - y1),
            forall|k: int|
                0 <= k < r@.len() ==> {
                    let (vx, vy, idx) = rect_visit(
                        self.spec_width(),
                        self.spec_height(),
                        x1 as int,
                        x2 as int,
                        y1 as int,
                        k,
                    );
                    #[trigger] r@[k] == (vx, vy, self.contents()[idx as int])
                },
    {
        let (w, h) = self.size();
        let n = self.data.len();
        let visits = for_each_sub_wrapping(w, h, x1, x2, y1, y2);
        let mut r: Vec<(usize, usize, T)> = Vec::new();
        let mut k: usize = 0;
        while k < visits.len()
            invariant
                self.wf(),
                w == self.spec_width(),
                h == self.spec_height(),
                n == self.contents().len(),
                w > 0,
                h > 0,
                x1 < x2,
                y1 < y2,
                x2 - x1 <= w,
                y2 - y1 <= h,
                k <= visits@.len(),
                visits@.len() == (x2 - x1) * (y2 - y1),
                forall|kk: int|
                    0 <= kk < visits@.len() ==> #[trigger] visits@[kk] == rect_visit(
                        w as int,
                        h as int,
                        x1 as int,
                        x2 as int,
                        y1 as int,
                        kk,
                    ),
                r@.len() == k,
                forall|kk: int|
                    0 <= kk < k ==> {
                        let (vx, vy, idx) = rect_visit(
                            w as int,
                            h as int,
                            x1 as int,
                            x2 as int,
                            y1 as int,
                            kk,
                        );
                        #[trigger] r@[kk] == (vx, vy, self.contents()[idx as int])
                    },
            decreases visits@.len() - k,
        {
            proof {
                lemma_rect_visit_bounds(
                    w as int,
                    h as int,
                    x1 as int,
                    x2 as int,
                    y1 as int,
                    y2 as int,
                    k as int,
                );
            }
            let (vx, vy, idx) = visits[k];
            r.push((vx, vy, self.data[idx]));
            k = k + 1;
        }
        r
    }

    /// Reads the whole grid in row-major traversal order.
    pub fn for_each(&self) -> (r: Vec<(usize, usize, T)>)
        requires
            self.wf(),
            self.spec_width() > 0,
            self.spec_height() > 0,
        ensures
            r@.len() == self.spec_width() * self.spec_height(),
            forall|k: int|
                0 <= k < r@.len() ==> {
                    let (vx, vy, idx) = rect_visit(
                        self.spec_width(),
                        self.spec_height(),
                        0,
                        self.spec_width(),
                        0,
                        k,
                    );
                    #[trigger] r@[k] == (vx, vy, self.contents()[idx as int])
                },
    {
        let (w, h) = self.size();
        self.for_each_sub_wrapping(0, w, 0, h)
    }

    /// Copies the world rectangle `[x1, x2) x [y1, y2)` into a freshly
    /// allocated non-wrapping grid; the caller vouches for the rectangle.
    pub fn clone_sub_wrapping(&self, x1: usize, x2: usize, y1: usize, y2: usize) -> (r: Array2D<
        T,
    >)
        requires
            self.wf(),
            self.spec_width() > 0,
            self.spec_height() > 0,
            x1 < x2,
            y1 < y2,
            x2 - x1 <= self.spec_width(),
            y2 - y1 <= self.spec_height(),
        ensures
            r.wf(),
            r.spec_width() == x2 - x1,
            r.spec_height() == y2 - y1,
            forall|k: int|
                0 <= k < r.contents().len() ==> #[trigger] r.contents()[k] == self.cell(
                    x1 + k % (x2 - x1) as int,
                    y1 + k / (x2 - x1) as int,
                ),
            forall|i: int, j: int|
                0 <= i < x2 - x1 && 0 <= j < y2 - y1 ==> #[trigger] r.contents()[j * (x2 - x1)
                    + i] == self.cell(x1 + i, y1 + j),
    {
        let (w, h) = self.size();
        let ghost wi = w as int;
        let ghost hi = h as int;
        let n = self.data.len();
        let visits = for_each_sub_wrapping(w, h, x1, x2, y1, y2);
        let mut data: Vec<T> = Vec::new();
        let mut k: usize = 0;
        while k < visits.len()
            invariant
                self.wf(),
                wi == self.spec_width(),
                hi == self.spec_height(),
                n == self.contents().len(),
                wi > 0,
                hi > 0,
                x1 < x2,
                y1 < y2,
                x2 - x1 <= wi,
                y2 - y1 <= hi,
                k <= visits@.len(),
                visits@.len() == (x2 - x1) * (y2 - y1),
                forall|kk: int|
                    0 <= kk < visits@.len() ==> #[trigger] visits@[kk] == rect_visit(
                        wi,
                        hi,
                        x1 as int,
                        x2 as int,
                        y1 as int,
                        kk,
                    ),
                data@.len() == k,
                forall|kk: int|
                    0 <= kk < k ==> #[trigger] data@[kk] == self.cell(
                        x1 + kk % (x2 - x1) as int,
                        y1 + kk / (x2 - x1) as int,
                    ),
            decreases visits@.len() - k,
        {
            proof {
                lemma_rect_visit_bounds(
                    wi,
                    hi,
                    x1 as int,
                    x2 as int,
                    y1 as int,
                    y2 as int,
                    k as int,
                );
            }
            let (_, _, idx) = visits[k];
            data.push(self.data[idx]);
            k = k + 1;
        }
        let width = x2 - x1;
        let height = y2 - y1;
        proof {
            assert(data@.len() == width * height) by (nonlinear_arith)
                requires
                    data@.len() == (x2 - x1) * (y2 - y1),
                    width == x2 - x1,
                    height == y2 - y1,
            ;
        }
        let r = Array2D { width, height, data };
        proof {
            assert forall|i: int, j: int| 0 <= i < x2 - x1 && 0 <= j < y2 - y1 implies #[trigger] r
                .contents()[j * (x2 - x1) + i] == self.cell(x1 + i, y1 + j) by {
                let kk = j * (x2 - x1) + i;
                lemma_fundamental_div_mod_converse(kk, (x2 - x1) as int, j, i);
                assert(0 <= kk < (x2 - x1) * (y2 - y1)) by (nonlinear_arith)
                    requires
                        kk == j * (x2 - x1) + i,
                        0 <= i < x2 - x1,
                        0 <= j < y2 - y1,
                ;
            }
        }
        r
    }

    /// Bounds-checked copy of the storage rectangle `[x1, x2) x [y1, y2)` into
    /// a freshly allocated grid; a rectangle that is empty or reaches past the
    /// grid is refused.
    pub fn clone_sub(&self, x1: usize, x2: usize, y1: usize, y2: usize) -> (r: Result<
        Array2D<T>,
        Array2DErr,
    >)
        requires
            self.wf(),
        ensures
            match r {
                Ok(g) => x1 < x2 && x2 <= self.spec_width() && y1 < y2 && y2
                    <= self.spec_height() && g.wf() && g.spec_width() == x2 - x1 && g.spec_height()
                    == y2 - y1 && (forall|i: int, j: int|
                    0 <= i < x2 - x1 && 0 <= j < y2 - y1 ==> #[trigger] g.contents()[j * (x2 - x1)
                        + i] == self.cell(x1 + i, y1 + j)),
                Err(e) => e == Array2DErr::OutOfBounds && !(x1 < x2 && x2 <= self.spec_width() && y1
                    < y2 && y2 <= self.spec_height()),
            },
    {
        if !(self.inbounds(x1, x2, y1, y2) && x1 < x2 && y1 < y2) {
            return Err(Array2DErr::OutOfBounds);
        }
        Ok(self.clone_sub_wrapping(x1, x2, y1, y2))
    }

    /// Overwrites the world rectangle `[x1, x2) x [y1, y2)` from a row-major
    /// source, in traversal order; every cell outside the rectangle's storage
    /// image is untouched.
    pub fn splice_wrapping(&mut self, x1: usize, x2: usize, y1: usize, y2: usize, data: Vec<T>)
        requires
            old(self).wf(),
            old(self).spec_width() > 0,
            old(self).spec_height() > 0,
            x1 < x2,
            y1 < y2,
            x2 - x1 <= old(self).spec_width(),
            y2 - y1 <= old(self).spec_height(),
            data@.len() == (x2 - x1) * (y2 - y1),
        ensures
            final(self).wf(),
            final(self).spec_width() == old(self).spec_width(),
            final(self).spec_height() == old(self).spec_height(),
            forall|i: int, j: int|
                0 <= i < x2 - x1 && 0 <= j < y2 - y1 ==> #[trigger] final(self).cell(
                    x1 + i,
                    y1 + j,
                ) == data@[j * (x2 - x1) + i],
            forall|idx: int|
                0 <= idx < old(self).contents().len() && !rect_covers(
                    old(self).spec_width(),
                    old(self).spec_height(),
                    x1 as int,
                    x2 as int,
                    y1 as int,
                    y2 as int,
                    idx,
                ) ==> #[trigger] final(self).contents()[idx] == old(self).contents()[idx],
    {
        let (w, h) = self.size();
        let ghost wi = w as int;
        let ghost hi = h as int;
        let n = self.data.len();
        let visits = for_each_sub_wrapping(w, h, x1, x2, y1, y2);
        proof {
            lemma_traversal_complete_unique(
                wi,
                hi,
                x1 as int,
                x2 as int,
                y1 as int,
                y2 as int,
            );
        }
        let mut k: usize = 0;
        while k < visits.len()
            invariant
                self.wf(),
                wi == self.spec_width(),
                hi == self.spec_height(),
                n == self.contents().len(),
                wi > 0,
                hi > 0,
                x1 < x2,
                y1 < y2,
                x2 - x1 <= wi,
                y2 - y1 <= hi,
                k <= visits@.len(),
                visits@.len() == (x2 - x1) * (y2 - y1),
                data@.len() == (x2 - x1) * (y2 - y1),
                forall|kk: int|
                    0 <= kk < visits@.len() ==> #[trigger] visits@[kk] == rect_visit(
                        wi,
                        hi,
                        x1 as int,
                        x2 as int,
                        y1 as int,
                        kk,
                    ),
                forall|k1: int, k2: int|
                    #![trigger rect_visit(wi, hi, x1 as int, x2 as int, y1 as int, k1), rect_visit(wi, hi, x1 as int, x2 as int, y1 as int, k2)]
                    0 <= k1 < k2 < visits@.len() ==> rect_visit(
                        wi,
                        hi,
                        x1 as int,
                        x2 as int,
                        y1 as int,
                        k1,
                    ).2 != rect_visit(wi, hi, x1 as int, x2 as int, y1 as int, k2).2,
                forall|kk: int|
                    0 <= kk < k ==> #[trigger] self.contents()[visits@[kk].2 as int] == data@[kk],
                forall|idx: int|
                    0 <= idx < n && !rect_covers(
                        wi,
                        hi,
                        x1 as int,
                        x2 as int,
                        y1 as int,
                        y2 as int,
                        idx,
                    ) ==> #[trigger] self.contents()[idx] == old(self).contents()[idx],
            decreases visits@.len() - k,
        {
            proof {
                lemma_rect_visit_bounds(
                    wi,
                    hi,
                    x1 as int,
                    x2 as int,
                    y1 as int,
                    y2 as int,
                    k as int,
                );
            }
            let (_, _, idx) = visits[k];
            let v = data[k];
            let ghost prev = self.contents();
            self.data.set(idx, v);
            proof {
                assert(self.contents() == prev.update(idx as int, v));
                assert forall|kk: int| 0 <= kk < k + 1 implies #[trigger] self.contents()[visits@[kk].2 as int]
                    == data@[kk] by {
                    if kk < k {
                        lemma_rect_visit_bounds(
                            wi,
                            hi,
                            x1 as int,
                            x2 as int,
                            y1 as int,
                            y2 as int,
                            kk,
                        );
                        assert(prev[visits@[kk].2 as int] == data@[kk]);
                        assert(visits@[kk] == rect_visit(wi, hi, x1 as int, x2 as int, y1 as int, kk));
                        assert(visits@[k as int] == rect_visit(wi, hi, x1 as int, x2 as int, y1 as int, k as int));
                        assert(rect_visit(wi, hi, x1 as int, x2 as int, y1 as int, kk).2
                            != rect_visit(wi, hi, x1 as int, x2 as int, y1 as int, k as int).2);
                        assert(visits@[kk].2 != idx);
                    } else {
                        assert(visits@[k as int] == rect_visit(
                            wi,
                            hi,
                            x1 as int,
                            x2 as int,
                            y1 as int,
                            k as int,
                        ));
                        assert(visits@[kk].2 == idx);
                        assert(self.contents()[idx as int] == v);
                        assert(v == data@[k as int]);
                    }
                }
            }
            k = k + 1;
        }
        proof {
            assert forall|i: int, j: int| 0 <= i < x2 - x1 && 0 <= j < y2 - y1 implies #[trigger] self
                .cell(x1 + i, y1 + j) == data@[j * (x2 - x1) + i] by {
                let kk = j * (x2 - x1) + i;
                lemma_fundamental_div_mod_converse(kk, (x2 - x1) as int, j, i);
                assert(0 <= kk < (x2 - x1) * (y2 - y1)) by (nonlinear_arith)
                    requires
                        kk == j * (x2 - x1) + i,
                        0 <= i < x2 - x1,
                        0 <= j < y2 - y1,
                ;
                lemma_rect_visit_bounds(
                    wi,
                    hi,
                    x1 as int,
                    x2 as int,
                    y1 as int,
                    y2 as int,
                    kk,
                );
                assert(self.contents()[visits@[kk].2 as int] == data@[kk]);
            }
        }
    }
}

impl<T: Copy> Array2D<T> {
    /// Allocates a grid with every cell set to `t`.
    pub fn from_value(width: usize, height: usize, t: T) -> (r: Array2D<T>)
        requires
            width * height <= usize::MAX,
        ensures
            r.wf(),
            r.spec_width() == width,
            r.spec_height() == height,
            forall|i: int| 0 <= i < width * height ==> r.contents()[i] == t,
    {
        proof {
            assert(width * height <= usize::MAX) by (nonlinear_arith)
                requires
                    width * height <= usize::MAX,
            ;
        }
        let n = width * height;
        let mut data: Vec<T> = Vec::new();
        let mut i: usize = 0;
        while i < n
            invariant
                i <= n,
                data@.len() == i,
                forall|j: int| 0 <= j < i ==> data@[j] == t,
            decreases n - i,
        {
            data.push(t);
            i = i + 1;
        }
        Array2D { width, height, data }
    }
}

/// A storage coordinate inside the dimensions gives an in-bounds index.
proof fn lemma_index_in_bounds(w: int, h: int, x: int, y: int)
    requires
        0 <= x < w,
        0 <= y < h,
    ensures
        0 <= x + y * w < w * h,
{
    assert(x + y * w < w * h) by (nonlinear_arith)
        requires
            0 <= x < w,
            0 <= y < h,
    ;
    assert(x + y * w >= 0) by (nonlinear_arith)
        requires
            0 <= x < w,
            0 <= y,
    ;
}

/// Law (round trip): copying a rectangle out of a grid and splicing the
/// identical data back into the same rectangle is a no-op on the grid
/// contents.  `c` stands for what `clone_sub` returned for the rectangle and
/// `g2` for the grid after `splice_wrapping` wrote `c`'s contents back; the
/// hypotheses are exactly what those two contracts ensure.
pub proof fn lemma_clone_splice_roundtrip<T>(
    g: Array2D<T>,
    c: Array2D<T>,
    g2: Array2D<T>,
    x1: int,
    x2: int,
    y1: int,
    y2: int,
)
    requires
        g.wf(),
        g.spec_width() > 0,
        g.spec_height() > 0,
        0 <= x1 < x2 <= g.spec_width(),
        0 <= y1 < y2 <= g.spec_height(),
        c.wf(),
        c.spec_width() == x2 - x1,
        c.spec_height() == y2 - y1,
        forall|i: int, j: int|
            0 <= i < x2 - x1 && 0 <= j < y2 - y1 ==> #[trigger] c.contents()[j * (x2 - x1) + i]
                == g.cell(x1 + i, y1 + j),
        g2.wf(),
        g2.spec_width() == g.spec_width(),
        g2.spec_height() == g.spec_height(),
        forall|i: int, j: int|
            0 <= i < x2 - x1 && 0 <= j < y2 - y1 ==> #[trigger] g2.cell(x1 + i, y1 + j)
                == c.contents()[j * (x2 - x1) + i],
        forall|idx: int|
            0 <= idx < g.contents().len() && !rect_covers(
                g.spec_width(),
                g.spec_height(),
                x1,
                x2,
                y1,
                y2,
                idx,
            ) ==> #[trigger] g2.contents()[idx] == g.contents()[idx],
    ensures
        g2.contents() == g.contents(),
{
    let w = g.spec_width();
    let h = g.spec_height();
    assert forall|idx: int| 0 <= idx < g.contents().len() implies #[trigger] g2.contents()[idx]
        == g.contents()[idx] by {
        if rect_covers(w, h, x1, x2, y1, y2, idx) {
            let (i, j) = choose|i: int, j: int|
                0 <= i < x2 - x1 && 0 <= j < y2 - y1 && #[trigger] wrap_index(
                    w,
                    h,
                    x1 + i,
                    y1 + j,
                ) == idx;
            lemma_wrap_index_bounds(w, h, x1 + i, y1 + j);
            assert(g2.cell(x1 + i, y1 + j) == c.contents()[j * (x2 - x1) + i]);
            assert(c.contents()[j * (x2 - x1) + i] == g.cell(x1 + i, y1 + j));
        }
    }
    assert(g2.contents() =~= g.contents());
}

} // verus!
