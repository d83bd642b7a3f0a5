//! The power-of-two specialisation of the wrap-addressed grid: dimensions are
//! `2^w_exp` by `2^h_exp`, so the wrapped addressing replaces each modulo with
//! a bitmask.  Every hot-path grid (tile window, chunk cache, light field)
//! uses this form; the general [`crate::array2d::Array2D`] remains for
//! snapshot and export buffers.

use vstd::prelude::*;

verus! {

use crate::array2d::{Array2D, Array2DErr};
use crate::grid::{wrap_index, rect_visit, rect_covers};
use vstd::arithmetic::power2::{pow2, lemma_pow2_adds, lemma_pow2_strictly_increases, lemma2_to64};
use vstd::bits::{low_bits_mask, lemma_usize_low_bits_mask_is_mod, lemma_usize_shl_is_mul};
use vstd::arithmetic::div_mod::lemma_mod_bound;

/// A `2^w_exp` by `2^h_exp` grid whose wrapped addressing masks instead of
/// dividing.
#[derive(Debug, Clone)]
pub struct FastArray2D<T> {
    w_exp: usize,
    h_exp: usize,
    x_mask: usize,
    y_mask: usize,
    inner: Array2D<T>,
}

impl<T> FastArray2D<T> {
    /// Width exponent: the grid is `2^w_exp` cells wide.
    pub closed spec fn spec_w_exp(&self) -> int {
        self.w_exp as int
    }

    /// Height exponent: the grid is `2^h_exp` cells tall.
    pub closed spec fn spec_h_exp(&self) -> int {
        self.h_exp as int
    }

    /// Grid width, as a mathematical integer.
    pub closed spec fn spec_width(&self) -> int {
        self.inner.spec_width()
    }

    /// Grid height, as a mathematical integer.
    pub closed spec fn spec_height(&self) -> int {
        self.inner.spec_height()
    }

    /// The backing store, row-major.
    pub closed spec fn contents(&self) -> Seq<T> {
        self.inner.contents()
    }

    /// Well-formed: the dimensions are the claimed powers of two, the masks
    /// select exactly the low exponent bits, and the backing store holds one
    /// value per cell.  The exponents are kept small enough that the cell
    /// count fits a 32-bit address space.
    pub closed spec fn wf(&self) -> bool {
        &&& self.inner.wf()
        &&& self.w_exp + self.h_exp < 32
        &&& self.inner.spec_width() == pow2(self.w_exp as nat)
        &&& self.inner.spec_height() == pow2(self.h_exp as nat)
        &&& self.x_mask == low_bits_mask(self.w_exp as nat)
        &&& self.y_mask == low_bits_mask(self.h_exp as nat)
    }

    /// The value stored for world coordinate `(wx, wy)`, which wraps modulo
    /// the dimensions.
    pub open spec fn cell(&self, wx: int, wy: int) -> T {
        self.contents()[wrap_index(self.spec_width(), self.spec_height(), wx, wy)]
    }

    /// A well-formed grid has positive power-of-two dimensions whose product
    /// fits comfortably in `usize`.
    pub proof fn lemma_wf_dims(&self)
        requires
            self.wf(),
        ensures
            self.spec_width() == pow2(self.spec_w_exp() as nat),
            self.spec_height() == pow2(self.spec_h_exp() as nat),
            0 < self.spec_width(),
            0 < self.spec_height(),
            self.spec_width() * self.spec_height() == pow2(
                (self.spec_w_exp() + self.spec_h_exp()) as nat,
            ),
            self.spec_width() * self.spec_height() < 0x1_0000_0000,
            self.spec_width() < 0x1_0000_0000,
            self.spec_height() < 0x1_0000_0000,
            self.contents().len() == self.spec_width() * self.spec_height(),
    {
        lemma_pow2_adds(self.w_exp as nat, self.h_exp as nat);
        lemma_pow2_strictly_increases((self.w_exp + self.h_exp) as nat, 32);
        lemma_pow2_strictly_increases(self.w_exp as nat, 32);
        lemma_pow2_strictly_increases(self.h_exp as nat, 32);
        lemma2_to64();
    }

    /// Gives the backing buffer up, row-major.
    pub fn into_raw(self) -> (r: Vec<T>)
        ensures
            r@ == self.contents(),
    {
        self.inner.into_raw()
    }

    /// `(width, height)`.
    pub fn size(&self) -> (r: (usize, usize))
        ensures
            r.0 == self.spec_width(),
            r.1 == self.spec_height(),
    {
        self.inner.size()
    }

    /// Bounds-checked read of the cell at storage coordinate `(x, y)`.
    pub fn get(&self, x: usize, y: usize) -> (r: Option<&T>)
        requires
            self.wf(),
        ensures
            match r {
                Some(t) => x < self.spec_width() && y < self.spec_height() && *t
                    == self.contents()[x + y * self.spec_width()],
                None => x >= self.spec_width() || y >= self.spec_height(),
            },
    {
        self.inner.get(x, y)
    }

    /// Bounds-checked write of the cell at storage coordinate `(x, y)`.
    pub fn set(&mut self, x: usize, y: usize, t: T)
        requires
            old(self).wf(),
            x < old(self).spec_width(),
            y < old(self).spec_height(),
        ensures
            final(self).wf(),
            final(self).spec_w_exp() == old(self).spec_w_exp(),
            final(self).spec_h_exp() == old(self).spec_h_exp(),
            final(self).spec_width() == old(self).spec_width(),
            final(self).spec_height() == old(self).spec_height(),
            final(self).contents() == old(self).contents().update(
                x + y * old(self).spec_width(),
                t,
            ),
    {
        self.inner.set(x, y, t)
    }

    /// Reads the cell for world coordinate `(x, y)`: the modular wrap is the
    /// bitmask, so the read never goes out of bounds.
    pub fn get_wrapping(&self, x: usize, y: usize) -> (r: &T)
        requires
            self.wf(),
        ensures
            *r == self.cell(x as int, y as int),
    {
        proof {
            self.lemma_wf_dims();
            lemma_usize_low_bits_mask_is_mod(x, self.w_exp as nat);
            lemma_usize_low_bits_mask_is_mod(y, self.h_exp as nat);
            lemma_mod_bound(x as int, self.spec_width());
            lemma_mod_bound(y as int, self.spec_height());
        }
        let xm = x & self.x_mask;
        let ym = y & self.y_mask;
        proof {
            assert(xm as int == x as int % self.spec_width());
            assert(ym as int == y as int % self.spec_height());
        }
        match self.inner.get(xm, ym) {
            Some(t) => t,
            None => vstd::pervasive::unreached(),
        }
    }

    /// Writes the cell for world coordinate `(x, y)`: the modular wrap is the
    /// bitmask, so the write never goes out of bounds.
    pub fn set_wrapping(&mut self, x: usize, y: usize, t: T)
        requires
            old(self).wf(),
        ensures
            final(self).wf(),
            final(self).spec_w_exp() == old(self).spec_w_exp(),
            final(self).spec_h_exp() == old(self).spec_h_exp(),
            final(self).spec_width() == old(self).spec_width(),
            final(self).spec_height() == old(self).spec_height(),
            final(self).contents() == old(self).contents().update(
                wrap_index(old(self).spec_width(), old(self).spec_height(), x as int, y as int),
                t,
            ),
    {
        proof {
            self.lemma_wf_dims();
            lemma_usize_low_bits_mask_is_mod(x, self.w_exp as nat);
            lemma_usize_low_bits_mask_is_mod(y, self.h_exp as nat);
            lemma_mod_bound(x as int, self.spec_width());
            lemma_mod_bound(y as int, self.spec_height());
        }
        let xm = x & self.x_mask;
        let ym = y & self.y_mask;
        proof {
            assert(xm as int == x as int % self.spec_width());
            assert(ym as int == y as int % self.spec_height());
        }
        self.inner.set(xm, ym, t)
    }

    /// Reads the backing store at a storage index, as the traversal hands
    /// indices out.
    pub fn get_index(&self, i: usize) -> (r: &T)
        requires
            i < self.contents().len(),
        ensures
            *r == self.contents()[i as int],
    {
        self.inner.get_index(i)
    }

    /// Writes the backing store at a storage index, as the traversal hands
    /// indices out.
    pub fn set_index(&mut self, i: usize, t: T)
        requires
            old(self).wf(),
            i < old(self).contents().len(),
        ensures
            final(self).wf(),
            final(self).spec_w_exp() == old(self).spec_w_exp(),
            final(self).spec_h_exp() == old(self).spec_h_exp(),
            final(self).spec_width() == old(self).spec_width(),
            final(self).spec_height() == old(self).spec_height(),
            final(self).contents() == old(self).contents().update(i as int, t),
    {
        self.inner.set_index(i, t);
    }

    /// True when the storage rectangle `[x1, x2) x [y1, y2)` starts inside the
    /// grid and ends no later than its edges.
    pub fn inbounds(&self, x1: usize, x2: usize, y1: usize, y2: usize) -> (r: bool)
        ensures
            r == (x1 < self.spec_width() && y1 < self.spec_height() && x2 <= self.spec_width()
                && y2 <= self.spec_height()),
    {
        self.inner.inbounds(x1, x2, y1, y2)
    }
}

impl<T: Copy> FastArray2D<T> {
    /// Allocates a `2^w_exp` by `2^h_exp` grid with every cell set to `t`.
    pub fn from_value(w_exp: usize, h_exp: usize, t: T) -> (r: FastArray2D<T>)
        requires
            w_exp + h_exp < 32,
        ensures
            r.wf(),
            r.spec_w_exp() == w_exp,
            r.spec_h_exp() == h_exp,
            r.spec_width() == pow2(w_exp as nat),
            r.spec_height() == pow2(h_exp as nat),
            forall|i: int|
                0 <= i < r.spec_width() * r.spec_height() ==> r.contents()[i] == t,
    {
        proof {
            lemma_pow2_strictly_increases(w_exp as nat, 32);
            lemma_pow2_strictly_increases(h_exp as nat, 32);
            lemma_pow2_adds(w_exp as nat, h_exp as nat);
            lemma_pow2_strictly_increases((w_exp + h_exp) as nat, 32);
            lemma2_to64();
            lemma_usize_shl_is_mul(1, w_exp);
            lemma_usize_shl_is_mul(1, h_exp);
        }
        let width = 1usize << w_exp;
        let height = 1usize << h_exp;
        let inner = Array2D::from_value(width, height, t);
        FastArray2D { w_exp, h_exp, x_mask: width - 1, y_mask: height - 1, inner }
    }

    /// Wraps a grid around an existing row-major buffer of exactly
    /// `2^w_exp * 2^h_exp` values.
    pub fn from_box(w_exp: usize, h_exp: usize, data: Vec<T>) -> (r: FastArray2D<T>)
        requires
            w_exp + h_exp < 32,
            data@.len() == pow2(w_exp as nat) * pow2(h_exp as nat),
        ensures
            r.wf(),
            r.spec_w_exp() == w_exp,
            r.spec_h_exp() == h_exp,
            r.spec_width() == pow2(w_exp as nat),
            r.spec_height() == pow2(h_exp as nat),
            r.contents() == data@,
    {
        proof {
            lemma_pow2_strictly_increases(w_exp as nat, 32);
            lemma_pow2_strictly_increases(h_exp as nat, 32);
            lemma_pow2_adds(w_exp as nat, h_exp as nat);
            lemma_pow2_strictly_increases((w_exp + h_exp) as nat, 32);
            lemma2_to64();
            lemma_usize_shl_is_mul(1, w_exp);
            lemma_usize_shl_is_mul(1, h_exp);
        }
        let width = 1usize << w_exp;
        let height = 1usize << h_exp;
        let inner = Array2D::from_box(width, height, data);
        FastArray2D { w_exp, h_exp, x_mask: width - 1, y_mask: height - 1, inner }
    }


    /// Allocates a `2^w_exp` by `2^h_exp` grid, filling every cell exactly
    /// once from its storage coordinates.
    pub fn from_closure<F: Fn(usize, usize) -> T>(w_exp: usize, h_exp: usize, f: F) -> (r:
        FastArray2D<T>)
        requires
            w_exp + h_exp < 32,
            forall|x: usize, y: usize|
                x < pow2(w_exp as nat) && y < pow2(h_exp as nat) ==> #[trigger] f.requires(
                    (x, y),
                ),
        ensures
            r.wf(),
            r.spec_w_exp() == w_exp,
            r.spec_h_exp() == h_exp,
            r.spec_width() == pow2(w_exp as nat),
            r.spec_height() == pow2(h_exp as nat),
            forall|x: int, y: int|
                0 <= x < r.spec_width() && 0 <= y < r.spec_height() ==> f.ensures(
                    ((x) as usize, (y) as usize),
                    #[trigger] r.contents()[x + y * r.spec_width()],
                ),
    {
        proof {
            lemma_pow2_strictly_increases(w_exp as nat, 32);
            lemma_pow2_strictly_increases(h_exp as nat, 32);
            lemma_pow2_adds(w_exp as nat, h_exp as nat);
            lemma_pow2_strictly_increases((w_exp + h_exp) as nat, 32);
            lemma2_to64();
            lemma_usize_shl_is_mul(1, w_exp);
            lemma_usize_shl_is_mul(1, h_exp);
            vstd::arithmetic::power2::lemma_pow2_pos(w_exp as nat);
            vstd::arithmetic::power2::lemma_pow2_pos(h_exp as nat);
        }
        let width = 1usize << w_exp;
        let height = 1usize << h_exp;
        let mut data: Vec<T> = Vec::new();
        let mut y: usize = 0;
        while y < height
            invariant
                width == pow2(w_exp as nat),
                height == pow2(h_exp as nat),
                width >= 1,
                height >= 1,
                width * height <= usize::MAX,
                y <= height,
                data@.len() == y * width,
                forall|xx: usize, yy: usize|
                    xx < width && yy < height ==> #[trigger] f.requires((xx, yy)),
                forall|xx: int, yy: int|
                    0 <= xx < width && 0 <= yy < y ==> f.ensures(
                        ((xx) as usize, (yy) as usize),
                        #[trigger] data@[xx + yy * width],
                    ),
            decreases height - y,
        {
            let mut x: usize = 0;
            proof {
                assert((y + 1) * width == y * width + width) by (nonlinear_arith);
                assert((y + 1) * width <= height * width) by (nonlinear_arith)
                    requires
                        y + 1 <= height,
                        width >= 1,
                ;
            }
            while x < width
                invariant
                    width == pow2(w_exp as nat),
                    height == pow2(h_exp as nat),
                    width >= 1,
                    height >= 1,
                    width * height <= usize::MAX,
                    y < height,
                    x <= width,
                    (y + 1) * width <= width * height,
                    data@.len() == y * width + x,
                    forall|xx: usize, yy: usize|
                        xx < width && yy < height ==> #[trigger] f.requires((xx, yy)),
                    forall|xx: int, yy: int|
                        0 <= xx < width && 0 <= yy < y ==> f.ensures(
                            ((xx) as usize, (yy) as usize),
                            #[trigger] data@[xx + yy * width],
                        ),
                    forall|xx: int|
                        0 <= xx < x ==> f.ensures(
                            ((xx) as usize, (y) as usize),
                            #[trigger] data@[xx + y * width],
                        ),
                decreases width - x,
            {
                let v = f(x, y);
                data.push(v);
                proof {
                    assert forall|xx: int, yy: int| 0 <= xx < width && 0 <= yy < y implies f
                        .ensures(
                        ((xx) as usize, (yy) as usize),
                        #[trigger] data@[xx + yy * width],
                    ) by {
                        assert(xx + yy * width < y * width) by (nonlinear_arith)
                            requires
                                0 <= xx < width,
                                0 <= yy < y,
                        ;
                    }
                }
                x = x + 1;
            }
            y = y + 1;
        }
        proof {
            assert(height * width == width * height) by (nonlinear_arith);
        }
        FastArray2D::from_box(w_exp, h_exp, data)
    }

    /// Reads the world rectangle `[x1, x2) x [y1, y2)` in row-major traversal
    /// order, returning each visited cell as `(world_x, world_y, value)`.
    pub fn for_each_sub_wrapping(&self, x1: usize, x2: usize, y1: usize, y2: usize) -> (r: Vec<
        (usize, usize, T),
    >)
        requires
            self.wf(),
            x1 < x2,
            y1 < y2,
            x2 - x1 <= self.spec_width(),
            y2 - y1 <= self.spec_height(),
        ensures
            r@.len() == (x2 - x1) * (y2 - y1),
            forall|k: int|
                0 <= k < r@.len() ==> {
                    let (vx, vy, idx) = rect_visit(
                        self.spec_width(),
                        self.spec_height(),
                        x1 as int,
                        x2 as int,
                        y1 as int,
                        k,
                    );
                    #[trigger] r@[k] == (vx, vy, self.contents()[idx as int])
                },
    {
        proof {
            self.lemma_wf_dims();
        }
        self.inner.for_each_sub_wrapping(x1, x2, y1, y2)
    }

    /// Copies the world rectangle `[x1, x2) x [y1, y2)` into a freshly
    /// allocated non-wrapping grid; the caller vouches for the rectangle.
    pub fn clone_sub_wrapping(&self, x1: usize, x2: usize, y1: usize, y2: usize) -> (r: Array2D<
        T,
    >)
        requires
            self.wf(),
            x1 < x2,
            y1 < y2,
            x2 - x1 <= self.spec_width(),
            y2 - y1 <= self.spec_height(),
        ensures
            r.wf(),
            r.spec_width() == x2 - x1,
            r.spec_height() == y2 - y1,
            forall|k: int|
                0 <= k < r.contents().len() ==> #[trigger] r.contents()[k] == self.cell(
                    x1 + k % (x2 - x1) as int,
                    y1 + k / (x2 - x1) as int,
                ),
            forall|i: int, j: int|
                0 <= i < x2 - x1 && 0 <= j < y2 - y1 ==> #[trigger] r.contents()[j * (x2 - x1)
                    + i] == self.cell(x1 + i, y1 + j),
    {
        proof {
            self.lemma_wf_dims();
        }
        self.inner.clone_sub_wrapping(x1, x2, y1, y2)
    }

    /// Bounds-checked copy of the storage rectangle `[x1, x2) x [y1, y2)` into
    /// a freshly allocated grid; a rectangle that is empty or reaches past the
    /// grid is refused.
    pub fn clone_sub(&self, x1: usize, x2: usize, y1: usize, y2: usize) -> (r: Result<
        Array2D<T>,
        Array2DErr,
    >)
        requires
            self.wf(),
        ensures
            match r {
                Ok(g) => x1 < x2 && x2 <= self.spec_width() && y1 < y2 && y2
                    <= self.spec_height() && g.wf() && g.spec_width() == x2 - x1 && g.spec_height()
                    == y2 - y1 && (forall|i: int, j: int|
                    0 <= i < x2 - x1 && 0 <= j < y2 - y1 ==> #[trigger] g.contents()[j * (x2 - x1)
                        + i] == self.cell(x1 + i, y1 + j)),
                Err(e) => e == Array2DErr::OutOfBounds && !(x1 < x2 && x2 <= self.spec_width() && y1
                    < y2 && y2 <= self.spec_height()),
            },
    {
        proof {
            self.lemma_wf_dims();
        }
        self.inner.clone_sub(x1, x2, y1, y2)
    }

    /// Overwrites the world rectangle `[x1, x2) x [y1, y2)` from a row-major
    /// source, in traversal order; every cell outside the rectangle's storage
    /// image is untouched.
    pub fn splice_wrapping(&mut self, x1: usize, x2: usize, y1: usize, y2: usize, data: Vec<T>)
        requires
            old(self).wf(),
            x1 < x2,
            y1 < y2,
            x2 - x1 <= old(self).spec_width(),
            y2 - y1 <= old(self).spec_height(),
            data@.len() == (x2 - x1) * (y2 - y1),
        ensures
            final(self).wf(),
            final(self).spec_w_exp() == old(self).spec_w_exp(),
            final(self).spec_h_exp() == old(self).spec_h_exp(),
            final(self).spec_width() == old(self).spec_width(),
            final(self).spec_height() == old(self).spec_height(),
            forall|i: int, j: int|
                0 <= i < x2 - x1 && 0 <= j < y2 - y1 ==> #[trigger] final(self).cell(
                    x1 + i,
                    y1 + j,
                ) == data@[j * (x2 - x1) + i],
            forall|idx: int|
                0 <= idx < old(self).contents().len() && !rect_covers(
                    old(self).spec_width(),
                    old(self).spec_height(),
                    x1 as int,
                    x2 as int,
                    y1 as int,
                    y2 as int,
                    idx,
                ) ==> #[trigger] final(self).contents()[idx] == old(self).contents()[idx],
    {
        proof {
            self.lemma_wf_dims();
        }
        self.inner.splice_wrapping(x1, x2, y1, y2, data);
        proof {
            assert forall|i: int, j: int| 0 <= i < x2 - x1 && 0 <= j < y2 - y1 implies #[trigger] self
                .cell(x1 + i, y1 + j) == data@[j * (x2 - x1) + i] by {
                assert(self.inner.cell(x1 + i, y1 + j) == data@[j * (x2 - x1) + i]);
            }
        }
    }
}

} // verus!
