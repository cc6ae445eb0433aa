use vstd::prelude::*;

verus! {

/// Row-major position of pixel `(x, y)` in an image `w` pixels wide.
pub open spec fn idx(w: nat, x: int, y: int) -> int {
    y * w + x
}

pub proof fn lemma_idx_bounds(w: nat, h: nat, x: int, y: int)
    requires
        0 <= x < w,
        0 <= y < h,
    ensures
        0 <= idx(w, x, y) < w * h,
{
    assert(0 <= y * w) by (nonlinear_arith)
        requires
            0 <= y,
    ;
    assert(y * w + x < w * h) by (nonlinear_arith)
        requires
            0 <= x < w,
            0 <= y < h,
    ;
}

/// Distinct in-bounds positions have distinct row-major indices.
pub proof fn lemma_idx_injective(w: nat, x1: int, y1: int, x2: int, y2: int)
    requires
        0 <= x1 < w,
        0 <= x2 < w,
        0 <= y1,
        0 <= y2,
        idx(w, x1, y1) == idx(w, x2, y2),
    ensures
        x1 == x2,
        y1 == y2,
{
    if y1 < y2 {
        assert(y1 * w + w <= y2 * w) by (nonlinear_arith)
            requires
                y1 < y2,
        ;
    } else if y2 < y1 {
        assert(y2 * w + w <= y1 * w) by (nonlinear_arith)
            requires
                y2 < y1,
        ;
    }
}

/// Every row-major index below `w * h` is the index of a pixel of a `w` by
/// `h` image.
pub proof fn lemma_idx_onto(w: nat, h: nat, t: int) -> (r: (int, int))
    requires
        0 <= t < w * h,
    ensures
        0 <= r.0 < w,
        0 <= r.1 < h,
        idx(w, r.0, r.1) == t,
        r.0 == t % (w as int),
        r.1 == t / (w as int),
{
    let wi = w as int;
    if wi == 0 {
        assert(w * h == 0) by (nonlinear_arith)
            requires
                w == 0,
        ;
    }
    vstd::arithmetic::div_mod::lemma_fundamental_div_mod(t, wi);
    vstd::arithmetic::div_mod::lemma_div_pos_is_pos(t, wi);
    let x = t % wi;
    let y = t / wi;
    assert(y * wi == wi * y) by (nonlinear_arith);
    if y >= h {
        assert(h * wi <= y * wi) by (nonlinear_arith)
            requires
                y >= h,
                wi >= 0,
        ;
        assert(w * h == h * wi) by (nonlinear_arith)
            requires
                wi == w,
        ;
    }
    (x, y)
}

/// A single-channel raster of pixels of type `P`, stored row-major.
pub trait Raster<P>: Sized {
    spec fn spec_width(&self) -> nat;

    spec fn spec_height(&self) -> nat;

    /// The pixels, row after row; `cells()[y * width + x]` is pixel `(x, y)`.
    spec fn cells(&self) -> Seq<P>;

    /// The value of every pixel of a fresh raster.
    spec fn background() -> P;

    fn cols(&self) -> (r: u32)
        ensures
            r == self.spec_width(),
            self.cells().len() == self.spec_width() * self.spec_height(),
            self.spec_width() * self.spec_height() <= usize::MAX,
    ;

    fn rows(&self) -> (r: u32)
        ensures
            r == self.spec_height(),
            self.cells().len() == self.spec_width() * self.spec_height(),
            self.spec_width() * self.spec_height() <= usize::MAX,
    ;

    /// A `w` by `h` raster.
    fn blank(w: u32, h: u32) -> (r: Self)
        requires
            w * h <= usize::MAX,
        ensures
            r.spec_width() == w,
            r.spec_height() == h,
            r.cells().len() == w * h,
            forall|i: int| 0 <= i < w * h ==> #[trigger] r.cells()[i] == Self::background(),
    ;

    fn pixel(&self, x: u32, y: u32) -> (r: P)
        requires
            x < self.spec_width(),
            y < self.spec_height(),
        ensures
            r == self.cells()[idx(self.spec_width(), x as int, y as int)],
    ;

    fn set_pixel(&mut self, x: u32, y: u32, v: P)
        requires
            x < old(self).spec_width(),
            y < old(self).spec_height(),
        ensures
            final(self).spec_width() == old(self).spec_width(),
            final(self).spec_height() == old(self).spec_height(),
            final(self).cells() == old(self).cells().update(
                idx(old(self).spec_width(), x as int, y as int),
                v,
            ),
    ;

    /// A copy of the `w` by `h` rectangle whose upper-left corner is `(x, y)`.
    fn sub_image(&self, x: u32, y: u32, w: u32, h: u32) -> (r: Self)
        requires
            x + w <= self.spec_width(),
            y + h <= self.spec_height(),
        ensures
            r.spec_width() == w,
            r.spec_height() == h,
            r.cells().len() == w * h,
            forall|i: int, j: int|
                0 <= i < w && 0 <= j < h ==> #[trigger] r.cells()[idx(w as nat, i, j)]
                    == self.cells()[idx(self.spec_width(), x + i, y + j)],
    ;
}

} // verus!
