use crate::raster::{idx, Raster};
use vstd::prelude::*;

verus! {

/// An 8-bit single-channel image, held in an `image::GrayImage`.
#[verifier::external_body]
#[derive(Debug, PartialEq, Eq)]
pub struct Image8 {
    buf: image::ImageBuffer<image::Luma<u8>, Vec<u8>>,
}

/// The width that the buffer of an `Image8` was made with.
pub uninterp spec fn image8_width(img: Image8) -> u32;

/// The height that the buffer of an `Image8` was made with.
pub uninterp spec fn image8_height(img: Image8) -> u32;

/// The pixels of an `Image8`, row after row.
pub uninterp spec fn image8_pixels(img: Image8) -> Seq<u8>;

/// Relies on `ImageBuffer::new`: a `w` by `h` buffer of zeros, which panics
/// only when `w * h` overflows `usize`.
#[verifier::external_body]
fn buf8_new(w: u32, h: u32) -> (r: Image8)
    requires
        w * h <= usize::MAX,
    ensures
        image8_width(r) == w,
        image8_height(r) == h,
        image8_pixels(r) == Seq::new((w * h) as nat, |i: int| 0u8),
{
    Image8 { buf: image::ImageBuffer::new(w, h) }
}

/// Relies on `ImageBuffer::width`, and on the buffer holding `width * height`
/// pixels, a count that its constructors check to fit in `usize`.
#[verifier::external_body]
fn buf8_width(img: &Image8) -> (r: u32)
    ensures
        r == image8_width(*img),
        image8_pixels(*img).len() == r * image8_height(*img),
        r * image8_height(*img) <= usize::MAX,
{
    img.buf.width()
}

/// Relies on `ImageBuffer::height`, and on the buffer holding `width * height`
/// pixels, a count that its constructors check to fit in `usize`.
#[verifier::external_body]
fn buf8_height(img: &Image8) -> (r: u32)
    ensures
        r == image8_height(*img),
        image8_pixels(*img).len() == image8_width(*img) * r,
        image8_width(*img) * r <= usize::MAX,
{
    img.buf.height()
}

/// Relies on `ImageBuffer::get_pixel`, which reads pixel `(x, y)` and panics
/// out of bounds.
#[verifier::external_body]
fn buf8_get(img: &Image8, x: u32, y: u32) -> (r: u8)
    requires
        x < image8_width(*img),
        y < image8_height(*img),
    ensures
        r == image8_pixels(*img)[idx(image8_width(*img) as nat, x as int, y as int)],
{
    img.buf.get_pixel(x, y).0[0]
}

/// Relies on `ImageBuffer::put_pixel`, which writes pixel `(x, y)` alone and
/// panics out of bounds.
#[verifier::external_body]
fn buf8_put(img: &mut Image8, x: u32, y: u32, v: u8)
    requires
        x < image8_width(*old(img)),
        y < image8_height(*old(img)),
    ensures
        image8_width(*final(img)) == image8_width(*old(img)),
        image8_height(*final(img)) == image8_height(*old(img)),
        image8_pixels(*final(img)) == image8_pixels(*old(img)).update(
            idx(image8_width(*old(img)) as nat, x as int, y as int),
            v,
        ),
{
    img.buf.put_pixel(x, y, image::Luma([v]))
}

/// Relies on `imageops::crop_imm` and `SubImage::to_image`: a copy of the `w`
/// by `h` rectangle at `(x, y)`, which lies inside the image.
#[verifier::external_body]
fn buf8_crop(img: &Image8, x: u32, y: u32, w: u32, h: u32) -> (r: Image8)
    requires
        x + w <= image8_width(*img),
        y + h <= image8_height(*img),
    ensures
        image8_width(r) == w,
        image8_height(r) == h,
        image8_pixels(r).len() == w * h,
        forall|i: int, j: int|
            0 <= i < w && 0 <= j < h ==> #[trigger] image8_pixels(r)[idx(w as nat, i, j)]
                == image8_pixels(*img)[idx(image8_width(*img) as nat, x + i, y + j)],
{
    Image8 { buf: image::imageops::crop_imm(&img.buf, x, y, w, h).to_image() }
}

impl Raster<u8> for Image8 {
    open spec fn spec_width(&self) -> nat {
        image8_width(*self) as nat
    }

    open spec fn spec_height(&self) -> nat {
        image8_height(*self) as nat
    }

    open spec fn cells(&self) -> Seq<u8> {
        image8_pixels(*self)
    }

    open spec fn background() -> u8 {
        0
    }

    fn cols(&self) -> (r: u32) {
        buf8_width(self)
    }

    fn rows(&self) -> (r: u32) {
        buf8_height(self)
    }

    fn blank(w: u32, h: u32) -> (r: Self) {
        buf8_new(w, h)
    }

    fn pixel(&self, x: u32, y: u32) -> (r: u8) {
        buf8_get(self, x, y)
    }

    fn set_pixel(&mut self, x: u32, y: u32, v: u8) {
        buf8_put(self, x, y, v)
    }

    fn sub_image(&self, x: u32, y: u32, w: u32, h: u32) -> (r: Self) {
        buf8_crop(self, x, y, w, h)
    }
}

/// A 32-bit single-channel image, held in an `image::ImageBuffer` of `Luma<u32>`.
#[verifier::external_body]
#[derive(Debug, PartialEq, Eq)]
pub struct Image32 {
    buf: image::ImageBuffer<image::Luma<u32>, Vec<u32>>,
}

/// The width that the buffer of an `Image32` was made with.
pub uninterp spec fn image32_width(img: Image32) -> u32;

/// The height that the buffer of an `Image32` was made with.
pub uninterp spec fn image32_height(img: Image32) -> u32;

/// The pixels of an `Image32`, row after row.
pub uninterp spec fn image32_pixels(img: Image32) -> Seq<u32>;

/// Relies on `ImageBuffer::new`: a `w` by `h` buffer of zeros, which panics
/// only when `w * h` overflows `usize`.
#[verifier::external_body]
fn buf32_new(w: u32, h: u32) -> (r: Image32)
    requires
        w * h <= usize::MAX,
    ensures
        image32_width(r) == w,
        image32_height(r) == h,
        image32_pixels(r) == Seq::new((w * h) as nat, |i: int| 0u32),
{
    Image32 { buf: image::ImageBuffer::new(w, h) }
}

/// Relies on `ImageBuffer::width`, and on the buffer holding `width * height`
/// pixels, a count that its constructors check to fit in `usize`.
#[verifier::external_body]
fn buf32_width(img: &Image32) -> (r: u32)
    ensures
        r == image32_width(*img),
        image32_pixels(*img).len() == r * image32_height(*img),
        r * image32_height(*img) <= usize::MAX,
{
    img.buf.width()
}

/// Relies on `ImageBuffer::height`, and on the buffer holding `width * height`
/// pixels, a count that its constructors check to fit in `usize`.
#[verifier::external_body]
fn buf32_height(img: &Image32) -> (r: u32)
    ensures
        r == image32_height(*img),
        image32_pixels(*img).len() == image32_width(*img) * r,
        image32_width(*img) * r <= usize::MAX,
{
    img.buf.height()
}

/// Relies on `ImageBuffer::get_pixel`, which reads pixel `(x, y)` and panics
/// out of bounds.
#[verifier::external_body]
fn buf32_get(img: &Image32, x: u32, y: u32) -> (r: u32)
    requires
        x < image32_width(*img),
        y < image32_height(*img),
    ensures
        r == image32_pixels(*img)[idx(image32_width(*img) as nat, x as int, y as int)],
{
    img.buf.get_pixel(x, y).0[0]
}

/// Relies on `ImageBuffer::put_pixel`, which writes pixel `(x, y)` alone and
/// panics out of bounds.
#[verifier::external_body]
fn buf32_put(img: &mut Image32, x: u32, y: u32, v: u32)
    requires
        x < image32_width(*old(img)),
        y < image32_height(*old(img)),
    ensures
        image32_width(*final(img)) == image32_width(*old(img)),
        image32_height(*final(img)) == image32_height(*old(img)),
        image32_pixels(*final(img)) == image32_pixels(*old(img)).update(
            idx(image32_width(*old(img)) as nat, x as int, y as int),
            v,
        ),
{
    img.buf.put_pixel(x, y, image::Luma([v]))
}

/// Relies on `imageops::crop_imm` and `SubImage::to_image`: a copy of the `w`
/// by `h` rectangle at `(x, y)`, which lies inside the image.
#[verifier::external_body]
fn buf32_crop(img: &Image32, x: u32, y: u32, w: u32, h: u32) -> (r: Image32)
    requires
        x + w <= image32_width(*img),
        y + h <= image32_height(*img),
    ensures
        image32_width(r) == w,
        image32_height(r) == h,
        image32_pixels(r).len() == w * h,
        forall|i: int, j: int|
            0 <= i < w && 0 <= j < h ==> #[trigger] image32_pixels(r)[idx(w as nat, i, j)]
                == image32_pixels(*img)[idx(image32_width(*img) as nat, x + i, y + j)],
{
    Image32 { buf: image::imageops::crop_imm(&img.buf, x, y, w, h).to_image() }
}

impl Raster<u32> for Image32 {
    open spec fn spec_width(&self) -> nat {
        image32_width(*self) as nat
    }

    open spec fn spec_height(&self) -> nat {
        image32_height(*self) as nat
    }

    open spec fn cells(&self) -> Seq<u32> {
        image32_pixels(*self)
    }

    open spec fn background() -> u32 {
        0
    }

    fn cols(&self) -> (r: u32) {
        buf32_width(self)
    }

    fn rows(&self) -> (r: u32) {
        buf32_height(self)
    }

    fn blank(w: u32, h: u32) -> (r: Self) {
        buf32_new(w, h)
    }

    fn pixel(&self, x: u32, y: u32) -> (r: u32) {
        buf32_get(self, x, y)
    }

    fn set_pixel(&mut self, x: u32, y: u32, v: u32) {
        buf32_put(self, x, y, v)
    }

    fn sub_image(&self, x: u32, y: u32, w: u32, h: u32) -> (r: Self) {
        buf32_crop(self, x, y, w, h)
    }
}


impl Image8 {
    /// The image of `width` by `height` pixels whose rows, top to bottom,
    /// are laid end to end in `data`; `None` unless `data` holds exactly
    /// `width * height` values.
    pub fn from_pixels(width: u32, height: u32, data: &Vec<u8>) -> (r: Option<Image8>)
        ensures
            r is Some <==> data@.len() == width * height,
            r matches Some(img) ==> img.spec_width() == width && img.spec_height() == height
                && img.cells() == data@,
    {
        proof {
            assert((width as u64) * (height as u64) <= u64::MAX) by (nonlinear_arith)
                requires
                    width <= u32::MAX,
                    height <= u32::MAX,
            ;
        }
        if (width as u64) * (height as u64) != data.len() as u64 {
            return None;
        }
        proof {
            if width == 0 {
                assert(width * height == 0) by (nonlinear_arith)
                    requires
                        width == 0,
                ;
            }
        }
        let mut img = Image8::blank(width, height);
        let mut i: usize = 0;
        while i < data.len()
            invariant
                data@.len() == width * height,
                data@.len() > 0 ==> width > 0,
                img.spec_width() == width,
                img.spec_height() == height,
                img.cells().len() == width * height,
                i <= data@.len(),
                forall|k: int| 0 <= k < i ==> #[trigger] img.cells()[k] == data@[k],
            decreases data@.len() - i,
        {
            let xs = i % (width as usize);
            let ys = i / (width as usize);
            proof {
                vstd::arithmetic::div_mod::lemma_fundamental_div_mod(i as int, width as int);
                vstd::arithmetic::div_mod::lemma_div_pos_is_pos(i as int, width as int);
                if ys >= height {
                    assert(height * width <= ys * width) by (nonlinear_arith)
                        requires
                            ys >= height,
                    ;
                }
                assert(ys * width == width * ys) by (nonlinear_arith);
            }
            let x = xs as u32;
            let y = ys as u32;
            proof {
                assert(idx(width as nat, x as int, y as int) == i);
                crate::raster::lemma_idx_bounds(width as nat, height as nat, x as int, y as int);
            }
            let ghost c = img.cells();
            img.set_pixel(x, y, data[i]);
            proof {
                assert forall|k: int| 0 <= k < i + 1 implies #[trigger] img.cells()[k] == data@[k] by {
                    if k < i {
                        assert(img.cells()[k] == c[k]);
                    }
                }
            }
            i = i + 1;
        }
        assert(img.cells() =~= data@);
        Some(img)
    }

    /// The pixels, row after row.
    pub fn to_pixels(&self) -> (r: Vec<u8>)
        ensures
            r@ == self.cells(),
    {
        let width = self.cols();
        let height = self.rows();
        let mut out: Vec<u8> = Vec::new();
        let mut y: u32 = 0;
        while y < height
            invariant
                width == self.spec_width(),
                height == self.spec_height(),
                self.cells().len() == width * height,
                y <= height,
                out@ == self.cells().subrange(0, y * width),
            decreases height - y,
        {
            let mut x: u32 = 0;
            while x < width
                invariant
                    width == self.spec_width(),
                    height == self.spec_height(),
                    self.cells().len() == width * height,
                    y < height,
                    x <= width,
                    out@ == self.cells().subrange(0, y * width + x),
                decreases width - x,
            {
                proof {
                    crate::raster::lemma_idx_bounds(width as nat, height as nat, x as int, y as int);
                }
                let v = self.pixel(x, y);
                out.push(v);
                proof {
                    assert(self.cells().subrange(0, y * width + x + 1) =~= self.cells().subrange(
                        0,
                        y * width + x,
                    ).push(v));
                }
                x = x + 1;
            }
            proof {
                assert(y * width + width == (y + 1) * width) by (nonlinear_arith);
            }
            y = y + 1;
        }
        assert(self.cells().subrange(0, height * width) =~= self.cells());
        out
    }
}

} // verus!
