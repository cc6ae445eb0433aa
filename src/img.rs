use crate::gray::Image8;
use crate::parallel_img::{covers, ParallelSection};
use crate::raster::{idx, lemma_idx_bounds, lemma_idx_injective, Raster};
use vstd::prelude::*;

verus! {

/// A pixel position together with the value stored there.
#[derive(PartialEq, Eq, Hash, Debug)]
pub struct PixelT<P> {
    pub coords: (u32, u32),
    pub value: P,
}

/// Which pixels count as neighbours: the four sharing an edge, or all eight
/// around a pixel.
#[derive(Clone, Copy, PartialEq, Eq, Debug)]
pub enum ConnTypes {
    Four,
    Eight,
}

/// Column offset of the `k`-th cell of the 3x3 patch, taken column by column.
pub open spec fn patch_dx(k: int) -> int {
    k / 3 - 1
}

/// Row offset of the `k`-th cell of the 3x3 patch, taken column by column.
pub open spec fn patch_dy(k: int) -> int {
    k % 3 - 1
}

/// Whether the `k`-th cell of the patch around `(x, y)` is a neighbour inside
/// a `w` by `h` image.
pub open spec fn patch_keeps(w: nat, h: nat, x: int, y: int, conn: ConnTypes, k: int) -> bool {
    let nx = x + patch_dx(k);
    let ny = y + patch_dy(k);
    &&& k != 4
    &&& 0 <= nx < w
    &&& 0 <= ny < h
    &&& (conn == ConnTypes::Eight || patch_dx(k) == 0 || patch_dy(k) == 0)
}

/// The neighbours found among the first `k` cells of the 3x3 patch around `(x, y)`.
pub open spec fn patch_neighbours(w: nat, h: nat, x: int, y: int, conn: ConnTypes, k: nat) -> Seq<
    (u32, u32),
>
    decreases k,
{
    if k == 0 {
        Seq::empty()
    } else {
        let prev = patch_neighbours(w, h, x, y, conn, (k - 1) as nat);
        if patch_keeps(w, h, x, y, conn, k - 1) {
            prev.push(
                ((x + patch_dx(k - 1)) as u32, (y + patch_dy(k - 1)) as u32),
            )
        } else {
            prev
        }
    }
}

/// The neighbours of `(x, y)` in a `w` by `h` image: the cells of the 3x3
/// patch around it, column by column and top to bottom in each column,
/// without the centre and without the cells off the image.
pub open spec fn neighbours(w: nat, h: nat, x: int, y: int, conn: ConnTypes) -> Seq<(u32, u32)> {
    patch_neighbours(w, h, x, y, conn, 9)
}

pub proof fn lemma_patch_neighbours_in_bounds(
    w: nat,
    h: nat,
    x: int,
    y: int,
    conn: ConnTypes,
    k: nat,
)
    requires
        k <= 9,
        w <= u32::MAX,
        h <= u32::MAX,
    ensures
        forall|i: int|
            0 <= i < patch_neighbours(w, h, x, y, conn, k).len() ==> {
                let q = #[trigger] patch_neighbours(w, h, x, y, conn, k)[i];
                &&& (q.0 as int) < w
                &&& (q.1 as int) < h
                &&& x - 1 <= q.0 <= x + 1
                &&& y - 1 <= q.1 <= y + 1
                &&& !(q.0 == x && q.1 == y)
            },
    decreases k,
{
    if k > 0 {
        lemma_patch_neighbours_in_bounds(w, h, x, y, conn, (k - 1) as nat);
        let j = k - 1;
        let prev = patch_neighbours(w, h, x, y, conn, j as nat);
        let cur = patch_neighbours(w, h, x, y, conn, k);
        assert(0 <= j < 9 && j != 4 ==> !(patch_dx(j) == 0 && patch_dy(j) == 0));
        assert forall|i: int| 0 <= i < cur.len() implies {
            let q = #[trigger] cur[i];
            &&& (q.0 as int) < w
            &&& (q.1 as int) < h
            &&& x - 1 <= q.0 <= x + 1
            &&& y - 1 <= q.1 <= y + 1
            &&& !(q.0 == x && q.1 == y)
        } by {
            if i < prev.len() {
                assert(cur[i] == prev[i]);
            }
        }
    }
}

/// Lists the neighbours of `coords` that lie inside `img`, with connectivity `conn`.
pub fn get_pixel_neighbours<P, I: Raster<P>>(img: &I, coords: (u32, u32), conn: ConnTypes) -> (r:
    Vec<(u32, u32)>)
    ensures
        r@ == neighbours(img.spec_width(), img.spec_height(), coords.0 as int, coords.1 as int, conn),
{
    let w = img.cols();
    let h = img.rows();
    let mut out: Vec<(u32, u32)> = Vec::new();
    let mut k: u32 = 0;
    while k < 9
        invariant
            k <= 9,
            w == img.spec_width(),
            h == img.spec_height(),
            out@ == patch_neighbours(w as nat, h as nat, coords.0 as int, coords.1 as int, conn, k as nat),
        decreases 9 - k,
    {
        let dx: i64 = (k / 3) as i64 - 1;
        let dy: i64 = (k % 3) as i64 - 1;
        let nx: i64 = coords.0 as i64 + dx;
        let ny: i64 = coords.1 as i64 + dy;
        let shape_ok = match conn {
            ConnTypes::Eight => true,
            ConnTypes::Four => dx == 0 || dy == 0,
        };
        if k != 4 && 0 <= nx && nx < w as i64 && 0 <= ny && ny < h as i64 && shape_ok {
            out.push((nx as u32, ny as u32));
        }
        k = k + 1;
    }
    out
}


/// Whether `pixel` lies in the section's rectangle (half-open on both axes).
pub fn is_pixel_in_section<I>(pixel: (u32, u32), section: &ParallelSection<I>) -> (r: bool)
    ensures
        r == covers(*section, pixel.0 as int, pixel.1 as int),
{
    let sx = section.start.0 as u64;
    let sy = section.start.1 as u64;
    sx <= pixel.0 as u64 && (pixel.0 as u64) < sx + section.width as u64 && sy <= pixel.1 as u64
        && (pixel.1 as u64) < sy + section.height as u64
}

/// The positions of the top row, left to right.
pub fn get_upper_border_pixels_coords<P, I: Raster<P>>(img: &I) -> (r: Vec<(u32, u32)>)
    ensures
        r@ == Seq::new(img.spec_width(), |i: int| (i as u32, 0u32)),
{
    let w = img.cols();
    let mut border: Vec<(u32, u32)> = Vec::new();
    let mut i: u32 = 0;
    while i < w
        invariant
            i <= w,
            w == img.spec_width(),
            border@ == Seq::new(i as nat, |k: int| (k as u32, 0u32)),
        decreases w - i,
    {
        border.push((i, 0));
        i = i + 1;
    }
    border
}

/// The positions of the left column, top to bottom.
pub fn get_left_border_pixels_coords<P, I: Raster<P>>(img: &I) -> (r: Vec<(u32, u32)>)
    ensures
        r@ == Seq::new(img.spec_height(), |j: int| (0u32, j as u32)),
{
    let h = img.rows();
    let mut border: Vec<(u32, u32)> = Vec::new();
    let mut j: u32 = 0;
    while j < h
        invariant
            j <= h,
            h == img.spec_height(),
            border@ == Seq::new(j as nat, |k: int| (0u32, k as u32)),
        decreases h - j,
    {
        border.push((0, j));
        j = j + 1;
    }
    border
}

/// The positions of the bottom row, left to right.
pub fn get_bottom_border_pixels_coords<P, I: Raster<P>>(img: &I) -> (r: Vec<(u32, u32)>)
    requires
        img.spec_height() >= 1,
    ensures
        r@ == Seq::new(img.spec_width(), |i: int| (i as u32, (img.spec_height() - 1) as u32)),
{
    let w = img.cols();
    let h = img.rows();
    let mut border: Vec<(u32, u32)> = Vec::new();
    let mut i: u32 = 0;
    while i < w
        invariant
            i <= w,
            w == img.spec_width(),
            h == img.spec_height(),
            h >= 1,
            border@ == Seq::new(i as nat, |k: int| (k as u32, (h - 1) as u32)),
        decreases w - i,
    {
        border.push((i, h - 1));
        i = i + 1;
    }
    border
}

/// The positions of the right column, top to bottom.
pub fn get_right_border_pixels_coords<P, I: Raster<P>>(img: &I) -> (r: Vec<(u32, u32)>)
    requires
        img.spec_width() >= 1,
    ensures
        r@ == Seq::new(img.spec_height(), |j: int| ((img.spec_width() - 1) as u32, j as u32)),
{
    let w = img.cols();
    let h = img.rows();
    let mut border: Vec<(u32, u32)> = Vec::new();
    let mut j: u32 = 0;
    while j < h
        invariant
            j <= h,
            w == img.spec_width(),
            h == img.spec_height(),
            w >= 1,
            border@ == Seq::new(j as nat, |k: int| ((w - 1) as u32, k as u32)),
        decreases h - j,
    {
        border.push((w - 1, j));
        j = j + 1;
    }
    border
}

/// The binary image of `img`: 1 where a pixel is above 128, 0 elsewhere.
pub fn convert_to_binary(img: &Image8) -> (r: Image8)
    ensures
        r.spec_width() == img.spec_width(),
        r.spec_height() == img.spec_height(),
        r.cells().len() == img.cells().len(),
        forall|x: int, y: int|
            0 <= x < img.spec_width() && 0 <= y < img.spec_height() ==> #[trigger] r.cells()[idx(
                img.spec_width(),
                x,
                y,
            )] == if img.cells()[idx(img.spec_width(), x, y)] > 128 {
                1u8
            } else {
                0u8
            },
{
    let width = img.cols();
    let height = img.rows();
    let mut binary_img = Image8::blank(width, height);
    proof {
        assert forall|x: int, y: int| 0 <= x < width && 0 <= y < height implies #[trigger] binary_img.cells()[idx(
            width as nat,
            x,
            y,
        )] == 0u8 by {
            lemma_idx_bounds(width as nat, height as nat, x, y);
        }
    }
    let mut i: u32 = 0;
    while i < height
        invariant
            width == img.spec_width(),
            height == img.spec_height(),
            img.cells().len() == width * height,
            binary_img.spec_width() == width,
            binary_img.spec_height() == height,
            binary_img.cells().len() == width * height,
            i <= height,
            forall|x: int, y: int|
                0 <= x < width && 0 <= y < height ==> #[trigger] binary_img.cells()[idx(
                    width as nat,
                    x,
                    y,
                )] == if y < i && img.cells()[idx(width as nat, x, y)] > 128 {
                    1u8
                } else {
                    0u8
                },
        decreases height - i,
    {
        let mut j: u32 = 0;
        while j < width
            invariant
                width == img.spec_width(),
                height == img.spec_height(),
                img.cells().len() == width * height,
                binary_img.spec_width() == width,
                binary_img.spec_height() == height,
                binary_img.cells().len() == width * height,
                i < height,
                j <= width,
                forall|x: int, y: int|
                    0 <= x < width && 0 <= y < height ==> #[trigger] binary_img.cells()[idx(
                        width as nat,
                        x,
                        y,
                    )] == if (y < i || (y == i && x < j)) && img.cells()[idx(width as nat, x, y)]
                        > 128 {
                        1u8
                    } else {
                        0u8
                    },
            decreases width - j,
        {
            let pixel_value = img.pixel(j, i);
            if pixel_value > 128 {
                let ghost c = binary_img.cells();
                binary_img.set_pixel(j, i, 1);
                proof {
                    lemma_idx_bounds(width as nat, height as nat, j as int, i as int);
                    assert forall|x: int, y: int|
                        0 <= x < width && 0 <= y < height && !(x == j && y == i) implies #[trigger] binary_img.cells()[idx(
                        width as nat,
                        x,
                        y,
                    )] == c[idx(width as nat, x, y)] by {
                        lemma_idx_bounds(width as nat, height as nat, x, y);
                        if idx(width as nat, x, y) == idx(width as nat, j as int, i as int) {
                            lemma_idx_injective(width as nat, x, y, j as int, i as int);
                        }
                    }
                }
            }
            j = j + 1;
        }
        i = i + 1;
    }
    proof {
        assert forall|x: int, y: int|
            0 <= x < width && 0 <= y < height implies #[trigger] binary_img.cells()[idx(
            img.spec_width(),
            x,
            y,
        )] == if img.cells()[idx(img.spec_width(), x, y)] > 128 {
            1u8
        } else {
            0u8
        } by {
            assert(y < i);
        }
    }
    binary_img
}

} // verus!
