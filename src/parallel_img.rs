use crate::img::PixelT;
use crate::raster::{idx, lemma_idx_bounds, lemma_idx_injective, Raster};
use vstd::prelude::*;

verus! {

/// A rectangular tile of an image: its upper-left corner in the image, its
/// size, and its own copy of those pixels.
pub struct ParallelSection<I> {
    pub start: (u32, u32),
    pub width: u32,
    pub height: u32,
    pub slice: I,
}

/// An image cut into tiles.
pub struct ParallelImg<I> {
    pub sections: Vec<ParallelSection<I>>,
    pub witdh: u32,
    pub height: u32,
}

/// `c * c >= n` is first met at `ceil_sqrt_from(n, 0)`, searching upwards from `c`.
pub open spec fn ceil_sqrt_from(n: nat, c: nat) -> nat
    decreases n - c,
{
    if c * c >= n || c >= n {
        c
    } else {
        ceil_sqrt_from(n, c + 1)
    }
}

/// The least `c` with `c * c >= n`.
pub open spec fn ceil_sqrt(n: nat) -> nat {
    ceil_sqrt_from(n, 0)
}

/// Start of part `i` when `total` is cut into `parts` runs of equal length,
/// the last one taking the remainder.
pub open spec fn band_start(total: nat, parts: nat, i: nat) -> nat {
    i * (total / parts)
}

/// Length of part `i` of that cut.
pub open spec fn band_len(total: nat, parts: nat, i: nat) -> nat {
    if i + 1 == parts {
        total / parts + total % parts
    } else {
        total / parts
    }
}

/// Number of tile columns in the full rows.
pub open spec fn tile_columns(n: nat) -> nat {
    ceil_sqrt(n)
}

/// Number of full rows of tiles.
pub open spec fn full_rows(n: nat) -> nat {
    n / tile_columns(n)
}

/// Number of tiles in the last, shorter row (zero when there is none).
pub open spec fn orphans(n: nat) -> nat {
    n % tile_columns(n)
}

/// Number of rows of tiles.
pub open spec fn tile_rows(n: nat) -> nat {
    if orphans(n) == 0 {
        full_rows(n)
    } else {
        full_rows(n) + 1
    }
}

/// The rectangle `(x0, y0, width, height)` of tile `k` when a `w` by `h` image
/// is cut into `n` tiles: `full_rows(n)` rows of `tile_columns(n)` tiles, then
/// a row of `orphans(n)` tiles; the last tile of each row and the last row
/// take the remainders.
pub open spec fn tile_rect(w: nat, h: nat, n: nat, k: nat) -> (nat, nat, nat, nat) {
    let c = tile_columns(n);
    let rows = tile_rows(n);
    if k < full_rows(n) * c {
        let r = k / c;
        let col = k % c;
        (band_start(w, c, col), band_start(h, rows, r), band_len(w, c, col), band_len(h, rows, r))
    } else {
        let col = (k - full_rows(n) * c) as nat;
        let r = full_rows(n);
        (
            band_start(w, orphans(n), col),
            band_start(h, rows, r),
            band_len(w, orphans(n), col),
            band_len(h, rows, r),
        )
    }
}

/// Pixel `(x, y)` lies in the rectangle `rect`.
pub open spec fn in_rect(rect: (nat, nat, nat, nat), x: int, y: int) -> bool {
    rect.0 <= x < rect.0 + rect.2 && rect.1 <= y < rect.1 + rect.3
}

/// The section is tile `k` of the cut of `img` into `n` tiles, and its slice
/// holds that tile's pixels.
pub open spec fn section_is_tile<P, I: Raster<P>>(
    sec: ParallelSection<I>,
    img: I,
    n: nat,
    k: nat,
) -> bool {
    let rect = tile_rect(img.spec_width(), img.spec_height(), n, k);
    &&& sec.start.0 == rect.0
    &&& sec.start.1 == rect.1
    &&& sec.width == rect.2
    &&& sec.height == rect.3
    &&& section_holds(sec, img)
}

/// The slice of `sec` is a copy of its rectangle of `img`.
pub open spec fn section_holds<P, I: Raster<P>>(sec: ParallelSection<I>, img: I) -> bool {
    &&& sec.slice.spec_width() == sec.width
    &&& sec.slice.spec_height() == sec.height
    &&& sec.slice.cells().len() == sec.width * sec.height
    &&& sec.start.0 + sec.width <= img.spec_width()
    &&& sec.start.1 + sec.height <= img.spec_height()
    &&& forall|i: int, j: int|
        0 <= i < sec.width && 0 <= j < sec.height ==> #[trigger] sec.slice.cells()[idx(
            sec.width as nat,
            i,
            j,
        )] == img.cells()[idx(img.spec_width(), sec.start.0 + i, sec.start.1 + j)]
}


/// Each part of the cut of `total` into `parts` ends inside `[0, total]`,
/// and the last one ends at `total`.
pub proof fn lemma_band_within(total: nat, parts: nat, i: nat)
    requires
        parts >= 1,
        i < parts,
    ensures
        band_start(total, parts, i) + band_len(total, parts, i) <= total,
        i + 1 == parts ==> band_start(total, parts, i) + band_len(total, parts, i) == total,
        i + 1 < parts ==> band_start(total, parts, i) + band_len(total, parts, i) == band_start(
            total,
            parts,
            i + 1,
        ),
{
    let b = total / parts;
    let rem = total % parts;
    vstd::arithmetic::div_mod::lemma_fundamental_div_mod(total as int, parts as int);
    assert(total == parts * b + rem);
    if i + 1 == parts {
        assert(i * b + b == parts * b) by (nonlinear_arith)
            requires
                i + 1 == parts,
        ;
    } else {
        assert(i * b + b == (i + 1) * b) by (nonlinear_arith);
        assert((i + 1) * b <= parts * b) by (nonlinear_arith)
            requires
                i + 1 < parts,
        ;
    }
}

/// Every `t` in `[0, total)` lies in exactly one part of the cut of `total`
/// into `parts`.
pub proof fn lemma_band_cover(total: nat, parts: nat, t: int) -> (i: nat)
    requires
        parts >= 1,
        0 <= t < total,
    ensures
        i < parts,
        band_start(total, parts, i) <= t < band_start(total, parts, i) + band_len(total, parts, i),
        forall|j: nat|
            j < parts && #[trigger] band_start(total, parts, j) <= t < band_start(total, parts, j) + band_len(
                total,
                parts,
                j,
            ) ==> j == i,
{
    let b = total / parts;
    vstd::arithmetic::div_mod::lemma_fundamental_div_mod(total as int, parts as int);
    let i: nat = if b == 0 {
        (parts - 1) as nat
    } else if t / (b as int) >= parts - 1 {
        (parts - 1) as nat
    } else {
        (t / (b as int)) as nat
    };
    lemma_band_within(total, parts, i);
    if b == 0 {
        assert(band_start(total, parts, i) == 0) by (nonlinear_arith)
            requires
                b == 0,
                band_start(total, parts, i) == i * b,
        ;
    } else {
        vstd::arithmetic::div_mod::lemma_fundamental_div_mod(t, b as int);
        let q = t / (b as int);
        assert(0 <= q) by {
            vstd::arithmetic::div_mod::lemma_div_pos_is_pos(t, b as int);
        }
        if q >= parts - 1 {
            assert(i * b <= q * b) by (nonlinear_arith)
                requires
                    i <= q,
                    b > 0,
            ;
        } else {
            assert(q * b + b == (q + 1) * b) by (nonlinear_arith);
        }
    }
    assert forall|j: nat|
        j < parts && #[trigger] band_start(total, parts, j) <= t < band_start(total, parts, j) + band_len(
            total,
            parts,
            j,
        ) implies j == i by {
        lemma_band_within(total, parts, j);
        if j < i {
            assert((j + 1) * b <= i * b) by (nonlinear_arith)
                requires
                    j + 1 <= i,
            ;
            assert(j * b + b == (j + 1) * b) by (nonlinear_arith);
        } else if i < j {
            assert((i + 1) * b <= j * b) by (nonlinear_arith)
                requires
                    i + 1 <= j,
            ;
            assert(i * b + b == (i + 1) * b) by (nonlinear_arith);
        }
    }
    i
}


proof fn lemma_ceil_sqrt_from(n: nat, c: nat)
    requires
        c <= n,
    ensures
        c <= ceil_sqrt_from(n, c) <= n,
        n >= 1 ==> ceil_sqrt_from(n, c) >= 1,
    decreases n - c,
{
    if !(c * c >= n || c >= n) {
        lemma_ceil_sqrt_from(n, c + 1);
    } else if n >= 1 && c == 0 {
        assert(c * c == 0) by (nonlinear_arith)
            requires
                c == 0,
        ;
    }
}

/// For `n >= 1` there is at least one column and at least one full row, and
/// the full rows and the orphans make up `n` tiles.
pub proof fn lemma_tile_grid(n: nat)
    requires
        n >= 1,
    ensures
        1 <= tile_columns(n) <= n,
        full_rows(n) >= 1,
        orphans(n) < tile_columns(n),
        full_rows(n) * tile_columns(n) + orphans(n) == n,
        tile_rows(n) >= 1,
{
    lemma_ceil_sqrt_from(n, 0);
    let c = tile_columns(n);
    vstd::arithmetic::div_mod::lemma_fundamental_div_mod(n as int, c as int);
    vstd::arithmetic::div_mod::lemma_div_pos_is_pos(n as int, c as int);
    assert(full_rows(n) * c == c * full_rows(n)) by (nonlinear_arith);
    if full_rows(n) == 0 {
        assert(c * full_rows(n) == 0) by (nonlinear_arith)
            requires
                full_rows(n) == 0,
        ;
    }
}

/// Every tile of the cut of a `w` by `h` image into `n >= 1` tiles lies
/// inside the image.
pub proof fn lemma_tile_inside(w: nat, h: nat, n: nat, k: nat)
    requires
        n >= 1,
        k < n,
    ensures
        tile_rect(w, h, n, k).0 + tile_rect(w, h, n, k).2 <= w,
        tile_rect(w, h, n, k).1 + tile_rect(w, h, n, k).3 <= h,
{
    lemma_tile_grid(n);
    let c = tile_columns(n);
    if k < full_rows(n) * c {
        vstd::arithmetic::div_mod::lemma_fundamental_div_mod(k as int, c as int);
        vstd::arithmetic::div_mod::lemma_div_pos_is_pos(k as int, c as int);
        let r = k / c;
        if r >= full_rows(n) {
            assert(full_rows(n) * c <= r * c) by (nonlinear_arith)
                requires
                    r >= full_rows(n),
            ;
        }
        lemma_band_within(w, c, k % c);
        lemma_band_within(h, tile_rows(n), r);
    } else {
        lemma_band_within(w, orphans(n), (k - full_rows(n) * c) as nat);
        lemma_band_within(h, tile_rows(n), full_rows(n));
    }
}

/// A tile that holds `(x, y)` is the tile `k` of the row band `r` that holds `y`.
proof fn lemma_tile_unique(w: nat, h: nat, n: nat, j: nat, x: int, y: int, r: nat, k: nat)
    requires
        n >= 1,
        0 <= x < w,
        0 <= y < h,
        j < n,
        k < n,
        in_rect(tile_rect(w, h, n, j), x, y),
        in_rect(tile_rect(w, h, n, k), x, y),
        r < tile_rows(n),
        band_start(h, tile_rows(n), r) <= y < band_start(h, tile_rows(n), r) + band_len(
            h,
            tile_rows(n),
            r,
        ),
    ensures
        j == k,
{
    lemma_tile_grid(n);
    let c = tile_columns(n);
    let full = full_rows(n);
    let rows = tile_rows(n);
    let r2 = lemma_band_cover(h, rows, y);
    assert(r == r2);
    // the row and column of each of `j` and `k`
    if j < full * c {
        vstd::arithmetic::div_mod::lemma_fundamental_div_mod(j as int, c as int);
        vstd::arithmetic::div_mod::lemma_div_pos_is_pos(j as int, c as int);
        if j / c >= full {
            assert(full * c <= (j / c) * c) by (nonlinear_arith)
                requires
                    j / c >= full,
            ;
        }
        assert(band_start(h, rows, j / c) <= y);
        assert((j / c) as nat == r2);
    } else {
        assert(band_start(h, rows, full) <= y);
        assert(full == r2);
    }
    if k < full * c {
        vstd::arithmetic::div_mod::lemma_fundamental_div_mod(k as int, c as int);
        vstd::arithmetic::div_mod::lemma_div_pos_is_pos(k as int, c as int);
        if k / c >= full {
            assert(full * c <= (k / c) * c) by (nonlinear_arith)
                requires
                    k / c >= full,
            ;
        }
        assert(band_start(h, rows, k / c) <= y);
        assert((k / c) as nat == r2);
    } else {
        assert(band_start(h, rows, full) <= y);
        assert(full == r2);
    }
    if r2 < full {
        assert(j < full * c);
        assert(k < full * c);
        let col = lemma_band_cover(w, c, x);
        assert(band_start(w, c, j % c) <= x);
        assert(band_start(w, c, k % c) <= x);
        assert(j % c == col);
        assert(k % c == col);
    } else {
        let col = lemma_band_cover(w, orphans(n), x);
        assert(band_start(w, orphans(n), (j - full * c) as nat) <= x);
        assert(band_start(w, orphans(n), (k - full * c) as nat) <= x);
    }
}

/// Cutting a `w` by `h` image into `n >= 1` tiles covers every pixel by
/// exactly one tile.
pub proof fn lemma_tiles_partition(w: nat, h: nat, n: nat, x: int, y: int) -> (k: nat)
    requires
        n >= 1,
        0 <= x < w,
        0 <= y < h,
    ensures
        k < n,
        in_rect(tile_rect(w, h, n, k), x, y),
        forall|j: nat| j < n && #[trigger] in_rect(tile_rect(w, h, n, j), x, y) ==> j == k,
{
    lemma_tile_grid(n);
    let c = tile_columns(n);
    let full = full_rows(n);
    let rows = tile_rows(n);
    let r = lemma_band_cover(h, rows, y);
    let k: nat = if r < full {
        let col = lemma_band_cover(w, c, x);
        assert(r * c + col < full * c) by (nonlinear_arith)
            requires
                r < full,
                col < c,
        ;
        vstd::arithmetic::div_mod::lemma_fundamental_div_mod_converse(
            (r * c + col) as int,
            c as int,
            r as int,
            col as int,
        );
        r * c + col
    } else {
        let col = lemma_band_cover(w, orphans(n), x);
        full * c + col
    };
    assert forall|j: nat| j < n && #[trigger] in_rect(tile_rect(w, h, n, j), x, y) implies j
        == k by {
        lemma_tile_unique(w, h, n, j, x, y, r, k);
    }
    k
}


/// Cuts `img` into `num_sections` tiles laid out as `tile_rect` describes;
/// tile `k` comes `k`-th, with a copy of its pixels.
pub fn arrange<P, I: Raster<P>>(img: &I, num_sections: u32) -> (r: Vec<ParallelSection<I>>)
    requires
        num_sections >= 1,
    ensures
        r@.len() == num_sections,
        forall|k: int|
            0 <= k < r@.len() ==> section_is_tile(#[trigger] r@[k], *img, num_sections as nat, k as nat),
{
    let w = img.cols();
    let h = img.rows();
    let n = num_sections;
    let mut columns: u32 = 0;
    while (columns as u64) * (columns as u64) < n as u64 && columns < n
        invariant
            columns <= n,
            columns * columns <= u64::MAX,
            ceil_sqrt_from(n as nat, columns as nat) == ceil_sqrt(n as nat),
        decreases n - columns,
    {
        columns = columns + 1;
        proof {
            assert(columns * columns <= u64::MAX) by (nonlinear_arith)
                requires
                    columns <= u32::MAX,
            ;
        }
    }
    proof {
        lemma_tile_grid(n as nat);
        assert(columns == tile_columns(n as nat));
    }
    let full_rows = n / columns;
    let orphans = n % columns;
    proof {
        if orphans > 0 {
            assert(full_rows <= full_rows * columns) by (nonlinear_arith)
                requires
                    columns >= 1,
            ;
        }
    }
    let rows = if orphans == 0 {
        full_rows
    } else {
        full_rows + 1
    };
    let base_width = w / columns;
    let base_height = h / rows;
    let width_leftover = w % columns;
    let height_leftover = h % rows;
    let mut sections: Vec<ParallelSection<I>> = Vec::new();
    let mut y: u32 = 0;
    while y < full_rows
        invariant
            w == img.spec_width(),
            h == img.spec_height(),
            img.cells().len() == w * h,
            n >= 1,
            columns == tile_columns(n as nat),
            full_rows == crate::parallel_img::full_rows(n as nat),
            orphans == crate::parallel_img::orphans(n as nat),
            rows == tile_rows(n as nat),
            full_rows * columns + orphans == n,
            base_width == w / columns,
            width_leftover == w % columns,
            base_height == h / rows,
            height_leftover == h % rows,
            y <= full_rows,
            sections@.len() == y * columns,
            forall|k: int|
                0 <= k < sections@.len() ==> section_is_tile(
                    #[trigger] sections@[k],
                    *img,
                    n as nat,
                    k as nat,
                ),
        decreases full_rows - y,
    {
        let mut x: u32 = 0;
        while x < columns
            invariant
                w == img.spec_width(),
                h == img.spec_height(),
                img.cells().len() == w * h,
                n >= 1,
                columns == tile_columns(n as nat),
                full_rows == crate::parallel_img::full_rows(n as nat),
                orphans == crate::parallel_img::orphans(n as nat),
                rows == tile_rows(n as nat),
                full_rows * columns + orphans == n,
                base_width == w / columns,
                width_leftover == w % columns,
                base_height == h / rows,
                height_leftover == h % rows,
                y < full_rows,
                x <= columns,
                sections@.len() == y * columns + x,
                forall|k: int|
                    0 <= k < sections@.len() ==> section_is_tile(
                        #[trigger] sections@[k],
                        *img,
                        n as nat,
                        k as nat,
                    ),
            decreases columns - x,
        {
            let ghost k: nat = (y * columns + x) as nat;
            proof {
                assert(y * columns + x < full_rows * columns) by (nonlinear_arith)
                    requires
                        y < full_rows,
                        x < columns,
                ;
                vstd::arithmetic::div_mod::lemma_fundamental_div_mod_converse(
                    k as int,
                    columns as int,
                    y as int,
                    x as int,
                );
                lemma_tile_inside(w as nat, h as nat, n as nat, k);
            }
            let width = if x == columns - 1 {
                base_width + width_leftover
            } else {
                base_width
            };
            let height = if orphans == 0 && y == full_rows - 1 {
                base_height + height_leftover
            } else {
                base_height
            };
            let sx = x * base_width;
            let sy = y * base_height;
            let slice = img.sub_image(sx, sy, width, height);
            sections.push(ParallelSection { start: (sx, sy), width, height, slice });
            proof {
                assert(section_is_tile(sections@[k as int], *img, n as nat, k));
                assert(sections@.len() == y * columns + x + 1);
            }
            x = x + 1;
        }
        proof {
            assert(sections@.len() == (y + 1) * columns) by (nonlinear_arith)
                requires
                    sections@.len() == y * columns + columns,
            ;
        }
        y = y + 1;
    }
    if orphans > 0 {
        let orphan_width = w / orphans;
        let orphan_width_leftover = w % orphans;
        let y = full_rows;
        let mut x: u32 = 0;
        while x < orphans
            invariant
                w == img.spec_width(),
                h == img.spec_height(),
                img.cells().len() == w * h,
                n >= 1,
                columns == tile_columns(n as nat),
                full_rows == crate::parallel_img::full_rows(n as nat),
                orphans == crate::parallel_img::orphans(n as nat),
                orphans > 0,
                y == full_rows,
                rows == tile_rows(n as nat),
                full_rows * columns + orphans == n,
                orphan_width == w / orphans,
                orphan_width_leftover == w % orphans,
                base_height == h / rows,
                height_leftover == h % rows,
                x <= orphans,
                sections@.len() == full_rows * columns + x,
                forall|k: int|
                    0 <= k < sections@.len() ==> section_is_tile(
                        #[trigger] sections@[k],
                        *img,
                        n as nat,
                        k as nat,
                    ),
            decreases orphans - x,
        {
            let ghost k: nat = (full_rows * columns + x) as nat;
            proof {
                lemma_tile_inside(w as nat, h as nat, n as nat, k);
            }
            let width = if x == orphans - 1 {
                orphan_width + orphan_width_leftover
            } else {
                orphan_width
            };
            let sx = x * orphan_width;
            let sy = y * base_height;
            let slice = img.sub_image(sx, sy, width, base_height + height_leftover);
            sections.push(
                ParallelSection {
                    start: (sx, sy),
                    width,
                    height: base_height + height_leftover,
                    slice,
                },
            );
            proof {
                assert(section_is_tile(sections@[k as int], *img, n as nat, k));
            }
            x = x + 1;
        }
    }
    sections
}


/// Pixel `(x, y)` of the whole image lies in the section's rectangle.
pub open spec fn covers<I>(sec: ParallelSection<I>, x: int, y: int) -> bool {
    sec.start.0 <= x < sec.start.0 + sec.width && sec.start.1 <= y < sec.start.1 + sec.height
}

/// The value at `(x, y)` after pasting the slices of the first `m` sections,
/// in order, onto a fresh raster: the last section that covers the pixel
/// decides it.
pub open spec fn pasted_at<P, I: Raster<P>>(
    sections: Seq<ParallelSection<I>>,
    m: int,
    x: int,
    y: int,
) -> P
    decreases m,
{
    if m <= 0 {
        I::background()
    } else if covers(sections[m - 1], x, y) {
        let sec = sections[m - 1];
        sec.slice.cells()[idx(sec.width as nat, x - sec.start.0, y - sec.start.1)]
    } else {
        pasted_at(sections, m - 1, x, y)
    }
}

/// Each section lies inside a `w` by `h` image and its slice has the
/// section's size.
pub open spec fn sections_fit<P, I: Raster<P>>(
    sections: Seq<ParallelSection<I>>,
    w: nat,
    h: nat,
) -> bool {
    forall|k: int|
        0 <= k < sections.len() ==> {
            let sec = #[trigger] sections[k];
            &&& sec.start.0 + sec.width <= w
            &&& sec.start.1 + sec.height <= h
            &&& sec.slice.spec_width() == sec.width
            &&& sec.slice.spec_height() == sec.height
        }
}

/// A `width` by `height` raster onto which the slice of each section is
/// copied at the section's position, in order.
pub fn get_full_img<P, I: Raster<P>>(
    width: u32,
    height: u32,
    sections: &Vec<ParallelSection<I>>,
) -> (r: I)
    requires
        width * height <= usize::MAX,
        sections_fit(sections@, width as nat, height as nat),
    ensures
        r.spec_width() == width,
        r.spec_height() == height,
        r.cells().len() == width * height,
        forall|x: int, y: int|
            0 <= x < width && 0 <= y < height ==> #[trigger] r.cells()[idx(width as nat, x, y)]
                == pasted_at(sections@, sections@.len() as int, x, y),
{
    let mut img = I::blank(width, height);
    proof {
        assert forall|x: int, y: int| 0 <= x < width && 0 <= y < height implies #[trigger] img.cells()[idx(
            width as nat,
            x,
            y,
        )] == pasted_at(sections@, 0, x, y) by {
            lemma_idx_bounds(width as nat, height as nat, x, y);
        }
    }
    let mut s: usize = 0;
    while s < sections.len()
        invariant
            img.spec_width() == width,
            img.spec_height() == height,
            img.cells().len() == width * height,
            sections_fit(sections@, width as nat, height as nat),
            s <= sections@.len(),
            forall|x: int, y: int|
                0 <= x < width && 0 <= y < height ==> #[trigger] img.cells()[idx(width as nat, x, y)]
                    == pasted_at(sections@, s as int, x, y),
        decreases sections@.len() - s,
    {
        let sec = &sections[s];
        let ghost secv = sections@[s as int];
        let sx = sec.start.0;
        let sy = sec.start.1;
        let sw = sec.width;
        let sh = sec.height;
        let mut i: u32 = 0;
        while i < sh
            invariant
                img.spec_width() == width,
                img.spec_height() == height,
                img.cells().len() == width * height,
                *sec == secv,
                secv == sections@[s as int],
                sx == secv.start.0,
                sy == secv.start.1,
                sw == secv.width,
                sh == secv.height,
                sx + sw <= width,
                sy + sh <= height,
                secv.slice.spec_width() == sw,
                secv.slice.spec_height() == sh,
                s < sections@.len(),
                i <= sh,
                forall|x: int, y: int|
                    0 <= x < width && 0 <= y < height ==> #[trigger] img.cells()[idx(
                        width as nat,
                        x,
                        y,
                    )] == if covers(secv, x, y) && y - sy < i {
                        pasted_at(sections@, s + 1, x, y)
                    } else {
                        pasted_at(sections@, s as int, x, y)
                    },
            decreases sh - i,
        {
            let mut j: u32 = 0;
            while j < sw
                invariant
                    img.spec_width() == width,
                    img.spec_height() == height,
                    img.cells().len() == width * height,
                    *sec == secv,
                    secv == sections@[s as int],
                    sx == secv.start.0,
                    sy == secv.start.1,
                    sw == secv.width,
                    sh == secv.height,
                    sx + sw <= width,
                    sy + sh <= height,
                    secv.slice.spec_width() == sw,
                    secv.slice.spec_height() == sh,
                    s < sections@.len(),
                    i < sh,
                    j <= sw,
                    forall|x: int, y: int|
                        0 <= x < width && 0 <= y < height ==> #[trigger] img.cells()[idx(
                            width as nat,
                            x,
                            y,
                        )] == if covers(secv, x, y) && (y - sy < i || (y - sy == i && x - sx
                            < j)) {
                            pasted_at(sections@, s + 1, x, y)
                        } else {
                            pasted_at(sections@, s as int, x, y)
                        },
                decreases sw - j,
            {
                let v = sec.slice.pixel(j, i);
                let ghost c = img.cells();
                img.set_pixel(j + sx, i + sy, v);
                proof {
                    let tx = j + sx;
                    let ty = i + sy;
                    lemma_idx_bounds(width as nat, height as nat, tx as int, ty as int);
                    assert forall|x: int, y: int|
                        0 <= x < width && 0 <= y < height implies #[trigger] img.cells()[idx(
                        width as nat,
                        x,
                        y,
                    )] == if covers(secv, x, y) && (y - sy < i || (y - sy == i && x - sx < j
                        + 1)) {
                        pasted_at(sections@, s + 1, x, y)
                    } else {
                        pasted_at(sections@, s as int, x, y)
                    } by {
                        lemma_idx_bounds(width as nat, height as nat, x, y);
                        if x == tx && y == ty {
                        } else {
                            if idx(width as nat, x, y) == idx(width as nat, tx as int, ty as int) {
                                lemma_idx_injective(width as nat, x, y, tx as int, ty as int);
                            }
                            assert(img.cells()[idx(width as nat, x, y)] == c[idx(
                                width as nat,
                                x,
                                y,
                            )]);
                        }
                    }
                }
                j = j + 1;
            }
            i = i + 1;
        }
        s = s + 1;
    }
    img
}


proof fn lemma_pasted_skip<P, I: Raster<P>>(
    sections: Seq<ParallelSection<I>>,
    m: int,
    k: int,
    x: int,
    y: int,
)
    requires
        0 <= k < m <= sections.len(),
        forall|j: int| k < j < m ==> !covers(#[trigger] sections[j], x, y),
    ensures
        pasted_at(sections, m, x, y) == pasted_at(sections, k + 1, x, y),
    decreases m,
{
    if m > k + 1 {
        lemma_pasted_skip(sections, m - 1, k, x, y);
    }
}

/// The sections that `arrange` produces lie inside the image, with slices of
/// their own size.
pub proof fn lemma_tiles_fit<P, I: Raster<P>>(
    img: I,
    n: nat,
    sections: Seq<ParallelSection<I>>,
)
    requires
        forall|k: int|
            0 <= k < sections.len() ==> section_is_tile(#[trigger] sections[k], img, n, k as nat),
    ensures
        sections_fit(sections, img.spec_width(), img.spec_height()),
{
    assert forall|k: int| 0 <= k < sections.len() implies {
        let sec = #[trigger] sections[k];
        &&& sec.start.0 + sec.width <= img.spec_width()
        &&& sec.start.1 + sec.height <= img.spec_height()
        &&& sec.slice.spec_width() == sec.width
        &&& sec.slice.spec_height() == sec.height
    } by {
        assert(section_is_tile(sections[k], img, n, k as nat));
    }
}

/// The section has the rectangle of tile `k` of the cut of a `w` by `h`
/// image into `n` tiles, and a slice of that size.
pub open spec fn section_at_tile<I>(sec: ParallelSection<I>, w: nat, h: nat, n: nat, k: nat) -> bool {
    let rect = tile_rect(w, h, n, k);
    &&& sec.start.0 == rect.0
    &&& sec.start.1 == rect.1
    &&& sec.width == rect.2
    &&& sec.height == rect.3
}

/// When the sections are the `n` tiles of a `w` by `h` image, in order,
/// pasting them gives each pixel the value it has in the one tile that
/// covers it.
pub proof fn lemma_pasted_tile<P, I: Raster<P>>(
    w: nat,
    h: nat,
    n: nat,
    sections: Seq<ParallelSection<I>>,
    x: int,
    y: int,
) -> (k: nat)
    requires
        n >= 1,
        sections.len() == n,
        forall|j: int|
            0 <= j < sections.len() ==> section_at_tile(#[trigger] sections[j], w, h, n, j as nat),
        0 <= x < w,
        0 <= y < h,
    ensures
        k < n,
        covers(sections[k as int], x, y),
        forall|j: int| 0 <= j < n && #[trigger] covers(sections[j], x, y) ==> j == k,
        pasted_at(sections, n as int, x, y) == sections[k as int].slice.cells()[idx(
            sections[k as int].width as nat,
            x - sections[k as int].start.0,
            y - sections[k as int].start.1,
        )],
{
    let k = lemma_tiles_partition(w, h, n, x, y);
    assert(section_at_tile(sections[k as int], w, h, n, k));
    assert forall|j: int| 0 <= j < n && #[trigger] covers(sections[j], x, y) implies j == k by {
        assert(section_at_tile(sections[j], w, h, n, j as nat));
        assert(in_rect(tile_rect(w, h, n, j as nat), x, y));
    }
    assert forall|j: int| k < j < n implies !covers(#[trigger] sections[j], x, y) by {
        assert(section_at_tile(sections[j], w, h, n, j as nat));
        if covers(sections[j], x, y) {
            assert(in_rect(tile_rect(w, h, n, j as nat), x, y));
        }
    }
    lemma_pasted_skip(sections, n as int, k as int, x, y);
    k
}

/// Pasting back, in order, the `n` tiles cut from `img` gives `img` again:
/// every pixel gets the value it had.
pub proof fn lemma_reassembly<P, I: Raster<P>>(
    img: I,
    n: nat,
    sections: Seq<ParallelSection<I>>,
    x: int,
    y: int,
)
    requires
        n >= 1,
        sections.len() == n,
        forall|k: int|
            0 <= k < sections.len() ==> section_is_tile(#[trigger] sections[k], img, n, k as nat),
        0 <= x < img.spec_width(),
        0 <= y < img.spec_height(),
    ensures
        pasted_at(sections, n as int, x, y) == img.cells()[idx(img.spec_width(), x, y)],
{
    let w = img.spec_width();
    let h = img.spec_height();
    assert forall|j: int| 0 <= j < sections.len() implies section_at_tile(
        #[trigger] sections[j],
        w,
        h,
        n,
        j as nat,
    ) by {
        assert(section_is_tile(sections[j], img, n, j as nat));
    }
    let k = lemma_pasted_tile(w, h, n, sections, x, y);
    assert(section_is_tile(sections[k as int], img, n, k));
    let sec = sections[k as int];
    assert(sec.slice.cells()[idx(sec.width as nat, x - sec.start.0, y - sec.start.1)]
        == img.cells()[idx(w, sec.start.0 + (x - sec.start.0), sec.start.1 + (y - sec.start.1))]);
}


/// When the sections are the `n` tiles of a `w` by `h` image, in order, the
/// pasted image holds the slice of tile `k` at the tile's rectangle.
pub proof fn lemma_tile_in_pasted<P, I: Raster<P>>(
    w: nat,
    h: nat,
    n: nat,
    sections: Seq<ParallelSection<I>>,
    full: Seq<P>,
    k: int,
)
    requires
        n >= 1,
        sections.len() == n,
        0 <= k < n,
        forall|j: int|
            0 <= j < sections.len() ==> section_at_tile(#[trigger] sections[j], w, h, n, j as nat),
        forall|x: int, y: int|
            0 <= x < w && 0 <= y < h ==> #[trigger] full[idx(w, x, y)] == pasted_at(
                sections,
                n as int,
                x,
                y,
            ),
    ensures
        forall|i: int, j: int|
            0 <= i < sections[k].width && 0 <= j < sections[k].height
                ==> #[trigger] sections[k].slice.cells()[idx(sections[k].width as nat, i, j)]
                == full[idx(w, sections[k].start.0 + i, sections[k].start.1 + j)],
{
    let sec = sections[k];
    assert(section_at_tile(sec, w, h, n, k as nat));
    lemma_tile_inside(w, h, n, k as nat);
    assert forall|i: int, j: int| 0 <= i < sec.width && 0 <= j < sec.height implies #[trigger] sec.slice.cells()[idx(
        sec.width as nat,
        i,
        j,
    )] == full[idx(w, sec.start.0 + i, sec.start.1 + j)] by {
        let kk = lemma_pasted_tile(w, h, n, sections, sec.start.0 + i, sec.start.1 + j);
        assert(covers(sections[k], sec.start.0 + i, sec.start.1 + j));
    }
}


impl<I> ParallelSection<I> {
    /// Pixel `(x, y)` of the slice, with its coordinates in the slice.
    pub fn get_relative_pixel<P>(&self, x: u32, y: u32) -> (r: PixelT<P>) where I: Raster<P>
        requires
            x < self.slice.spec_width(),
            y < self.slice.spec_height(),
        ensures
            r.coords == (x, y),
            r.value == self.slice.cells()[idx(self.slice.spec_width(), x as int, y as int)],
    {
        PixelT { coords: (x, y), value: self.slice.pixel(x, y) }
    }

    /// Pixel `(x, y)` of the slice, with its coordinates in the whole image.
    pub fn get_abs_pixel<P>(&self, x: u32, y: u32) -> (r: PixelT<P>) where I: Raster<P>
        requires
            x < self.slice.spec_width(),
            y < self.slice.spec_height(),
            self.start.0 + x <= u32::MAX,
            self.start.1 + y <= u32::MAX,
        ensures
            r.coords == ((self.start.0 + x) as u32, (self.start.1 + y) as u32),
            r.value == self.slice.cells()[idx(self.slice.spec_width(), x as int, y as int)],
    {
        PixelT { coords: (x + self.start.0, y + self.start.1), value: self.slice.pixel(x, y) }
    }
}

} // verus!
