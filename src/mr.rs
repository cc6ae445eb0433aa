use crate::gray::Image8;
use crate::img::{get_pixel_neighbours, lemma_patch_neighbours_in_bounds, neighbours, ConnTypes, PixelT};
use crate::iwp::{
    lemma_tile_cells, shift_by, tile_cells, tile_of, tiled_result,
    in_region, iwp, propagate_parallel, queue_in_image, settled, Propagation,
};
use crate::parallel_img::{
    arrange, get_full_img, lemma_pasted_tile, section_at_tile, tile_rect,
    section_is_tile, ParallelSection,
};
use crate::raster::{idx, lemma_idx_bounds, lemma_idx_injective, Raster};
use std::collections::VecDeque;
use vstd::prelude::*;

verus! {

/// The mask value at `pos`.
pub open spec fn mask_at(mask: Image8, pos: (u32, u32)) -> u8 {
    mask.cells()[idx(mask.spec_width(), pos.0 as int, pos.1 as int)]
}

/// How far `v` still is from the mask value `m`: none at `m`, `m - v` below
/// it, and more than any of those above it.
pub open spec fn gap(v: u8, m: u8) -> nat {
    if v == m {
        0
    } else if v < m {
        (m - v) as nat
    } else {
        256
    }
}

pub open spec fn min_u8(a: u8, b: u8) -> u8 {
    if a <= b {
        a
    } else {
        b
    }
}

pub open spec fn max_u8(a: u8, b: u8) -> u8 {
    if a >= b {
        a
    } else {
        b
    }
}

/// Reconstruction by dilation under a mask: a neighbour below the current
/// pixel, and not yet at its mask value, rises to the current value, capped
/// by its mask value.
impl Propagation<u8> for Image8 {
    open spec fn admits(&self, pos: (u32, u32)) -> bool {
        pos.0 < self.spec_width() && pos.1 < self.spec_height()
    }

    open spec fn spec_condition(&self, curr: PixelT<u8>, ngb: PixelT<u8>) -> bool {
        ngb.value < curr.value && mask_at(*self, ngb.coords) != ngb.value
    }

    open spec fn spec_update(&self, curr: PixelT<u8>, ngb: PixelT<u8>) -> u8 {
        min_u8(curr.value, mask_at(*self, ngb.coords))
    }

    open spec fn potential(&self, pos: (u32, u32), v: u8) -> nat {
        gap(v, mask_at(*self, pos))
    }

    proof fn lemma_update_progresses(&self, curr: PixelT<u8>, ngb: PixelT<u8>) {
    }

    proof fn lemma_update_settles(&self, curr: PixelT<u8>, ngb: PixelT<u8>) {
    }

    proof fn lemma_refusal_persists(&self, curr: PixelT<u8>, other: PixelT<u8>, ngb: PixelT<u8>) {
    }

    fn condition(&self, curr: &PixelT<u8>, ngb: &PixelT<u8>) -> (r: bool) {
        propagation_condition(curr, ngb, self)
    }

    fn update(&self, curr: &PixelT<u8>, ngb: &PixelT<u8>) -> (r: u8) {
        update_func(curr, ngb, self)
    }
}

/// The neighbour should rise: it is below the current pixel and differs from
/// its mask value.
pub fn propagation_condition(curr_pixel: &PixelT<u8>, ngb_pixel: &PixelT<u8>, mask: &Image8) -> (r:
    bool)
    requires
        ngb_pixel.coords.0 < mask.spec_width(),
        ngb_pixel.coords.1 < mask.spec_height(),
    ensures
        r == (ngb_pixel.value < curr_pixel.value && mask_at(*mask, ngb_pixel.coords)
            != ngb_pixel.value),
{
    let mask_ngb = mask.pixel(ngb_pixel.coords.0, ngb_pixel.coords.1);
    ngb_pixel.value < curr_pixel.value && mask_ngb != ngb_pixel.value
}

/// The neighbour's new value: the current value, capped by the neighbour's
/// mask value.
pub fn update_func(curr_pixel: &PixelT<u8>, ngb_pixel: &PixelT<u8>, mask: &Image8) -> (r: u8)
    requires
        ngb_pixel.coords.0 < mask.spec_width(),
        ngb_pixel.coords.1 < mask.spec_height(),
    ensures
        r == min_u8(curr_pixel.value, mask_at(*mask, ngb_pixel.coords)),
{
    let mask_ngb = mask.pixel(ngb_pixel.coords.0, ngb_pixel.coords.1);
    if curr_pixel.value <= mask_ngb {
        curr_pixel.value
    } else {
        mask_ngb
    }
}

/// Once a step raises a neighbour, the neighbour gains and stays within its
/// mask value.
pub proof fn lemma_reconstruction_step(mask: Image8, curr: PixelT<u8>, ngb: PixelT<u8>)
    requires
        mask.spec_condition(curr, ngb),
        ngb.value <= mask_at(mask, ngb.coords),
    ensures
        ngb.value < mask.spec_update(curr, ngb),
        mask.spec_update(curr, ngb) <= mask_at(mask, ngb.coords),
{
}

/// The largest value among the first `k` positions of `nb`, or 0.
pub open spec fn max_at(cells: Seq<u8>, w: nat, nb: Seq<(u32, u32)>, k: nat) -> u8
    decreases k,
{
    if k == 0 {
        0
    } else {
        max_u8(
            max_at(cells, w, nb, (k - 1) as nat),
            cells[idx(w, nb[k - 1].0 as int, nb[k - 1].1 as int)],
        )
    }
}

/// The value that a seeding sweep gives pixel `(x, y)`: the largest of it and
/// its 8-neighbours, capped by the mask.
pub open spec fn swept_value(cells: Seq<u8>, mask: Seq<u8>, w: nat, h: nat, x: int, y: int) -> u8 {
    let nb = neighbours(w, h, x, y, ConnTypes::Eight);
    min_u8(
        max_u8(cells[idx(w, x, y)], max_at(cells, w, nb, nb.len())),
        mask[idx(w, x, y)],
    )
}

/// Raises pixel `pixel_coords` of `marker` to the largest of it and its
/// 8-neighbours, capped by its mask value.
fn update_pixel(pixel_coords: (u32, u32), mask: &Image8, marker: &mut Image8)
    requires
        pixel_coords.0 < old(marker).spec_width(),
        pixel_coords.1 < old(marker).spec_height(),
        mask.spec_width() == old(marker).spec_width(),
        mask.spec_height() == old(marker).spec_height(),
    ensures
        final(marker).spec_width() == old(marker).spec_width(),
        final(marker).spec_height() == old(marker).spec_height(),
        final(marker).cells() == old(marker).cells().update(
            idx(old(marker).spec_width(), pixel_coords.0 as int, pixel_coords.1 as int),
            swept_value(
                old(marker).cells(),
                mask.cells(),
                old(marker).spec_width(),
                old(marker).spec_height(),
                pixel_coords.0 as int,
                pixel_coords.1 as int,
            ),
        ),
{
    let w = marker.cols();
    let h = marker.rows();
    let _ = mask.cols();
    let pixel_ngbs = get_pixel_neighbours(marker, pixel_coords, ConnTypes::Eight);
    proof {
        lemma_patch_neighbours_in_bounds(
            w as nat,
            h as nat,
            pixel_coords.0 as int,
            pixel_coords.1 as int,
            ConnTypes::Eight,
            9,
        );
    }
    let mut nmax: u8 = 0;
    let mut k: usize = 0;
    while k < pixel_ngbs.len()
        invariant
            w == marker.spec_width(),
            h == marker.spec_height(),
            k <= pixel_ngbs@.len(),
            pixel_ngbs@ == neighbours(
                w as nat,
                h as nat,
                pixel_coords.0 as int,
                pixel_coords.1 as int,
                ConnTypes::Eight,
            ),
            forall|j: int|
                0 <= j < pixel_ngbs@.len() ==> (#[trigger] pixel_ngbs@[j]).0 < w
                    && pixel_ngbs@[j].1 < h,
            nmax == max_at(marker.cells(), w as nat, pixel_ngbs@, k as nat),
        decreases pixel_ngbs@.len() - k,
    {
        let (nx, ny) = pixel_ngbs[k];
        let v = marker.pixel(nx, ny);
        if v > nmax {
            nmax = v;
        }
        k = k + 1;
    }
    let own = marker.pixel(pixel_coords.0, pixel_coords.1);
    let mut greater = if own >= nmax {
        own
    } else {
        nmax
    };
    let mask_pixel = mask.pixel(pixel_coords.0, pixel_coords.1);
    if greater > mask_pixel {
        greater = mask_pixel;
    }
    marker.set_pixel(pixel_coords.0, pixel_coords.1, greater);
}


/// Every pixel of `cells` is at most its mask value.
pub open spec fn below_mask(cells: Seq<u8>, mask: Seq<u8>, w: nat, h: nat) -> bool {
    forall|x: int, y: int|
        0 <= x < w && 0 <= y < h ==> #[trigger] cells[idx(w, x, y)] <= mask[idx(w, x, y)]
}

/// No pixel of `after` is lower than in `before`.
pub open spec fn no_lower(before: Seq<u8>, after: Seq<u8>, w: nat, h: nat) -> bool {
    forall|x: int, y: int|
        0 <= x < w && 0 <= y < h ==> before[idx(w, x, y)] <= #[trigger] after[idx(w, x, y)]
}

/// `seen` marks exactly the positions held by `queue`, which holds each at
/// most once and only positions inside a `w` by `h` image.
pub open spec fn queue_tracks(queue: Seq<(u32, u32)>, seen: Seq<bool>, w: nat, h: nat) -> bool {
    &&& seen.len() == w * h
    &&& queue.no_duplicates()
    &&& queue_in_image(queue, w, h)
    &&& forall|x: int, y: int|
        0 <= x < w && 0 <= y < h ==> #[trigger] seen[idx(w, x, y)] == queue.contains(
            (x as u32, y as u32),
        )
}

/// Adds `p` to the back of `queue` unless it is there already.
fn enqueue_once(queue: &mut Vec<(u32, u32)>, seen: &mut Vec<bool>, p: (u32, u32), w: u32, h: u32)
    requires
        queue_tracks(old(queue)@, old(seen)@, w as nat, h as nat),
        p.0 < w,
        p.1 < h,
    ensures
        queue_tracks(final(queue)@, final(seen)@, w as nat, h as nat),
        final(queue)@.contains(p),
        forall|q: (u32, u32)| old(queue)@.contains(q) ==> final(queue)@.contains(q),
        forall|q: (u32, u32)| final(queue)@.contains(q) ==> old(queue)@.contains(q) || q == p,
        final(queue)@ == push_new(old(queue)@, p),
{
    let n = seen.len();
    proof {
        lemma_idx_bounds(w as nat, h as nat, p.0 as int, p.1 as int);
        assert(p.1 * w <= p.1 * w + p.0);
    }
    let i = p.1 as usize * w as usize + p.0 as usize;
    if !seen[i] {
        let ghost q0 = queue@;
        let ghost s0 = seen@;
        queue.push(p);
        seen.set(i, true);
        proof {
            assert(!q0.contains(p));
            assert forall|x: int, y: int| 0 <= x < w && 0 <= y < h implies #[trigger] seen@[idx(
                w as nat,
                x,
                y,
            )] == queue@.contains((x as u32, y as u32)) by {
                lemma_idx_bounds(w as nat, h as nat, x, y);
                if x == p.0 && y == p.1 {
                    assert(queue@[q0.len() as int] == p);
                } else {
                    if idx(w as nat, x, y) == idx(w as nat, p.0 as int, p.1 as int) {
                        lemma_idx_injective(w as nat, x, y, p.0 as int, p.1 as int);
                    }
                    assert(seen@[idx(w as nat, x, y)] == s0[idx(w as nat, x, y)]);
                    if queue@.contains((x as u32, y as u32)) {
                        let k = choose|k: int|
                            0 <= k < queue@.len() && queue@[k] == (x as u32, y as u32);
                        if k < q0.len() {
                            assert(q0[k] == queue@[k]);
                        }
                    }
                    if q0.contains((x as u32, y as u32)) {
                        let k = choose|k: int| 0 <= k < q0.len() && q0[k] == (x as u32, y as u32);
                        assert(queue@[k] == q0[k]);
                    }
                }
            }
            assert forall|k: int| 0 <= k < queue@.len() implies in_region(
                #[trigger] queue@[k],
                (0, 0),
                w as nat,
                h as nat,
            ) by {
                if k < q0.len() {
                    assert(queue@[k] == q0[k]);
                }
            }
            assert forall|q: (u32, u32)| q0.contains(q) implies queue@.contains(q) by {
                let k = choose|k: int| 0 <= k < q0.len() && q0[k] == q;
                assert(queue@[k] == q0[k]);
            }
            assert forall|q: (u32, u32)| queue@.contains(q) implies q0.contains(q) || q == p by {
                let k = choose|k: int| 0 <= k < queue@.len() && queue@[k] == q;
                if k < q0.len() {
                    assert(q0[k] == queue@[k]);
                }
            }
            assert(queue@[q0.len() as int] == p);
        }
    } else {
        proof {
            assert(seen@[idx(w as nat, p.0 as int, p.1 as int)]);
        }
    }
}


/// Sweeping pixel `p` keeps every pixel that was within its mask value there,
/// and, when no pixel was above its mask value, lowers none.
proof fn lemma_sweep_step(
    before: Seq<u8>,
    cur: Seq<u8>,
    mask: Image8,
    w: nat,
    h: nat,
    px: int,
    py: int,
)
    requires
        mask.spec_width() == w,
        mask.spec_height() == h,
        mask.cells().len() == w * h,
        cur.len() == w * h,
        0 <= px < w,
        0 <= py < h,
        below_mask(before, mask.cells(), w, h) ==> below_mask(cur, mask.cells(), w, h) && no_lower(before, cur, w, h),
    ensures
        ({
            let next = cur.update(idx(w, px, py), swept_value(cur, mask.cells(), w, h, px, py));
            &&& next.len() == cur.len()
            &&& next[idx(w, px, py)] <= mask.cells()[idx(w, px, py)]
            &&& forall|x: int, y: int|
                0 <= x < w && 0 <= y < h && !(x == px && y == py) ==> #[trigger] next[idx(
                    w,
                    x,
                    y,
                )] == cur[idx(w, x, y)]
            &&& below_mask(before, mask.cells(), w, h) ==> below_mask(next, mask.cells(), w, h) && no_lower(
                before,
                next,
                w,
                h,
            )
        }),
{
    let next = cur.update(idx(w, px, py), swept_value(cur, mask.cells(), w, h, px, py));
    lemma_idx_bounds(w, h, px, py);
    assert forall|x: int, y: int|
        0 <= x < w && 0 <= y < h && !(x == px && y == py) implies #[trigger] next[idx(w, x, y)]
        == cur[idx(w, x, y)] by {
        lemma_idx_bounds(w, h, x, y);
        if idx(w, x, y) == idx(w, px, py) {
            lemma_idx_injective(w, x, y, px, py);
        }
    }
    if below_mask(before, mask.cells(), w, h) {
        assert(cur[idx(w, px, py)] <= mask.cells()[idx(w, px, py)]);
        assert forall|x: int, y: int| 0 <= x < w && 0 <= y < h implies #[trigger] next[idx(
            w,
            x,
            y,
        )] <= mask.cells()[idx(w, x, y)] by {
            if !(x == px && y == py) {
                assert(cur[idx(w, x, y)] <= mask.cells()[idx(w, x, y)]);
            }
        }
        assert forall|x: int, y: int| 0 <= x < w && 0 <= y < h implies before[idx(w, x, y)]
            <= #[trigger] next[idx(w, x, y)] by {
            assert(before[idx(w, x, y)] <= cur[idx(w, x, y)]);
        }
    }
}

/// `s` with pixel `(x, y)` swept.
pub open spec fn sweep_at(s: Seq<u8>, mask: Seq<u8>, w: nat, h: nat, x: int, y: int) -> Seq<u8> {
    s.update(idx(w, x, y), swept_value(s, mask, w, h, x, y))
}

/// `s` after sweeping the first `x` pixels of row `y`, left to right.
pub open spec fn raster_row(s: Seq<u8>, mask: Seq<u8>, w: nat, h: nat, y: int, x: nat) -> Seq<u8>
    decreases x,
{
    if x == 0 {
        s
    } else {
        sweep_at(raster_row(s, mask, w, h, y, (x - 1) as nat), mask, w, h, x - 1, y)
    }
}

/// `s` after sweeping the first `y` rows, top to bottom.
pub open spec fn raster_rows(s: Seq<u8>, mask: Seq<u8>, w: nat, h: nat, y: nat) -> Seq<u8>
    decreases y,
{
    if y == 0 {
        s
    } else {
        raster_row(raster_rows(s, mask, w, h, (y - 1) as nat), mask, w, h, y - 1, w)
    }
}

/// `s` after sweeping the pixels of row `y` from the right end down to
/// column `x`.
pub open spec fn anti_row(s: Seq<u8>, mask: Seq<u8>, w: nat, h: nat, y: int, x: nat) -> Seq<u8>
    decreases w - x,
{
    if x >= w {
        s
    } else {
        sweep_at(anti_row(s, mask, w, h, y, x + 1), mask, w, h, x as int, y)
    }
}

/// `s` after sweeping the rows from the bottom up to row `y`, each right to
/// left.
pub open spec fn anti_rows(s: Seq<u8>, mask: Seq<u8>, w: nat, h: nat, y: nat) -> Seq<u8>
    decreases h - y,
{
    if y >= h {
        s
    } else {
        anti_row(anti_rows(s, mask, w, h, y + 1), mask, w, h, y as int, 0)
    }
}

/// The marker after the raster sweep.
pub open spec fn raster_swept(s: Seq<u8>, mask: Seq<u8>, w: nat, h: nat) -> Seq<u8> {
    raster_rows(s, mask, w, h, h)
}

/// The marker right after pixel `(x, y)` is swept by the anti-raster sweep.
pub open spec fn anti_swept_at(s: Seq<u8>, mask: Seq<u8>, w: nat, h: nat, x: nat, y: nat) -> Seq<
    u8,
> {
    anti_row(anti_rows(raster_swept(s, mask, w, h), mask, w, h, y + 1), mask, w, h, y as int, x)
}

/// The marker after both sweeps.
pub open spec fn seeded_marker(s: Seq<u8>, mask: Seq<u8>, w: nat, h: nat) -> Seq<u8> {
    anti_rows(raster_swept(s, mask, w, h), mask, w, h, 0)
}

/// With the marker at `s` right after pixel `(x, y)` is swept, its
/// 8-neighbour `q` is below it and below its own mask value.
pub open spec fn collects(s: Seq<u8>, mask: Seq<u8>, w: nat, h: nat, x: int, y: int, q: (u32, u32)) -> bool {
    &&& neighbours(w, h, x, y, ConnTypes::Eight).contains(q)
    &&& s[idx(w, q.0 as int, q.1 as int)] < s[idx(w, x, y)]
    &&& s[idx(w, q.0 as int, q.1 as int)] < mask[idx(w, q.0 as int, q.1 as int)]
}

/// Position `q` is collected when some pixel swept by the anti-raster sweep
/// finds it below itself and below its mask value.
pub open spec fn collected(s: Seq<u8>, mask: Seq<u8>, w: nat, h: nat, q: (u32, u32)) -> bool {
    exists|x: nat, y: nat|
        x < w && y < h && #[trigger] collects(
            anti_swept_at(s, mask, w, h, x, y),
            mask,
            w,
            h,
            x as int,
            y as int,
            q,
        )
}

/// `q` with `p` at its back, unless `q` holds `p` already.
pub open spec fn push_new(q: Seq<(u32, u32)>, p: (u32, u32)) -> Seq<(u32, u32)> {
    if q.contains(p) {
        q
    } else {
        q.push(p)
    }
}

/// `q` after the swept pixel `(x, y)`, with the marker at `s`, has offered
/// itself to the first `k` positions of `nb`: each one it collects joins the
/// back of `q` unless it is there already.
pub open spec fn collect_nbrs(
    s: Seq<u8>,
    mask: Seq<u8>,
    w: nat,
    h: nat,
    x: int,
    y: int,
    nb: Seq<(u32, u32)>,
    k: nat,
    q: Seq<(u32, u32)>,
) -> Seq<(u32, u32)>
    decreases k,
{
    if k == 0 {
        q
    } else {
        let prev = collect_nbrs(s, mask, w, h, x, y, nb, (k - 1) as nat, q);
        let n = nb[k - 1];
        if s[idx(w, n.0 as int, n.1 as int)] < s[idx(w, x, y)] && s[idx(w, n.0 as int, n.1 as int)]
            < mask[idx(w, n.0 as int, n.1 as int)] {
            push_new(prev, n)
        } else {
            prev
        }
    }
}

/// The seeds collected, starting from `q`, while the anti-raster sweep of
/// `s0` passes row `y` from its right end down to column `x`.
pub open spec fn seed_row(
    s0: Seq<u8>,
    mask: Seq<u8>,
    w: nat,
    h: nat,
    q: Seq<(u32, u32)>,
    y: nat,
    x: nat,
) -> Seq<(u32, u32)>
    decreases w - x,
{
    if x >= w {
        q
    } else {
        let nb = neighbours(w, h, x as int, y as int, ConnTypes::Eight);
        collect_nbrs(
            anti_swept_at(s0, mask, w, h, x, y),
            mask,
            w,
            h,
            x as int,
            y as int,
            nb,
            nb.len(),
            seed_row(s0, mask, w, h, q, y, x + 1),
        )
    }
}

/// The seeds collected while the anti-raster sweep of `s0` passes the rows
/// from the bottom up to row `y`.
pub open spec fn seed_rows(s0: Seq<u8>, mask: Seq<u8>, w: nat, h: nat, y: nat) -> Seq<(u32, u32)>
    decreases h - y,
{
    if y >= h {
        Seq::empty()
    } else {
        seed_row(s0, mask, w, h, seed_rows(s0, mask, w, h, y + 1), y, 0)
    }
}

/// The seeds that the seeding pass of `s0` returns, in order.
pub open spec fn seed_seq(s0: Seq<u8>, mask: Seq<u8>, w: nat, h: nat) -> Seq<(u32, u32)> {
    seed_rows(s0, mask, w, h, 0)
}

/// The seeding pass of reconstruction. A raster sweep (rows top to bottom,
/// each left to right) and then an anti-raster sweep raise each pixel of
/// `marker` to the largest of it and its 8-neighbours, capped by the mask;
/// during the second sweep, each neighbour that is below the swept pixel and
/// below its own mask value is collected, once. Returns the collected
/// positions.
pub fn get_initial_pixels(mask: &Image8, marker: &mut Image8) -> (r: Vec<(u32, u32)>)
    requires
        mask.spec_width() == old(marker).spec_width(),
        mask.spec_height() == old(marker).spec_height(),
    ensures
        final(marker).spec_width() == old(marker).spec_width(),
        final(marker).spec_height() == old(marker).spec_height(),
        final(marker).cells() == seeded_marker(
            old(marker).cells(),
            mask.cells(),
            mask.spec_width(),
            mask.spec_height(),
        ),
        r@ == seed_seq(old(marker).cells(), mask.cells(), mask.spec_width(), mask.spec_height()),
        forall|q: (u32, u32)|
            #[trigger] r@.contains(q) <==> collected(
                old(marker).cells(),
                mask.cells(),
                mask.spec_width(),
                mask.spec_height(),
                q,
            ),
        below_mask(final(marker).cells(), mask.cells(), mask.spec_width(), mask.spec_height()),
        below_mask(old(marker).cells(), mask.cells(), mask.spec_width(), mask.spec_height()) ==> no_lower(
            old(marker).cells(),
            final(marker).cells(),
            mask.spec_width(),
            mask.spec_height(),
        ),
        r@.no_duplicates(),
        queue_in_image(r@, mask.spec_width(), mask.spec_height()),
{
    let width = marker.cols();
    let height = marker.rows();
    let _ = mask.cols();
    let ghost before = marker.cells();
    let ghost wn = width as nat;
    let ghost hn = height as nat;
    let mut i: u32 = 0;
    while i < height
        invariant
            width == marker.spec_width(),
            height == marker.spec_height(),
            wn == width,
            hn == height,
            mask.spec_width() == width,
            mask.spec_height() == height,
            mask.cells().len() == width * height,
            marker.cells().len() == width * height,
            i <= height,
            marker.cells() == raster_rows(before, mask.cells(), wn, hn, i as nat),
            below_mask(before, mask.cells(), wn, hn) ==> below_mask(marker.cells(), mask.cells(), wn, hn)
                && no_lower(before, marker.cells(), wn, hn),
        decreases height - i,
    {
        let mut j: u32 = 0;
        while j < width
            invariant
                width == marker.spec_width(),
                height == marker.spec_height(),
                wn == width,
                hn == height,
                mask.spec_width() == width,
                mask.spec_height() == height,
                mask.cells().len() == width * height,
                marker.cells().len() == width * height,
                i < height,
                j <= width,
                marker.cells() == raster_row(
                    raster_rows(before, mask.cells(), wn, hn, i as nat),
                    mask.cells(),
                    wn,
                    hn,
                    i as int,
                    j as nat,
                ),
                below_mask(before, mask.cells(), wn, hn) ==> below_mask(marker.cells(), mask.cells(), wn, hn)
                    && no_lower(before, marker.cells(), wn, hn),
            decreases width - j,
        {
            let ghost cur = marker.cells();
            proof {
                lemma_sweep_step(before, cur, *mask, wn, hn, j as int, i as int);
            }
            update_pixel((j, i), mask, marker);
            j = j + 1;
        }
        i = i + 1;
    }
    let ghost swept = marker.cells();
    let mut queue: Vec<(u32, u32)> = Vec::new();
    let mut seen: Vec<bool> = vec![false; (width as usize) * (height as usize)];
    proof {
        assert forall|x: int, y: int| 0 <= x < width && 0 <= y < height implies #[trigger] seen@[idx(
            wn,
            x,
            y,
        )] == queue@.contains((x as u32, y as u32)) by {
            lemma_idx_bounds(wn, hn, x, y);
        }
    }
    let mut i: u32 = height;
    while i > 0
        invariant
            width == marker.spec_width(),
            height == marker.spec_height(),
            wn == width,
            hn == height,
            mask.spec_width() == width,
            mask.spec_height() == height,
            mask.cells().len() == width * height,
            marker.cells().len() == width * height,
            i <= height,
            swept == raster_swept(before, mask.cells(), wn, hn),
            marker.cells() == anti_rows(swept, mask.cells(), wn, hn, i as nat),
            queue@ == seed_rows(before, mask.cells(), wn, hn, i as nat),
            below_mask(before, mask.cells(), wn, hn) ==> below_mask(marker.cells(), mask.cells(), wn, hn)
                && no_lower(before, marker.cells(), wn, hn),
            forall|x: int, y: int|
                0 <= x < width && i <= y < height ==> #[trigger] marker.cells()[idx(wn, x, y)]
                    <= mask.cells()[idx(wn, x, y)],
            queue_tracks(queue@, seen@, wn, hn),
            forall|q: (u32, u32)|
                #[trigger] queue@.contains(q) ==> exists|x: nat, y: nat|
                    x < wn && i <= y < hn && #[trigger] collects(
                        anti_swept_at(before, mask.cells(), wn, hn, x, y),
                        mask.cells(),
                        wn,
                        hn,
                        x as int,
                        y as int,
                        q,
                    ),
            forall|x: nat, y: nat, q: (u32, u32)|
                x < wn && i <= y < hn && #[trigger] collects(
                    anti_swept_at(before, mask.cells(), wn, hn, x, y),
                    mask.cells(),
                    wn,
                    hn,
                    x as int,
                    y as int,
                    q,
                ) ==> queue@.contains(q),
        decreases i,
    {
        let y = i - 1;
        let mut j: u32 = width;
        while j > 0
            invariant
                width == marker.spec_width(),
                height == marker.spec_height(),
                wn == width,
                hn == height,
                mask.spec_width() == width,
                mask.spec_height() == height,
                mask.cells().len() == width * height,
                marker.cells().len() == width * height,
                0 < i <= height,
                y == i - 1,
                j <= width,
                swept == raster_swept(before, mask.cells(), wn, hn),
                marker.cells() == anti_row(
                    anti_rows(swept, mask.cells(), wn, hn, i as nat),
                    mask.cells(),
                    wn,
                    hn,
                    y as int,
                    j as nat,
                ),
                queue@ == seed_row(
                    before,
                    mask.cells(),
                    wn,
                    hn,
                    seed_rows(before, mask.cells(), wn, hn, i as nat),
                    y as nat,
                    j as nat,
                ),
                below_mask(before, mask.cells(), wn, hn) ==> below_mask(marker.cells(), mask.cells(), wn, hn)
                    && no_lower(before, marker.cells(), wn, hn),
                forall|x: int, yy: int|
                    0 <= x < width && 0 <= yy < height && (yy > y || (yy == y && x >= j))
                        ==> #[trigger] marker.cells()[idx(wn, x, yy)] <= mask.cells()[idx(
                        wn,
                        x,
                        yy,
                    )],
                queue_tracks(queue@, seen@, wn, hn),
                forall|q: (u32, u32)|
                    #[trigger] queue@.contains(q) ==> exists|x: nat, yy: nat|
                        x < wn && (yy > y || (yy == y && x >= j)) && yy < hn && #[trigger] collects(
                            anti_swept_at(before, mask.cells(), wn, hn, x, yy),
                            mask.cells(),
                            wn,
                            hn,
                            x as int,
                            yy as int,
                            q,
                        ),
                forall|x: nat, yy: nat, q: (u32, u32)|
                    x < wn && (yy > y || (yy == y && x >= j)) && yy < hn && #[trigger] collects(
                        anti_swept_at(before, mask.cells(), wn, hn, x, yy),
                        mask.cells(),
                        wn,
                        hn,
                        x as int,
                        yy as int,
                        q,
                    ) ==> queue@.contains(q),
            decreases j,
        {
            let x = j - 1;
            let ghost cur = marker.cells();
            proof {
                lemma_sweep_step(before, cur, *mask, wn, hn, x as int, y as int);
            }
            update_pixel((x, y), mask, marker);
            let ghost state = marker.cells();
            proof {
                assert(state == anti_swept_at(before, mask.cells(), wn, hn, x as nat, y as nat));
            }
            let pixel_value = marker.pixel(x, y);
            let pixel_ngbs = get_pixel_neighbours(marker, (x, y), ConnTypes::Eight);
            proof {
                lemma_patch_neighbours_in_bounds(wn, hn, x as int, y as int, ConnTypes::Eight, 9);
            }
            let ghost q_start = queue@;
            let mut k: usize = 0;
            while k < pixel_ngbs.len()
                invariant
                    width == marker.spec_width(),
                    height == marker.spec_height(),
                    wn == width,
                    hn == height,
                    marker.cells() == state,
                    state == anti_swept_at(before, mask.cells(), wn, hn, x as nat, y as nat),
                    queue@ == collect_nbrs(
                        state,
                        mask.cells(),
                        wn,
                        hn,
                        x as int,
                        y as int,
                        pixel_ngbs@,
                        k as nat,
                        q_start,
                    ),
                    pixel_value == state[idx(wn, x as int, y as int)],
                    pixel_ngbs@ == neighbours(wn, hn, x as int, y as int, ConnTypes::Eight),
                    forall|t: int|
                        0 <= t < pixel_ngbs@.len() ==> (#[trigger] pixel_ngbs@[t]).0 < width
                            && pixel_ngbs@[t].1 < height,
                    mask.spec_width() == width,
                    mask.spec_height() == height,
                    k <= pixel_ngbs@.len(),
                    queue_tracks(queue@, seen@, wn, hn),
                    forall|q: (u32, u32)|
                        #[trigger] queue@.contains(q) ==> q_start.contains(q) || (collects(
                            state,
                            mask.cells(),
                            wn,
                            hn,
                            x as int,
                            y as int,
                            q,
                        )),
                    forall|q: (u32, u32)| #[trigger] q_start.contains(q) ==> queue@.contains(q),
                    forall|t: int|
                        0 <= t < k && collects(
                            state,
                            mask.cells(),
                            wn,
                            hn,
                            x as int,
                            y as int,
                            #[trigger] pixel_ngbs@[t],
                        ) ==> queue@.contains(pixel_ngbs@[t]),
                decreases pixel_ngbs@.len() - k,
            {
                let (nx, ny) = pixel_ngbs[k];
                let ngb = marker.pixel(nx, ny);
                let ngb_mask = mask.pixel(nx, ny);
                let ghost q_mid = queue@;
                proof {
                    assert(pixel_ngbs@.contains((nx, ny))) by {
                        assert(pixel_ngbs@[k as int] == (nx, ny));
                    }
                }
                if ngb < pixel_value && ngb < ngb_mask {
                    enqueue_once(&mut queue, &mut seen, (nx, ny), width, height);
                    proof {
                        assert(collects(state, mask.cells(), wn, hn, x as int, y as int, (nx, ny)));
                        assert forall|q: (u32, u32)| #[trigger] queue@.contains(q) implies q_start.contains(q) || (collects(
                            state,
                            mask.cells(),
                            wn,
                            hn,
                            x as int,
                            y as int,
                            q,
                        )) by {
                            if q != (nx, ny) {
                                assert(q_mid.contains(q));
                            }
                        }
                    }
                } else {
                    proof {
                        assert(!collects(state, mask.cells(), wn, hn, x as int, y as int, (nx, ny)));
                    }
                }
                k = k + 1;
            }
            proof {
                let xn = x as nat;
                let yn = y as nat;
                assert forall|q: (u32, u32)| #[trigger] queue@.contains(q) implies exists|xx: nat, yy: nat|
                    xx < wn && (yy > y || (yy == y && xx >= x)) && yy < hn && #[trigger] collects(
                        anti_swept_at(before, mask.cells(), wn, hn, xx, yy),
                        mask.cells(),
                        wn,
                        hn,
                        xx as int,
                        yy as int,
                        q,
                    ) by {
                    if !q_start.contains(q) {
                        assert(collects(
                            anti_swept_at(before, mask.cells(), wn, hn, xn, yn),
                            mask.cells(),
                            wn,
                            hn,
                            xn as int,
                            yn as int,
                            q,
                        ));
                    }
                }
                assert forall|xx: nat, yy: nat, q: (u32, u32)|
                    xx < wn && (yy > y || (yy == y && xx >= x)) && yy < hn && #[trigger] collects(
                        anti_swept_at(before, mask.cells(), wn, hn, xx, yy),
                        mask.cells(),
                        wn,
                        hn,
                        xx as int,
                        yy as int,
                        q,
                    ) implies queue@.contains(q) by {
                    if xx == x && yy == y {
                        let nb = neighbours(wn, hn, x as int, y as int, ConnTypes::Eight);
                        let t = choose|t: int| 0 <= t < nb.len() && nb[t] == q;
                        assert(pixel_ngbs@[t] == q);
                    } else {
                        assert(q_start.contains(q));
                    }
                }
            }
            j = j - 1;
        }
        i = i - 1;
    }
    proof {
        assert forall|q: (u32, u32)| #[trigger] queue@.contains(q) <==> collected(
            before,
            mask.cells(),
            wn,
            hn,
            q,
        ) by {
            if collected(before, mask.cells(), wn, hn, q) {
                let (xx, yy) = choose|xx: nat, yy: nat|
                    xx < wn && yy < hn && #[trigger] collects(
                        anti_swept_at(before, mask.cells(), wn, hn, xx, yy),
                        mask.cells(),
                        wn,
                        hn,
                        xx as int,
                        yy as int,
                        q,
                    );
                assert(queue@.contains(q));
            }
        }
    }
    queue
}

/// A value whose distance to the mask value did not grow from that of a value
/// within the mask lies within the mask too, and is no lower.
proof fn lemma_gap_shrinks(a: u8, b: u8, m: u8)
    requires
        b <= m,
        gap(a, m) <= gap(b, m),
    ensures
        a <= m,
        b <= a,
{
}

/// Greyscale reconstruction by dilation of `marker` under `mask`, in place:
/// the seeding pass, then sequential first-in first-out propagation from the
/// positions it collected, in the order collected. The result lies within the mask; when `marker` did, no pixel
/// is lowered; it lies below every image above `marker` in which no pixel
/// could still rise from an 8-neighbour; and every pixel that was collected,
/// was stable after seeding, or changed in propagation, has no 8-neighbour
/// that could still rise from it.
pub fn morph_reconstruction(mask: &Image8, marker: &mut Image8)
    requires
        mask.spec_width() == old(marker).spec_width(),
        mask.spec_height() == old(marker).spec_height(),
    ensures
        final(marker).spec_width() == old(marker).spec_width(),
        final(marker).spec_height() == old(marker).spec_height(),
        below_mask(final(marker).cells(), mask.cells(), mask.spec_width(), mask.spec_height()),
        below_mask(old(marker).cells(), mask.cells(), mask.spec_width(), mask.spec_height()) ==> no_lower(
            old(marker).cells(),
            final(marker).cells(),
            mask.spec_width(),
            mask.spec_height(),
        ),
        forall|z: Seq<u8>|
            no_lower(old(marker).cells(), z, mask.spec_width(), mask.spec_height()) && closed_under(
                z,
                mask.cells(),
                mask.spec_width(),
                mask.spec_height(),
            ) ==> #[trigger] no_lower(final(marker).cells(), z, mask.spec_width(), mask.spec_height()),
        final(marker).cells() == crate::iwp::fifo_result(
            *mask,
            seeded_marker(old(marker).cells(), mask.cells(), mask.spec_width(), mask.spec_height()),
            seed_seq(old(marker).cells(), mask.cells(), mask.spec_width(), mask.spec_height()),
            mask.spec_width(),
            mask.spec_height(),
            (0, 0),
        ),
        settled(
            *mask,
            seeded_marker(old(marker).cells(), mask.cells(), mask.spec_width(), mask.spec_height()),
            final(marker).cells(),
            mask.spec_width(),
            mask.spec_height(),
            (0, 0),
            seed_seq(old(marker).cells(), mask.cells(), mask.spec_width(), mask.spec_height()),
        ),
{
    let w = marker.cols();
    let h = marker.rows();
    let _ = mask.cols();
    let ghost before = marker.cells();
    let mut initial_queue = get_initial_pixels(mask, marker);
    let ghost seeded = marker.cells();
    let ghost seeds = initial_queue@;
    proof {
        assert forall|pos: (u32, u32)| in_region(pos, (0, 0), w as nat, h as nat) implies #[trigger] mask.admits(pos) by {}
    }
    iwp(marker, mask, &mut initial_queue);
    proof {
        assert forall|z: Seq<u8>|
            no_lower(before, z, w as nat, h as nat) && closed_under(
                z,
                mask.cells(),
                w as nat,
                h as nat,
            ) implies #[trigger] no_lower(marker.cells(), z, w as nat, h as nat) by {
            lemma_reconstruction_least(before, *mask, z);
        }
        let after = marker.cells();
        assert forall|x: int, y: int| 0 <= x < w && 0 <= y < h implies #[trigger] after[idx(
            w as nat,
            x,
            y,
        )] <= mask.cells()[idx(w as nat, x, y)] && seeded[idx(w as nat, x, y)] <= after[idx(
            w as nat,
            x,
            y,
        )] by {
            assert(seeded[idx(w as nat, x, y)] <= mask.cells()[idx(w as nat, x, y)]);
            lemma_gap_shrinks(
                after[idx(w as nat, x, y)],
                seeded[idx(w as nat, x, y)],
                mask.cells()[idx(w as nat, x, y)],
            );
        }
        if below_mask(before, mask.cells(), w as nat, h as nat) {
            assert forall|x: int, y: int| 0 <= x < w && 0 <= y < h implies before[idx(
                w as nat,
                x,
                y,
            )] <= #[trigger] after[idx(w as nat, x, y)] by {
                assert(before[idx(w as nat, x, y)] <= seeded[idx(w as nat, x, y)]);
                assert(seeded[idx(w as nat, x, y)] <= after[idx(w as nat, x, y)]);
            }
        }
    }
}


/// The slice of `sec` lies within the mask at the section's position.
pub open spec fn slice_below_mask(sec: ParallelSection<Image8>, mask: Image8) -> bool {
    forall|i: int, j: int|
        0 <= i < sec.width && 0 <= j < sec.height ==> #[trigger] sec.slice.cells()[idx(
            sec.width as nat,
            i,
            j,
        )] <= mask.cells()[idx(mask.spec_width(), sec.start.0 + i, sec.start.1 + j)]
}

/// The slice of `sec` is nowhere lower than `marker` at the section's position.
pub open spec fn slice_not_lower(sec: ParallelSection<Image8>, marker: Image8) -> bool {
    forall|i: int, j: int|
        0 <= i < sec.width && 0 <= j < sec.height ==> #[trigger] sec.slice.cells()[idx(
            sec.width as nat,
            i,
            j,
        )] >= marker.cells()[idx(marker.spec_width(), sec.start.0 + i, sec.start.1 + j)]
}

/// Tile `k` of the cut of a `w` by `h` marker into `n` tiles, after the
/// seeding pass runs on it alone against the same tile of the mask.
pub open spec fn seeded_tile(marker: Seq<u8>, mask: Seq<u8>, w: nat, h: nat, n: nat, k: nat) -> Seq<u8> {
    let rect = tile_rect(w, h, n, k);
    seeded_marker(tile_cells(marker, w, rect), tile_cells(mask, w, rect), rect.2, rect.3)
}

/// The seeds that tile `k` collects, in order, as positions in the whole
/// image.
pub open spec fn tile_seeds(marker: Seq<u8>, mask: Seq<u8>, w: nat, h: nat, n: nat, k: nat) -> Seq<
    (u32, u32),
> {
    let rect = tile_rect(w, h, n, k);
    seed_seq(tile_cells(marker, w, rect), tile_cells(mask, w, rect), rect.2, rect.3).map_values(
        shift_by((rect.0 as u32, rect.1 as u32)),
    )
}

/// `q` after the first `k` positions of `s` join its back, each unless it
/// is there already.
pub open spec fn push_all_new(q: Seq<(u32, u32)>, s: Seq<(u32, u32)>, k: nat) -> Seq<(u32, u32)>
    decreases k,
{
    if k == 0 {
        q
    } else {
        push_new(push_all_new(q, s, (k - 1) as nat), s[k - 1])
    }
}

/// The seeds of the first `m` tiles, tile after tile, each kept once.
pub open spec fn tiled_seeds(marker: Seq<u8>, mask: Seq<u8>, w: nat, h: nat, n: nat, m: nat) -> Seq<
    (u32, u32),
>
    decreases m,
{
    if m == 0 {
        Seq::empty()
    } else {
        let s = tile_seeds(marker, mask, w, h, n, (m - 1) as nat);
        push_all_new(tiled_seeds(marker, mask, w, h, n, (m - 1) as nat), s, s.len())
    }
}

/// The seeded tiles pasted back into a `w` by `h` image.
pub open spec fn seeded_tiles(marker: Seq<u8>, mask: Seq<u8>, w: nat, h: nat, n: nat) -> Seq<u8> {
    Seq::new(
        w * h,
        |t: int|
            {
                let x = t % (w as int);
                let y = t / (w as int);
                let k = tile_of(w, h, n, x, y);
                let rect = tile_rect(w, h, n, k);
                seeded_tile(marker, mask, w, h, n, k)[idx(rect.2, x - rect.0, y - rect.1)]
            },
    )
}

/// The seeding pass run on each tile of `marker` on its own, against the
/// matching tile of `mask`. Returns the tiles pasted back together, and the
/// positions each tile collected, in the whole image, each once.
pub fn get_initial_pixels_parallel(mask: &Image8, marker: &Image8, num_threads: u32) -> (r: (
    Image8,
    Vec<(u32, u32)>,
))
    requires
        num_threads >= 1,
        mask.spec_width() == marker.spec_width(),
        mask.spec_height() == marker.spec_height(),
    ensures
        r.0.spec_width() == marker.spec_width(),
        r.0.spec_height() == marker.spec_height(),
        below_mask(r.0.cells(), mask.cells(), mask.spec_width(), mask.spec_height()),
        below_mask(marker.cells(), mask.cells(), mask.spec_width(), mask.spec_height()) ==> no_lower(
            marker.cells(),
            r.0.cells(),
            mask.spec_width(),
            mask.spec_height(),
        ),
        r.0.cells() == seeded_tiles(
            marker.cells(),
            mask.cells(),
            mask.spec_width(),
            mask.spec_height(),
            num_threads as nat,
        ),
        r.1@ == tiled_seeds(
            marker.cells(),
            mask.cells(),
            mask.spec_width(),
            mask.spec_height(),
            num_threads as nat,
            num_threads as nat,
        ),
        r.1@.no_duplicates(),
        queue_in_image(r.1@, mask.spec_width(), mask.spec_height()),
{
    let width = marker.cols();
    let height = marker.rows();
    let _ = mask.cols();
    let ghost wn = width as nat;
    let ghost hn = height as nat;
    let ghost n = num_threads as nat;
    let mut sections = arrange(marker, num_threads);
    let ghost orig = sections@;
    let mask_sections = arrange(mask, num_threads);
    let mut queue: Vec<(u32, u32)> = Vec::new();
    let mut seen: Vec<bool> = vec![false; (width as usize) * (height as usize)];
    proof {
        assert forall|x: int, y: int| 0 <= x < width && 0 <= y < height implies #[trigger] seen@[idx(
            wn,
            x,
            y,
        )] == queue@.contains((x as u32, y as u32)) by {
            lemma_idx_bounds(wn, hn, x, y);
        }
        assert forall|j: int| 0 <= j < sections@.len() implies section_at_tile(
            #[trigger] sections@[j],
            wn,
            hn,
            n,
            j as nat,
        ) && sections@[j].slice.spec_width() == sections@[j].width
            && sections@[j].slice.spec_height() == sections@[j].height by {
            assert(section_is_tile(sections@[j], *marker, n, j as nat));
        }
    }
    let mut k: usize = 0;
    while k < sections.len()
        invariant
            wn == width,
            hn == height,
            n == num_threads,
            n >= 1,
            mask.spec_width() == width,
            mask.spec_height() == height,
            sections@.len() == n,
            mask_sections@.len() == n,
            k <= n,
            forall|j: int|
                0 <= j < sections@.len() ==> section_at_tile(
                    #[trigger] sections@[j],
                    wn,
                    hn,
                    n,
                    j as nat,
                ) && sections@[j].slice.spec_width() == sections@[j].width
                    && sections@[j].slice.spec_height() == sections@[j].height,
            forall|j: int|
                0 <= j < mask_sections@.len() ==> section_is_tile(
                    #[trigger] mask_sections@[j],
                    *mask,
                    n,
                    j as nat,
                ),
            forall|j: int| 0 <= j < k ==> slice_below_mask(#[trigger] sections@[j], *mask),
            orig.len() == n,
            marker.spec_width() == width,
            marker.spec_height() == height,
            forall|j: int|
                0 <= j < orig.len() ==> section_is_tile(#[trigger] orig[j], *marker, n, j as nat),
            forall|j: int| k <= j < sections@.len() ==> #[trigger] sections@[j] == orig[j],
            below_mask(marker.cells(), mask.cells(), wn, hn) ==> forall|j: int|
                0 <= j < k ==> slice_not_lower(#[trigger] sections@[j], *marker),
            queue_tracks(queue@, seen@, wn, hn),
            queue@ == tiled_seeds(marker.cells(), mask.cells(), wn, hn, n, k as nat),
            forall|j: int|
                0 <= j < k ==> (#[trigger] sections@[j]).slice.cells() == seeded_tile(
                    marker.cells(),
                    mask.cells(),
                    wn,
                    hn,
                    n,
                    j as nat,
                ),
        decreases n - k,
    {
        let ghost msec = mask_sections@[k as int];
        let ghost rect = tile_rect(wn, hn, n, k as nat);
        proof {
            assert(section_is_tile(msec, *mask, n, k as nat));
            assert(section_at_tile(sections@[k as int], wn, hn, n, k as nat));
            crate::parallel_img::lemma_tile_inside(wn, hn, n, k as nat);
            assert(section_is_tile(orig[k as int], *marker, n, k as nat));
            lemma_tile_cells(orig[k as int].slice.cells(), marker.cells(), wn, rect);
            lemma_tile_cells(msec.slice.cells(), mask.cells(), wn, rect);
        }
        let sx = sections[k].start.0;
        let sy = sections[k].start.1;
        let rel = get_initial_pixels(&mask_sections[k].slice, &mut sections[k].slice);
        let ghost sec = sections@[k as int];
        proof {
            let before = orig[k as int];
            assert(section_is_tile(before, *marker, n, k as nat));
            assert(before.start == sec.start && before.width == sec.width && before.height
                == sec.height);
            assert(msec.start == sec.start && msec.width == sec.width && msec.height == sec.height);
            assert(msec.slice.spec_width() == sec.width && msec.slice.spec_height() == sec.height);
            if below_mask(marker.cells(), mask.cells(), wn, hn) {
                assert(below_mask(
                    before.slice.cells(),
                    msec.slice.cells(),
                    msec.slice.spec_width(),
                    msec.slice.spec_height(),
                )) by {
                    assert forall|i: int, j: int|
                        0 <= i < sec.width && 0 <= j < sec.height implies #[trigger] before.slice.cells()[idx(
                        sec.width as nat,
                        i,
                        j,
                    )] <= msec.slice.cells()[idx(sec.width as nat, i, j)] by {
                        assert(before.slice.cells()[idx(before.width as nat, i, j)]
                            == marker.cells()[idx(wn, before.start.0 + i, before.start.1 + j)]);
                        assert(msec.slice.cells()[idx(msec.width as nat, i, j)] == mask.cells()[idx(
                            wn,
                            msec.start.0 + i,
                            msec.start.1 + j,
                        )]);
                        assert(marker.cells()[idx(wn, sec.start.0 + i, sec.start.1 + j)] <= mask.cells()[idx(
                            wn,
                            sec.start.0 + i,
                            sec.start.1 + j,
                        )]);
                    }
                }
                assert forall|i: int, j: int| 0 <= i < sec.width && 0 <= j < sec.height implies #[trigger] sec.slice.cells()[idx(
                    sec.width as nat,
                    i,
                    j,
                )] >= marker.cells()[idx(wn, sec.start.0 + i, sec.start.1 + j)] by {
                    assert(before.slice.cells()[idx(before.width as nat, i, j)]
                        == marker.cells()[idx(wn, before.start.0 + i, before.start.1 + j)]);
                    assert(before.slice.cells()[idx(sec.width as nat, i, j)] <= sec.slice.cells()[idx(
                        sec.width as nat,
                        i,
                        j,
                    )]);
                }
            }
            assert forall|i: int, j: int| 0 <= i < sec.width && 0 <= j < sec.height implies #[trigger] sec.slice.cells()[idx(
                sec.width as nat,
                i,
                j,
            )] <= mask.cells()[idx(mask.spec_width(), sec.start.0 + i, sec.start.1 + j)] by {
                assert(sec.slice.cells()[idx(sec.width as nat, i, j)] <= msec.slice.cells()[idx(
                    msec.slice.spec_width(),
                    i,
                    j,
                )]);
            }
        }
        let ghost ts = tile_seeds(marker.cells(), mask.cells(), wn, hn, n, k as nat);
        let ghost q_tile = queue@;
        proof {
            assert(sec.slice.cells() == seeded_tile(marker.cells(), mask.cells(), wn, hn, n, k as nat));
            assert(rel@.map_values(shift_by((rect.0 as u32, rect.1 as u32))) == ts);
            assert((rect.0 as u32, rect.1 as u32) == (sx, sy));
        }
        let mut t: usize = 0;
        while t < rel.len()
            invariant
                wn == width,
                hn == height,
                ts == rel@.map_values(shift_by((sx, sy))),
                queue@ == push_all_new(q_tile, ts, t as nat),
                sx == sec.start.0,
                sy == sec.start.1,
                sec.start.0 + sec.width <= width,
                sec.start.1 + sec.height <= height,
                queue_in_image(rel@, sec.width as nat, sec.height as nat),
                t <= rel@.len(),
                queue_tracks(queue@, seen@, wn, hn),
            decreases rel@.len() - t,
        {
            let p = rel[t];
            proof {
                assert(in_region(rel@[t as int], (0, 0), sec.width as nat, sec.height as nat));
            }
            enqueue_once(&mut queue, &mut seen, (p.0 + sx, p.1 + sy), width, height);
            proof {
                assert(ts[t as int] == ((p.0 + sx) as u32, (p.1 + sy) as u32));
            }
            t = t + 1;
        }
        proof {
            assert(queue@ == tiled_seeds(marker.cells(), mask.cells(), wn, hn, n, (k + 1) as nat));
            assert forall|j: int| 0 <= j < k + 1 implies (#[trigger] sections@[j]).slice.cells()
                == seeded_tile(marker.cells(), mask.cells(), wn, hn, n, j as nat) by {
                if j == k {
                    assert(sections@[j] == sec);
                }
            }
            assert forall|j: int| 0 <= j < k + 1 implies slice_below_mask(
                #[trigger] sections@[j],
                *mask,
            ) by {
                if j == k {
                    assert(sections@[j] == sec);
                }
            }
            if below_mask(marker.cells(), mask.cells(), wn, hn) {
                assert forall|j: int| 0 <= j < k + 1 implies slice_not_lower(
                    #[trigger] sections@[j],
                    *marker,
                ) by {
                    if j == k {
                        assert(sections@[j] == sec);
                    }
                }
            }
        }
        k = k + 1;
    }
    proof {
        assert forall|j: int| 0 <= j < sections@.len() implies {
            let s = #[trigger] sections@[j];
            &&& s.start.0 + s.width <= wn
            &&& s.start.1 + s.height <= hn
            &&& s.slice.spec_width() == s.width
            &&& s.slice.spec_height() == s.height
        } by {
            crate::parallel_img::lemma_tile_inside(wn, hn, n, j as nat);
        }
    }
    let full_img = get_full_img(width, height, &sections);
    proof {
        let full = full_img.cells();
        let st = seeded_tiles(marker.cells(), mask.cells(), wn, hn, n);
        assert forall|t: int| 0 <= t < full.len() implies full[t] == st[t] by {
            let (x, y) = crate::raster::lemma_idx_onto(wn, hn, t);
            let kk = lemma_pasted_tile(wn, hn, n, sections@, x, y);
            assert(section_at_tile(sections@[kk as int], wn, hn, n, kk));
            assert(crate::parallel_img::in_rect(tile_rect(wn, hn, n, kk), x, y));
            let k2 = tile_of(wn, hn, n, x, y);
            assert(section_at_tile(sections@[k2 as int], wn, hn, n, k2));
            assert(crate::parallel_img::covers(sections@[k2 as int], x, y));
            assert(k2 == kk);
        }
        assert(full =~= st);
        assert forall|x: int, y: int| 0 <= x < width && 0 <= y < height implies #[trigger] full_img.cells()[idx(
            wn,
            x,
            y,
        )] <= mask.cells()[idx(wn, x, y)] by {
            let kk = lemma_pasted_tile(wn, hn, n, sections@, x, y);
            assert(slice_below_mask(sections@[kk as int], *mask));
            let s = sections@[kk as int];
            assert(s.slice.cells()[idx(s.width as nat, x - s.start.0, y - s.start.1)]
                <= mask.cells()[idx(wn, s.start.0 + (x - s.start.0), s.start.1 + (y - s.start.1))]);
        }
        if below_mask(marker.cells(), mask.cells(), wn, hn) {
            assert forall|x: int, y: int| 0 <= x < width && 0 <= y < height implies marker.cells()[idx(
                wn,
                x,
                y,
            )] <= #[trigger] full_img.cells()[idx(wn, x, y)] by {
                let kk = lemma_pasted_tile(wn, hn, n, sections@, x, y);
                assert(slice_not_lower(sections@[kk as int], *marker));
                let s = sections@[kk as int];
                assert(s.slice.cells()[idx(s.width as nat, x - s.start.0, y - s.start.1)]
                    >= marker.cells()[idx(wn, s.start.0 + (x - s.start.0), s.start.1 + (y - s.start.1))]);
            }
        }
    }
    (full_img, queue)
}

/// Reconstruction by dilation on tiles: the seeding pass on each tile, then
/// tiled propagation (see `propagate_parallel`) from the positions collected,
/// tile after tile. The result lies within the mask; when `marker` did, no
/// pixel is lowered; and it lies below every image above `marker` in which
/// no pixel could still rise from an 8-neighbour.
pub fn morph_reconstruction_parallel(mask: &Image8, marker: &Image8, num_threads: u32) -> (r:
    Image8)
    requires
        num_threads >= 1,
        mask.spec_width() == marker.spec_width(),
        mask.spec_height() == marker.spec_height(),
    ensures
        r.spec_width() == marker.spec_width(),
        r.spec_height() == marker.spec_height(),
        below_mask(r.cells(), mask.cells(), mask.spec_width(), mask.spec_height()),
        below_mask(marker.cells(), mask.cells(), mask.spec_width(), mask.spec_height()) ==> no_lower(
            marker.cells(),
            r.cells(),
            mask.spec_width(),
            mask.spec_height(),
        ),
        forall|z: Seq<u8>|
            z.len() == mask.spec_width() * mask.spec_height() && no_lower(
                marker.cells(),
                z,
                mask.spec_width(),
                mask.spec_height(),
            ) && closed_under(z, mask.cells(), mask.spec_width(), mask.spec_height())
                ==> #[trigger] no_lower(r.cells(), z, mask.spec_width(), mask.spec_height()),
        r.cells() == tiled_result(
            *mask,
            seeded_tiles(
                marker.cells(),
                mask.cells(),
                mask.spec_width(),
                mask.spec_height(),
                num_threads as nat,
            ),
            tiled_seeds(
                marker.cells(),
                mask.cells(),
                mask.spec_width(),
                mask.spec_height(),
                num_threads as nat,
                num_threads as nat,
            ),
            mask.spec_width(),
            mask.spec_height(),
            num_threads as nat,
        ),
{
    let w = marker.cols();
    let h = marker.rows();
    let _ = mask.cols();
    let (base_img, initial) = get_initial_pixels_parallel(mask, marker, num_threads);
    let mut initial_queue: VecDeque<(u32, u32)> = VecDeque::new();
    let mut i: usize = 0;
    while i < initial.len()
        invariant
            i <= initial@.len(),
            initial_queue@ == initial@.subrange(0, i as int),
        decreases initial@.len() - i,
    {
        initial_queue.push_back(initial[i]);
        i = i + 1;
    }
    proof {
        assert(initial@.subrange(0, initial@.len() as int) == initial@);
        assert forall|pos: (u32, u32)|
            in_region(pos, (0, 0), base_img.spec_width(), base_img.spec_height()) implies #[trigger] mask.admits(pos) by {}
    }
    let result = propagate_parallel(&base_img, mask, &initial_queue, num_threads);
    proof {
        assert forall|z: Seq<u8>|
            z.len() == w * h && no_lower(marker.cells(), z, w as nat, h as nat) && closed_under(
                z,
                mask.cells(),
                w as nat,
                h as nat,
            ) implies #[trigger] no_lower(result.cells(), z, w as nat, h as nat) by {
            lemma_tiled_reconstruction_least(marker.cells(), *mask, z, num_threads as nat);
        }
        let seeded = base_img.cells();
        let after = result.cells();
        assert(settled(*mask, seeded, after, w as nat, h as nat, (0, 0), initial_queue@));
        assert forall|x: int, y: int| 0 <= x < w && 0 <= y < h implies #[trigger] after[idx(
            w as nat,
            x,
            y,
        )] <= mask.cells()[idx(w as nat, x, y)] by {
            assert(seeded[idx(w as nat, x, y)] <= mask.cells()[idx(w as nat, x, y)]);
            lemma_gap_shrinks(
                after[idx(w as nat, x, y)],
                seeded[idx(w as nat, x, y)],
                mask.cells()[idx(w as nat, x, y)],
            );
        }
        if below_mask(marker.cells(), mask.cells(), w as nat, h as nat) {
            assert forall|x: int, y: int| 0 <= x < w && 0 <= y < h implies marker.cells()[idx(
                w as nat,
                x,
                y,
            )] <= #[trigger] after[idx(w as nat, x, y)] by {
                assert(marker.cells()[idx(w as nat, x, y)] <= seeded[idx(w as nat, x, y)]);
                assert(seeded[idx(w as nat, x, y)] <= mask.cells()[idx(w as nat, x, y)]);
                lemma_gap_shrinks(
                    after[idx(w as nat, x, y)],
                    seeded[idx(w as nat, x, y)],
                    mask.cells()[idx(w as nat, x, y)],
                );
            }
        }
    }
    result
}


/// `a` and `b` are distinct and 8-adjacent.
pub open spec fn adjacent(ax: int, ay: int, bx: int, by: int) -> bool {
    !(ax == bx && ay == by) && -1 <= ax - bx <= 1 && -1 <= ay - by <= 1
}

/// No pixel of `z` could still rise from an 8-neighbour under `mask`:
/// `z[b] >= min(z[a], mask[b])` for every pair of 8-adjacent pixels.
pub open spec fn closed_under(z: Seq<u8>, mask: Seq<u8>, w: nat, h: nat) -> bool {
    forall|ax: int, ay: int, bx: int, by: int|
        0 <= ax < w && 0 <= ay < h && 0 <= bx < w && 0 <= by < h && adjacent(ax, ay, bx, by)
            ==> #[trigger] z[idx(w, bx, by)] >= min_u8(#[trigger] z[idx(w, ax, ay)], mask[idx(w, bx, by)])
}

proof fn lemma_max_at_capped(
    s: Seq<u8>,
    z: Seq<u8>,
    mask: Seq<u8>,
    w: nat,
    h: nat,
    x: int,
    y: int,
    k: nat,
)
    requires
        w <= u32::MAX,
        h <= u32::MAX,
        0 <= x < w,
        0 <= y < h,
        k <= neighbours(w, h, x, y, ConnTypes::Eight).len(),
        no_lower(s, z, w, h),
        closed_under(z, mask, w, h),
    ensures
        min_u8(max_at(s, w, neighbours(w, h, x, y, ConnTypes::Eight), k), mask[idx(w, x, y)]) <= z[idx(
            w,
            x,
            y,
        )],
    decreases k,
{
    if k > 0 {
        lemma_max_at_capped(s, z, mask, w, h, x, y, (k - 1) as nat);
        let nb = neighbours(w, h, x, y, ConnTypes::Eight);
        lemma_patch_neighbours_in_bounds(w, h, x, y, ConnTypes::Eight, 9);
        let n = nb[k - 1];
        assert(s[idx(w, n.0 as int, n.1 as int)] <= z[idx(w, n.0 as int, n.1 as int)]);
        assert(adjacent(n.0 as int, n.1 as int, x, y));
        assert(z[idx(w, x, y)] >= min_u8(z[idx(w, n.0 as int, n.1 as int)], mask[idx(w, x, y)]));
    }
}

proof fn lemma_sweep_at_below(s: Seq<u8>, z: Seq<u8>, mask: Seq<u8>, w: nat, h: nat, x: int, y: int)
    requires
        w <= u32::MAX,
        h <= u32::MAX,
        0 <= x < w,
        0 <= y < h,
        s.len() == w * h,
        no_lower(s, z, w, h),
        closed_under(z, mask, w, h),
    ensures
        sweep_at(s, mask, w, h, x, y).len() == w * h,
        no_lower(sweep_at(s, mask, w, h, x, y), z, w, h),
{
    let nb = neighbours(w, h, x, y, ConnTypes::Eight);
    lemma_max_at_capped(s, z, mask, w, h, x, y, nb.len());
    lemma_idx_bounds(w, h, x, y);
    assert(s[idx(w, x, y)] <= z[idx(w, x, y)]);
    let s2 = sweep_at(s, mask, w, h, x, y);
    assert forall|a: int, b: int| 0 <= a < w && 0 <= b < h implies s2[idx(w, a, b)] <= #[trigger] z[idx(
        w,
        a,
        b,
    )] by {
        lemma_idx_bounds(w, h, a, b);
        if !(a == x && b == y) {
            if idx(w, a, b) == idx(w, x, y) {
                lemma_idx_injective(w, a, b, x, y);
            }
            assert(s[idx(w, a, b)] <= z[idx(w, a, b)]);
        }
    }
}

proof fn lemma_raster_row_below(s: Seq<u8>, z: Seq<u8>, mask: Seq<u8>, w: nat, h: nat, y: int, x: nat)
    requires
        w <= u32::MAX,
        h <= u32::MAX,
        0 <= y < h,
        x <= w,
        s.len() == w * h,
        no_lower(s, z, w, h),
        closed_under(z, mask, w, h),
    ensures
        raster_row(s, mask, w, h, y, x).len() == w * h,
        no_lower(raster_row(s, mask, w, h, y, x), z, w, h),
    decreases x,
{
    if x > 0 {
        lemma_raster_row_below(s, z, mask, w, h, y, (x - 1) as nat);
        lemma_sweep_at_below(raster_row(s, mask, w, h, y, (x - 1) as nat), z, mask, w, h, x - 1, y);
    }
}

proof fn lemma_raster_rows_below(s: Seq<u8>, z: Seq<u8>, mask: Seq<u8>, w: nat, h: nat, y: nat)
    requires
        w <= u32::MAX,
        h <= u32::MAX,
        y <= h,
        s.len() == w * h,
        no_lower(s, z, w, h),
        closed_under(z, mask, w, h),
    ensures
        raster_rows(s, mask, w, h, y).len() == w * h,
        no_lower(raster_rows(s, mask, w, h, y), z, w, h),
    decreases y,
{
    if y > 0 {
        lemma_raster_rows_below(s, z, mask, w, h, (y - 1) as nat);
        lemma_raster_row_below(raster_rows(s, mask, w, h, (y - 1) as nat), z, mask, w, h, y - 1, w);
    }
}

proof fn lemma_anti_row_below(s: Seq<u8>, z: Seq<u8>, mask: Seq<u8>, w: nat, h: nat, y: int, x: nat)
    requires
        w <= u32::MAX,
        h <= u32::MAX,
        0 <= y < h,
        s.len() == w * h,
        no_lower(s, z, w, h),
        closed_under(z, mask, w, h),
    ensures
        anti_row(s, mask, w, h, y, x).len() == w * h,
        no_lower(anti_row(s, mask, w, h, y, x), z, w, h),
    decreases w - x,
{
    if x < w {
        lemma_anti_row_below(s, z, mask, w, h, y, x + 1);
        lemma_sweep_at_below(anti_row(s, mask, w, h, y, x + 1), z, mask, w, h, x as int, y);
    }
}

proof fn lemma_anti_rows_below(s: Seq<u8>, z: Seq<u8>, mask: Seq<u8>, w: nat, h: nat, y: nat)
    requires
        w <= u32::MAX,
        h <= u32::MAX,
        s.len() == w * h,
        no_lower(s, z, w, h),
        closed_under(z, mask, w, h),
    ensures
        anti_rows(s, mask, w, h, y).len() == w * h,
        no_lower(anti_rows(s, mask, w, h, y), z, w, h),
    decreases h - y,
{
    if y < h {
        lemma_anti_rows_below(s, z, mask, w, h, y + 1);
        lemma_anti_row_below(anti_rows(s, mask, w, h, y + 1), z, mask, w, h, y as int, 0);
    }
}

/// The seeding pass keeps the marker below every image above it that is
/// closed under the mask.
pub proof fn lemma_seeded_below(s: Seq<u8>, z: Seq<u8>, mask: Seq<u8>, w: nat, h: nat)
    requires
        w <= u32::MAX,
        h <= u32::MAX,
        s.len() == w * h,
        no_lower(s, z, w, h),
        closed_under(z, mask, w, h),
    ensures
        seeded_marker(s, mask, w, h).len() == w * h,
        no_lower(seeded_marker(s, mask, w, h), z, w, h),
{
    lemma_raster_rows_below(s, z, mask, w, h, h);
    lemma_anti_rows_below(raster_swept(s, mask, w, h), z, mask, w, h, 0);
}


/// The mask, read at a tile whose upper-left corner is `origin`, holds `tmask`.
pub open spec fn mask_tile(mask: Image8, origin: (u32, u32), tw: nat, th: nat, tmask: Seq<u8>) -> bool {
    forall|i: int, j: int|
        0 <= i < tw && 0 <= j < th ==> #[trigger] tmask[idx(tw, i, j)] == mask.cells()[idx(
            mask.spec_width(),
            origin.0 + i,
            origin.1 + j,
        )]
}

proof fn lemma_visit_below(
    mask: Image8,
    tmask: Seq<u8>,
    cells: Seq<u8>,
    queue: Seq<(u32, u32)>,
    w: nat,
    h: nat,
    origin: (u32, u32),
    curr: PixelT<u8>,
    px: int,
    py: int,
    k: nat,
    z: Seq<u8>,
)
    requires
        w <= u32::MAX,
        h <= u32::MAX,
        origin.0 + w <= u32::MAX,
        origin.1 + h <= u32::MAX,
        mask_tile(mask, origin, w, h, tmask),
        0 <= px < w,
        0 <= py < h,
        curr.coords == crate::iwp::abs_pos(origin, px, py),
        curr.value <= z[idx(w, px, py)],
        k <= neighbours(w, h, px, py, ConnTypes::Eight).len(),
        cells.len() == w * h,
        no_lower(cells, z, w, h),
        closed_under(z, tmask, w, h),
        forall|t: int| 0 <= t < queue.len() ==> in_region(#[trigger] queue[t], origin, w, h),
    ensures
        ({
            let r = crate::iwp::visit(
                mask,
                cells,
                queue,
                w,
                origin,
                curr,
                neighbours(w, h, px, py, ConnTypes::Eight),
                k,
            );
            &&& r.0.len() == w * h
            &&& no_lower(r.0, z, w, h)
            &&& forall|t: int| 0 <= t < r.1.len() ==> in_region(#[trigger] r.1[t], origin, w, h)
        }),
    decreases k,
{
    if k > 0 {
        let nb = neighbours(w, h, px, py, ConnTypes::Eight);
        lemma_visit_below(mask, tmask, cells, queue, w, h, origin, curr, px, py, (k - 1) as nat, z);
        let prev = crate::iwp::visit(mask, cells, queue, w, origin, curr, nb, (k - 1) as nat);
        lemma_patch_neighbours_in_bounds(w, h, px, py, ConnTypes::Eight, 9);
        let n = nb[k - 1];
        let qx = n.0 as int;
        let qy = n.1 as int;
        let ngb = crate::iwp::pixel_of(prev.0, w, origin, qx, qy);
        if mask.spec_condition(curr, ngb) {
            let v = mask.spec_update(curr, ngb);
            assert(tmask[idx(w, qx, qy)] == mask_at(mask, ngb.coords));
            assert(adjacent(px, py, qx, qy));
            assert(z[idx(w, qx, qy)] >= min_u8(z[idx(w, px, py)], tmask[idx(w, qx, qy)]));
            assert(v <= z[idx(w, qx, qy)]);
            let c2 = prev.0.update(idx(w, qx, qy), v);
            lemma_idx_bounds(w, h, qx, qy);
            assert forall|a: int, b: int| 0 <= a < w && 0 <= b < h implies c2[idx(w, a, b)]
                <= #[trigger] z[idx(w, a, b)] by {
                lemma_idx_bounds(w, h, a, b);
                if !(a == qx && b == qy) {
                    if idx(w, a, b) == idx(w, qx, qy) {
                        lemma_idx_injective(w, a, b, qx, qy);
                    }
                    assert(prev.0[idx(w, a, b)] <= z[idx(w, a, b)]);
                }
            }
            let q2 = prev.1.push(crate::iwp::abs_pos(origin, qx, qy));
            assert forall|t: int| 0 <= t < q2.len() implies in_region(#[trigger] q2[t], origin, w, h) by {
                if t < prev.1.len() {
                    assert(q2[t] == prev.1[t]);
                }
            }
        }
    }
}

/// Propagation under the mask over a tile at `origin` keeps the tile below
/// every image `z` above it that is closed under the tile's mask.
pub proof fn lemma_fifo_run_below(
    mask: Image8,
    tmask: Seq<u8>,
    cells: Seq<u8>,
    queue: Seq<(u32, u32)>,
    w: nat,
    h: nat,
    origin: (u32, u32),
    n: nat,
    z: Seq<u8>,
)
    requires
        w <= u32::MAX,
        h <= u32::MAX,
        origin.0 + w <= u32::MAX,
        origin.1 + h <= u32::MAX,
        mask_tile(mask, origin, w, h, tmask),
        cells.len() == w * h,
        no_lower(cells, z, w, h),
        closed_under(z, tmask, w, h),
        forall|t: int| 0 <= t < queue.len() ==> in_region(#[trigger] queue[t], origin, w, h),
    ensures
        ({
            let r = crate::iwp::fifo_run(mask, cells, queue, w, h, origin, n);
            &&& r.0.len() == w * h
            &&& no_lower(r.0, z, w, h)
            &&& forall|t: int| 0 <= t < r.1.len() ==> in_region(#[trigger] r.1[t], origin, w, h)
        }),
    decreases n,
{
    if n > 0 {
        lemma_fifo_run_below(mask, tmask, cells, queue, w, h, origin, (n - 1) as nat, z);
        let prev = crate::iwp::fifo_run(mask, cells, queue, w, h, origin, (n - 1) as nat);
        if prev.1.len() > 0 {
            let p = prev.1[0];
            assert(in_region(p, origin, w, h));
            let px = p.0 - origin.0;
            let py = p.1 - origin.1;
            let rest = prev.1.drop_first();
            assert forall|t: int| 0 <= t < rest.len() implies in_region(#[trigger] rest[t], origin, w, h) by {
                assert(rest[t] == prev.1[t + 1]);
            }
            let curr = crate::iwp::pixel_of(prev.0, w, origin, px, py);
            assert(curr.value <= z[idx(w, px, py)]);
            lemma_visit_below(
                mask,
                tmask,
                prev.0,
                rest,
                w,
                h,
                origin,
                curr,
                px,
                py,
                neighbours(w, h, px, py, ConnTypes::Eight).len(),
                z,
            );
        }
    }
}

proof fn lemma_collect_nbrs_in_image(
    s: Seq<u8>,
    mask: Seq<u8>,
    w: nat,
    h: nat,
    x: int,
    y: int,
    k: nat,
    q: Seq<(u32, u32)>,
)
    requires
        w <= u32::MAX,
        h <= u32::MAX,
        k <= neighbours(w, h, x, y, ConnTypes::Eight).len(),
        queue_in_image(q, w, h),
    ensures
        queue_in_image(
            collect_nbrs(s, mask, w, h, x, y, neighbours(w, h, x, y, ConnTypes::Eight), k, q),
            w,
            h,
        ),
    decreases k,
{
    if k > 0 {
        let nb = neighbours(w, h, x, y, ConnTypes::Eight);
        lemma_collect_nbrs_in_image(s, mask, w, h, x, y, (k - 1) as nat, q);
        lemma_patch_neighbours_in_bounds(w, h, x, y, ConnTypes::Eight, 9);
        let prev = collect_nbrs(s, mask, w, h, x, y, nb, (k - 1) as nat, q);
        let q2 = prev.push(nb[k - 1]);
        assert forall|t: int| 0 <= t < q2.len() implies in_region(#[trigger] q2[t], (0, 0), w, h) by {
            if t < prev.len() {
                assert(q2[t] == prev[t]);
            }
        }
    }
}

proof fn lemma_seed_row_in_image(
    s0: Seq<u8>,
    mask: Seq<u8>,
    w: nat,
    h: nat,
    q: Seq<(u32, u32)>,
    y: nat,
    x: nat,
)
    requires
        w <= u32::MAX,
        h <= u32::MAX,
        queue_in_image(q, w, h),
    ensures
        queue_in_image(seed_row(s0, mask, w, h, q, y, x), w, h),
    decreases w - x,
{
    if x < w {
        lemma_seed_row_in_image(s0, mask, w, h, q, y, x + 1);
        let nb = neighbours(w, h, x as int, y as int, ConnTypes::Eight);
        lemma_collect_nbrs_in_image(
            anti_swept_at(s0, mask, w, h, x, y),
            mask,
            w,
            h,
            x as int,
            y as int,
            nb.len(),
            seed_row(s0, mask, w, h, q, y, x + 1),
        );
    }
}

proof fn lemma_seed_rows_in_image(s0: Seq<u8>, mask: Seq<u8>, w: nat, h: nat, y: nat)
    requires
        w <= u32::MAX,
        h <= u32::MAX,
    ensures
        queue_in_image(seed_rows(s0, mask, w, h, y), w, h),
    decreases h - y,
{
    if y < h {
        lemma_seed_rows_in_image(s0, mask, w, h, y + 1);
        lemma_seed_row_in_image(s0, mask, w, h, seed_rows(s0, mask, w, h, y + 1), y, 0);
    }
}

/// Reconstruction is bounded by every image `z` that lies above the marker
/// and in which no pixel could still rise from an 8-neighbour under the
/// mask: the result of the seeding pass and propagation lies below `z`.
pub proof fn lemma_reconstruction_least(marker: Seq<u8>, mask: Image8, z: Seq<u8>)
    requires
        mask.spec_width() <= u32::MAX,
        mask.spec_height() <= u32::MAX,
        marker.len() == mask.spec_width() * mask.spec_height(),
        no_lower(marker, z, mask.spec_width(), mask.spec_height()),
        closed_under(z, mask.cells(), mask.spec_width(), mask.spec_height()),
    ensures
        no_lower(
            crate::iwp::fifo_result(
                mask,
                seeded_marker(marker, mask.cells(), mask.spec_width(), mask.spec_height()),
                seed_seq(marker, mask.cells(), mask.spec_width(), mask.spec_height()),
                mask.spec_width(),
                mask.spec_height(),
                (0, 0),
            ),
            z,
            mask.spec_width(),
            mask.spec_height(),
        ),
{
    let w = mask.spec_width();
    let h = mask.spec_height();
    let seeded = seeded_marker(marker, mask.cells(), w, h);
    let seeds = seed_seq(marker, mask.cells(), w, h);
    lemma_seeded_below(marker, z, mask.cells(), w, h);
    lemma_seed_rows_in_image(marker, mask.cells(), w, h, 0);
    let n = choose|n: nat| #[trigger] crate::iwp::fifo_run(mask, seeded, seeds, w, h, (0, 0), n).1.len() == 0;
    lemma_fifo_run_below(mask, mask.cells(), seeded, seeds, w, h, (0, 0), n, z);
}


/// Closedness under the mask, and lying below `z`, carry over to the copies
/// of a tile inside the image.
proof fn lemma_tile_restrict(
    marker: Seq<u8>,
    maskc: Seq<u8>,
    z: Seq<u8>,
    w: nat,
    h: nat,
    rect: (nat, nat, nat, nat),
)
    requires
        rect.0 + rect.2 <= w,
        rect.1 + rect.3 <= h,
        no_lower(marker, z, w, h),
        closed_under(z, maskc, w, h),
    ensures
        no_lower(tile_cells(marker, w, rect), tile_cells(z, w, rect), rect.2, rect.3),
        closed_under(tile_cells(z, w, rect), tile_cells(maskc, w, rect), rect.2, rect.3),
        tile_cells(marker, w, rect).len() == rect.2 * rect.3,
{
    let tz = tile_cells(z, w, rect);
    let tm = tile_cells(maskc, w, rect);
    let tk = tile_cells(marker, w, rect);
    assert forall|i: int, j: int| 0 <= i < rect.2 && 0 <= j < rect.3 implies tk[idx(rect.2, i, j)]
        <= #[trigger] tz[idx(rect.2, i, j)] by {
        crate::iwp::lemma_tile_cells_at(z, w, rect, i, j);
        crate::iwp::lemma_tile_cells_at(marker, w, rect, i, j);
        assert(marker[idx(w, rect.0 + i, rect.1 + j)] <= z[idx(w, rect.0 + i, rect.1 + j)]);
    }
    assert forall|ax: int, ay: int, bx: int, by: int|
        0 <= ax < rect.2 && 0 <= ay < rect.3 && 0 <= bx < rect.2 && 0 <= by < rect.3 && adjacent(
            ax,
            ay,
            bx,
            by,
        ) implies #[trigger] tz[idx(rect.2, bx, by)] >= min_u8(
        #[trigger] tz[idx(rect.2, ax, ay)],
        tm[idx(rect.2, bx, by)],
    ) by {
        crate::iwp::lemma_tile_cells_at(z, w, rect, ax, ay);
        crate::iwp::lemma_tile_cells_at(z, w, rect, bx, by);
        crate::iwp::lemma_tile_cells_at(maskc, w, rect, bx, by);
        assert(adjacent(rect.0 + ax, rect.1 + ay, rect.0 + bx, rect.1 + by));
        assert(z[idx(w, rect.0 + bx, rect.1 + by)] >= min_u8(
            z[idx(w, rect.0 + ax, rect.1 + ay)],
            maskc[idx(w, rect.0 + bx, rect.1 + by)],
        ));
    }
    assert(tk.len() == rect.2 * rect.3);
}

/// Tiled reconstruction is bounded like sequential reconstruction: by every
/// image `z` that lies above the marker and in which no pixel could still
/// rise from an 8-neighbour under the mask.
pub proof fn lemma_tiled_reconstruction_least(marker: Seq<u8>, mask: Image8, z: Seq<u8>, n: nat)
    requires
        n >= 1,
        mask.spec_width() <= u32::MAX,
        mask.spec_height() <= u32::MAX,
        mask.cells().len() == mask.spec_width() * mask.spec_height(),
        marker.len() == mask.spec_width() * mask.spec_height(),
        z.len() == mask.spec_width() * mask.spec_height(),
        no_lower(marker, z, mask.spec_width(), mask.spec_height()),
        closed_under(z, mask.cells(), mask.spec_width(), mask.spec_height()),
    ensures
        no_lower(
            tiled_result(
                mask,
                seeded_tiles(marker, mask.cells(), mask.spec_width(), mask.spec_height(), n),
                tiled_seeds(marker, mask.cells(), mask.spec_width(), mask.spec_height(), n, n),
                mask.spec_width(),
                mask.spec_height(),
                n,
            ),
            z,
            mask.spec_width(),
            mask.spec_height(),
        ),
{
    let w = mask.spec_width();
    let h = mask.spec_height();
    let mc = mask.cells();
    let base = seeded_tiles(marker, mc, w, h, n);
    let seeds = tiled_seeds(marker, mc, w, h, n, n);
    // each tile, seeded or propagated, stays below the same tile of `z`
    assert forall|x: int, y: int| 0 <= x < w && 0 <= y < h implies base[idx(w, x, y)]
        <= #[trigger] z[idx(w, x, y)] by {
        lemma_idx_bounds(w, h, x, y);
        let k0 = crate::parallel_img::lemma_tiles_partition(w, h, n, x, y);
        let k = tile_of(w, h, n, x, y);
        let rect = tile_rect(w, h, n, k);
        crate::parallel_img::lemma_tile_inside(w, h, n, k);
        lemma_tile_restrict(marker, mc, z, w, h, rect);
        lemma_seeded_below(tile_cells(marker, w, rect), tile_cells(z, w, rect), tile_cells(mc, w, rect), rect.2, rect.3);
        let (x2, y2) = crate::raster::lemma_idx_onto(w, h, idx(w, x, y));
        if x2 != x || y2 != y {
            lemma_idx_injective(w, x, y, x2, y2);
        }
        crate::iwp::lemma_tile_cells_at(z, w, rect, x - rect.0, y - rect.1);
    }
    let full = crate::iwp::pasted_tiles(mask, base, seeds, w, h, n);
    assert forall|x: int, y: int| 0 <= x < w && 0 <= y < h implies full[idx(w, x, y)]
        <= #[trigger] z[idx(w, x, y)] by {
        lemma_idx_bounds(w, h, x, y);
        let k0 = crate::parallel_img::lemma_tiles_partition(w, h, n, x, y);
        let k = tile_of(w, h, n, x, y);
        let rect = tile_rect(w, h, n, k);
        let start = (rect.0 as u32, rect.1 as u32);
        crate::parallel_img::lemma_tile_inside(w, h, n, k);
        lemma_tile_restrict(base, mc, z, w, h, rect);
        let tb = tile_cells(base, w, rect);
        let tq = seeds.filter(crate::iwp::in_tile(rect));
        assert forall|t: int| 0 <= t < tq.len() implies in_region(#[trigger] tq[t], start, rect.2, rect.3) by {
            seeds.lemma_filter_pred(crate::iwp::in_tile(rect), t);
        }
        assert(mask_tile(mask, start, rect.2, rect.3, tile_cells(mc, w, rect))) by {
            assert forall|i: int, j: int| 0 <= i < rect.2 && 0 <= j < rect.3 implies #[trigger] tile_cells(
                mc,
                w,
                rect,
            )[idx(rect.2, i, j)] == mask.cells()[idx(mask.spec_width(), start.0 + i, start.1 + j)] by {
                crate::iwp::lemma_tile_cells_at(mc, w, rect, i, j);
            }
        }
        let m = choose|m: nat| #[trigger] crate::iwp::fifo_run(mask, tb, tq, rect.2, rect.3, start, m).1.len() == 0;
        lemma_fifo_run_below(mask, tile_cells(mc, w, rect), tb, tq, rect.2, rect.3, start, m, tile_cells(z, w, rect));
        let (x2, y2) = crate::raster::lemma_idx_onto(w, h, idx(w, x, y));
        if x2 != x || y2 != y {
            lemma_idx_injective(w, x, y, x2, y2);
        }
        crate::iwp::lemma_tile_cells_at(z, w, rect, x - rect.0, y - rect.1);
    }
    crate::iwp::lemma_tile_borders_in_image(w, h, n, n);
    let m = choose|m: nat| #[trigger] crate::iwp::fifo_run(mask, full, crate::iwp::tile_borders(w, h, n, n), w, h, (0, 0), m).1.len() == 0;
    lemma_fifo_run_below(mask, mc, full, crate::iwp::tile_borders(w, h, n, n), w, h, (0, 0), m, z);
}

} // verus!
