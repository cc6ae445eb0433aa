use crate::img::{
    get_bottom_border_pixels_coords, get_left_border_pixels_coords, get_pixel_neighbours,
    get_right_border_pixels_coords, get_upper_border_pixels_coords, is_pixel_in_section,
    lemma_patch_neighbours_in_bounds, neighbours, ConnTypes, PixelT,
};
use crate::parallel_img::{
    arrange, covers, get_full_img, in_rect, lemma_tiles_fit, section_is_tile, sections_fit, tile_rect,
    ParallelSection,
};
use crate::raster::{idx, lemma_idx_bounds, lemma_idx_injective, Raster};
use std::collections::VecDeque;
use vstd::prelude::*;

verus! {

/// The two client predicates of wavefront propagation, together with the
/// read-only payload they consult (`self`).
///
/// `potential` measures how far a value still is from where propagation can
/// take it. The three laws make the engine terminate and make what it leaves
/// behind a fixed point: an accepted update lowers the potential, settles the
/// pair it came from, and never revives a pair that was refused.
pub trait Propagation<P> {
    /// Whether the payload can answer for the pixel at `pos`.
    spec fn admits(&self, pos: (u32, u32)) -> bool;

    spec fn spec_condition(&self, curr: PixelT<P>, ngb: PixelT<P>) -> bool;

    spec fn spec_update(&self, curr: PixelT<P>, ngb: PixelT<P>) -> P;

    spec fn potential(&self, pos: (u32, u32), v: P) -> nat;

    proof fn lemma_update_progresses(&self, curr: PixelT<P>, ngb: PixelT<P>)
        requires
            self.spec_condition(curr, ngb),
        ensures
            self.potential(ngb.coords, self.spec_update(curr, ngb)) < self.potential(
                ngb.coords,
                ngb.value,
            ),
    ;

    proof fn lemma_update_settles(&self, curr: PixelT<P>, ngb: PixelT<P>)
        requires
            self.spec_condition(curr, ngb),
        ensures
            !self.spec_condition(
                curr,
                (PixelT { coords: ngb.coords, value: self.spec_update(curr, ngb) }),
            ),
    ;

    proof fn lemma_refusal_persists(&self, curr: PixelT<P>, other: PixelT<P>, ngb: PixelT<P>)
        requires
            !self.spec_condition(curr, ngb),
            self.spec_condition(other, ngb),
        ensures
            !self.spec_condition(
                curr,
                (PixelT { coords: ngb.coords, value: self.spec_update(other, ngb) }),
            ),
    ;

    /// Whether `ngb` should take a new value from `curr`.
    fn condition(&self, curr: &PixelT<P>, ngb: &PixelT<P>) -> (r: bool)
        requires
            self.admits(curr.coords),
            self.admits(ngb.coords),
        ensures
            r == self.spec_condition(*curr, *ngb),
    ;

    /// The new value of `ngb`, given `curr`.
    fn update(&self, curr: &PixelT<P>, ngb: &PixelT<P>) -> (r: P)
        requires
            self.admits(curr.coords),
            self.admits(ngb.coords),
        ensures
            r == self.spec_update(*curr, *ngb),
    ;
}

/// The pixel at `(x, y)` of a tile whose upper-left corner is `origin`, with
/// its coordinates in the whole image.
pub open spec fn pixel_of<P>(cells: Seq<P>, w: nat, origin: (u32, u32), x: int, y: int) -> PixelT<P> {
    PixelT { coords: ((origin.0 + x) as u32, (origin.1 + y) as u32), value: cells[idx(w, x, y)] }
}

/// No 8-neighbour of `(x, y)` would take a value from it.
pub open spec fn stable_at<P, R: Propagation<P>>(
    rules: R,
    cells: Seq<P>,
    w: nat,
    h: nat,
    origin: (u32, u32),
    x: int,
    y: int,
) -> bool {
    let nb = neighbours(w, h, x, y, ConnTypes::Eight);
    forall|k: int|
        0 <= k < nb.len() ==> !rules.spec_condition(
            pixel_of(cells, w, origin, x, y),
            pixel_of(cells, w, origin, (#[trigger] nb[k]).0 as int, nb[k].1 as int),
        )
}

/// `pos` lies in the `w` by `h` rectangle whose upper-left corner is `origin`.
pub open spec fn in_region(pos: (u32, u32), origin: (u32, u32), w: nat, h: nat) -> bool {
    origin.0 <= pos.0 < origin.0 + w && origin.1 <= pos.1 < origin.1 + h
}

/// The payload answers for every pixel of the region.
pub open spec fn admits_region<P, R: Propagation<P>>(
    rules: R,
    origin: (u32, u32),
    w: nat,
    h: nat,
) -> bool {
    forall|pos: (u32, u32)| in_region(pos, origin, w, h) ==> #[trigger] rules.admits(pos)
}

/// Position in the whole image of the `i`-th pixel of a tile `w` pixels wide.
pub open spec fn tile_pos(origin: (u32, u32), w: nat, i: int) -> (u32, u32) {
    ((origin.0 + i % (w as int)) as u32, (origin.1 + i / (w as int)) as u32)
}

/// Sum of the potentials of the first `n` pixels of a tile.
pub open spec fn potential_sum<P, R: Propagation<P>>(
    rules: R,
    cells: Seq<P>,
    w: nat,
    origin: (u32, u32),
    n: nat,
) -> nat
    decreases n,
{
    if n == 0 {
        0
    } else {
        let i = n - 1;
        potential_sum(rules, cells, w, origin, (n - 1) as nat) + rules.potential(
            tile_pos(origin, w, i),
            cells[i],
        )
    }
}

proof fn lemma_potential_sum_update<P, R: Propagation<P>>(
    rules: R,
    cells: Seq<P>,
    w: nat,
    origin: (u32, u32),
    n: nat,
    j: int,
    v: P,
)
    requires
        0 <= j < cells.len(),
        n <= cells.len(),
    ensures
        j < n ==> potential_sum(rules, cells.update(j, v), w, origin, n) + rules.potential(
            tile_pos(origin, w, j),
            cells[j],
        ) == potential_sum(rules, cells, w, origin, n) + rules.potential(
            tile_pos(origin, w, j),
            v,
        ),
        j >= n ==> potential_sum(rules, cells.update(j, v), w, origin, n) == potential_sum(
            rules,
            cells,
            w,
            origin,
            n,
        ),
    decreases n,
{
    if n > 0 {
        lemma_potential_sum_update(rules, cells, w, origin, (n - 1) as nat, j, v);
        let i = n - 1;
        if i != j {
            assert(cells.update(j, v)[i] == cells[i]);
        }
    }
}

/// Updating pixel `q` from `src` keeps every other stable pixel stable.
proof fn lemma_stable_after_update<P, R: Propagation<P>>(
    rules: R,
    cells: Seq<P>,
    w: nat,
    h: nat,
    origin: (u32, u32),
    src: PixelT<P>,
    qx: int,
    qy: int,
    rx: int,
    ry: int,
)
    requires
        cells.len() == w * h,
        w <= u32::MAX,
        h <= u32::MAX,
        0 <= qx < w,
        0 <= qy < h,
        0 <= rx < w,
        0 <= ry < h,
        !(qx == rx && qy == ry),
        rules.spec_condition(src, pixel_of(cells, w, origin, qx, qy)),
        stable_at(rules, cells, w, h, origin, rx, ry),
    ensures
        stable_at(
            rules,
            cells.update(
                idx(w, qx, qy),
                rules.spec_update(src, pixel_of(cells, w, origin, qx, qy)),
            ),
            w,
            h,
            origin,
            rx,
            ry,
        ),
{
    let v = rules.spec_update(src, pixel_of(cells, w, origin, qx, qy));
    let c2 = cells.update(idx(w, qx, qy), v);
    let nb = neighbours(w, h, rx, ry, ConnTypes::Eight);
    lemma_idx_bounds(w, h, qx, qy);
    lemma_idx_bounds(w, h, rx, ry);
    if idx(w, qx, qy) == idx(w, rx, ry) {
        lemma_idx_injective(w, qx, qy, rx, ry);
    }
    assert(pixel_of(c2, w, origin, rx, ry) == pixel_of(cells, w, origin, rx, ry));
    lemma_patch_neighbours_in_bounds(w, h, rx, ry, ConnTypes::Eight, 9);
    assert forall|k: int| 0 <= k < nb.len() implies !rules.spec_condition(
        pixel_of(c2, w, origin, rx, ry),
        pixel_of(c2, w, origin, (#[trigger] nb[k]).0 as int, nb[k].1 as int),
    ) by {
        let sx = nb[k].0 as int;
        let sy = nb[k].1 as int;
        lemma_idx_bounds(w, h, sx, sy);
        if sx == qx && sy == qy {
            rules.lemma_refusal_persists(
                pixel_of(cells, w, origin, rx, ry),
                src,
                pixel_of(cells, w, origin, qx, qy),
            );
        } else {
            if idx(w, qx, qy) == idx(w, sx, sy) {
                lemma_idx_injective(w, qx, qy, sx, sy);
            }
            assert(pixel_of(c2, w, origin, sx, sy) == pixel_of(cells, w, origin, sx, sy));
        }
    }
}


/// Position in the whole image of pixel `(x, y)` of a tile at `origin`.
pub open spec fn abs_pos(origin: (u32, u32), x: int, y: int) -> (u32, u32) {
    ((origin.0 + x) as u32, (origin.1 + y) as u32)
}

/// The pixel `(x, y)` had been seeded, was stable from the start, or changed.
pub open spec fn watched<P, R: Propagation<P>>(
    rules: R,
    before: Seq<P>,
    after: Seq<P>,
    w: nat,
    h: nat,
    origin: (u32, u32),
    seeds: Seq<(u32, u32)>,
    x: int,
    y: int,
) -> bool {
    ||| seeds.contains(abs_pos(origin, x, y))
    ||| stable_at(rules, before, w, h, origin, x, y)
    ||| after[idx(w, x, y)] != before[idx(w, x, y)]
}

/// A watched pixel is still queued or already stable.
pub open spec fn pending_or_stable<P, R: Propagation<P>>(
    rules: R,
    before: Seq<P>,
    cur: Seq<P>,
    w: nat,
    h: nat,
    origin: (u32, u32),
    seeds: Seq<(u32, u32)>,
    queue: Seq<(u32, u32)>,
    x: int,
    y: int,
) -> bool {
    watched(rules, before, cur, w, h, origin, seeds, x, y) ==> (queue.contains(
        abs_pos(origin, x, y),
    ) || stable_at(rules, cur, w, h, origin, x, y))
}

/// What propagation over a `w` by `h` tile at `origin` leaves behind, from
/// `before` to `after` with seed queue `seeds`: no pixel's potential grew, and
/// every pixel that was seeded, was stable from the start, or changed is
/// stable, so that no 8-neighbour would take a value from it.
pub open spec fn settled<P, R: Propagation<P>>(
    rules: R,
    before: Seq<P>,
    after: Seq<P>,
    w: nat,
    h: nat,
    origin: (u32, u32),
    seeds: Seq<(u32, u32)>,
) -> bool {
    &&& after.len() == before.len()
    &&& forall|x: int, y: int|
        0 <= x < w && 0 <= y < h ==> rules.potential(
            abs_pos(origin, x, y),
            #[trigger] after[idx(w, x, y)],
        ) <= rules.potential(abs_pos(origin, x, y), before[idx(w, x, y)])
    &&& forall|x: int, y: int|
        0 <= x < w && 0 <= y < h ==> (#[trigger] watched(
            rules,
            before,
            after,
            w,
            h,
            origin,
            seeds,
            x,
            y,
        ) ==> stable_at(rules, after, w, h, origin, x, y))
}

proof fn lemma_pixel_of_other<P>(
    cells: Seq<P>,
    w: nat,
    h: nat,
    origin: (u32, u32),
    qx: int,
    qy: int,
    sx: int,
    sy: int,
    v: P,
)
    requires
        cells.len() == w * h,
        0 <= qx < w,
        0 <= qy < h,
        0 <= sx < w,
        0 <= sy < h,
        !(qx == sx && qy == sy),
    ensures
        pixel_of(cells.update(idx(w, qx, qy), v), w, origin, sx, sy) == pixel_of(
            cells,
            w,
            origin,
            sx,
            sy,
        ),
{
    lemma_idx_bounds(w, h, qx, qy);
    lemma_idx_bounds(w, h, sx, sy);
    if idx(w, qx, qy) == idx(w, sx, sy) {
        lemma_idx_injective(w, qx, qy, sx, sy);
    }
}


proof fn lemma_tile_pos(origin: (u32, u32), w: nat, x: int, y: int)
    requires
        0 <= x < w,
        0 <= y,
    ensures
        tile_pos(origin, w, idx(w, x, y)) == abs_pos(origin, x, y),
{
    vstd::arithmetic::div_mod::lemma_fundamental_div_mod_converse(
        idx(w, x, y),
        w as int,
        y,
        x,
    );
}

/// The pixels and queue after `curr` has offered its value, in order, to the
/// first `k` tile positions of `nb`: each one that `rules` accepts takes the
/// updated value and joins the back of the queue.
pub open spec fn visit<P, R: Propagation<P>>(
    rules: R,
    cells: Seq<P>,
    queue: Seq<(u32, u32)>,
    w: nat,
    origin: (u32, u32),
    curr: PixelT<P>,
    nb: Seq<(u32, u32)>,
    k: nat,
) -> (Seq<P>, Seq<(u32, u32)>)
    decreases k,
{
    if k == 0 {
        (cells, queue)
    } else {
        let prev = visit(rules, cells, queue, w, origin, curr, nb, (k - 1) as nat);
        let q = nb[k - 1];
        let ngb = pixel_of(prev.0, w, origin, q.0 as int, q.1 as int);
        if rules.spec_condition(curr, ngb) {
            (
                prev.0.update(idx(w, q.0 as int, q.1 as int), rules.spec_update(curr, ngb)),
                prev.1.push(abs_pos(origin, q.0 as int, q.1 as int)),
            )
        } else {
            prev
        }
    }
}

/// One step of propagation over a `w` by `h` tile at `origin`: the front
/// position leaves the queue and offers its value to its 8-neighbours in the
/// tile, in the order of `neighbours`. An empty queue stays as it is.
pub open spec fn fifo_step<P, R: Propagation<P>>(
    rules: R,
    cells: Seq<P>,
    queue: Seq<(u32, u32)>,
    w: nat,
    h: nat,
    origin: (u32, u32),
) -> (Seq<P>, Seq<(u32, u32)>) {
    if queue.len() == 0 {
        (cells, queue)
    } else {
        let x = queue[0].0 - origin.0;
        let y = queue[0].1 - origin.1;
        let nb = neighbours(w, h, x, y, ConnTypes::Eight);
        visit(rules, cells, queue.drop_first(), w, origin, pixel_of(cells, w, origin, x, y), nb, nb.len())
    }
}

/// The pixels and queue after `n` steps.
pub open spec fn fifo_run<P, R: Propagation<P>>(
    rules: R,
    cells: Seq<P>,
    queue: Seq<(u32, u32)>,
    w: nat,
    h: nat,
    origin: (u32, u32),
    n: nat,
) -> (Seq<P>, Seq<(u32, u32)>)
    decreases n,
{
    if n == 0 {
        (cells, queue)
    } else {
        let prev = fifo_run(rules, cells, queue, w, h, origin, (n - 1) as nat);
        fifo_step(rules, prev.0, prev.1, w, h, origin)
    }
}

/// The pixels that first-in first-out propagation leaves once its queue is
/// empty.
pub open spec fn fifo_result<P, R: Propagation<P>>(
    rules: R,
    cells: Seq<P>,
    queue: Seq<(u32, u32)>,
    w: nat,
    h: nat,
    origin: (u32, u32),
) -> Seq<P> {
    let n = choose|n: nat| #[trigger] fifo_run(rules, cells, queue, w, h, origin, n).1.len() == 0;
    fifo_run(rules, cells, queue, w, h, origin, n).0
}

/// Once the queue is empty, further steps change nothing.
proof fn lemma_fifo_run_rests<P, R: Propagation<P>>(
    rules: R,
    cells: Seq<P>,
    queue: Seq<(u32, u32)>,
    w: nat,
    h: nat,
    origin: (u32, u32),
    n: nat,
    m: nat,
)
    requires
        n <= m,
        fifo_run(rules, cells, queue, w, h, origin, n).1.len() == 0,
    ensures
        fifo_run(rules, cells, queue, w, h, origin, m) == fifo_run(rules, cells, queue, w, h, origin, n),
    decreases m,
{
    if m > n {
        lemma_fifo_run_rests(rules, cells, queue, w, h, origin, n, (m - 1) as nat);
    }
}

/// A run that empties the queue after `n` steps ends at `fifo_result`.
proof fn lemma_fifo_result<P, R: Propagation<P>>(
    rules: R,
    cells: Seq<P>,
    queue: Seq<(u32, u32)>,
    w: nat,
    h: nat,
    origin: (u32, u32),
    n: nat,
)
    requires
        fifo_run(rules, cells, queue, w, h, origin, n).1.len() == 0,
    ensures
        fifo_result(rules, cells, queue, w, h, origin) == fifo_run(rules, cells, queue, w, h, origin, n).0,
{
    let m = choose|m: nat| #[trigger] fifo_run(rules, cells, queue, w, h, origin, m).1.len() == 0;
    if m <= n {
        lemma_fifo_run_rests(rules, cells, queue, w, h, origin, m, n);
    } else {
        lemma_fifo_run_rests(rules, cells, queue, w, h, origin, n, m);
    }
}

/// Wavefront propagation over a tile of an image: the tile's upper-left
/// corner lies at `origin` in the whole image, and the queue and the pixels
/// handed to `rules` carry positions in the whole image. Positions are taken
/// from the front of the queue; each 8-neighbour inside the tile that
/// `rules` accepts gets the updated value and joins the back of the queue.
/// Runs until the queue is empty.
pub fn propagate_region<P, I: Raster<P>, R: Propagation<P>>(
    img: &mut I,
    rules: &R,
    queue: &mut VecDeque<(u32, u32)>,
    origin: (u32, u32),
)
    requires
        origin.0 + old(img).spec_width() <= u32::MAX,
        origin.1 + old(img).spec_height() <= u32::MAX,
        admits_region(*rules, origin, old(img).spec_width(), old(img).spec_height()),
        forall|k: int|
            0 <= k < old(queue)@.len() ==> in_region(
                #[trigger] old(queue)@[k],
                origin,
                old(img).spec_width(),
                old(img).spec_height(),
            ),
    ensures
        final(queue)@.len() == 0,
        final(img).spec_width() == old(img).spec_width(),
        final(img).spec_height() == old(img).spec_height(),
        final(img).cells() == fifo_result(
            *rules,
            old(img).cells(),
            old(queue)@,
            old(img).spec_width(),
            old(img).spec_height(),
            origin,
        ),
        settled(
            *rules,
            old(img).cells(),
            final(img).cells(),
            old(img).spec_width(),
            old(img).spec_height(),
            origin,
            old(queue)@,
        ),
{
    let w = img.cols();
    let h = img.rows();
    let ghost before = img.cells();
    let ghost seeds = queue@;
    let ghost mut steps: nat = 0;
    proof {
        assert forall|x: int, y: int| 0 <= x < w && 0 <= y < h implies #[trigger] pending_or_stable(
            *rules,
            before,
            img.cells(),
            w as nat,
            h as nat,
            origin,
            seeds,
            queue@,
            x,
            y,
        ) by {}
    }
    while queue.len() != 0
        invariant
            img.spec_width() == w,
            img.spec_height() == h,
            img.cells().len() == w * h,
            before.len() == w * h,
            origin.0 + w <= u32::MAX,
            origin.1 + h <= u32::MAX,
            admits_region(*rules, origin, w as nat, h as nat),
            forall|k: int|
                0 <= k < queue@.len() ==> in_region(#[trigger] queue@[k], origin, w as nat, h as nat),
            (img.cells(), queue@) == fifo_run(*rules, before, seeds, w as nat, h as nat, origin, steps),
            forall|x: int, y: int|
                0 <= x < w && 0 <= y < h ==> rules.potential(
                    abs_pos(origin, x, y),
                    #[trigger] img.cells()[idx(w as nat, x, y)],
                ) <= rules.potential(abs_pos(origin, x, y), before[idx(w as nat, x, y)]),
            forall|x: int, y: int|
                0 <= x < w && 0 <= y < h ==> #[trigger] pending_or_stable(
                    *rules,
                    before,
                    img.cells(),
                    w as nat,
                    h as nat,
                    origin,
                    seeds,
                    queue@,
                    x,
                    y,
                ),
        decreases potential_sum(*rules, img.cells(), w as nat, origin, (w * h) as nat) * 9
            + queue@.len(),
    {
        let ghost q_before = queue@;
        let ghost c_before = img.cells();
        let ghost m0 = potential_sum(*rules, img.cells(), w as nat, origin, (w * h) as nat) * 9
            + queue@.len();
        let p = queue.pop_front().unwrap();
        let px = p.0 - origin.0;
        let py = p.1 - origin.1;
        proof {
            assert(in_region(q_before[0], origin, w as nat, h as nat));
            assert forall|x: int, y: int|
                0 <= x < w && 0 <= y < h && !(x == px && y == py) implies #[trigger] pending_or_stable(
                *rules,
                before,
                img.cells(),
                w as nat,
                h as nat,
                origin,
                seeds,
                queue@,
                x,
                y,
            ) by {
                assert(pending_or_stable(
                    *rules,
                    before,
                    img.cells(),
                    w as nat,
                    h as nat,
                    origin,
                    seeds,
                    q_before,
                    x,
                    y,
                ));
                if q_before.contains(abs_pos(origin, x, y)) {
                    let i = choose|i: int|
                        0 <= i < q_before.len() && q_before[i] == abs_pos(origin, x, y);
                    if i > 0 {
                        assert(queue@[i - 1] == q_before[i]);
                    }
                }
            }
        }
        let cv = img.pixel(px, py);
        let curr = PixelT { coords: p, value: cv };
        let nbs = get_pixel_neighbours(img, (px, py), ConnTypes::Eight);
        proof {
            lemma_patch_neighbours_in_bounds(
                w as nat,
                h as nat,
                px as int,
                py as int,
                ConnTypes::Eight,
                9,
            );
        }
        let ghost q_popped = queue@;
        let mut k: usize = 0;
        while k < nbs.len()
            invariant
                img.spec_width() == w,
                img.spec_height() == h,
                img.cells().len() == w * h,
                (img.cells(), queue@) == visit(
                    *rules,
                    c_before,
                    q_popped,
                    w as nat,
                    origin,
                    curr,
                    nbs@,
                    k as nat,
                ),
                curr == pixel_of(c_before, w as nat, origin, px as int, py as int),
                before.len() == w * h,
                origin.0 + w <= u32::MAX,
                origin.1 + h <= u32::MAX,
                admits_region(*rules, origin, w as nat, h as nat),
                0 <= px < w,
                0 <= py < h,
                p == abs_pos(origin, px as int, py as int),
                nbs@ == neighbours(w as nat, h as nat, px as int, py as int, ConnTypes::Eight),
                forall|j: int|
                    0 <= j < nbs@.len() ==> {
                        let q = #[trigger] nbs@[j];
                        &&& (q.0 as int) < w
                        &&& (q.1 as int) < h
                        &&& !(q.0 == px && q.1 == py)
                    },
                k <= nbs.len(),
                curr == pixel_of(img.cells(), w as nat, origin, px as int, py as int),
                forall|j: int|
                    0 <= j < k ==> !rules.spec_condition(
                        curr,
                        pixel_of(
                            img.cells(),
                            w as nat,
                            origin,
                            (#[trigger] nbs@[j]).0 as int,
                            nbs@[j].1 as int,
                        ),
                    ),
                forall|j: int|
                    0 <= j < queue@.len() ==> in_region(
                        #[trigger] queue@[j],
                        origin,
                        w as nat,
                        h as nat,
                    ),
                forall|x: int, y: int|
                    0 <= x < w && 0 <= y < h ==> rules.potential(
                        abs_pos(origin, x, y),
                        #[trigger] img.cells()[idx(w as nat, x, y)],
                    ) <= rules.potential(abs_pos(origin, x, y), before[idx(w as nat, x, y)]),
                forall|x: int, y: int|
                    0 <= x < w && 0 <= y < h && !(x == px && y == py) ==> #[trigger] pending_or_stable(
                        *rules,
                        before,
                        img.cells(),
                        w as nat,
                        h as nat,
                        origin,
                        seeds,
                        queue@,
                        x,
                        y,
                    ),
                potential_sum(*rules, img.cells(), w as nat, origin, (w * h) as nat) * 9
                    + queue@.len() < m0,
            decreases nbs.len() - k,
        {
            let (nx, ny) = nbs[k];
            let nv = img.pixel(nx, ny);
            let ngb = PixelT { coords: (nx + origin.0, ny + origin.1), value: nv };
            proof {
                assert(in_region(curr.coords, origin, w as nat, h as nat));
                assert(in_region(ngb.coords, origin, w as nat, h as nat));
            }
            if rules.condition(&curr, &ngb) {
                let v = rules.update(&curr, &ngb);
                let ghost c = img.cells();
                let ghost q_mid = queue@;
                let ghost qi = idx(w as nat, nx as int, ny as int);
                proof {
                    assert(ngb == pixel_of(c, w as nat, origin, nx as int, ny as int));
                    lemma_idx_bounds(w as nat, h as nat, nx as int, ny as int);
                    rules.lemma_update_progresses(curr, ngb);
                    rules.lemma_update_settles(curr, ngb);
                    lemma_tile_pos(origin, w as nat, nx as int, ny as int);
                    lemma_potential_sum_update(
                        *rules,
                        c,
                        w as nat,
                        origin,
                        (w * h) as nat,
                        qi,
                        v,
                    );
                }
                img.set_pixel(nx, ny, v);
                queue.push_back((nx + origin.0, ny + origin.1));
                proof {
                    let c2 = img.cells();
                    assert(c2 == c.update(qi, v));
                    lemma_pixel_of_other(
                        c,
                        w as nat,
                        h as nat,
                        origin,
                        nx as int,
                        ny as int,
                        px as int,
                        py as int,
                        v,
                    );
                    assert(pixel_of(c2, w as nat, origin, nx as int, ny as int) == (PixelT {
                        coords: ngb.coords,
                        value: v,
                    }));
                    assert forall|j: int| 0 <= j < k + 1 implies !rules.spec_condition(
                        curr,
                        pixel_of(
                            c2,
                            w as nat,
                            origin,
                            (#[trigger] nbs@[j]).0 as int,
                            nbs@[j].1 as int,
                        ),
                    ) by {
                        if j < k {
                            let s = nbs@[j];
                            if s.0 == nx && s.1 == ny {
                                assert(!rules.spec_condition(
                                    curr,
                                    pixel_of(c, w as nat, origin, s.0 as int, s.1 as int),
                                ));
                            } else {
                                lemma_pixel_of_other(
                                    c,
                                    w as nat,
                                    h as nat,
                                    origin,
                                    nx as int,
                                    ny as int,
                                    s.0 as int,
                                    s.1 as int,
                                    v,
                                );
                            }
                        }
                    }
                    assert forall|x: int, y: int| 0 <= x < w && 0 <= y < h implies rules.potential(
                        abs_pos(origin, x, y),
                        #[trigger] c2[idx(w as nat, x, y)],
                    ) <= rules.potential(abs_pos(origin, x, y), before[idx(w as nat, x, y)]) by {
                        assert(rules.potential(abs_pos(origin, x, y), c[idx(w as nat, x, y)])
                            <= rules.potential(abs_pos(origin, x, y), before[idx(w as nat, x, y)]));
                        if !(x == nx && y == ny) {
                            lemma_pixel_of_other(
                                c,
                                w as nat,
                                h as nat,
                                origin,
                                nx as int,
                                ny as int,
                                x,
                                y,
                                v,
                            );
                            assert(c2[idx(w as nat, x, y)] == c[idx(w as nat, x, y)]);
                        }
                    }
                    assert forall|x: int, y: int|
                        0 <= x < w && 0 <= y < h && !(x == px && y == py) implies #[trigger] pending_or_stable(
                        *rules,
                        before,
                        c2,
                        w as nat,
                        h as nat,
                        origin,
                        seeds,
                        queue@,
                        x,
                        y,
                    ) by {
                        if x == nx && y == ny {
                            assert(queue@[queue@.len() - 1] == abs_pos(origin, x, y));
                        } else {
                            lemma_pixel_of_other(
                                c,
                                w as nat,
                                h as nat,
                                origin,
                                nx as int,
                                ny as int,
                                x,
                                y,
                                v,
                            );
                            assert(c2[idx(w as nat, x, y)] == c[idx(w as nat, x, y)]);
                            assert(pending_or_stable(
                                *rules,
                                before,
                                c,
                                w as nat,
                                h as nat,
                                origin,
                                seeds,
                                q_mid,
                                x,
                                y,
                            ));
                            if q_mid.contains(abs_pos(origin, x, y)) {
                                let i = choose|i: int|
                                    0 <= i < q_mid.len() && q_mid[i] == abs_pos(origin, x, y);
                                assert(queue@[i] == q_mid[i]);
                            } else if watched(
                                *rules,
                                before,
                                c,
                                w as nat,
                                h as nat,
                                origin,
                                seeds,
                                x,
                                y,
                            ) {
                                lemma_stable_after_update(
                                    *rules,
                                    c,
                                    w as nat,
                                    h as nat,
                                    origin,
                                    curr,
                                    nx as int,
                                    ny as int,
                                    x,
                                    y,
                                );
                            }
                        }
                    }
                    assert forall|j: int| 0 <= j < queue@.len() implies in_region(
                        #[trigger] queue@[j],
                        origin,
                        w as nat,
                        h as nat,
                    ) by {
                        if j < q_mid.len() {
                            assert(queue@[j] == q_mid[j]);
                        }
                    }
                }
            }
            k = k + 1;
        }
        proof {
            assert(q_popped == q_before.drop_first());
            assert((img.cells(), queue@) == fifo_step(*rules, c_before, q_before, w as nat, h as nat, origin));
            steps = steps + 1;
            let c = img.cells();
            assert(stable_at(*rules, c, w as nat, h as nat, origin, px as int, py as int));
            assert forall|x: int, y: int| 0 <= x < w && 0 <= y < h implies #[trigger] pending_or_stable(
                *rules,
                before,
                c,
                w as nat,
                h as nat,
                origin,
                seeds,
                queue@,
                x,
                y,
            ) by {}
        }
    }
    proof {
        let c = img.cells();
        assert forall|x: int, y: int| 0 <= x < w && 0 <= y < h && #[trigger] watched(
            *rules,
            before,
            c,
            w as nat,
            h as nat,
            origin,
            seeds,
            x,
            y,
        ) implies stable_at(*rules, c, w as nat, h as nat, origin, x, y) by {
            assert(pending_or_stable(
                *rules,
                before,
                c,
                w as nat,
                h as nat,
                origin,
                seeds,
                queue@,
                x,
                y,
            ));
        }
        lemma_fifo_result(*rules, before, seeds, w as nat, h as nat, origin, steps);
    }
}

/// Queue positions all lie inside a `w` by `h` image.
pub open spec fn queue_in_image(queue: Seq<(u32, u32)>, w: nat, h: nat) -> bool {
    forall|k: int| 0 <= k < queue.len() ==> in_region(#[trigger] queue[k], (0, 0), w, h)
}

/// Sequential wavefront propagation over the whole image, from the seed
/// positions in `queue` until the queue is empty.
pub fn propagate<P, I: Raster<P>, R: Propagation<P>>(
    base_img: &mut I,
    rules: &R,
    queue: &mut VecDeque<(u32, u32)>,
)
    requires
        admits_region(*rules, (0, 0), old(base_img).spec_width(), old(base_img).spec_height()),
        queue_in_image(old(queue)@, old(base_img).spec_width(), old(base_img).spec_height()),
    ensures
        final(queue)@.len() == 0,
        final(base_img).spec_width() == old(base_img).spec_width(),
        final(base_img).spec_height() == old(base_img).spec_height(),
        final(base_img).cells() == fifo_result(
            *rules,
            old(base_img).cells(),
            old(queue)@,
            old(base_img).spec_width(),
            old(base_img).spec_height(),
            (0, 0),
        ),
        settled(
            *rules,
            old(base_img).cells(),
            final(base_img).cells(),
            old(base_img).spec_width(),
            old(base_img).spec_height(),
            (0, 0),
            old(queue)@,
        ),
{
    let _ = base_img.cols();
    let _ = base_img.rows();
    propagate_region(base_img, rules, queue, (0, 0));
}

/// Sequential wavefront propagation with the seeds in a `Vec`, taken in
/// order; the vector is left empty.
pub fn iwp<P, I: Raster<P>, R: Propagation<P>>(
    base_img: &mut I,
    rules: &R,
    queue: &mut Vec<(u32, u32)>,
)
    requires
        admits_region(*rules, (0, 0), old(base_img).spec_width(), old(base_img).spec_height()),
        queue_in_image(old(queue)@, old(base_img).spec_width(), old(base_img).spec_height()),
    ensures
        final(queue)@.len() == 0,
        final(base_img).spec_width() == old(base_img).spec_width(),
        final(base_img).spec_height() == old(base_img).spec_height(),
        final(base_img).cells() == fifo_result(
            *rules,
            old(base_img).cells(),
            old(queue)@,
            old(base_img).spec_width(),
            old(base_img).spec_height(),
            (0, 0),
        ),
        settled(
            *rules,
            old(base_img).cells(),
            final(base_img).cells(),
            old(base_img).spec_width(),
            old(base_img).spec_height(),
            (0, 0),
            old(queue)@,
        ),
{
    let mut fifo: VecDeque<(u32, u32)> = VecDeque::new();
    let mut i: usize = 0;
    while i < queue.len()
        invariant
            i <= queue@.len(),
            fifo@ == queue@.subrange(0, i as int),
        decreases queue@.len() - i,
    {
        fifo.push_back(queue[i]);
        i = i + 1;
    }
    assert(fifo@ == old(queue)@);
    propagate(base_img, rules, &mut fifo);
    queue.clear();
}


/// Holds of the positions that lie in `section`.
pub open spec fn in_section<I>(section: ParallelSection<I>) -> spec_fn((u32, u32)) -> bool {
    in_tile(section_rect(section))
}

/// The rectangle `(x0, y0, width, height)` of a section.
pub open spec fn section_rect<I>(sec: ParallelSection<I>) -> (nat, nat, nat, nat) {
    (sec.start.0 as nat, sec.start.1 as nat, sec.width as nat, sec.height as nat)
}

/// Holds of the positions that lie in `rect`.
pub open spec fn in_tile(rect: (nat, nat, nat, nat)) -> spec_fn((u32, u32)) -> bool {
    |p: (u32, u32)| in_rect(rect, p.0 as int, p.1 as int)
}

/// The seeds of `queue` that lie in `section`, in queue order.
pub fn section_queue<I>(queue: &VecDeque<(u32, u32)>, section: &ParallelSection<I>) -> (r:
    VecDeque<(u32, u32)>)
    ensures
        r@ == queue@.filter(in_section(*section)),
{
    let mut sec_queue: VecDeque<(u32, u32)> = VecDeque::new();
    let mut i: usize = 0;
    while i < queue.len()
        invariant
            i <= queue@.len(),
            sec_queue@ == queue@.subrange(0, i as int).filter(in_section(*section)),
        decreases queue@.len() - i,
    {
        let p = queue[i];
        let inside = is_pixel_in_section(p, section);
        proof {
            let pre = queue@.subrange(0, i as int + 1);
            assert(pre.drop_last() == queue@.subrange(0, i as int));
            assert(pre.last() == p);
            assert(in_section(*section)(p) == inside);
            reveal(Seq::filter);
        }
        if inside {
            sec_queue.push_back(p);
        }
        i = i + 1;
    }
    assert(queue@.subrange(0, queue@.len() as int) == queue@);
    sec_queue
}

/// Propagation inside one tile, from the seeds in `queue` (positions in the
/// whole image), without crossing the tile's edges.
pub fn propagate_section<P, I: Raster<P>, R: Propagation<P>>(
    section: &mut ParallelSection<I>,
    rules: &R,
    queue: &mut VecDeque<(u32, u32)>,
)
    requires
        old(section).start.0 + old(section).slice.spec_width() <= u32::MAX,
        old(section).start.1 + old(section).slice.spec_height() <= u32::MAX,
        admits_region(
            *rules,
            old(section).start,
            old(section).slice.spec_width(),
            old(section).slice.spec_height(),
        ),
        forall|k: int|
            0 <= k < old(queue)@.len() ==> in_region(
                #[trigger] old(queue)@[k],
                old(section).start,
                old(section).slice.spec_width(),
                old(section).slice.spec_height(),
            ),
    ensures
        final(queue)@.len() == 0,
        final(section).start == old(section).start,
        final(section).width == old(section).width,
        final(section).height == old(section).height,
        final(section).slice.spec_width() == old(section).slice.spec_width(),
        final(section).slice.spec_height() == old(section).slice.spec_height(),
        final(section).slice.cells() == fifo_result(
            *rules,
            old(section).slice.cells(),
            old(queue)@,
            old(section).slice.spec_width(),
            old(section).slice.spec_height(),
            old(section).start,
        ),
        settled(
            *rules,
            old(section).slice.cells(),
            final(section).slice.cells(),
            old(section).slice.spec_width(),
            old(section).slice.spec_height(),
            old(section).start,
            old(queue)@,
        ),
{
    let origin = section.start;
    propagate_region(&mut section.slice, rules, queue, origin);
}


/// Positions on the sides of a tile that face another tile rather than the
/// edge of a `w` by `h` image, in the whole image: the left column, the top
/// row, the bottom row, then the right column, each in ascending order.
pub open spec fn active_borders<I>(sec: ParallelSection<I>, w: nat, h: nat) -> Seq<(u32, u32)> {
    rect_borders(section_rect(sec), w, h)
}

/// The active border positions of a tile with rectangle `rect`, as
/// `active_borders` lists them.
pub open spec fn rect_borders(rect: (nat, nat, nat, nat), w: nat, h: nat) -> Seq<(u32, u32)> {
    let sx = rect.0 as int;
    let sy = rect.1 as int;
    let tw = rect.2 as int;
    let th = rect.3 as int;
    if tw == 0 || th == 0 {
        Seq::empty()
    } else {
        (if sx != 0 {
            Seq::new(th as nat, |j: int| (sx as u32, (sy + j) as u32))
        } else {
            Seq::empty()
        }) + (if sy != 0 {
            Seq::new(tw as nat, |i: int| ((sx + i) as u32, sy as u32))
        } else {
            Seq::empty()
        }) + (if sy + th != h {
            Seq::new(tw as nat, |i: int| ((sx + i) as u32, (sy + th - 1) as u32))
        } else {
            Seq::empty()
        }) + (if sx + tw != w {
            Seq::new(th as nat, |j: int| ((sx + tw - 1) as u32, (sy + j) as u32))
        } else {
            Seq::empty()
        })
    }
}

/// Moves a position by `start`.
pub open spec fn shift_by(start: (u32, u32)) -> spec_fn((u32, u32)) -> (u32, u32) {
    |c: (u32, u32)| ((start.0 + c.0) as u32, (start.1 + c.1) as u32)
}

/// Appends `coords`, moved by `start`, to the back of `queue`.
fn push_shifted(queue: &mut VecDeque<(u32, u32)>, coords: &Vec<(u32, u32)>, start: (u32, u32))
    requires
        forall|k: int|
            0 <= k < coords@.len() ==> start.0 + (#[trigger] coords@[k]).0 <= u32::MAX && start.1
                + coords@[k].1 <= u32::MAX,
    ensures
        final(queue)@ == old(queue)@ + coords@.map_values(shift_by(start)),
{
    let ghost q0 = queue@;
    let mut i: usize = 0;
    while i < coords.len()
        invariant
            i <= coords@.len(),
            forall|k: int|
                0 <= k < coords@.len() ==> start.0 + (#[trigger] coords@[k]).0 <= u32::MAX
                    && start.1 + coords@[k].1 <= u32::MAX,
            queue@ == q0 + coords@.subrange(0, i as int).map_values(shift_by(start)),
        decreases coords@.len() - i,
    {
        let c = coords[i];
        let ghost qb = queue@;
        queue.push_back((start.0 + c.0, start.1 + c.1));
        proof {
            assert(shift_by(start)(c) == ((start.0 + c.0) as u32, (start.1 + c.1) as u32));
            assert(coords@.subrange(0, i as int + 1).map_values(shift_by(start))
                =~= coords@.subrange(0, i as int).map_values(shift_by(start)).push(shift_by(start)(c)));
            assert(queue@ =~= q0 + coords@.subrange(0, i as int + 1).map_values(shift_by(start)));
        }
        i = i + 1;
    }
    assert(coords@.subrange(0, coords@.len() as int) == coords@);
}

/// The positions on the sides of `section` that face another tile of
/// `base_img`, in the whole image.
pub fn get_section_active_borders<P, I: Raster<P>>(
    base_img: &I,
    section: &ParallelSection<I>,
) -> (r: VecDeque<(u32, u32)>)
    requires
        section.start.0 + section.width <= base_img.spec_width(),
        section.start.1 + section.height <= base_img.spec_height(),
        section.slice.spec_width() == section.width,
        section.slice.spec_height() == section.height,
    ensures
        r@ == active_borders(*section, base_img.spec_width(), base_img.spec_height()),
{
    let w = base_img.cols();
    let h = base_img.rows();
    let x = section.start.0;
    let y = section.start.1;
    let mut border_pixels: VecDeque<(u32, u32)> = VecDeque::new();
    if section.width == 0 || section.height == 0 {
        return border_pixels;
    }
    let ghost f = shift_by(section.start);
    let ghost sx = x as int;
    let ghost sy = y as int;
    let ghost tw = section.width as int;
    let ghost th = section.height as int;
    if x != 0 {
        let left = get_left_border_pixels_coords(&section.slice);
        push_shifted(&mut border_pixels, &left, section.start);
        assert(left@.map_values(f) =~= Seq::new(th as nat, |j: int| (sx as u32, (sy + j) as u32)));
    }
    let ghost q1 = border_pixels@;
    if y != 0 {
        let upper = get_upper_border_pixels_coords(&section.slice);
        push_shifted(&mut border_pixels, &upper, section.start);
        assert(upper@.map_values(f) =~= Seq::new(tw as nat, |i: int| ((sx + i) as u32, sy as u32)));
    }
    let ghost q2 = border_pixels@;
    if y + section.height != h {
        let bottom = get_bottom_border_pixels_coords(&section.slice);
        push_shifted(&mut border_pixels, &bottom, section.start);
        assert(bottom@.map_values(f) =~= Seq::new(
            tw as nat,
            |i: int| ((sx + i) as u32, (sy + th - 1) as u32),
        ));
    }
    let ghost q3 = border_pixels@;
    if x + section.width != w {
        let right = get_right_border_pixels_coords(&section.slice);
        push_shifted(&mut border_pixels, &right, section.start);
        assert(right@.map_values(f) =~= Seq::new(
            th as nat,
            |j: int| ((sx + tw - 1) as u32, (sy + j) as u32),
        ));
    }
    border_pixels
}


/// The pixels of `rect` in an image `w` pixels wide, row after row.
pub open spec fn tile_cells<P>(cells: Seq<P>, w: nat, rect: (nat, nat, nat, nat)) -> Seq<P> {
    Seq::new(
        rect.2 * rect.3,
        |t: int| cells[idx(w, rect.0 + t % (rect.2 as int), rect.1 + t / (rect.2 as int))],
    )
}

/// Tile `k` of the cut of a `w` by `h` image into `n` tiles, after
/// propagation inside it from the seeds of `queue` that fall in it.
pub open spec fn tile_result<P, R: Propagation<P>>(
    rules: R,
    cells: Seq<P>,
    queue: Seq<(u32, u32)>,
    w: nat,
    h: nat,
    n: nat,
    k: nat,
) -> Seq<P> {
    let rect = tile_rect(w, h, n, k);
    fifo_result(
        rules,
        tile_cells(cells, w, rect),
        queue.filter(in_tile(rect)),
        rect.2,
        rect.3,
        (rect.0 as u32, rect.1 as u32),
    )
}

/// The tile that holds `(x, y)`.
pub open spec fn tile_of(w: nat, h: nat, n: nat, x: int, y: int) -> nat {
    choose|k: nat| k < n && #[trigger] in_rect(tile_rect(w, h, n, k), x, y)
}

/// The tiles after propagation, pasted back into a `w` by `h` image.
pub open spec fn pasted_tiles<P, R: Propagation<P>>(
    rules: R,
    cells: Seq<P>,
    queue: Seq<(u32, u32)>,
    w: nat,
    h: nat,
    n: nat,
) -> Seq<P> {
    Seq::new(
        w * h,
        |t: int|
            {
                let x = t % (w as int);
                let y = t / (w as int);
                let k = tile_of(w, h, n, x, y);
                let rect = tile_rect(w, h, n, k);
                tile_result(rules, cells, queue, w, h, n, k)[idx(rect.2, x - rect.0, y - rect.1)]
            },
    )
}

/// The active border positions of the first `m` tiles, tile after tile.
pub open spec fn tile_borders(w: nat, h: nat, n: nat, m: nat) -> Seq<(u32, u32)>
    decreases m,
{
    if m == 0 {
        Seq::empty()
    } else {
        tile_borders(w, h, n, (m - 1) as nat) + rect_borders(tile_rect(w, h, n, (m - 1) as nat), w, h)
    }
}

/// What tiled propagation over `n` tiles leaves: propagation from the
/// active border positions of all tiles over the pasted tile results.
pub open spec fn tiled_result<P, R: Propagation<P>>(
    rules: R,
    cells: Seq<P>,
    queue: Seq<(u32, u32)>,
    w: nat,
    h: nat,
    n: nat,
) -> Seq<P> {
    fifo_result(rules, pasted_tiles(rules, cells, queue, w, h, n), tile_borders(w, h, n, n), w, h, (0, 0))
}

/// A slice that holds the pixels of `rect`, row after row, is `tile_cells`.
pub proof fn lemma_tile_cells<P>(slice: Seq<P>, cells: Seq<P>, w: nat, rect: (nat, nat, nat, nat))
    requires
        slice.len() == rect.2 * rect.3,
        forall|i: int, j: int|
            0 <= i < rect.2 && 0 <= j < rect.3 ==> #[trigger] slice[idx(rect.2, i, j)] == cells[idx(
                w,
                rect.0 + i,
                rect.1 + j,
            )],
    ensures
        slice == tile_cells(cells, w, rect),
{
    let tc = tile_cells(cells, w, rect);
    assert forall|t: int| 0 <= t < slice.len() implies slice[t] == tc[t] by {
        let tw = rect.2 as int;
        if tw == 0 {
            assert(rect.2 * rect.3 == 0) by (nonlinear_arith)
                requires
                    rect.2 == 0,
            ;
        }
        vstd::arithmetic::div_mod::lemma_fundamental_div_mod(t, tw);
        vstd::arithmetic::div_mod::lemma_div_pos_is_pos(t, tw);
        let i = t % tw;
        let j = t / tw;
        assert(j * tw == tw * j) by (nonlinear_arith);
        if j >= rect.3 {
            assert(rect.3 * tw <= j * tw) by (nonlinear_arith)
                requires
                    j >= rect.3,
                    tw >= 0,
            ;
            assert(rect.2 * rect.3 == rect.3 * tw) by (nonlinear_arith)
                requires
                    tw == rect.2,
            ;
        }
        assert(idx(rect.2, i, j) == t);
    }
    assert(slice =~= tc);
}

/// Tiled wavefront propagation: `base_img` is cut into `num_threads` tiles
/// (see `arrange`); each tile runs propagation on its own copy from the seeds
/// that fall in it, without crossing its edges; the tiles are pasted back
/// into a fresh image, and a last sequential pass, seeded with every pixel on
/// a side where two tiles meet, repairs what the tile edges held back. The
/// outcome meets the same guarantee as sequential propagation.
pub fn propagate_parallel<P, I: Raster<P>, R: Propagation<P>>(
    base_img: &I,
    rules: &R,
    queue: &VecDeque<(u32, u32)>,
    num_threads: u32,
) -> (r: I)
    requires
        num_threads >= 1,
        admits_region(*rules, (0, 0), base_img.spec_width(), base_img.spec_height()),
        queue_in_image(queue@, base_img.spec_width(), base_img.spec_height()),
    ensures
        r.spec_width() == base_img.spec_width(),
        r.spec_height() == base_img.spec_height(),
        r.cells() == tiled_result(
            *rules,
            base_img.cells(),
            queue@,
            base_img.spec_width(),
            base_img.spec_height(),
            num_threads as nat,
        ),
        settled(
            *rules,
            base_img.cells(),
            r.cells(),
            base_img.spec_width(),
            base_img.spec_height(),
            (0, 0),
            queue@,
        ),
{
    let w = base_img.cols();
    let h = base_img.rows();
    let ghost wn = w as nat;
    let ghost hn = h as nat;
    let ghost n = num_threads as nat;
    let mut sections = arrange(base_img, num_threads);
    let ghost orig = sections@;
    proof {
        lemma_tiles_fit(*base_img, n, sections@);
        assert forall|j: int| 0 <= j < sections@.len() implies crate::parallel_img::section_at_tile(
            #[trigger] sections@[j],
            wn,
            hn,
            n,
            j as nat,
        ) by {
            assert(section_is_tile(sections@[j], *base_img, n, j as nat));
        }
    }
    let mut k: usize = 0;
    while k < sections.len()
        invariant
            w == base_img.spec_width(),
            h == base_img.spec_height(),
            wn == w,
            hn == h,
            n == num_threads,
            sections@.len() == n,
            orig.len() == n,
            sections_fit(sections@, wn, hn),
            admits_region(*rules, (0, 0), wn, hn),
            k <= sections@.len(),
            forall|j: int|
                0 <= j < orig.len() ==> section_is_tile(#[trigger] orig[j], *base_img, n, j as nat),
            forall|j: int|
                0 <= j < sections@.len() ==> crate::parallel_img::section_at_tile(
                    #[trigger] sections@[j],
                    wn,
                    hn,
                    n,
                    j as nat,
                ),
            forall|j: int|
                0 <= j < sections@.len() ==> (#[trigger] sections@[j]).start == orig[j].start
                    && sections@[j].width == orig[j].width && sections@[j].height
                    == orig[j].height,
            forall|j: int| k <= j < sections@.len() ==> #[trigger] sections@[j] == orig[j],
            forall|j: int|
                0 <= j < k ==> settled(
                    *rules,
                    orig[j].slice.cells(),
                    (#[trigger] sections@[j]).slice.cells(),
                    orig[j].width as nat,
                    orig[j].height as nat,
                    orig[j].start,
                    queue@.filter(in_section(orig[j])),
                ),
            forall|j: int|
                0 <= j < k ==> (#[trigger] sections@[j]).slice.cells() == tile_result(
                    *rules,
                    base_img.cells(),
                    queue@,
                    wn,
                    hn,
                    n,
                    j as nat,
                ),
        decreases sections@.len() - k,
    {
        let mut sec_queue = section_queue(queue, &sections[k]);
        let ghost sec = sections@[k as int];
        proof {
            assert(sec == orig[k as int]);
            assert(sec.start.0 + sec.width <= w);
            assert forall|pos: (u32, u32)|
                in_region(pos, sec.start, sec.slice.spec_width(), sec.slice.spec_height()) implies #[trigger] rules.admits(pos) by {
                assert(in_region(pos, (0, 0), w as nat, h as nat));
            }
            assert forall|j: int| 0 <= j < sec_queue@.len() implies in_region(
                #[trigger] sec_queue@[j],
                sec.start,
                sec.slice.spec_width(),
                sec.slice.spec_height(),
            ) by {
                queue@.lemma_filter_pred(in_section(sec), j);
            }
        }
        let ghost sq = sec_queue@;
        proof {
            let rect = tile_rect(wn, hn, n, k as nat);
            assert(section_is_tile(orig[k as int], *base_img, n, k as nat));
            assert(section_rect(sec) == rect);
            lemma_tile_cells(sec.slice.cells(), base_img.cells(), wn, rect);
            assert(sq == queue@.filter(in_tile(rect)));
            assert(sec.start == (rect.0 as u32, rect.1 as u32));
        }
        propagate_section(&mut sections[k], rules, &mut sec_queue);
        proof {
            assert(sections@[k as int].slice.cells() == tile_result(
                *rules,
                base_img.cells(),
                queue@,
                wn,
                hn,
                n,
                k as nat,
            ));
            assert forall|j: int| 0 <= j < sections@.len() implies {
                let s = #[trigger] sections@[j];
                &&& s.start.0 + s.width <= w
                &&& s.start.1 + s.height <= h
                &&& s.slice.spec_width() == s.width
                &&& s.slice.spec_height() == s.height
            } by {}
            assert forall|j: int| 0 <= j < sections@.len() implies crate::parallel_img::section_at_tile(
                #[trigger] sections@[j],
                wn,
                hn,
                n,
                j as nat,
            ) by {
                assert(crate::parallel_img::section_at_tile(orig[j], wn, hn, n, j as nat)) by {
                    assert(section_is_tile(orig[j], *base_img, n, j as nat));
                }
            }
        }
        k = k + 1;
    }
    let mut border_queue: VecDeque<(u32, u32)> = VecDeque::new();
    let mut k: usize = 0;
    while k < sections.len()
        invariant
            w == base_img.spec_width(),
            h == base_img.spec_height(),
            wn == w,
            hn == h,
            sections_fit(sections@, w as nat, h as nat),
            k <= sections@.len(),
            queue_in_image(border_queue@, w as nat, h as nat),
            n == num_threads,
            sections@.len() == n,
            border_queue@ == tile_borders(wn, hn, n, k as nat),
            forall|j: int|
                0 <= j < sections@.len() ==> crate::parallel_img::section_at_tile(
                    #[trigger] sections@[j],
                    wn,
                    hn,
                    n,
                    j as nat,
                ),
            forall|j: int|
                0 <= j < sections@.len() ==> (#[trigger] sections@[j]).slice.cells() == tile_result(
                    *rules,
                    base_img.cells(),
                    queue@,
                    wn,
                    hn,
                    n,
                    j as nat,
                ),
            forall|j: int, t: int|
                0 <= j < k && 0 <= t < active_borders(sections@[j], wn, hn).len()
                    ==> border_queue@.contains(#[trigger] active_borders(sections@[j], wn, hn)[t]),
        decreases sections@.len() - k,
    {
        let mut borders = get_section_active_borders(base_img, &sections[k]);
        let ghost b = borders@;
        let ghost q0 = border_queue@;
        proof {
            assert(sections@[k as int].start.0 + sections@[k as int].width <= w);
            assert forall|j: int| 0 <= j < b.len() implies in_region(
                #[trigger] b[j],
                (0, 0),
                w as nat,
                h as nat,
            ) by {
                lemma_active_borders_in_image(sections@[k as int], w as nat, h as nat, j);
            }
        }
        border_queue.append(&mut borders);
        proof {
            assert(section_rect(sections@[k as int]) == tile_rect(wn, hn, n, k as nat));
            assert(border_queue@ == tile_borders(wn, hn, n, (k + 1) as nat));
            assert forall|j: int| 0 <= j < border_queue@.len() implies in_region(
                #[trigger] border_queue@[j],
                (0, 0),
                w as nat,
                h as nat,
            ) by {
                if j < q0.len() {
                    assert(border_queue@[j] == q0[j]);
                } else {
                    assert(border_queue@[j] == b[j - q0.len()]);
                }
            }
            assert forall|j: int, t: int|
                0 <= j < k + 1 && 0 <= t < active_borders(sections@[j], wn, hn).len() implies border_queue@.contains(
                #[trigger] active_borders(sections@[j], wn, hn)[t],
            ) by {
                let p = active_borders(sections@[j], wn, hn)[t];
                if j < k {
                    assert(q0.contains(p));
                    let i = choose|i: int| 0 <= i < q0.len() && q0[i] == p;
                    assert(border_queue@[i] == q0[i]);
                } else {
                    assert(border_queue@[q0.len() + t] == b[t]);
                }
            }
        }
        k = k + 1;
    }
    let ghost borders_all = border_queue@;
    let mut full_img = get_full_img(w, h, &sections);
    let ghost full = full_img.cells();
    proof {
        let pt = pasted_tiles(*rules, base_img.cells(), queue@, wn, hn, n);
        assert forall|t: int| 0 <= t < full.len() implies full[t] == pt[t] by {
            let wi = wn as int;
            if wi == 0 {
                assert(wn * hn == 0) by (nonlinear_arith)
                    requires
                        wn == 0,
                ;
            }
            vstd::arithmetic::div_mod::lemma_fundamental_div_mod(t, wi);
            vstd::arithmetic::div_mod::lemma_div_pos_is_pos(t, wi);
            let x = t % wi;
            let y = t / wi;
            assert(y * wi == wi * y) by (nonlinear_arith);
            if y >= hn {
                assert(hn * wi <= y * wi) by (nonlinear_arith)
                    requires
                        y >= hn,
                        wi >= 0,
                ;
                assert(wn * hn == hn * wi) by (nonlinear_arith)
                    requires
                        wi == wn,
                ;
            }
            assert(idx(wn, x, y) == t);
            let kk = crate::parallel_img::lemma_pasted_tile(wn, hn, n, sections@, x, y);
            assert(crate::parallel_img::section_at_tile(sections@[kk as int], wn, hn, n, kk));
            assert(in_rect(tile_rect(wn, hn, n, kk), x, y));
            let k2 = tile_of(wn, hn, n, x, y);
            assert(crate::parallel_img::section_at_tile(sections@[k2 as int], wn, hn, n, k2));
            assert(covers(sections@[k2 as int], x, y));
            assert(k2 == kk);
            assert(sections@[kk as int].slice.cells() == tile_result(
                *rules,
                base_img.cells(),
                queue@,
                wn,
                hn,
                n,
                kk,
            ));
        }
        assert(full =~= pt);
    }
    propagate(&mut full_img, rules, &mut border_queue);
    proof {
        let result = full_img.cells();
        let base = base_img.cells();
        assert forall|x: int, y: int| 0 <= x < wn && 0 <= y < hn implies rules.potential(
            abs_pos((0, 0), x, y),
            #[trigger] result[idx(wn, x, y)],
        ) <= rules.potential(abs_pos((0, 0), x, y), base[idx(wn, x, y)]) && (watched(
            *rules,
            base,
            result,
            wn,
            hn,
            (0, 0),
            queue@,
            x,
            y,
        ) ==> stable_at(*rules, result, wn, hn, (0, 0), x, y)) by {
            let kk = crate::parallel_img::lemma_pasted_tile(wn, hn, n, sections@, x, y);
            crate::parallel_img::lemma_tile_in_pasted(wn, hn, n, sections@, full, kk as int);
            let before = orig[kk as int];
            let after = sections@[kk as int];
            assert(section_is_tile(before, *base_img, n, kk));
            assert forall|t: int| 0 <= t < active_borders(after, wn, hn).len() implies borders_all.contains(
                #[trigger] active_borders(after, wn, hn)[t],
            ) by {
                assert(borders_all.contains(active_borders(sections@[kk as int], wn, hn)[t]));
            }
            lemma_parallel_pixel(
                *rules,
                before,
                after,
                base,
                full,
                result,
                wn,
                hn,
                queue@,
                borders_all,
                x - before.start.0,
                y - before.start.1,
            );
        }
        assert forall|x: int, y: int| 0 <= x < wn && 0 <= y < hn implies rules.potential(
            abs_pos((0, 0), x, y),
            #[trigger] result[idx(wn, x, y)],
        ) <= rules.potential(abs_pos((0, 0), x, y), base[idx(wn, x, y)]) by {}
        assert forall|x: int, y: int|
            0 <= x < wn && 0 <= y < hn && #[trigger] watched(
                *rules,
                base,
                result,
                wn,
                hn,
                (0, 0),
                queue@,
                x,
                y,
            ) implies stable_at(*rules, result, wn, hn, (0, 0), x, y) by {
            assert(rules.potential(abs_pos((0, 0), x, y), result[idx(wn, x, y)])
                <= rules.potential(abs_pos((0, 0), x, y), base[idx(wn, x, y)]));
        }
    }
    full_img
}

/// Every active border position lies inside the image.
proof fn lemma_active_borders_in_image<I>(sec: ParallelSection<I>, w: nat, h: nat, j: int)
    requires
        sec.start.0 + sec.width <= w,
        sec.start.1 + sec.height <= h,
        0 <= j < active_borders(sec, w, h).len(),
    ensures
        in_region(active_borders(sec, w, h)[j], (0, 0), w, h),
{
    let sx = sec.start.0 as int;
    let sy = sec.start.1 as int;
    let tw = sec.width as int;
    let th = sec.height as int;
    if tw != 0 && th != 0 {
        let a = if sx != 0 {
            Seq::new(th as nat, |j: int| (sx as u32, (sy + j) as u32))
        } else {
            Seq::empty()
        };
        let b = if sy != 0 {
            Seq::new(tw as nat, |i: int| ((sx + i) as u32, sy as u32))
        } else {
            Seq::empty()
        };
        let c = if sy + th != h {
            Seq::new(tw as nat, |i: int| ((sx + i) as u32, (sy + th - 1) as u32))
        } else {
            Seq::empty()
        };
        let d = if sx + tw != w {
            Seq::new(th as nat, |j: int| ((sx + tw - 1) as u32, (sy + j) as u32))
        } else {
            Seq::empty()
        };
        let all = a + b + c + d;
        assert(active_borders(sec, w, h) == all);
        if j < a.len() {
            assert(all[j] == a[j]);
        } else if j < a.len() + b.len() {
            assert(all[j] == b[j - a.len()]);
        } else if j < a.len() + b.len() + c.len() {
            assert(all[j] == c[j - a.len() - b.len()]);
        } else {
            assert(all[j] == d[j - a.len() - b.len() - c.len()]);
        }
    }
}


/// Pixel `(lx, ly)` of the tile lies on none of the tile's sides that face
/// another tile of a `w` by `h` image.
pub open spec fn inner_pixel<I>(sec: ParallelSection<I>, w: nat, h: nat, lx: int, ly: int) -> bool {
    &&& (sec.start.0 == 0 || lx >= 1)
    &&& (sec.start.1 == 0 || ly >= 1)
    &&& (sec.start.1 + sec.height == h || ly + 2 <= sec.height)
    &&& (sec.start.0 + sec.width == w || lx + 2 <= sec.width)
}

/// Inside a tile, away from the sides that face other tiles, a pixel has the
/// same neighbours in the tile as in the whole image.
proof fn lemma_patch_local_global<I>(
    sec: ParallelSection<I>,
    w: nat,
    h: nat,
    lx: int,
    ly: int,
    k: nat,
)
    requires
        k <= 9,
        w <= u32::MAX,
        h <= u32::MAX,
        sec.start.0 + sec.width <= w,
        sec.start.1 + sec.height <= h,
        0 <= lx < sec.width,
        0 <= ly < sec.height,
        inner_pixel(sec, w, h, lx, ly),
    ensures
        ({
            let local = crate::img::patch_neighbours(
                sec.width as nat,
                sec.height as nat,
                lx,
                ly,
                ConnTypes::Eight,
                k,
            );
            let global = crate::img::patch_neighbours(
                w,
                h,
                sec.start.0 + lx,
                sec.start.1 + ly,
                ConnTypes::Eight,
                k,
            );
            &&& local.len() == global.len()
            &&& forall|t: int|
                0 <= t < local.len() ==> sec.start.0 + (#[trigger] local[t]).0 == global[t].0
                    && sec.start.1 + local[t].1 == global[t].1
        }),
    decreases k,
{
    if k > 0 {
        lemma_patch_local_global(sec, w, h, lx, ly, (k - 1) as nat);
        let tw = sec.width as nat;
        let th = sec.height as nat;
        let gx = sec.start.0 + lx;
        let gy = sec.start.1 + ly;
        let j = k - 1;
        assert(crate::img::patch_keeps(tw, th, lx, ly, ConnTypes::Eight, j)
            == crate::img::patch_keeps(w, h, gx, gy, ConnTypes::Eight, j));
        let lp = crate::img::patch_neighbours(tw, th, lx, ly, ConnTypes::Eight, j as nat);
        let gp = crate::img::patch_neighbours(w, h, gx, gy, ConnTypes::Eight, j as nat);
        let local = crate::img::patch_neighbours(tw, th, lx, ly, ConnTypes::Eight, k);
        let global = crate::img::patch_neighbours(w, h, gx, gy, ConnTypes::Eight, k);
        crate::img::lemma_patch_neighbours_in_bounds(tw, th, lx, ly, ConnTypes::Eight, k);
        crate::img::lemma_patch_neighbours_in_bounds(w, h, gx, gy, ConnTypes::Eight, k);
        assert forall|t: int| 0 <= t < local.len() implies sec.start.0 + (#[trigger] local[t]).0
            == global[t].0 && sec.start.1 + local[t].1 == global[t].1 by {
            if t < lp.len() {
                assert(local[t] == lp[t]);
                assert(global[t] == gp[t]);
            }
        }
    }
}

/// Inside a tile, away from the sides that face other tiles, a pixel is
/// stable in the tile exactly when it is stable in the whole image, provided
/// the tile holds the image's values.
proof fn lemma_stable_local_global<P, R: Propagation<P>, I>(
    rules: R,
    sec: ParallelSection<I>,
    tile: Seq<P>,
    whole: Seq<P>,
    w: nat,
    h: nat,
    lx: int,
    ly: int,
)
    requires
        w <= u32::MAX,
        h <= u32::MAX,
        sec.start.0 + sec.width <= w,
        sec.start.1 + sec.height <= h,
        0 <= lx < sec.width,
        0 <= ly < sec.height,
        inner_pixel(sec, w, h, lx, ly),
        forall|i: int, j: int|
            0 <= i < sec.width && 0 <= j < sec.height ==> #[trigger] tile[idx(sec.width as nat, i, j)]
                == whole[idx(w, sec.start.0 + i, sec.start.1 + j)],
    ensures
        stable_at(rules, tile, sec.width as nat, sec.height as nat, sec.start, lx, ly) == stable_at(
            rules,
            whole,
            w,
            h,
            (0, 0),
            sec.start.0 + lx,
            sec.start.1 + ly,
        ),
{
    let tw = sec.width as nat;
    let th = sec.height as nat;
    let gx = sec.start.0 + lx;
    let gy = sec.start.1 + ly;
    lemma_patch_local_global(sec, w, h, lx, ly, 9);
    let local = neighbours(tw, th, lx, ly, ConnTypes::Eight);
    let global = neighbours(w, h, gx, gy, ConnTypes::Eight);
    crate::img::lemma_patch_neighbours_in_bounds(tw, th, lx, ly, ConnTypes::Eight, 9);
    assert(pixel_of(tile, tw, sec.start, lx, ly) == pixel_of(whole, w, (0, 0), gx, gy));
    assert forall|t: int| 0 <= t < local.len() implies pixel_of(
        tile,
        tw,
        sec.start,
        (#[trigger] local[t]).0 as int,
        local[t].1 as int,
    ) == pixel_of(whole, w, (0, 0), global[t].0 as int, global[t].1 as int) by {
        assert(tile[idx(tw, local[t].0 as int, local[t].1 as int)] == whole[idx(
            w,
            sec.start.0 + local[t].0,
            sec.start.1 + local[t].1,
        )]);
    }
    if stable_at(rules, tile, tw, th, sec.start, lx, ly) {
        assert forall|t: int| 0 <= t < global.len() implies !rules.spec_condition(
            pixel_of(whole, w, (0, 0), gx, gy),
            pixel_of(whole, w, (0, 0), (#[trigger] global[t]).0 as int, global[t].1 as int),
        ) by {
            assert(pixel_of(tile, tw, sec.start, local[t].0 as int, local[t].1 as int) == pixel_of(
                whole,
                w,
                (0, 0),
                global[t].0 as int,
                global[t].1 as int,
            ));
        }
    }
    if stable_at(rules, whole, w, h, (0, 0), gx, gy) {
        assert forall|t: int| 0 <= t < local.len() implies !rules.spec_condition(
            pixel_of(tile, tw, sec.start, lx, ly),
            pixel_of(tile, tw, sec.start, (#[trigger] local[t]).0 as int, local[t].1 as int),
        ) by {
            assert(pixel_of(whole, w, (0, 0), global[t].0 as int, global[t].1 as int) == pixel_of(
                tile,
                tw,
                sec.start,
                local[t].0 as int,
                local[t].1 as int,
            ));
        }
    }
}


/// A tile pixel on a side that faces another tile is among the tile's active
/// border positions.
proof fn lemma_border_contains<I>(sec: ParallelSection<I>, w: nat, h: nat, lx: int, ly: int)
    requires
        sec.start.0 + sec.width <= w,
        sec.start.1 + sec.height <= h,
        w <= u32::MAX,
        h <= u32::MAX,
        0 <= lx < sec.width,
        0 <= ly < sec.height,
        !inner_pixel(sec, w, h, lx, ly),
    ensures
        active_borders(sec, w, h).contains(
            ((sec.start.0 + lx) as u32, (sec.start.1 + ly) as u32),
        ),
{
    let sx = sec.start.0 as int;
    let sy = sec.start.1 as int;
    let tw = sec.width as int;
    let th = sec.height as int;
    let g = ((sx + lx) as u32, (sy + ly) as u32);
    let a = if sx != 0 {
        Seq::new(th as nat, |j: int| (sx as u32, (sy + j) as u32))
    } else {
        Seq::empty()
    };
    let b = if sy != 0 {
        Seq::new(tw as nat, |i: int| ((sx + i) as u32, sy as u32))
    } else {
        Seq::empty()
    };
    let c = if sy + th != h {
        Seq::new(tw as nat, |i: int| ((sx + i) as u32, (sy + th - 1) as u32))
    } else {
        Seq::empty()
    };
    let d = if sx + tw != w {
        Seq::new(th as nat, |j: int| ((sx + tw - 1) as u32, (sy + j) as u32))
    } else {
        Seq::empty()
    };
    let all = a + b + c + d;
    assert(active_borders(sec, w, h) == all);
    if sx != 0 && lx < 1 {
        assert(all[ly] == a[ly]);
        assert(all[ly] == g);
    } else if sy != 0 && ly < 1 {
        let t = a.len() + lx;
        assert(all[t] == b[lx]);
        assert(all[t] == g);
    } else if sy + th != h && ly + 2 > th {
        let t = a.len() + b.len() + lx;
        assert(all[t] == c[lx]);
        assert(all[t] == g);
    } else {
        let t = a.len() + b.len() + c.len() + ly;
        assert(all[t] == d[ly]);
        assert(all[t] == g);
    }
}

/// One pixel of tiled propagation: with the tile that holds it settled from
/// its seeds, the tiles pasted into `full`, and the last pass settled from
/// the active borders, the pixel ends as sequential propagation would leave
/// it: its potential did not grow, and it is stable if it was watched.
proof fn lemma_parallel_pixel<P, R: Propagation<P>, I: Raster<P>>(
    rules: R,
    before: ParallelSection<I>,
    after: ParallelSection<I>,
    base: Seq<P>,
    full: Seq<P>,
    result: Seq<P>,
    w: nat,
    h: nat,
    seeds: Seq<(u32, u32)>,
    borders: Seq<(u32, u32)>,
    lx: int,
    ly: int,
)
    requires
        w <= u32::MAX,
        h <= u32::MAX,
        base.len() == w * h,
        full.len() == w * h,
        before.start == after.start,
        before.width == after.width,
        before.height == after.height,
        before.start.0 + before.width <= w,
        before.start.1 + before.height <= h,
        0 <= lx < before.width,
        0 <= ly < before.height,
        forall|i: int, j: int|
            0 <= i < before.width && 0 <= j < before.height ==> #[trigger] before.slice.cells()[idx(
                before.width as nat,
                i,
                j,
            )] == base[idx(w, before.start.0 + i, before.start.1 + j)],
        forall|i: int, j: int|
            0 <= i < after.width && 0 <= j < after.height ==> #[trigger] after.slice.cells()[idx(
                after.width as nat,
                i,
                j,
            )] == full[idx(w, after.start.0 + i, after.start.1 + j)],
        settled(
            rules,
            before.slice.cells(),
            after.slice.cells(),
            before.width as nat,
            before.height as nat,
            before.start,
            seeds.filter(in_section(before)),
        ),
        forall|t: int|
            0 <= t < active_borders(after, w, h).len() ==> borders.contains(
                #[trigger] active_borders(after, w, h)[t],
            ),
        settled(rules, full, result, w, h, (0, 0), borders),
    ensures
        ({
            let x = before.start.0 + lx;
            let y = before.start.1 + ly;
            &&& rules.potential(abs_pos((0, 0), x, y), result[idx(w, x, y)]) <= rules.potential(
                abs_pos((0, 0), x, y),
                base[idx(w, x, y)],
            )
            &&& watched(rules, base, result, w, h, (0, 0), seeds, x, y) ==> stable_at(
                rules,
                result,
                w,
                h,
                (0, 0),
                x,
                y,
            )
        }),
{
    let x = before.start.0 + lx;
    let y = before.start.1 + ly;
    let tw = before.width as nat;
    let th = before.height as nat;
    let tb = before.slice.cells();
    let ta = after.slice.cells();
    let local_seeds = seeds.filter(in_section(before));
    assert(tb[idx(tw, lx, ly)] == base[idx(w, x, y)]);
    assert(ta[idx(tw, lx, ly)] == full[idx(w, x, y)]);
    assert(abs_pos(before.start, lx, ly) == abs_pos((0, 0), x, y));
    assert(rules.potential(abs_pos(before.start, lx, ly), ta[idx(tw, lx, ly)]) <= rules.potential(
        abs_pos(before.start, lx, ly),
        tb[idx(tw, lx, ly)],
    ));
    assert(rules.potential(abs_pos((0, 0), x, y), result[idx(w, x, y)]) <= rules.potential(
        abs_pos((0, 0), x, y),
        full[idx(w, x, y)],
    ));
    if watched(rules, base, result, w, h, (0, 0), seeds, x, y) {
        if !inner_pixel(before, w, h, lx, ly) {
            lemma_border_contains(after, w, h, lx, ly);
            let t = choose|t: int|
                0 <= t < active_borders(after, w, h).len() && active_borders(after, w, h)[t]
                    == abs_pos((0, 0), x, y);
            assert(borders.contains(active_borders(after, w, h)[t]));
            assert(watched(rules, full, result, w, h, (0, 0), borders, x, y));
        } else {
            let g = abs_pos((0, 0), x, y);
            if full[idx(w, x, y)] != result[idx(w, x, y)] {
                assert(watched(rules, full, result, w, h, (0, 0), borders, x, y));
            } else {
                // the pixel was seeded, stable, or changed by its tile
                let local_watched = watched(
                    rules,
                    tb,
                    ta,
                    tw,
                    th,
                    before.start,
                    local_seeds,
                    lx,
                    ly,
                );
                if seeds.contains(g) {
                    let i = choose|i: int| 0 <= i < seeds.len() && seeds[i] == g;
                    assert(in_section(before)(seeds[i]));
                    seeds.lemma_filter_contains(in_section(before), i);
                    assert(local_seeds.contains(abs_pos(before.start, lx, ly)));
                } else if stable_at(rules, base, w, h, (0, 0), x, y) {
                    lemma_stable_local_global(rules, before, tb, base, w, h, lx, ly);
                }
                assert(local_watched);
                assert(stable_at(rules, ta, tw, th, before.start, lx, ly));
                lemma_stable_local_global(rules, after, ta, full, w, h, lx, ly);
                assert(watched(rules, full, result, w, h, (0, 0), borders, x, y));
            }
        }
    }
}


/// Every active border position of a tile inside the image lies in the image.
proof fn lemma_rect_borders_in_image(rect: (nat, nat, nat, nat), w: nat, h: nat, j: int)
    requires
        rect.0 + rect.2 <= w,
        rect.1 + rect.3 <= h,
        0 <= j < rect_borders(rect, w, h).len(),
    ensures
        in_region(rect_borders(rect, w, h)[j], (0, 0), w, h),
{
    let sx = rect.0 as int;
    let sy = rect.1 as int;
    let tw = rect.2 as int;
    let th = rect.3 as int;
    if tw != 0 && th != 0 {
        let a = if sx != 0 {
            Seq::new(th as nat, |j: int| (sx as u32, (sy + j) as u32))
        } else {
            Seq::empty()
        };
        let b = if sy != 0 {
            Seq::new(tw as nat, |i: int| ((sx + i) as u32, sy as u32))
        } else {
            Seq::empty()
        };
        let c = if sy + th != h {
            Seq::new(tw as nat, |i: int| ((sx + i) as u32, (sy + th - 1) as u32))
        } else {
            Seq::empty()
        };
        let d = if sx + tw != w {
            Seq::new(th as nat, |j: int| ((sx + tw - 1) as u32, (sy + j) as u32))
        } else {
            Seq::empty()
        };
        let all = a + b + c + d;
        assert(rect_borders(rect, w, h) == all);
        if j < a.len() {
            assert(all[j] == a[j]);
        } else if j < a.len() + b.len() {
            assert(all[j] == b[j - a.len()]);
        } else if j < a.len() + b.len() + c.len() {
            assert(all[j] == c[j - a.len() - b.len()]);
        } else {
            assert(all[j] == d[j - a.len() - b.len() - c.len()]);
        }
    }
}

/// The border positions of the tiles of a cut lie in the image.
pub proof fn lemma_tile_borders_in_image(w: nat, h: nat, n: nat, m: nat)
    requires
        n >= 1,
        m <= n,
    ensures
        queue_in_image(tile_borders(w, h, n, m), w, h),
    decreases m,
{
    if m > 0 {
        lemma_tile_borders_in_image(w, h, n, (m - 1) as nat);
        let prev = tile_borders(w, h, n, (m - 1) as nat);
        let rect = tile_rect(w, h, n, (m - 1) as nat);
        crate::parallel_img::lemma_tile_inside(w, h, n, (m - 1) as nat);
        let b = rect_borders(rect, w, h);
        let all = prev + b;
        assert forall|t: int| 0 <= t < all.len() implies in_region(#[trigger] all[t], (0, 0), w, h) by {
            if t < prev.len() {
                assert(all[t] == prev[t]);
            } else {
                assert(all[t] == b[t - prev.len()]);
                lemma_rect_borders_in_image(rect, w, h, t - prev.len());
            }
        }
    }
}

/// Pixel `(i, j)` of the tile copy is pixel `(x0 + i, y0 + j)` of the image.
pub proof fn lemma_tile_cells_at<P>(cells: Seq<P>, w: nat, rect: (nat, nat, nat, nat), i: int, j: int)
    requires
        0 <= i < rect.2,
        0 <= j < rect.3,
    ensures
        tile_cells(cells, w, rect)[idx(rect.2, i, j)] == cells[idx(w, rect.0 + i, rect.1 + j)],
        tile_cells(cells, w, rect).len() == rect.2 * rect.3,
{
    lemma_idx_bounds(rect.2, rect.3, i, j);
    vstd::arithmetic::div_mod::lemma_fundamental_div_mod_converse(
        idx(rect.2, i, j),
        rect.2 as int,
        j,
        i,
    );
}

} // verus!
