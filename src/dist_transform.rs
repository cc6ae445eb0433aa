use crate::gray::{Image32, Image8};
use crate::img::{get_pixel_neighbours, lemma_patch_neighbours_in_bounds, neighbours, ConnTypes, PixelT};
use crate::iwp::{
    in_region, propagate, propagate_parallel, queue_in_image, settled, Propagation,
};
use crate::raster::{idx, lemma_idx_bounds, lemma_idx_injective, Raster};
use std::collections::VecDeque;
use vstd::prelude::*;

verus! {

/// Value of a background pixel in a binary image.
pub const BG: u8 = 0;

/// Value of a foreground pixel in a binary image.
pub const FR: u8 = 1;

/// Site index that stands for "no site yet".
pub const INF_PIXEL: u32 = 0xFFFF_FFFF;

/// The metric of a distance transform.
#[derive(Clone, Copy, PartialEq, Eq, Debug)]
pub enum DistTypes {
    Euclidean,
    CityBlock,
    Chessboard,
}

pub open spec fn abs_diff(a: u32, b: u32) -> nat {
    if a >= b {
        (a - b) as nat
    } else {
        (b - a) as nat
    }
}

/// `|dx| + |dy|`.
pub open spec fn city_block(p1: (u32, u32), p2: (u32, u32)) -> nat {
    abs_diff(p1.0, p2.0) + abs_diff(p1.1, p2.1)
}

/// `max(|dx|, |dy|)`.
pub open spec fn chessboard(p1: (u32, u32), p2: (u32, u32)) -> nat {
    let dx = abs_diff(p1.0, p2.0);
    let dy = abs_diff(p1.1, p2.1);
    if dx >= dy {
        dx
    } else {
        dy
    }
}

/// `dx² + dy²`.
pub open spec fn sq_dist(p1: (u32, u32), p2: (u32, u32)) -> nat {
    let dx = abs_diff(p1.0, p2.0);
    let dy = abs_diff(p1.1, p2.1);
    dx * dx + dy * dy
}

/// The least `r` from `c` upwards with `n <= r * (r + 1)`.
pub open spec fn round_sqrt_from(n: nat, c: nat) -> nat
    decreases n - c,
{
    if n <= c * (c + 1) || c >= n {
        c
    } else {
        round_sqrt_from(n, c + 1)
    }
}

/// `√n` rounded to the nearest integer: the least `r` with `n <= r * (r + 1)`,
/// which is the `r` with `(r - ½)² <= n < (r + ½)²`.
pub open spec fn round_sqrt(n: nat) -> nat {
    round_sqrt_from(n, 0)
}

/// The Euclidean distance, rounded to the nearest integer.
pub open spec fn euclidean(p1: (u32, u32), p2: (u32, u32)) -> nat {
    round_sqrt(sq_dist(p1, p2))
}

/// The distance between two positions under `kind`.
pub open spec fn metric(kind: DistTypes, p1: (u32, u32), p2: (u32, u32)) -> nat {
    match kind {
        DistTypes::Euclidean => euclidean(p1, p2),
        DistTypes::CityBlock => city_block(p1, p2),
        DistTypes::Chessboard => chessboard(p1, p2),
    }
}

fn abs_diff_exec(a: u32, b: u32) -> (r: u64)
    ensures
        r == abs_diff(a, b),
{
    if a >= b {
        (a - b) as u64
    } else {
        (b - a) as u64
    }
}

/// `|dx| + |dy|` between two positions.
pub fn city_block_distance(p1: (u32, u32), p2: (u32, u32)) -> (r: u64)
    ensures
        r == city_block(p1, p2),
{
    abs_diff_exec(p1.0, p2.0) + abs_diff_exec(p1.1, p2.1)
}

/// `max(|dx|, |dy|)` between two positions.
pub fn chessboard_distance(p1: (u32, u32), p2: (u32, u32)) -> (r: u64)
    ensures
        r == chessboard(p1, p2),
{
    let dx = abs_diff_exec(p1.0, p2.0);
    let dy = abs_diff_exec(p1.1, p2.1);
    if dx >= dy {
        dx
    } else {
        dy
    }
}

proof fn lemma_round_sqrt_least(n: nat, c: nat, m: nat)
    requires
        c <= m,
        forall|r: nat| r < m ==> #[trigger] (r * (r + 1)) < n,
        n <= m * (m + 1),
        n >= 1 ==> m <= n,
        n == 0 ==> m == 0,
    ensures
        round_sqrt_from(n, c) == m,
    decreases m - c,
{
    if c < m {
        assert(c * (c + 1) < n);
        lemma_round_sqrt_least(n, c + 1, m);
    }
}

/// The Euclidean distance between two positions, rounded to the nearest
/// integer.
pub fn aprox_euclidean_distance(p1: (u32, u32), p2: (u32, u32)) -> (r: u64)
    ensures
        r == euclidean(p1, p2),
{
    let dx = abs_diff_exec(p1.0, p2.0) as u128;
    let dy = abs_diff_exec(p1.1, p2.1) as u128;
    proof {
        assert(dx * dx <= 0xFFFF_FFFF * 0xFFFF_FFFF) by (nonlinear_arith)
            requires
                dx <= 0xFFFF_FFFF,
        ;
        assert(dy * dy <= 0xFFFF_FFFF * 0xFFFF_FFFF) by (nonlinear_arith)
            requires
                dy <= 0xFFFF_FFFF,
        ;
    }
    let n: u128 = dx * dx + dy * dy;
    let mut lo: u128 = 0;
    let mut hi: u128 = 0x2_0000_0000;
    proof {
        assert(n <= hi * (hi + 1)) by (nonlinear_arith)
            requires
                n <= 2 * 0xFFFF_FFFF * 0xFFFF_FFFF,
                hi == 0x2_0000_0000,
        ;
    }
    while lo < hi
        invariant
            lo <= hi <= 0x2_0000_0000,
            n <= hi * (hi + 1),
            forall|r: nat| r < lo ==> #[trigger] (r * (r + 1)) < n,
        decreases hi - lo,
    {
        let mid = lo + (hi - lo) / 2;
        proof {
            assert(mid * (mid + 1) <= 0x2_0000_0000 * 0x2_0000_0001) by (nonlinear_arith)
                requires
                    mid <= 0x2_0000_0000,
            ;
        }
        if n <= mid * (mid + 1) {
            hi = mid;
        } else {
            proof {
                assert forall|r: nat| r < mid + 1 implies #[trigger] (r * (r + 1)) < n by {
                    if r >= lo {
                        assert(r * (r + 1) <= mid * (mid + 1)) by (nonlinear_arith)
                            requires
                                r <= mid,
                        ;
                    }
                }
            }
            lo = mid + 1;
        }
    }
    proof {
        let nn = n as nat;
        if nn >= 1 && lo > nn {
            assert(nn * (nn + 1) < nn);
            assert(nn * (nn + 1) >= nn) by (nonlinear_arith)
                requires
                    nn >= 1,
            ;
        }
        if nn == 0 && lo > 0 {
            let z: nat = 0;
            assert(z * (z + 1) < nn);
        }
        lemma_round_sqrt_least(n as nat, 0, lo as nat);
    }
    lo as u64
}


/// A position is at distance 0 from itself, under every metric.
pub proof fn lemma_metric_identity(kind: DistTypes, p: (u32, u32))
    ensures
        metric(kind, p, p) == 0,
{
    let d0 = abs_diff(p.0, p.0);
    let d1 = abs_diff(p.1, p.1);
    assert(d0 == 0 && d1 == 0);
    assert(d0 * d0 + d1 * d1 == 0) by (nonlinear_arith)
        requires
            d0 == 0,
            d1 == 0,
    ;
    assert(sq_dist(p, p) == 0);
    assert(round_sqrt_from(0, 0) == 0);
}

/// Every metric is symmetric.
pub proof fn lemma_metric_symmetric(kind: DistTypes, p: (u32, u32), q: (u32, u32))
    ensures
        metric(kind, p, q) == metric(kind, q, p),
{
    assert(sq_dist(p, q) == sq_dist(q, p));
}

proof fn lemma_round_sqrt_from_ge(n: nat, c: nat, m: nat)
    requires
        c <= m,
        m <= n,
        forall|r: nat| c <= r < m ==> #[trigger] (r * (r + 1)) < n,
    ensures
        round_sqrt_from(n, c) >= m,
    decreases m - c,
{
    if c < m {
        assert(c * (c + 1) < n);
        assert(!(n <= c * (c + 1) || c >= n));
        lemma_round_sqrt_from_ge(n, c + 1, m);
    } else {
        lemma_round_sqrt_from_at_least(n, c);
    }
}

proof fn lemma_round_sqrt_from_at_least(n: nat, c: nat)
    ensures
        round_sqrt_from(n, c) >= c,
    decreases n - c,
{
    if !(n <= c * (c + 1) || c >= n) {
        lemma_round_sqrt_from_at_least(n, c + 1);
    }
}

/// The city-block distance is never below the chessboard distance, and the
/// rounded Euclidean distance lies between the two.
pub proof fn lemma_metric_order(p: (u32, u32), q: (u32, u32))
    ensures
        chessboard(p, q) <= city_block(p, q),
        chessboard(p, q) <= euclidean(p, q),
        euclidean(p, q) <= city_block(p, q),
{
    let dx = abs_diff(p.0, q.0);
    let dy = abs_diff(p.1, q.1);
    let n = sq_dist(p, q);
    let c: nat = dx + dy;
    let m = chessboard(p, q);
    assert(n <= c * (c + 1)) by (nonlinear_arith)
        requires
            n == dx * dx + dy * dy,
            c == dx + dy,
    ;
    if n >= 1 {
        assert(c <= n) by (nonlinear_arith)
            requires
                n == dx * dx + dy * dy,
                c == dx + dy,
        ;
    } else {
        assert(dx == 0 && dy == 0) by (nonlinear_arith)
            requires
                n == dx * dx + dy * dy,
                n == 0,
        ;
    }
    lemma_round_sqrt_from_le(n, 0, c);
    assert(m * m <= n) by (nonlinear_arith)
        requires
            n == dx * dx + dy * dy,
            m == dx || m == dy,
    ;
    assert(m <= n) by (nonlinear_arith)
        requires
            m * m <= n,
    ;
    assert forall|r: nat| 0 <= r < m implies #[trigger] (r * (r + 1)) < n by {
        assert(r * (r + 1) < m * m) by (nonlinear_arith)
            requires
                r < m,
        ;
    }
    lemma_round_sqrt_from_ge(n, 0, m);
}

/// The distance between two positions under `kind`.
pub fn distance(kind: DistTypes, p1: (u32, u32), p2: (u32, u32)) -> (r: u64)
    ensures
        r == metric(kind, p1, p2),
{
    match kind {
        DistTypes::Euclidean => aprox_euclidean_distance(p1, p2),
        DistTypes::CityBlock => city_block_distance(p1, p2),
        DistTypes::Chessboard => chessboard_distance(p1, p2),
    }
}

/// The position that site index `i` stands for in an image `width` pixels wide.
pub open spec fn decode(i: u32, width: u32) -> (u32, u32) {
    ((i % width) as u32, (i / width) as u32)
}

/// How far `pos` lies from the site with index `v`; farther than any site
/// when `v` is `INF_PIXEL`.
pub open spec fn site_dist(kind: DistTypes, width: u32, pos: (u32, u32), v: u32) -> nat {
    if v == INF_PIXEL {
        u64::MAX as nat
    } else {
        metric(kind, pos, decode(v, width))
    }
}

proof fn lemma_metric_bound(kind: DistTypes, p1: (u32, u32), p2: (u32, u32))
    ensures
        metric(kind, p1, p2) < u64::MAX,
{
    let dx = abs_diff(p1.0, p2.0);
    let dy = abs_diff(p1.1, p2.1);
    if kind == DistTypes::Euclidean {
        let n = sq_dist(p1, p2);
        let m: nat = dx + dy;
        assert(n <= m * (m + 1)) by (nonlinear_arith)
            requires
                n == dx * dx + dy * dy,
                m == dx + dy,
        ;
        if n >= 1 {
            assert(m <= n) by (nonlinear_arith)
                requires
                    n == dx * dx + dy * dy,
                    m == dx + dy,
            ;
        }
        lemma_round_sqrt_from_le(n, 0, m);
    }
}

proof fn lemma_round_sqrt_from_le(n: nat, c: nat, m: nat)
    requires
        c <= m,
        n <= m * (m + 1),
        n >= 1 ==> m <= n,
    ensures
        round_sqrt_from(n, c) <= m,
    decreases m - c,
{
    if c < m && !(n <= c * (c + 1) || c >= n) {
        lemma_round_sqrt_from_le(n, c + 1, m);
    }
}

/// The payload of the distance transform: the metric, and the width of the
/// image that site indices count in.
pub struct VoronoiRules {
    pub dist: DistTypes,
    pub width: u32,
}

/// Voronoi propagation: a neighbour takes the current pixel's site when that
/// site lies nearer to it than its own.
impl Propagation<u32> for VoronoiRules {
    open spec fn admits(&self, pos: (u32, u32)) -> bool {
        self.width > 0
    }

    open spec fn spec_condition(&self, curr: PixelT<u32>, ngb: PixelT<u32>) -> bool {
        site_dist(self.dist, self.width, ngb.coords, curr.value) < site_dist(
            self.dist,
            self.width,
            ngb.coords,
            ngb.value,
        )
    }

    open spec fn spec_update(&self, curr: PixelT<u32>, ngb: PixelT<u32>) -> u32 {
        curr.value
    }

    open spec fn potential(&self, pos: (u32, u32), v: u32) -> nat {
        site_dist(self.dist, self.width, pos, v)
    }

    proof fn lemma_update_progresses(&self, curr: PixelT<u32>, ngb: PixelT<u32>) {
    }

    proof fn lemma_update_settles(&self, curr: PixelT<u32>, ngb: PixelT<u32>) {
    }

    proof fn lemma_refusal_persists(&self, curr: PixelT<u32>, other: PixelT<u32>, ngb: PixelT<u32>) {
    }

    fn condition(&self, curr: &PixelT<u32>, ngb: &PixelT<u32>) -> (r: bool) {
        propagation_condition(curr, ngb, self)
    }

    fn update(&self, curr: &PixelT<u32>, ngb: &PixelT<u32>) -> (r: u32) {
        curr.value
    }
}

/// How far `pos` lies from the site with index `v`, with `u64::MAX` for
/// `INF_PIXEL`.
fn site_distance(rules: &VoronoiRules, pos: (u32, u32), v: u32) -> (r: u64)
    requires
        rules.width > 0,
    ensures
        r == site_dist(rules.dist, rules.width, pos, v),
{
    if v == INF_PIXEL {
        u64::MAX
    } else {
        proof {
            lemma_metric_bound(rules.dist, pos, decode(v, rules.width));
        }
        distance(rules.dist, pos, (v % rules.width, v / rules.width))
    }
}

/// The neighbour should take the current site: it lies nearer to the
/// neighbour than the neighbour's own.
pub fn propagation_condition(
    curr_pixel: &PixelT<u32>,
    ngb_pixel: &PixelT<u32>,
    rules: &VoronoiRules,
) -> (r: bool)
    requires
        rules.width > 0,
    ensures
        r == rules.spec_condition(*curr_pixel, *ngb_pixel),
{
    site_distance(rules, ngb_pixel.coords, curr_pixel.value) < site_distance(
        rules,
        ngb_pixel.coords,
        ngb_pixel.value,
    )
}

/// The site map before propagation: a background pixel is its own site, a
/// foreground pixel has none.
pub open spec fn initial_site(img: Image8, x: int, y: int) -> u32 {
    if img.cells()[idx(img.spec_width(), x, y)] == BG {
        idx(img.spec_width(), x, y) as u32
    } else {
        INF_PIXEL
    }
}

/// Pixel `(x, y)` is background and has a foreground 8-neighbour.
pub open spec fn on_front(img: Image8, x: int, y: int) -> bool {
    let nb = neighbours(img.spec_width(), img.spec_height(), x, y, ConnTypes::Eight);
    &&& img.cells()[idx(img.spec_width(), x, y)] == BG
    &&& exists|k: int|
        0 <= k < nb.len() && img.cells()[idx(
            img.spec_width(),
            (#[trigger] nb[k]).0 as int,
            nb[k].1 as int,
        )] == FR
}


/// The background pixels with a foreground 8-neighbour among the first `x`
/// pixels of row `y`, left to right.
pub open spec fn front_row(img: Image8, y: int, x: nat) -> Seq<(u32, u32)>
    decreases x,
{
    if x == 0 {
        Seq::empty()
    } else {
        let prev = front_row(img, y, (x - 1) as nat);
        if on_front(img, x - 1, y) {
            prev.push(((x - 1) as u32, y as u32))
        } else {
            prev
        }
    }
}

/// The background pixels with a foreground 8-neighbour in the first `y`
/// rows, in raster order.
pub open spec fn front_rows(img: Image8, y: nat) -> Seq<(u32, u32)>
    decreases y,
{
    if y == 0 {
        Seq::empty()
    } else {
        front_rows(img, (y - 1) as nat) + front_row(img, y - 1, img.spec_width())
    }
}

/// The seeds of the distance transform: every background pixel with a
/// foreground 8-neighbour, in raster order.
pub open spec fn front_seq(img: Image8) -> Seq<(u32, u32)> {
    front_rows(img, img.spec_height())
}

/// The site map before propagation, as a sequence.
pub open spec fn initial_sites(img: Image8) -> Seq<u32> {
    Seq::new(
        img.spec_width() * img.spec_height(),
        |t: int|
            if img.cells()[t] == BG {
                t as u32
            } else {
                INF_PIXEL
            },
    )
}

/// The site map that sequential Voronoi propagation leaves.
pub open spec fn propagated_sites(img: Image8, kind: DistTypes) -> Seq<u32> {
    crate::iwp::fifo_result(
        VoronoiRules { dist: kind, width: img.spec_width() as u32 },
        initial_sites(img),
        front_seq(img),
        img.spec_width(),
        img.spec_height(),
        (0, 0),
    )
}

/// The site map that tiled Voronoi propagation over `n` tiles leaves.
pub open spec fn tiled_sites(img: Image8, kind: DistTypes, n: nat) -> Seq<u32> {
    crate::iwp::tiled_result(
        VoronoiRules { dist: kind, width: img.spec_width() as u32 },
        initial_sites(img),
        front_seq(img),
        img.spec_width(),
        img.spec_height(),
        n,
    )
}

/// Seeding of the distance transform: every background pixel becomes its own
/// site in `vr_diagram`, every other pixel gets `INF_PIXEL`; the background
/// pixels with a foreground 8-neighbour are returned, in raster order.
pub fn get_initial_pixels(img: &Image8, vr_diagram: &mut Image32) -> (r: VecDeque<(u32, u32)>)
    requires
        old(vr_diagram).spec_width() == img.spec_width(),
        old(vr_diagram).spec_height() == img.spec_height(),
        img.spec_width() * img.spec_height() <= u32::MAX,
    ensures
        final(vr_diagram).spec_width() == img.spec_width(),
        final(vr_diagram).spec_height() == img.spec_height(),
        final(vr_diagram).cells().len() == img.spec_width() * img.spec_height(),
        forall|x: int, y: int|
            0 <= x < img.spec_width() && 0 <= y < img.spec_height() ==> #[trigger] final(vr_diagram).cells()[idx(
                img.spec_width(),
                x,
                y,
            )] == initial_site(*img, x, y),
        final(vr_diagram).cells() == initial_sites(*img),
        r@ == front_seq(*img),
        r@.no_duplicates(),
        queue_in_image(r@, img.spec_width(), img.spec_height()),
        forall|x: int, y: int|
            0 <= x < img.spec_width() && 0 <= y < img.spec_height() ==> (r@.contains(
                (x as u32, y as u32),
            ) <==> #[trigger] on_front(*img, x, y)),
{
    let width = img.cols();
    let height = img.rows();
    let _ = vr_diagram.cols();
    let ghost wn = width as nat;
    let ghost hn = height as nat;
    let mut queue: VecDeque<(u32, u32)> = VecDeque::new();
    let mut i: u32 = 0;
    while i < height
        invariant
            wn == width,
            hn == height,
            width == img.spec_width(),
            height == img.spec_height(),
            img.cells().len() == width * height,
            width * height <= u32::MAX,
            vr_diagram.spec_width() == width,
            vr_diagram.spec_height() == height,
            vr_diagram.cells().len() == width * height,
            i <= height,
            queue@ == front_rows(*img, i as nat),
            forall|x: int, y: int|
                0 <= x < width && 0 <= y < i ==> #[trigger] vr_diagram.cells()[idx(wn, x, y)]
                    == initial_site(*img, x, y),
            queue@.no_duplicates(),
            forall|k: int|
                0 <= k < queue@.len() ==> in_region(#[trigger] queue@[k], (0, 0), wn, hn)
                    && queue@[k].1 < i,
            forall|x: int, y: int|
                0 <= x < width && 0 <= y < height ==> (queue@.contains((x as u32, y as u32)) <==> (
                y < i && #[trigger] on_front(*img, x, y))),
        decreases height - i,
    {
        let mut j: u32 = 0;
        while j < width
            invariant
                wn == width,
                hn == height,
                width == img.spec_width(),
                height == img.spec_height(),
                img.cells().len() == width * height,
                width * height <= u32::MAX,
                vr_diagram.spec_width() == width,
                vr_diagram.spec_height() == height,
                vr_diagram.cells().len() == width * height,
                i < height,
                j <= width,
                queue@ == front_rows(*img, i as nat) + front_row(*img, i as int, j as nat),
                forall|x: int, y: int|
                    0 <= x < width && 0 <= y < height && (y < i || (y == i && x < j))
                        ==> #[trigger] vr_diagram.cells()[idx(wn, x, y)] == initial_site(
                        *img,
                        x,
                        y,
                    ),
                queue@.no_duplicates(),
                forall|k: int|
                    0 <= k < queue@.len() ==> in_region(#[trigger] queue@[k], (0, 0), wn, hn) && (
                    queue@[k].1 < i || (queue@[k].1 == i && queue@[k].0 < j)),
                forall|x: int, y: int|
                    0 <= x < width && 0 <= y < height ==> (queue@.contains((x as u32, y as u32)) <==> (
                    (y < i || (y == i && x < j)) && #[trigger] on_front(*img, x, y))),
            decreases width - j,
        {
            proof {
                lemma_idx_bounds(wn, hn, j as int, i as int);
            }
            let pixel_value = img.pixel(j, i);
            let ghost c = vr_diagram.cells();
            let ghost q0 = queue@;
            let mut front = false;
            if pixel_value == BG {
                proof {
                    assert(i * width <= i * width + j);
                }
                let index = i * width + j;
                vr_diagram.set_pixel(j, i, index);
                let pixel_ngbs = get_pixel_neighbours(img, (j, i), ConnTypes::Eight);
                proof {
                    lemma_patch_neighbours_in_bounds(wn, hn, j as int, i as int, ConnTypes::Eight, 9);
                }
                let mut k: usize = 0;
                while k < pixel_ngbs.len() && !front
                    invariant
                        width == img.spec_width(),
                        height == img.spec_height(),
                        k <= pixel_ngbs@.len(),
                        pixel_ngbs@ == neighbours(wn, hn, j as int, i as int, ConnTypes::Eight),
                        wn == width,
                        hn == height,
                        forall|t: int|
                            0 <= t < pixel_ngbs@.len() ==> (#[trigger] pixel_ngbs@[t]).0 < width
                                && pixel_ngbs@[t].1 < height,
                        front ==> exists|t: int|
                            0 <= t < pixel_ngbs@.len() && img.cells()[idx(
                                wn,
                                (#[trigger] pixel_ngbs@[t]).0 as int,
                                pixel_ngbs@[t].1 as int,
                            )] == FR,
                        !front ==> forall|t: int|
                            0 <= t < k ==> img.cells()[idx(
                                wn,
                                (#[trigger] pixel_ngbs@[t]).0 as int,
                                pixel_ngbs@[t].1 as int,
                            )] != FR,
                    decreases pixel_ngbs@.len() - k,
                {
                    let (nx, ny) = pixel_ngbs[k];
                    if img.pixel(nx, ny) == FR {
                        front = true;
                    }
                    k = k + 1;
                }
                if front {
                    queue.push_back((j, i));
                }
            } else {
                vr_diagram.set_pixel(j, i, INF_PIXEL);
            }
            proof {
                assert(front == on_front(*img, j as int, i as int));
                assert(front_rows(*img, i as nat) + front_row(*img, i as int, (j + 1) as nat) =~= if front {
                    q0.push((j, i))
                } else {
                    q0
                });
                assert forall|x: int, y: int|
                    0 <= x < width && 0 <= y < height && (y < i || (y == i && x < j + 1)) implies #[trigger] vr_diagram.cells()[idx(
                    wn,
                    x,
                    y,
                )] == initial_site(*img, x, y) by {
                    lemma_idx_bounds(wn, hn, x, y);
                    if !(x == j && y == i) {
                        if idx(wn, x, y) == idx(wn, j as int, i as int) {
                            lemma_idx_injective(wn, x, y, j as int, i as int);
                        }
                        assert(vr_diagram.cells()[idx(wn, x, y)] == c[idx(wn, x, y)]);
                    }
                }
                if front {
                    assert(!q0.contains((j, i))) by {
                        if q0.contains((j, i)) {
                            let t = choose|t: int| 0 <= t < q0.len() && q0[t] == (j, i);
                            assert(in_region(q0[t], (0, 0), wn, hn));
                        }
                    }
                    assert(queue@ == q0.push((j, i)));
                    assert forall|x: int, y: int| 0 <= x < width && 0 <= y < height implies (queue@.contains(
                        (x as u32, y as u32),
                    ) <==> ((y < i || (y == i && x < j + 1)) && #[trigger] on_front(*img, x, y))) by {
                        if q0.contains((x as u32, y as u32)) {
                            let t = choose|t: int| 0 <= t < q0.len() && q0[t] == (x as u32, y as u32);
                            assert(queue@[t] == q0[t]);
                        }
                        if queue@.contains((x as u32, y as u32)) && !(x == j && y == i) {
                            let t = choose|t: int|
                                0 <= t < queue@.len() && queue@[t] == (x as u32, y as u32);
                            assert(t < q0.len());
                            assert(q0[t] == queue@[t]);
                        }
                        if x == j && y == i {
                            assert(queue@[q0.len() as int] == (j, i));
                        }
                    }
                    assert forall|t: int| 0 <= t < queue@.len() implies in_region(
                        #[trigger] queue@[t],
                        (0, 0),
                        wn,
                        hn,
                    ) && (queue@[t].1 < i || (queue@[t].1 == i && queue@[t].0 < j + 1)) by {
                        if t < q0.len() {
                            assert(queue@[t] == q0[t]);
                        }
                    }
                } else {
                    assert forall|x: int, y: int| 0 <= x < width && 0 <= y < height implies (queue@.contains(
                        (x as u32, y as u32),
                    ) <==> ((y < i || (y == i && x < j + 1)) && #[trigger] on_front(*img, x, y))) by {
                    }
                }
            }
            j = j + 1;
        }
        proof {
            assert(front_rows(*img, (i + 1) as nat) == front_rows(*img, i as nat) + front_row(
                *img,
                i as int,
                wn,
            ));
        }
        i = i + 1;
    }
    proof {
        let v = vr_diagram.cells();
        assert forall|t: int| 0 <= t < v.len() implies v[t] == initial_sites(*img)[t] by {
            let (x, y) = crate::raster::lemma_idx_onto(wn, hn, t);
            assert(v[idx(wn, x, y)] == initial_site(*img, x, y));
        }
        assert(v =~= initial_sites(*img));
    }
    queue
}


/// `d`, or 255 when `d` exceeds it.
pub open spec fn clamp_u8(d: nat) -> u8 {
    if d > 255 {
        255
    } else {
        d as u8
    }
}

/// Each pixel of `dist` is the distance from the pixel to its site in
/// `sites`, clamped to 255.
pub open spec fn distances_of(
    dist: Seq<u8>,
    sites: Seq<u32>,
    kind: DistTypes,
    w: nat,
    h: nat,
) -> bool {
    forall|x: int, y: int|
        0 <= x < w && 0 <= y < h ==> #[trigger] dist[idx(w, x, y)] == clamp_u8(
            site_dist(kind, w as u32, (x as u32, y as u32), sites[idx(w, x, y)]),
        )
}

/// The 8-bit distance image of a site map: each pixel holds the distance to
/// its site, clamped to 255.
pub fn get_final_dist_img(
    width: u32,
    height: u32,
    vr_diagram: &Image32,
    rules: &VoronoiRules,
) -> (r: Image8)
    requires
        vr_diagram.spec_width() == width,
        vr_diagram.spec_height() == height,
        rules.width == width,
    ensures
        r.spec_width() == width,
        r.spec_height() == height,
        r.cells().len() == width * height,
        distances_of(r.cells(), vr_diagram.cells(), rules.dist, width as nat, height as nat),
{
    let _ = vr_diagram.cols();
    let ghost wn = width as nat;
    let ghost hn = height as nat;
    let mut img = Image8::blank(width, height);
    let mut i: u32 = 0;
    while i < height
        invariant
            wn == width,
            hn == height,
            rules.width == width,
            vr_diagram.spec_width() == width,
            vr_diagram.spec_height() == height,
            img.spec_width() == width,
            img.spec_height() == height,
            img.cells().len() == width * height,
            i <= height,
            forall|x: int, y: int|
                0 <= x < width && 0 <= y < i ==> #[trigger] img.cells()[idx(wn, x, y)] == clamp_u8(
                    site_dist(rules.dist, width, (x as u32, y as u32), vr_diagram.cells()[idx(wn, x, y)]),
                ),
        decreases height - i,
    {
        let mut j: u32 = 0;
        while j < width
            invariant
                wn == width,
                hn == height,
                rules.width == width,
                vr_diagram.spec_width() == width,
                vr_diagram.spec_height() == height,
                img.spec_width() == width,
                img.spec_height() == height,
                img.cells().len() == width * height,
                i < height,
                j <= width,
                forall|x: int, y: int|
                    0 <= x < width && 0 <= y < height && (y < i || (y == i && x < j))
                        ==> #[trigger] img.cells()[idx(wn, x, y)] == clamp_u8(
                        site_dist(
                            rules.dist,
                            width,
                            (x as u32, y as u32),
                            vr_diagram.cells()[idx(wn, x, y)],
                        ),
                    ),
            decreases width - j,
        {
            let site = vr_diagram.pixel(j, i);
            let d = site_distance(rules, (j, i), site);
            let value: u8 = if d > 255 {
                255
            } else {
                d as u8
            };
            let ghost c = img.cells();
            proof {
                lemma_idx_bounds(wn, hn, j as int, i as int);
            }
            img.set_pixel(j, i, value);
            proof {
                assert forall|x: int, y: int|
                    0 <= x < width && 0 <= y < height && (y < i || (y == i && x < j + 1)) implies #[trigger] img.cells()[idx(
                    wn,
                    x,
                    y,
                )] == clamp_u8(
                    site_dist(
                        rules.dist,
                        width,
                        (x as u32, y as u32),
                        vr_diagram.cells()[idx(wn, x, y)],
                    ),
                ) by {
                    lemma_idx_bounds(wn, hn, x, y);
                    lemma_idx_bounds(wn, hn, j as int, i as int);
                    if !(x == j && y == i) {
                        if idx(wn, x, y) == idx(wn, j as int, i as int) {
                            lemma_idx_injective(wn, x, y, j as int, i as int);
                        }
                        assert(img.cells()[idx(wn, x, y)] == c[idx(wn, x, y)]);
                    }
                }
            }
            j = j + 1;
        }
        i = i + 1;
    }
    img
}

/// A position is at distance 0 from itself as a site.
proof fn lemma_own_site(kind: DistTypes, w: nat, h: nat, x: int, y: int)
    requires
        0 <= x < w,
        0 <= y < h,
        w * h <= u32::MAX,
    ensures
        site_dist(kind, w as u32, (x as u32, y as u32), idx(w, x, y) as u32) == 0,
{
    lemma_idx_bounds(w, h, x, y);
    let i = idx(w, x, y);
    vstd::arithmetic::div_mod::lemma_fundamental_div_mod_converse(i, w as int, y, x);
    assert(w <= w * h) by (nonlinear_arith)
        requires
            h >= 1,
    ;
    assert((i as u32) as int == i);
    assert((i as u32) != INF_PIXEL);
    assert(decode(i as u32, w as u32) == (x as u32, y as u32));
    lemma_metric_identity(kind, (x as u32, y as u32));
}

/// Background pixels are at distance 0.
pub open spec fn background_at_zero(img: Image8, dist: Seq<u8>) -> bool {
    forall|x: int, y: int|
        0 <= x < img.spec_width() && 0 <= y < img.spec_height() && img.cells()[idx(
            img.spec_width(),
            x,
            y,
        )] == BG ==> #[trigger] dist[idx(img.spec_width(), x, y)] == 0
}

/// The distance transform of a binary image (background 0, foreground 1)
/// under `dist_type`: each pixel holds the distance to the site that
/// sequential Voronoi propagation assigns it, clamped to 255; the
/// propagation starts from the site map where each background pixel is its
/// own site, seeded with the background pixels that touch the foreground,
/// in raster order. A pixel left without a site gets 255.
pub fn dist_transform(img: &Image8, dist_type: DistTypes) -> (r: Image8)
    requires
        img.spec_width() * img.spec_height() <= u32::MAX,
    ensures
        r.spec_width() == img.spec_width(),
        r.spec_height() == img.spec_height(),
        r.cells().len() == img.spec_width() * img.spec_height(),
        distances_of(
            r.cells(),
            propagated_sites(*img, dist_type),
            dist_type,
            img.spec_width(),
            img.spec_height(),
        ),
        background_at_zero(*img, r.cells()),
{
    let width = img.cols();
    let height = img.rows();
    let ghost wn = width as nat;
    let ghost hn = height as nat;
    let mut vr_diagram = Image32::blank(width, height);
    let mut queue = get_initial_pixels(img, &mut vr_diagram);
    let ghost seeded = vr_diagram.cells();
    let ghost seeds = queue@;
    let rules = VoronoiRules { dist: dist_type, width };
    proof {
        assert forall|pos: (u32, u32)| in_region(pos, (0, 0), wn, hn) implies #[trigger] rules.admits(pos) by {}
    }
    propagate(&mut vr_diagram, &rules, &mut queue);
    let result = get_final_dist_img(width, height, &vr_diagram, &rules);
    proof {
        let sites = vr_diagram.cells();
        assert(settled(rules, seeded, sites, wn, hn, (0, 0), seeds));
        assert(rules == VoronoiRules { dist: dist_type, width: wn as u32 });
        assert(seeded.len() == wn * hn);
        assert(distances_of(result.cells(), sites, dist_type, wn, hn));
        assert forall|x: int, y: int|
            0 <= x < width && 0 <= y < height && img.cells()[idx(wn, x, y)] == BG implies #[trigger] result.cells()[idx(
            wn,
            x,
            y,
        )] == 0 by {
            lemma_own_site(dist_type, wn, hn, x, y);
            assert(seeded[idx(wn, x, y)] == initial_site(*img, x, y));
            assert(rules.potential((x as u32, y as u32), sites[idx(wn, x, y)]) <= rules.potential(
                (x as u32, y as u32),
                seeded[idx(wn, x, y)],
            ));
        }
    }
    result
}


/// The distance transform on tiles: as `dist_transform`, with the site map
/// propagated by `propagate_parallel` over `num_threads` tiles.
pub fn dist_transform_parallel(img: &Image8, dist_type: DistTypes, num_threads: u32) -> (r: Image8)
    requires
        num_threads >= 1,
        img.spec_width() * img.spec_height() <= u32::MAX,
    ensures
        r.spec_width() == img.spec_width(),
        r.spec_height() == img.spec_height(),
        r.cells().len() == img.spec_width() * img.spec_height(),
        distances_of(
            r.cells(),
            tiled_sites(*img, dist_type, num_threads as nat),
            dist_type,
            img.spec_width(),
            img.spec_height(),
        ),
        background_at_zero(*img, r.cells()),
{
    let width = img.cols();
    let height = img.rows();
    let ghost wn = width as nat;
    let ghost hn = height as nat;
    let mut vr_diagram = Image32::blank(width, height);
    let queue = get_initial_pixels(img, &mut vr_diagram);
    let ghost seeded = vr_diagram.cells();
    let rules = VoronoiRules { dist: dist_type, width };
    proof {
        assert forall|pos: (u32, u32)| in_region(pos, (0, 0), wn, hn) implies #[trigger] rules.admits(pos) by {}
    }
    let result = propagate_parallel(&vr_diagram, &rules, &queue, num_threads);
    let dist_img = get_final_dist_img(width, height, &result, &rules);
    proof {
        let sites = result.cells();
        assert(settled(rules, seeded, sites, wn, hn, (0, 0), queue@));
        assert(rules == VoronoiRules { dist: dist_type, width: wn as u32 });
        assert(seeded.len() == wn * hn);
        assert(distances_of(dist_img.cells(), sites, dist_type, wn, hn));
        assert forall|x: int, y: int|
            0 <= x < width && 0 <= y < height && img.cells()[idx(wn, x, y)] == BG implies #[trigger] dist_img.cells()[idx(
            wn,
            x,
            y,
        )] == 0 by {
            lemma_own_site(dist_type, wn, hn, x, y);
            assert(seeded[idx(wn, x, y)] == initial_site(*img, x, y));
            assert(rules.potential((x as u32, y as u32), sites[idx(wn, x, y)]) <= rules.potential(
                (x as u32, y as u32),
                seeded[idx(wn, x, y)],
            ));
        }
    }
    dist_img
}

} // verus!
