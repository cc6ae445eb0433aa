use imagepkg::dist_transform::{
    aprox_euclidean_distance, chessboard_distance, city_block_distance, get_initial_pixels,
    INF_PIXEL,
};
use imagepkg::{convert_to_binary, dist_transform, dist_transform_parallel, DistTypes, Image32, Image8, Raster};

fn filled(width: u32, height: u32, value: u8) -> Image8 {
    let mut img = Image8::blank(width, height);
    for i in 0..width {
        for j in 0..height {
            img.set_pixel(i, j, value);
        }
    }
    img
}

fn corner_img() -> Image8 {
    let mut img = filled(3, 3, 1);
    img.set_pixel(2, 2, 0);
    img
}

fn rows_of(img: &Image8) -> Vec<Vec<u8>> {
    (0..img.rows()).map(|y| (0..img.cols()).map(|x| img.pixel(x, y)).collect()).collect()
}

/// A 12 x 9 binary image with a few background blobs.
fn blobs_img() -> Image8 {
    let mut img = filled(12, 9, 1);
    for p in [(0, 0), (5, 4), (6, 4), (11, 8), (3, 7), (10, 1)] {
        img.set_pixel(p.0, p.1, 0);
    }
    img
}

#[test]
fn dist_transform_test_get_initial_pixels() {
    let mut vr_diagram = Image32::blank(3, 3);
    let mut img = filled(3, 3, 0);
    img.set_pixel(1, 1, 1);

    let queue = get_initial_pixels(&img, &mut vr_diagram);
    let mut expected: Vec<(u32, u32)> =
        vec![(0, 2), (2, 1), (0, 1), (2, 2), (1, 0), (2, 0), (1, 2), (0, 0)];
    let mut got: Vec<(u32, u32)> = queue.into_iter().collect();
    got.sort();
    expected.sort();
    assert_eq!(got, expected);

    let p_value = vr_diagram.pixel(1, 1);
    assert_eq!(p_value, INF_PIXEL);
    assert_eq!(vr_diagram.pixel(2, 1), 5);
}

#[test]
fn test_aprox_euclidean_distance() {
    let res = aprox_euclidean_distance((1, 1), (1, 1));
    let exp = 0;
    assert_eq!(exp, res);

    let res = aprox_euclidean_distance((1, 1), (3, 1));
    let exp = 2;
    assert_eq!(exp, res);

    let res = aprox_euclidean_distance((2, 2), (3, 1));
    let exp = 1;
    assert_eq!(exp, res);

    let res = aprox_euclidean_distance((2, 2), (4, 0));
    let exp = 3;
    assert_eq!(exp, res);
}

#[test]
fn euclidean_rounds_to_nearest() {
    // against rounding of the floating-point square root
    for a in 0..40u32 {
        for b in 0..40u32 {
            let exact = (((a * a + b * b) as f64).sqrt()).round() as u64;
            assert_eq!(aprox_euclidean_distance((0, 0), (a, b)), exact);
        }
    }
    assert_eq!(aprox_euclidean_distance((0, 0), (u32::MAX, u32::MAX)), 6074000999);
}

#[test]
fn test_city_block_distance() {
    let res = city_block_distance((1, 1), (1, 1));
    let exp = 0;
    assert_eq!(exp, res);

    let res = city_block_distance((1, 1), (3, 1));
    let exp = 2;
    assert_eq!(exp, res);

    let res = city_block_distance((2, 2), (3, 1));
    let exp = 2;
    assert_eq!(exp, res);

    let res = city_block_distance((1, 0), (7, 6));
    let exp = 12;
    assert_eq!(exp, res);

    let res = city_block_distance((0, 0), (2, 2));
    let exp = 4;
    assert_eq!(exp, res);
}

#[test]
fn test_chessboard_distance() {
    let res = chessboard_distance((1, 1), (1, 1));
    let exp = 0;
    assert_eq!(exp, res);

    let res = chessboard_distance((1, 1), (3, 1));
    let exp = 2;
    assert_eq!(exp, res);

    let res = chessboard_distance((2, 2), (3, 1));
    let exp = 1;
    assert_eq!(exp, res);

    let res = chessboard_distance((2, 2), (4, 0));
    let exp = 2;
    assert_eq!(exp, res);
}

#[test]
fn metric_laws_on_values() {
    let points = [(0u32, 0u32), (3, 9), (7, 2), (100, 41), (5, 5)];
    for p in points {
        assert_eq!(aprox_euclidean_distance(p, p), 0);
        assert_eq!(city_block_distance(p, p), 0);
        assert_eq!(chessboard_distance(p, p), 0);
        for q in points {
            assert_eq!(aprox_euclidean_distance(p, q), aprox_euclidean_distance(q, p));
            assert_eq!(city_block_distance(p, q), city_block_distance(q, p));
            assert_eq!(chessboard_distance(p, q), chessboard_distance(q, p));
            assert!(city_block_distance(p, q) >= chessboard_distance(p, q));
            assert!(aprox_euclidean_distance(p, q) >= chessboard_distance(p, q));
            assert!(aprox_euclidean_distance(p, q) <= city_block_distance(p, q));
        }
    }
    assert_eq!(city_block_distance((0, 0), (u32::MAX, u32::MAX)), 2 * u32::MAX as u64);
}

#[test]
fn test_euclidean_dist_transform() {
    let img = corner_img();
    let dis_img = dist_transform(&img, DistTypes::Euclidean);

    let mut expected = filled(3, 3, 2);
    expected.set_pixel(0, 0, 3);
    expected.set_pixel(1, 1, 1);
    expected.set_pixel(2, 1, 1);
    expected.set_pixel(1, 2, 1);
    expected.set_pixel(2, 2, 0);

    assert_eq!(dis_img, expected);
    assert_eq!(rows_of(&dis_img), vec![vec![3, 2, 2], vec![2, 1, 1], vec![2, 1, 0]]);
}

#[test]
fn test_city_block_dist_transform() {
    let img = corner_img();
    let dis_img = dist_transform(&img, DistTypes::CityBlock);

    let mut expected = filled(3, 3, 2);
    expected.set_pixel(0, 0, 4);
    expected.set_pixel(0, 1, 3);
    expected.set_pixel(1, 0, 3);
    expected.set_pixel(1, 2, 1);
    expected.set_pixel(2, 1, 1);
    expected.set_pixel(2, 2, 0);

    assert_eq!(dis_img, expected);
    assert_eq!(rows_of(&dis_img), vec![vec![4, 3, 2], vec![3, 2, 1], vec![2, 1, 0]]);
}

#[test]
fn test_chessboard_dist_transform() {
    let img = corner_img();
    let dis_img = dist_transform(&img, DistTypes::Chessboard);

    let mut expected = filled(3, 3, 2);
    expected.set_pixel(1, 1, 1);
    expected.set_pixel(1, 2, 1);
    expected.set_pixel(2, 1, 1);
    expected.set_pixel(2, 2, 0);

    assert_eq!(dis_img, expected);
    assert_eq!(rows_of(&dis_img), vec![vec![2, 2, 2], vec![2, 1, 1], vec![2, 1, 0]]);
}

#[test]
fn test_distance_transform() {
    // a grey image, binarised, then transformed
    let mut grey = filled(12, 9, 200);
    for p in [(0, 0), (5, 4), (6, 4), (11, 8), (3, 7), (10, 1)] {
        grey.set_pixel(p.0, p.1, 17);
    }
    let bin_img = convert_to_binary(&grey);
    assert_eq!(bin_img, blobs_img());
    let res = dist_transform(&bin_img, DistTypes::Euclidean);
    assert_eq!(res.pixel(5, 4), 0);
    assert_eq!(res.pixel(0, 0), 0);
    assert_eq!(res.pixel(1, 1), 1);
    assert_eq!(res.pixel(8, 4), 2);
}

#[test]
fn all_foreground_has_no_site() {
    let img = filled(4, 3, 1);
    for kind in [DistTypes::Euclidean, DistTypes::CityBlock, DistTypes::Chessboard] {
        let d = dist_transform(&img, kind);
        assert_eq!(d, filled(4, 3, 255));
    }
}

#[test]
fn all_background_is_zero() {
    let img = filled(5, 2, 0);
    assert_eq!(dist_transform(&img, DistTypes::CityBlock), filled(5, 2, 0));
}

#[test]
fn far_distances_are_clamped() {
    let mut img = filled(300, 1, 1);
    img.set_pixel(0, 0, 0);
    let d = dist_transform(&img, DistTypes::CityBlock);
    assert_eq!(d.pixel(10, 0), 10);
    assert_eq!(d.pixel(255, 0), 255);
    assert_eq!(d.pixel(299, 0), 255);
}

#[test]
fn parallel_distance_transform_matches_sequential() {
    for kind in [DistTypes::Euclidean, DistTypes::CityBlock, DistTypes::Chessboard] {
        for img in [corner_img(), blobs_img()] {
            let sequential = dist_transform(&img, kind);
            for n in [1, 2, 4, 8, 12] {
                assert_eq!(dist_transform_parallel(&img, kind, n), sequential, "{:?} n = {}", kind, n);
            }
        }
    }
}
