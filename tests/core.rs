use imagepkg::img::{
    get_bottom_border_pixels_coords, get_left_border_pixels_coords, get_right_border_pixels_coords,
    get_upper_border_pixels_coords, is_pixel_in_section,
};
use imagepkg::iwp::{iwp, propagate, propagate_parallel, section_queue};
use imagepkg::mr::{get_initial_pixels, get_initial_pixels_parallel, propagation_condition, update_func};
use imagepkg::parallel_img::{arrange, get_full_img, ParallelSection};
use imagepkg::{
    convert_to_binary, get_pixel_neighbours, morph_reconstruction, morph_reconstruction_parallel,
    ConnTypes, Image8, PixelT, Raster,
};
use std::collections::VecDeque;

fn same_value_image(width: u32, height: u32, value: u8) -> Image8 {
    let mut img = Image8::blank(width, height);
    for i in 0..width {
        for j in 0..height {
            img.set_pixel(i, j, value);
        }
    }
    img
}

/// The 6 x 6 image with two 2 x 2 squares of 1 touching at a corner.
fn example_img() -> Image8 {
    let mut img = same_value_image(6, 6, 0);
    for p in [(1, 1), (1, 2), (2, 1), (2, 2), (3, 3), (3, 4), (4, 3), (4, 4)] {
        img.set_pixel(p.0, p.1, 1);
    }
    img
}

/// A 4 x 4 image whose pixels count up in row-major order.
fn seq_img() -> Image8 {
    let mut img = same_value_image(4, 4, 0);
    for y in 0..4 {
        for x in 0..4 {
            img.set_pixel(x, y, (y * 4 + x) as u8);
        }
    }
    img
}

fn scattered(base: u8, square_a: u8, square_b: u8, spot: u8) -> Image8 {
    let mut img = same_value_image(10, 10, base);
    for i in 1..4 {
        for j in 1..4 {
            img.set_pixel(i, j, square_a);
        }
    }
    for i in 5..8 {
        for j in 5..8 {
            img.set_pixel(i, j, square_b);
        }
    }
    for p in [(1, 5), (1, 8), (2, 7), (3, 6), (3, 8), (6, 1), (6, 3), (6, 9), (7, 2), (8, 1), (8, 3)] {
        img.set_pixel(p.0, p.1, spot);
    }
    img
}

fn big_marker_img() -> Image8 {
    scattered(8, 12, 16, 9)
}

fn big_mask_img() -> Image8 {
    scattered(10, 14, 18, 11)
}

fn expected_img() -> Image8 {
    let mut img = same_value_image(10, 10, 10);
    for i in 1..4 {
        for j in 1..4 {
            img.set_pixel(i, j, 12);
        }
    }
    for i in 5..8 {
        for j in 5..8 {
            img.set_pixel(i, j, 16);
        }
    }
    img
}

fn to_deque(v: &[(u32, u32)]) -> VecDeque<(u32, u32)> {
    v.iter().copied().collect()
}

fn sequential_reconstruction(mask: &Image8, marker: &Image8) -> Image8 {
    let mut m = Image8::from_pixels(marker.cols(), marker.rows(), &marker.to_pixels()).unwrap();
    morph_reconstruction(mask, &mut m);
    m
}

#[test]
fn img_test_get_pixel_neighbours() {
    let mask = example_img();
    let ngbs = get_pixel_neighbours(&mask, (0, 0), ConnTypes::Eight);
    let expected = vec![(0, 1), (1, 0), (1, 1)];
    assert_eq!(ngbs, expected);

    let ngbs = get_pixel_neighbours(&mask, (0, 0), ConnTypes::Four);
    let expected = vec![(0, 1), (1, 0)];
    assert_eq!(ngbs, expected);

    let ngbs = get_pixel_neighbours(&mask, (2, 2), ConnTypes::Eight);
    let expected = vec![(1, 1), (1, 2), (1, 3), (2, 1), (2, 3), (3, 1), (3, 2), (3, 3)];
    assert_eq!(ngbs, expected);
}

#[test]
fn mr_test_get_pixel_neighbours() {
    let mask = example_img();
    let ngbs = get_pixel_neighbours(&mask, (0, 0), ConnTypes::Eight);
    let expected = vec![(0, 1), (1, 0), (1, 1)];
    assert_eq!(ngbs, expected);

    let ngbs = get_pixel_neighbours(&mask, (0, 0), ConnTypes::Four);
    let expected = vec![(0, 1), (1, 0)];
    assert_eq!(ngbs, expected);

    let ngbs = get_pixel_neighbours(&mask, (2, 2), ConnTypes::Eight);
    let expected = vec![(1, 1), (1, 2), (1, 3), (2, 1), (2, 3), (3, 1), (3, 2), (3, 3)];
    assert_eq!(ngbs, expected);
}

#[test]
fn neighbours_of_far_corner_and_edges() {
    let img = example_img();
    assert_eq!(get_pixel_neighbours(&img, (5, 5), ConnTypes::Eight), vec![(4, 4), (4, 5), (5, 4)]);
    assert_eq!(get_pixel_neighbours(&img, (5, 5), ConnTypes::Four), vec![(4, 5), (5, 4)]);
    assert_eq!(
        get_pixel_neighbours(&img, (2, 2), ConnTypes::Four),
        vec![(1, 2), (2, 1), (2, 3), (3, 2)]
    );
    assert_eq!(
        get_pixel_neighbours(&img, (3, 0), ConnTypes::Eight),
        vec![(2, 0), (2, 1), (3, 1), (4, 0), (4, 1)]
    );
    // the same call twice gives the same sequence
    assert_eq!(
        get_pixel_neighbours(&img, (3, 4), ConnTypes::Eight),
        get_pixel_neighbours(&img, (3, 4), ConnTypes::Eight)
    );
    // a position off the image keeps only the in-bounds cells of its patch
    assert_eq!(get_pixel_neighbours(&img, (6, 6), ConnTypes::Eight), vec![(5, 5)]);
    let empty = Image8::blank(0, 0);
    assert!(get_pixel_neighbours(&empty, (0, 0), ConnTypes::Eight).is_empty());
}

#[test]
fn test_is_pixel_in_section() {
    let section = ParallelSection { start: (0, 0), width: 2, height: 2, slice: example_img() };

    assert_eq!(is_pixel_in_section((0, 0), &section), true);
    assert_eq!(is_pixel_in_section((2, 2), &section), false);
    assert_eq!(is_pixel_in_section((1, 2), &section), false);
    assert_eq!(is_pixel_in_section((3, 2), &section), false);
}

#[test]
fn pixel_in_offset_section_is_half_open() {
    let section = ParallelSection { start: (3, 2), width: 2, height: 3, slice: same_value_image(2, 3, 0) };
    assert!(is_pixel_in_section((3, 2), &section));
    assert!(is_pixel_in_section((4, 4), &section));
    assert!(!is_pixel_in_section((5, 4), &section));
    assert!(!is_pixel_in_section((4, 5), &section));
    assert!(!is_pixel_in_section((2, 3), &section));
}

#[test]
fn test_get_upper_border_pixels_coords() {
    let img = seq_img();
    let mut upper_border = get_upper_border_pixels_coords(&img);
    let mut expected: Vec<(u32, u32)> = vec![(0, 0), (1, 0), (2, 0), (3, 0)];
    upper_border.sort();
    expected.sort();
    assert_eq!(upper_border, expected);
}

#[test]
fn test_get_left_border_pixels_coords() {
    let img = seq_img();
    let mut upper_border = get_left_border_pixels_coords(&img);
    let mut expected: Vec<(u32, u32)> = vec![(0, 0), (0, 1), (0, 2), (0, 3)];
    upper_border.sort();
    expected.sort();
    assert_eq!(upper_border, expected);
}

#[test]
fn test_get_bottom_border_pixels_coords() {
    let img = seq_img();
    let mut upper_border = get_bottom_border_pixels_coords(&img);
    let mut expected: Vec<(u32, u32)> = vec![(0, 3), (1, 3), (2, 3), (3, 3)];
    upper_border.sort();
    expected.sort();
    assert_eq!(upper_border, expected);
}

#[test]
fn test_get_right_border_pixels_coords() {
    let img = seq_img();
    let mut upper_border = get_right_border_pixels_coords(&img);
    let mut expected: Vec<(u32, u32)> = vec![(3, 0), (3, 1), (3, 2), (3, 3)];
    upper_border.sort();
    expected.sort();
    assert_eq!(upper_border, expected);
}

#[test]
fn borders_come_in_ascending_order() {
    let img = same_value_image(3, 2, 0);
    assert_eq!(get_upper_border_pixels_coords(&img), vec![(0, 0), (1, 0), (2, 0)]);
    assert_eq!(get_bottom_border_pixels_coords(&img), vec![(0, 1), (1, 1), (2, 1)]);
    assert_eq!(get_left_border_pixels_coords(&img), vec![(0, 0), (0, 1)]);
    assert_eq!(get_right_border_pixels_coords(&img), vec![(2, 0), (2, 1)]);
}

#[test]
fn mr_test_get_initial_pixels() {
    let mask = example_img();
    let mut marker = same_value_image(6, 6, 0);
    marker.set_pixel(4, 4, 1);

    let mut initial = get_initial_pixels(&mask, &mut marker);
    let mut expected = vec![(1, 1), (2, 1), (2, 2), (1, 2)];
    initial.sort();
    expected.sort();
    assert_eq!(initial, expected);
}

#[test]
fn mr_test_propagation_phase() {
    let mask = big_mask_img();
    let mut marker = big_marker_img();

    let mut initial: Vec<(u32, u32)> = Vec::new();
    for i in 0..10 {
        for j in 0..10 {
            if marker.pixel(i, j) != 8 {
                initial.push((i, j));
            }
        }
    }

    iwp(&mut marker, &mask, &mut initial);

    assert_eq!(marker, expected_img());
    assert!(initial.is_empty());
}

#[test]
fn propagate_with_deque_matches_vec_version() {
    let mask = big_mask_img();
    let mut marker = big_marker_img();
    let mut seeds: Vec<(u32, u32)> = Vec::new();
    for i in 0..10 {
        for j in 0..10 {
            if marker.pixel(i, j) != 8 {
                seeds.push((i, j));
            }
        }
    }
    let mut queue = to_deque(&seeds);
    propagate(&mut marker, &mask, &mut queue);
    assert_eq!(marker, expected_img());
    assert!(queue.is_empty());
}

#[test]
fn propagate_without_seeds_changes_nothing() {
    let mask = big_mask_img();
    let mut marker = big_marker_img();
    let mut queue = VecDeque::new();
    propagate(&mut marker, &mask, &mut queue);
    assert_eq!(marker, big_marker_img());
}

#[test]
fn reconstruction_predicates() {
    let mask = big_mask_img();
    let curr = PixelT { coords: (1, 1), value: 12 };
    let low = PixelT { coords: (0, 0), value: 8 };
    let full = PixelT { coords: (0, 1), value: 10 };
    // 8 is below 12 and below its mask value 10: it rises, to 10
    assert!(propagation_condition(&curr, &low, &mask));
    assert_eq!(update_func(&curr, &low, &mask), 10);
    // already at its mask value
    assert!(!propagation_condition(&curr, &full, &mask));
    // not below the current value
    let high = PixelT { coords: (2, 2), value: 13 };
    assert!(!propagation_condition(&curr, &high, &mask));
    // a neighbour inside the square rises only to the current value
    let inside = PixelT { coords: (2, 2), value: 9 };
    assert_eq!(update_func(&curr, &inside, &mask), 12);
}

#[test]
fn reconstruction_step_stays_within_mask() {
    let mask = big_mask_img();
    let mut marker = big_marker_img();
    morph_reconstruction(&mask, &mut marker);
    for x in 0..10 {
        for y in 0..10 {
            assert!(marker.pixel(x, y) <= mask.pixel(x, y));
            assert!(marker.pixel(x, y) >= big_marker_img().pixel(x, y));
        }
    }
}

#[test]
fn test_morphological_reconstruction() {
    let mask = big_mask_img();
    let mut marker = big_marker_img();
    morph_reconstruction(&mask, &mut marker);
    assert_eq!(marker, expected_img());
}

#[test]
fn test_get_initial_pixels_parallel() {
    let num_threads = 8;
    let mask = big_mask_img();
    let marker = big_marker_img();

    let (marker_new, mut initial) = get_initial_pixels_parallel(&mask, &marker, num_threads);

    let marker_new_sections = arrange(&marker_new, num_threads);
    let mut exp_sections = arrange(&marker, num_threads);
    let mask_sections = arrange(&mask, num_threads);
    let mut exp_queue: Vec<(u32, u32)> = Vec::new();
    for (count, section) in exp_sections.iter_mut().enumerate() {
        let exp_sec_initial = get_initial_pixels(&mask_sections[count].slice, &mut section.slice);
        for val in exp_sec_initial {
            let p = section.get_abs_pixel(val.0, val.1).coords;
            if !exp_queue.contains(&p) {
                exp_queue.push(p);
            }
        }
        assert_eq!(section.slice, marker_new_sections[count].slice);
    }
    exp_queue.sort();
    initial.sort();
    assert_eq!(exp_queue, initial);
}

#[test]
fn test_propagation_phase_parallel() {
    let num_threads = 8;
    let mask = big_mask_img();
    let mut marker = big_marker_img();
    let initial = get_initial_pixels(&mask, &mut marker);
    let queue = to_deque(&initial);
    let result = propagate_parallel(&marker, &mask, &queue, num_threads);

    let mut sequential = Image8::from_pixels(10, 10, &marker.to_pixels()).unwrap();
    let mut seq_queue = to_deque(&initial);
    propagate(&mut sequential, &mask, &mut seq_queue);
    assert_eq!(result, sequential);
    assert_eq!(result, expected_img());
}

#[test]
fn test_propagation_phase_parallel_time() {
    let mask = big_mask_img();
    let marker = big_marker_img();
    let num_threads = 15;
    let (marker_new, initial) = get_initial_pixels_parallel(&mask, &marker, num_threads);
    let result = propagate_parallel(&marker_new, &mask, &to_deque(&initial), num_threads);
    assert_eq!(result.cols(), 10);
    assert_eq!(result.rows(), 10);
    assert_eq!(result, expected_img());
}

#[test]
fn test_propagation_phase_parallel_2() {
    let mask = big_mask_img();
    let marker = big_marker_img();
    let num_threads = 12;
    let result = morph_reconstruction_parallel(&mask, &marker, num_threads);
    let sequential = sequential_reconstruction(&mask, &marker);
    assert_eq!(sequential, result);
}

#[test]
fn parallel_reconstruction_matches_sequential_for_all_tile_counts() {
    let mask = big_mask_img();
    let marker = big_marker_img();
    let sequential = sequential_reconstruction(&mask, &marker);
    for n in [1, 2, 4, 8, 12] {
        assert_eq!(morph_reconstruction_parallel(&mask, &marker, n), sequential, "n = {}", n);
    }
    let small_mask = example_img();
    let mut small_marker = same_value_image(6, 6, 0);
    small_marker.set_pixel(4, 4, 1);
    let small_sequential = sequential_reconstruction(&small_mask, &small_marker);
    assert_eq!(small_sequential, example_img());
    for n in [1, 2, 4, 8, 12] {
        assert_eq!(morph_reconstruction_parallel(&small_mask, &small_marker, n), small_sequential);
    }
}

#[test]
fn test_parallel_img_assemble() {
    let base_img = seq_img();
    let sections = arrange(&base_img, 4);
    let assembled_img = get_full_img(base_img.cols(), base_img.rows(), &sections);
    assert_eq!(base_img, assembled_img);
}

#[test]
fn arrange_covers_each_pixel_once() {
    for (w, h) in [(7u32, 5u32), (10, 10), (3, 2), (1, 1), (13, 4)] {
        let img = same_value_image(w, h, 3);
        for n in [1u32, 2, 3, 4, 5, 7, 8, 12] {
            let sections = arrange(&img, n);
            assert_eq!(sections.len(), n as usize);
            for x in 0..w {
                for y in 0..h {
                    let count = sections.iter().filter(|s| is_pixel_in_section((x, y), s)).count();
                    assert_eq!(count, 1, "w={} h={} n={} at ({}, {})", w, h, n, x, y);
                }
            }
            for s in &sections {
                assert!(s.start.0 + s.width <= w && s.start.1 + s.height <= h);
                assert_eq!((s.slice.cols(), s.slice.rows()), (s.width, s.height));
            }
            assert_eq!(get_full_img(w, h, &sections), img);
        }
    }
}

#[test]
fn arrange_five_tiles_layout() {
    // five tiles: three columns, one full row, then a row of two orphans
    let img = same_value_image(7, 5, 0);
    let rects: Vec<(u32, u32, u32, u32)> =
        arrange(&img, 5).iter().map(|s| (s.start.0, s.start.1, s.width, s.height)).collect();
    assert_eq!(rects, vec![(0, 0, 2, 2), (2, 0, 2, 2), (4, 0, 3, 2), (0, 2, 3, 3), (3, 2, 4, 3)]);
}

#[test]
fn section_pixels_relative_and_absolute() {
    let img = seq_img();
    let sections = arrange(&img, 4);
    let last = &sections[3];
    assert_eq!(last.start, (2, 2));
    let rel = last.get_relative_pixel(1, 0);
    assert_eq!(rel.coords, (1, 0));
    assert_eq!(rel.value, 11);
    let abs = last.get_abs_pixel(1, 0);
    assert_eq!(abs.coords, (3, 2));
    assert_eq!(abs.value, 11);
}

#[test]
fn section_queue_keeps_order_and_members() {
    let img = seq_img();
    let sections = arrange(&img, 4);
    let queue = to_deque(&[(3, 3), (0, 0), (2, 3), (1, 1), (2, 2)]);
    let q = section_queue(&queue, &sections[3]);
    assert_eq!(q.into_iter().collect::<Vec<_>>(), vec![(3, 3), (2, 3), (2, 2)]);
}

#[test]
fn binary_conversion_threshold() {
    let mut img = same_value_image(3, 1, 0);
    img.set_pixel(0, 0, 128);
    img.set_pixel(1, 0, 129);
    img.set_pixel(2, 0, 255);
    let bin = convert_to_binary(&img);
    assert_eq!(bin.to_pixels(), vec![0, 1, 1]);
}

#[test]
fn image_from_pixels_round_trip() {
    let data: Vec<u8> = (0..12).collect();
    let img = Image8::from_pixels(4, 3, &data).unwrap();
    assert_eq!(img.pixel(1, 2), 9);
    assert_eq!(img.to_pixels(), data);
    assert!(Image8::from_pixels(4, 4, &data).is_none());
    assert!(Image8::from_pixels(0, 0, &Vec::new()).is_some());
}
