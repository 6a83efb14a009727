use disjoint::DisjointSet;
use hilbert::point::Point;
use hilbert_maze::canvas::Canvas;
use hilbert_maze::lattice::Location;
use hilbert_maze::render::colorize;
use hilbert_maze::render::grid_side;
use hilbert_maze::render::make_image;
use hilbert_maze::render::ConfigError;
use num::BigUint;
use rand::rngs::StdRng;
use rand::seq::SliceRandom;
use rand::Rng;
use rand::SeedableRng;

fn pixels_of(canvas: &Canvas) -> Vec<[u8; 3]> {
    let mut all: Vec<[u8; 3]> = Vec::new();
    for x in 0..canvas.width() {
        for y in 0..canvas.height() {
            all.push(canvas.pixel(x, y).unwrap());
        }
    }
    all
}

fn image(scale: usize, seed: u64) -> Canvas {
    match make_image(scale, seed) {
        Ok(canvas) => canvas,
        Err(error) => panic!("no image for scale {}: {:?}", scale, error),
    }
}

// The same picture made with the crates called directly, the tree kept as
// one flag per candidate edge: slot 2 * cell for the rightward edge of a
// cell, the next slot for its downward edge.
fn expected_pixels(scale: usize, seed: u64) -> Vec<[u8; 3]> {
    let size: usize = scale * scale * scale;
    let shades: u64 = (scale * scale) as u64;
    let bits: usize = shades.next_power_of_two().trailing_zeros() as usize;
    let mut rng = StdRng::seed_from_u64(seed);
    let mut slots: Vec<usize> = (0..2 * size * size).collect();
    slots.shuffle(&mut rng);
    let mut sets = DisjointSet::with_len(size * size);
    let mut in_tree = vec![false; 2 * size * size];
    for slot in slots {
        let (row, col): (usize, usize) = (slot / 2 / size, slot / 2 % size);
        let other: usize =
            if slot % 2 == 0 { row * size + (col + 1) % size } else { (row + 1) % size * size + col };
        if sets.join(slot / 2, other) {
            in_tree[slot] = true;
        }
    }
    let start_row: usize = rng.gen_range(0..size);
    let start_col: usize = rng.gen_range(0..size);
    let mut pixels = vec![[0u8; 3]; size * size];
    let mut stack: Vec<(usize, usize, u8)> = vec![(start_row, start_col, 0)];
    let mut index: u64 = 0;
    while let Some((row, col, from)) = stack.pop() {
        let point = Point::new_from_hilbert_index(0, &BigUint::from(index), bits, 3);
        let axes = point.get_coordinates();
        for channel in 0..3 {
            pixels[row * size + col][channel] = (axes[channel] as u8 as u64 * 255 / (shades - 1)) as u8;
        }
        index += 1;
        let left: usize = (col + size - 1) % size;
        let up: usize = (row + size - 1) % size;
        if in_tree[2 * (row * size + col)] && from != b'L' {
            stack.push((row, (col + 1) % size, b'R'));
        }
        if in_tree[2 * (row * size + col) + 1] && from != b'U' {
            stack.push(((row + 1) % size, col, b'D'));
        }
        if in_tree[2 * (row * size + left)] && from != b'R' {
            stack.push((row, left, b'L'));
        }
        if in_tree[2 * (up * size + col) + 1] && from != b'D' {
            stack.push((up, col, b'U'));
        }
    }
    assert_eq!(index, (size * size) as u64);
    pixels
}

#[test]
fn scale_zero_is_rejected() {
    assert_eq!(make_image(0, 0).err(), Some(ConfigError::ZeroScale));
    assert_eq!(make_image(0, 12345).err(), Some(ConfigError::ZeroScale));
}

#[test]
fn a_scale_beyond_the_buffers_is_rejected() {
    assert_eq!(make_image(1626, 1).err(), Some(ConfigError::ScaleTooLarge));
    assert_eq!(make_image(usize::MAX, 1).err(), Some(ConfigError::ScaleTooLarge));
    assert_eq!(make_image(100_000, 1).err(), Some(ConfigError::ScaleTooLarge));
}

#[test]
fn the_side_of_the_grid_is_the_cube_of_the_scale() {
    assert_eq!(grid_side(0), Some(0));
    assert_eq!(grid_side(1), Some(1));
    assert_eq!(grid_side(2), Some(8));
    assert_eq!(grid_side(3), Some(27));
    assert_eq!(grid_side(16), Some(4096));
    assert_eq!(grid_side(25), Some(15625));
    assert_eq!(grid_side(1626), None);
    assert_eq!(grid_side(usize::MAX), None);
}

#[test]
fn the_largest_grid_leaves_room_for_48_bytes_a_cell() {
    let mut largest: usize = 0;
    for scale in 1usize..1700 {
        let side: u128 = (scale as u128).pow(3);
        let holds = side <= u32::MAX as u128 && 48 * side * side <= isize::MAX as u128;
        assert_eq!(grid_side(scale).is_some(), holds);
        if holds {
            largest = scale;
        }
    }
    assert!(largest >= 25);
}

#[test]
fn scale_one_gives_a_single_black_pixel() {
    for seed in [0u64, 1, 2, 99, u64::MAX] {
        let canvas = image(1, seed);
        assert_eq!(canvas.width(), 1);
        assert_eq!(canvas.height(), 1);
        assert_eq!(canvas.pixel(0, 0), Some([0, 0, 0]));
    }
}

#[test]
fn scale_two_gives_an_eight_by_eight_image() {
    let canvas = image(2, 42);
    assert_eq!(canvas.width(), 8);
    assert_eq!(canvas.height(), 8);
    assert_eq!(pixels_of(&canvas).len(), 64);
}

#[test]
fn scale_two_uses_each_of_its_64_colours_once() {
    for seed in 0u64..10 {
        let mut pixels = pixels_of(&image(2, seed));
        for pixel in &pixels {
            for channel in pixel {
                assert!([0u8, 85, 170, 255].contains(channel));
            }
        }
        pixels.sort();
        pixels.dedup();
        assert_eq!(pixels.len(), 64);
    }
}

#[test]
fn the_first_cell_of_the_walk_is_black() {
    for seed in 0u64..10 {
        let pixels = pixels_of(&image(3, seed));
        assert_eq!(pixels.iter().filter(|pixel| **pixel == [0, 0, 0]).count(), 1);
    }
}

#[test]
fn scale_two_matches_the_directly_made_picture() {
    for seed in [0u64, 1, 2, 3, 42, 1234567, u64::MAX] {
        assert_eq!(pixels_of(&image(2, seed)), expected_pixels(2, seed));
    }
}

#[test]
fn scale_three_matches_the_directly_made_picture() {
    for seed in [0u64, 7, 99] {
        assert_eq!(pixels_of(&image(3, seed)), expected_pixels(3, seed));
    }
}

#[test]
fn scale_four_matches_the_directly_made_picture() {
    assert_eq!(pixels_of(&image(4, 2024)), expected_pixels(4, 2024));
}

#[test]
fn the_same_scale_and_seed_give_the_same_image() {
    for scale in 1usize..4 {
        for seed in [0u64, 5, 31337] {
            assert_eq!(pixels_of(&image(scale, seed)), pixels_of(&image(scale, seed)));
        }
    }
}

#[test]
fn different_seeds_give_different_images() {
    assert_ne!(pixels_of(&image(2, 1)), pixels_of(&image(2, 2)));
    assert_ne!(pixels_of(&image(3, 1)), pixels_of(&image(3, 2)));
}

#[test]
fn every_pixel_has_three_channels() {
    let canvas = image(3, 8);
    assert_eq!(canvas.width(), 27);
    assert_eq!(canvas.height(), 27);
    for pixel in pixels_of(&canvas) {
        assert_eq!(pixel.len(), 3);
    }
}

#[test]
fn colorize_paints_cells_in_the_order_given() {
    let order = vec![
        Location { row: 0, col: 0 },
        Location { row: 7, col: 7 },
        Location { row: 3, col: 5 },
    ];
    let canvas = colorize(&order, 2);
    assert_eq!(canvas.width(), 8);
    assert_eq!(canvas.height(), 8);
    for (index, cell) in order.iter().enumerate() {
        let point = Point::new_from_hilbert_index(0, &BigUint::from(index), 2, 3);
        let axes = point.get_coordinates();
        let shade = [axes[0] as u8 * 85, axes[1] as u8 * 85, axes[2] as u8 * 85];
        assert_eq!(canvas.pixel(cell.row as u32, cell.col as u32), Some(shade));
    }
    assert_eq!(canvas.pixel(1, 1), Some([0, 0, 0]));
}

#[test]
fn colorize_keeps_the_later_colour_of_a_cell_listed_twice() {
    let order = vec![Location { row: 2, col: 2 }, Location { row: 2, col: 2 }];
    let canvas = colorize(&order, 2);
    let point = Point::new_from_hilbert_index(0, &BigUint::from(1u64), 2, 3);
    let axes = point.get_coordinates();
    let shade = [axes[0] as u8 * 85, axes[1] as u8 * 85, axes[2] as u8 * 85];
    assert_ne!(shade, [0, 0, 0]);
    assert_eq!(canvas.pixel(2, 2), Some(shade));
}

#[test]
fn colorize_at_scale_one_paints_black() {
    let canvas = colorize(&vec![Location { row: 0, col: 0 }], 1);
    assert_eq!(canvas.width(), 1);
    assert_eq!(canvas.pixel(0, 0), Some([0, 0, 0]));
}
