use hilbert::point::Point;
use hilbert_maze::canvas::Canvas;
use hilbert_maze::curve::bits_for;
use hilbert_maze::curve::color_base_to_color;
use hilbert_maze::curve::curve_base;
use num::BigUint;

#[test]
fn bit_depth_is_the_logarithm_of_the_next_power_of_two() {
    assert_eq!(bits_for(0), 0);
    assert_eq!(bits_for(1), 0);
    assert_eq!(bits_for(2), 1);
    assert_eq!(bits_for(3), 2);
    assert_eq!(bits_for(4), 2);
    assert_eq!(bits_for(5), 3);
    assert_eq!(bits_for(9), 4);
    assert_eq!(bits_for(16), 4);
    assert_eq!(bits_for(17), 5);
    assert_eq!(bits_for(225), 8);
    assert_eq!(bits_for(256), 8);
    assert_eq!(bits_for(257), 9);
    assert_eq!(bits_for(1 << 32), 32);
    assert_eq!(bits_for(1 << 63), 63);
    assert_eq!(bits_for((1 << 63) + 1), 64);
    assert_eq!(bits_for(u64::MAX), 64);
}

#[test]
fn coordinates_stay_within_their_bits() {
    for bits in 1usize..5 {
        let points: u64 = 1 << (3 * bits);
        for index in 0..points {
            let base = curve_base(index, bits);
            for axis in 0..3 {
                assert!((base[axis] as u64) < (1 << bits));
            }
        }
    }
}

#[test]
fn channels_are_stretched_to_the_range_of_a_byte() {
    assert_eq!(color_base_to_color([0, 1, 3], 4), [0, 85, 255]);
    assert_eq!(color_base_to_color([2, 2, 2], 4), [170, 170, 170]);
    assert_eq!(color_base_to_color([8, 4, 1], 9), [255, 127, 31]);
    assert_eq!(color_base_to_color([255, 128, 1], 256), [255, 128, 1]);
    assert_eq!(color_base_to_color([224, 100, 7], 225), [255, 113, 7]);
}

#[test]
fn a_channel_beyond_the_color_size_is_cut_to_eight_bits() {
    assert_eq!(color_base_to_color([15, 9, 8], 9), [222, 30, 255]);
}

#[test]
fn a_single_shade_gives_black() {
    assert_eq!(color_base_to_color([0, 0, 0], 1), [0, 0, 0]);
    assert_eq!(color_base_to_color([7, 200, 255], 1), [0, 0, 0]);
    assert_eq!(color_base_to_color([7, 200, 255], 0), [0, 0, 0]);
}

#[test]
fn a_curve_of_no_bits_stays_at_the_origin() {
    assert_eq!(curve_base(0, 0), [0, 0, 0]);
    assert_eq!(curve_base(5, 0), [0, 0, 0]);
}

#[test]
fn the_curve_starts_at_the_origin() {
    assert_eq!(curve_base(0, 1), [0, 0, 0]);
    assert_eq!(curve_base(0, 8), [0, 0, 0]);
}

#[test]
fn the_curve_moves_one_step_at_a_time() {
    let bits: usize = 3;
    let mut last = curve_base(0, bits);
    for index in 1u64..512 {
        let here = curve_base(index, bits);
        let mut moved: u32 = 0;
        for axis in 0..3 {
            moved += (here[axis] as i32 - last[axis] as i32).unsigned_abs();
        }
        assert_eq!(moved, 1);
        last = here;
    }
}

#[test]
fn the_curve_of_two_bits_fills_the_cube() {
    let mut met = vec![false; 64];
    for index in 0u64..64 {
        let p = curve_base(index, 2);
        assert!(p[0] < 4 && p[1] < 4 && p[2] < 4);
        let place = (p[0] as usize * 4 + p[1] as usize) * 4 + p[2] as usize;
        assert!(!met[place]);
        met[place] = true;
    }
}

#[test]
fn curve_points_are_those_of_the_hilbert_crate() {
    for bits in [1usize, 2, 4, 8] {
        for index in [0u64, 1, 2, 3, 5, 7] {
            let point = Point::new_from_hilbert_index(0, &BigUint::from(index), bits, 3);
            let axes = point.get_coordinates();
            let base = curve_base(index, bits);
            assert_eq!(base, [axes[0] as u8, axes[1] as u8, axes[2] as u8]);
        }
    }
}

#[test]
fn wide_coordinates_are_cut_to_their_low_byte() {
    let bits: usize = 10;
    let index: u64 = (1 << 30) - 1;
    let point = Point::new_from_hilbert_index(0, &BigUint::from(index), bits, 3);
    let axes = point.get_coordinates();
    assert!(axes.iter().any(|a| *a > 255));
    let base = curve_base(index, bits);
    assert_eq!(base, [(axes[0] % 256) as u8, (axes[1] % 256) as u8, (axes[2] % 256) as u8]);
}

#[test]
fn a_new_canvas_is_black() {
    let canvas = Canvas::black(3, 2);
    assert_eq!(canvas.width(), 3);
    assert_eq!(canvas.height(), 2);
    for x in 0u32..3 {
        for y in 0u32..2 {
            assert_eq!(canvas.pixel(x, y), Some([0, 0, 0]));
        }
    }
}

#[test]
fn painting_sets_one_pixel() {
    let mut canvas = Canvas::black(3, 2);
    canvas.paint(2, 1, [9, 8, 7]);
    canvas.paint(0, 1, [1, 2, 3]);
    assert_eq!(canvas.pixel(2, 1), Some([9, 8, 7]));
    assert_eq!(canvas.pixel(0, 1), Some([1, 2, 3]));
    assert_eq!(canvas.pixel(1, 1), Some([0, 0, 0]));
    assert_eq!(canvas.pixel(2, 0), Some([0, 0, 0]));
    assert_eq!(canvas.width(), 3);
    assert_eq!(canvas.height(), 2);
}

#[test]
fn painting_twice_keeps_the_later_colour() {
    let mut canvas = Canvas::black(1, 1);
    canvas.paint(0, 0, [9, 8, 7]);
    canvas.paint(0, 0, [1, 2, 3]);
    assert_eq!(canvas.pixel(0, 0), Some([1, 2, 3]));
}

#[test]
fn there_is_no_pixel_outside_the_canvas() {
    let canvas = Canvas::black(3, 2);
    assert_eq!(canvas.pixel(3, 0), None);
    assert_eq!(canvas.pixel(0, 2), None);
    assert_eq!(canvas.pixel(2, 1), Some([0, 0, 0]));
    let empty = Canvas::black(0, 0);
    assert_eq!(empty.pixel(0, 0), None);
}
