use touchpad_raw::axis::place;

/// The same position, computed with the machine's single-precision numbers.
fn place_in_floats(value: u32, min: i32, max: i32, last: usize) -> usize {
    let span = (max - min).max(1) as f32;
    let fraction = ((value as i32 - min) as f32 / span).clamp(0.0, 1.0);
    (fraction * last as f32).round() as usize
}

fn next(state: &mut u64) -> u64 {
    *state = state
        .wrapping_mul(6364136223846793005)
        .wrapping_add(1442695040888963407);
    *state >> 24
}

#[test]
fn agrees_with_floats_on_every_coordinate_of_a_real_pad() {
    for value in 0..=4000u32 {
        assert_eq!(place(value, 0, 3500, 79), place_in_floats(value, 0, 3500, 79));
        assert_eq!(place(value, 0, 2047, 19), place_in_floats(value, 0, 2047, 19));
        assert_eq!(place(value, 17, 158, 79), place_in_floats(value, 17, 158, 79));
    }
}

#[test]
fn agrees_with_floats_on_wide_ranges() {
    let mut state = 1u64;
    let mut compared = 0;
    while compared < 400_000 {
        let bits = next(&mut state) % 33;
        let mask = if bits == 32 { u32::MAX } else { (1u32 << bits) - 1 };
        let value = next(&mut state) as u32 & mask;
        let min = (next(&mut state) as u32 & mask >> 1) as i32 / 3;
        let max = (next(&mut state) as u32 & mask) as i32;
        let span = max as i64 - min as i64;
        let offset = value as i32 as i64 - min as i64;
        if span < i32::MIN as i64 || span > i32::MAX as i64 || offset < i32::MIN as i64 || offset > i32::MAX as i64 {
            continue;
        }
        assert_eq!(place(value, min, max, 79), place_in_floats(value, min, max, 79), "{value} {min} {max}");
        assert_eq!(place(value, min, max, 19), place_in_floats(value, min, max, 19), "{value} {min} {max}");
        compared += 1;
    }
}

#[test]
fn agrees_with_floats_where_a_cell_ends() {
    // Positions as near as integers come to the middle between two cells.
    for span in [79i32, 158, 159, 1 << 24, (1 << 24) + 1, (1 << 25) - 1, 0x7fff_ffff, 0x7fff_ff80, 0x5555_5555] {
        for cell in 0..79i64 {
            let middle = (span as i64 * (2 * cell + 1)) / 158;
            for near in -200..=200i64 {
                let value = middle + near;
                if value < 0 || value > 0x7fff_ffff {
                    continue;
                }
                let value = value as u32;
                assert_eq!(place(value, 0, span, 79), place_in_floats(value, 0, span, 79), "{value} {span}");
            }
        }
    }
}

#[test]
fn rounding_decides_near_the_middle_between_two_cells() {
    // Exactly, this finger is a hair before the middle between cells 2 and 3.
    assert!(2 * 79 * 67_958_341u64 < 5 * 2_147_483_647);
    assert_eq!(place(67_958_341, 0, 2_147_483_647, 79), 3);
    assert_eq!(place_in_floats(67_958_341, 0, 2_147_483_647, 79), 3);
}

#[test]
fn a_finger_further_along_is_never_drawn_before() {
    let mut last = 0;
    for value in (0..2_000_000_000u32).step_by(9_999_991) {
        let index = place(value, 1000, 1_900_000_001, 79);
        assert!(index >= last);
        last = index;
    }
    assert_eq!(last, 79);
}

#[test]
fn a_finger_is_drawn_near_its_exact_place() {
    for value in 0..=3500i64 {
        let index = place(value as u32, 0, 3500, 79) as i64;
        assert!((index * 3500 - 79 * value).abs() <= 3500);
    }
}

#[test]
fn the_ends_of_the_range_are_the_ends_of_the_axis() {
    assert_eq!(place(0, 0, 3500, 79), 0);
    assert_eq!(place(3500, 0, 3500, 79), 79);
    assert_eq!(place(100, 100, 3500, 19), 0);
    assert_eq!(place(3500, 100, 3500, 19), 19);
}

#[test]
fn outside_the_range_is_clamped() {
    assert_eq!(place(5, 100, 3500, 79), 0);
    assert_eq!(place(u32::MAX, 0, 3500, 79), 0);
    assert_eq!(place(3501, 100, 3500, 79), 79);
    assert_eq!(place(1_000_000, 100, 3500, 79), 79);
}

#[test]
fn a_degenerate_range_counts_as_one_wide() {
    assert_eq!(place(0, 0, 0, 79), 0);
    assert_eq!(place(1, 0, 0, 79), 79);
    assert_eq!(place(7, 7, -20, 79), 0);
    assert_eq!(place(8, 7, -20, 79), 79);
}

#[test]
fn a_negative_start_of_the_range_is_an_offset() {
    assert_eq!(place(0, -100, 100, 79), 40);
    assert_eq!(place(-100i32 as u32, -100, 100, 79), 0);
    assert_eq!(place(50, -100, 100, 79), 59);
}

#[test]
fn every_coordinate_of_a_pad_is_drawn_at_its_nearest_line() {
    for span in [1i64, 2, 79, 158, 1999, 3500, 32767] {
        for last in [19usize, 79] {
            for value in 0..=span {
                let index = place(value as u32, 0, span as i32, last) as i64;
                let twice = 2 * (index * span - last as i64 * value);
                assert!(-span <= twice && twice <= span, "{value} {span} {last}");
            }
        }
    }
}
