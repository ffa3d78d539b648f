use touchpad_raw::binary32::{div_nearest_even, find_spacing, round_integer};

#[test]
fn ties_go_to_the_even_quotient() {
    assert_eq!(div_nearest_even(7, 2), 4);
    assert_eq!(div_nearest_even(5, 2), 2);
    assert_eq!(div_nearest_even(9, 4), 2);
    assert_eq!(div_nearest_even(11, 4), 3);
    assert_eq!(div_nearest_even(0, 5), 0);
}

#[test]
fn small_integers_are_exact() {
    for n in [0u64, 1, 79, 0xff_ffff] {
        assert_eq!(round_integer(n), n);
        assert_eq!(find_spacing(n), 1);
    }
}

#[test]
fn large_integers_lose_their_low_bits() {
    assert_eq!(find_spacing(0x100_0000), 2);
    assert_eq!(round_integer(0x100_0001), 0x100_0000);
    assert_eq!(round_integer(0x100_0003), 0x100_0004);
    assert_eq!(round_integer(0x7fff_ffff), 0x8000_0000);
}

#[test]
fn rounding_agrees_with_the_machine() {
    let mut n = 1u64;
    for step in 0..200_000u64 {
        n = n.wrapping_mul(2862933555777941757).wrapping_add(3037000493 + step) % 0x1_0000_0000_0000;
        let n = n >> (step % 30);
        assert_eq!(round_integer(n), n as f32 as u64, "{n}");
    }
}

#[test]
fn rounding_commutes_with_doubling() {
    for n in [1u64, 0x7f_ffff, 0x80_0001, 0x155_5555, 0x7654_3211] {
        assert_eq!(round_integer(2 * n), 2 * round_integer(n));
    }
}

#[test]
fn no_number_with_24_bits_is_nearer_than_the_rounded_one() {
    for n in [0x100_0001u64, 0x1ff_ffff, 0x7654_3219, 0x3_0000_0003] {
        let miss = round_integer(n).abs_diff(n);
        for near in 0..=miss {
            for candidate in [n - near, n + near] {
                if candidate >> candidate.trailing_zeros() < 0x100_0000 {
                    assert_eq!(near, miss, "{n}");
                }
            }
        }
    }
}
