use touchpad_raw::text::{decimal_len, hex_digit_char, push_decimal, push_decimal_padded};

#[test]
fn digits_are_hexadecimal_in_upper_case() {
    let digits: String = (0..16).map(hex_digit_char).collect();
    assert_eq!(digits, "0123456789ABCDEF");
}

#[test]
fn numbers_are_written_as_the_formatter_writes_them() {
    for n in [0u32, 1, 9, 10, 99, 100, 12_345, 99_999, 100_000, 4_294_967_295] {
        let mut out = String::from("n=");
        push_decimal(&mut out, n);
        assert_eq!(out, format!("n={n}"));
        assert_eq!(decimal_len(n), format!("{n}").len());
        let mut out = String::from("n=");
        push_decimal_padded(&mut out, n, 5);
        assert_eq!(out, format!("n={n:5}"));
        let mut out = String::new();
        push_decimal_padded(&mut out, n, 0);
        assert_eq!(out, format!("{n}"));
    }
}
