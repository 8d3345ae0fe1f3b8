use keystats::fixed::{parse_digits, parse_value, render_value, strip_points};

#[test]
fn parse_value_reads_tenths() {
    assert_eq!(parse_value(b"23.1"), Some(231));
    assert_eq!(parse_value(b"-3.2"), Some(-32));
    assert_eq!(parse_value(b"0.0"), Some(0));
    assert_eq!(parse_value(b"99.9"), Some(999));
    assert_eq!(parse_value(b"-99.9"), Some(-999));
    assert_eq!(parse_value(b"-0.5"), Some(-5));
}

#[test]
fn parse_value_accepts_leading_zeros() {
    assert_eq!(parse_value(b"007.5"), Some(75));
    assert_eq!(parse_value(b"-000.1"), Some(-1));
}

#[test]
fn parse_value_covers_the_whole_16_bit_range() {
    assert_eq!(parse_value(b"3276.7"), Some(32767));
    assert_eq!(parse_value(b"-3276.8"), Some(-32768));
    assert_eq!(parse_value(b"3276.8"), None);
    assert_eq!(parse_value(b"-3276.9"), None);
    assert_eq!(parse_value(b"10000.0"), None);
}

#[test]
fn parse_value_rejects_what_is_no_number() {
    assert_eq!(parse_value(b""), None);
    assert_eq!(parse_value(b"."), None);
    assert_eq!(parse_value(b"-"), None);
    assert_eq!(parse_value(b"-."), None);
    assert_eq!(parse_value(b"+1.0"), None);
    assert_eq!(parse_value(b"1.a"), None);
    assert_eq!(parse_value(b"1,0"), None);
    assert_eq!(parse_value(b" 1.0"), None);
    assert_eq!(parse_value(b"1.0 "), None);
    assert_eq!(parse_value(b"1.0\r"), None);
    assert_eq!(parse_value(b"1-.0"), None);
    assert_eq!(parse_value(b"--1.0"), None);
}

#[test]
fn parse_value_passes_over_every_point() {
    assert_eq!(parse_value(b"12"), Some(12));
    assert_eq!(parse_value(b"1.2.3"), Some(123));
    assert_eq!(parse_value(b".5"), Some(5));
    assert_eq!(parse_value(b"5."), Some(5));
}

#[test]
fn parse_digits_reads_up_to_sixteen_digits() {
    assert_eq!(parse_digits(b"123"), Some(123));
    assert_eq!(parse_digits(b"-123"), Some(-123));
    assert_eq!(parse_digits(b"0"), Some(0));
    assert_eq!(parse_digits(b"-0"), Some(0));
    assert_eq!(parse_digits(b"0000000000000123"), Some(123));
    assert_eq!(parse_digits(b"-0000000000000123"), Some(-123));
    assert_eq!(parse_digits(b"00000000000000123"), None);
    assert_eq!(parse_digits(b"-00000000000000123"), None);
    assert_eq!(parse_digits(b"0000000000000000"), Some(0));
    assert_eq!(parse_digits(b"00000000000000000"), None);
}

#[test]
fn parse_digits_checks_the_range() {
    assert_eq!(parse_digits(b"32767"), Some(32767));
    assert_eq!(parse_digits(b"32768"), None);
    assert_eq!(parse_digits(b"-32768"), Some(-32768));
    assert_eq!(parse_digits(b"-32769"), None);
    assert_eq!(parse_digits(b"9999999999999999"), None);
    assert_eq!(parse_digits(b"-9999999999999999"), None);
    assert_eq!(parse_digits(b"0000000000032768"), None);
    assert_eq!(parse_digits(b"0000000000032767"), Some(32767));
}

#[test]
fn parse_digits_rejects_other_bytes() {
    assert_eq!(parse_digits(b""), None);
    assert_eq!(parse_digits(b"-"), None);
    assert_eq!(parse_digits(b"+5"), None);
    assert_eq!(parse_digits(b"12a"), None);
    assert_eq!(parse_digits(b"a12"), None);
    assert_eq!(parse_digits(b"1.2"), None);
    assert_eq!(parse_digits(b"1-2"), None);
    assert_eq!(parse_digits(b"12;"), None);
    assert_eq!(parse_digits(b"1/"), None);
    assert_eq!(parse_digits(b"1:"), None);
    assert_eq!(parse_digits(b"12345678a"), None);
    assert_eq!(parse_digits(b"123456789a"), None);
    assert_eq!(parse_digits(&[b'1', 0xff, b'2']), None);
    assert_eq!(parse_digits(&[0xfa, b'1']), None);
    assert_eq!(parse_digits(&[b'1', 0x00]), None);
    assert_eq!(parse_digits(&[b'-', b'1', 0xb1]), None);
}

#[test]
fn strip_points_drops_points_and_earlier_content() {
    let mut digits = vec![1u8, 2, 3];
    strip_points(b"-12.3", &mut digits);
    assert_eq!(digits, b"-123".to_vec());
    strip_points(b"..", &mut digits);
    assert_eq!(digits, Vec::<u8>::new());
    strip_points(b"a.b;c", &mut digits);
    assert_eq!(digits, b"ab;c".to_vec());
}

#[test]
fn render_value_writes_one_fractional_digit() {
    assert_eq!(render_value(231), b"23.1".to_vec());
    assert_eq!(render_value(120), b"12.0".to_vec());
    assert_eq!(render_value(0), b"0.0".to_vec());
    assert_eq!(render_value(5), b"0.5".to_vec());
    assert_eq!(render_value(-5), b"-0.5".to_vec());
    assert_eq!(render_value(-32), b"-3.2".to_vec());
    assert_eq!(render_value(999), b"99.9".to_vec());
    assert_eq!(render_value(1000), b"100.0".to_vec());
    assert_eq!(render_value(10000), b"1000.0".to_vec());
    assert_eq!(render_value(32767), b"3276.7".to_vec());
    assert_eq!(render_value(-32768), b"-3276.8".to_vec());
}

#[test]
fn round_trip_of_the_documented_examples() {
    for text in [&b"-3.2"[..], &b"0.0"[..], &b"99.9"[..]] {
        let value = parse_value(text).unwrap();
        assert_eq!(render_value(value), text.to_vec());
    }
}

#[test]
fn round_trip_of_every_value() {
    let mut v = i16::MIN;
    loop {
        assert_eq!(parse_value(&render_value(v)), Some(v));
        if v == i16::MAX {
            break;
        }
        v += 1;
    }
}
