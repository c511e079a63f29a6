use simple_calc::calculator::format_fixed_point;

#[test]
fn whole_numbers_have_no_point() {
    assert_eq!(format_fixed_point(0), "0");
    assert_eq!(format_fixed_point(100_000_000), "1");
    assert_eq!(format_fixed_point(-4_200_000_000), "-42");
}

#[test]
fn fractions_lose_trailing_zeros() {
    assert_eq!(format_fixed_point(150_000_000), "1.5");
    assert_eq!(format_fixed_point(-150_000_000), "-1.5");
    assert_eq!(format_fixed_point(275_000_000), "2.75");
    assert_eq!(format_fixed_point(12_345_678), "0.12345678");
    assert_eq!(format_fixed_point(1), "0.00000001");
    assert_eq!(format_fixed_point(-1), "-0.00000001");
    assert_eq!(format_fixed_point(100_000_010), "1.0000001");
}

#[test]
fn extreme_values_format() {
    assert_eq!(format_fixed_point(i128::MAX), "1701411834604692317316873037158.84105727");
    assert_eq!(format_fixed_point(-i128::MAX), "-1701411834604692317316873037158.84105727");
}
