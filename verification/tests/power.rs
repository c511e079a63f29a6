use simple_calc::math_operations::pow;

const ONE: i128 = 100_000_000;

#[test]
fn zero_exponent_gives_one() {
    assert_eq!(pow(7 * ONE, 0), Ok(ONE));
    assert_eq!(pow(0, 0), Ok(ONE));
    // The fraction of the exponent is dropped.
    assert_eq!(pow(2 * ONE, ONE / 2), Ok(ONE));
    assert_eq!(pow(2 * ONE, -ONE / 2), Ok(ONE));
}

#[test]
fn positive_exponents() {
    assert_eq!(pow(2 * ONE, 10 * ONE), Ok(1024 * ONE));
    assert_eq!(pow(3 * ONE, 3 * ONE), Ok(27 * ONE));
    assert_eq!(pow(ONE / 2, 2 * ONE), Ok(ONE / 4));
    assert_eq!(pow(-2 * ONE, 3 * ONE), Ok(-8 * ONE));
    assert_eq!(pow(2 * ONE, 5 * ONE / 2), Ok(4 * ONE));
}

#[test]
fn negative_exponents_take_the_reciprocal() {
    assert_eq!(pow(2 * ONE, -ONE), Ok(ONE / 2));
    assert_eq!(pow(4 * ONE, -2 * ONE), Ok(ONE / 16));
    assert_eq!(pow(3 * ONE, -ONE), Ok(33_333_333));
}

#[test]
fn errors_of_power() {
    assert_eq!(pow(0, -ONE), Err("Division by zero in negative power"));
    assert_eq!(pow(2 * ONE, 200 * ONE), Err("Overflow"));
    // Fixed-point rounding turns a tiny base into zero.
    assert_eq!(pow(1, -2 * ONE), Err("Division by zero in negative power"));
}

#[test]
fn only_the_whole_exponent_counts() {
    assert_eq!(pow(4 * ONE, 250_000_000), Ok(1_600_000_000));
    assert_eq!(pow(4 * ONE, 250_000_000), pow(4 * ONE, 2 * ONE));
    assert_eq!(pow(2 * ONE, -250_000_000), pow(2 * ONE, -2 * ONE));
}
