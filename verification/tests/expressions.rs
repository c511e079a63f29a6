use simple_calc::calculator::{execute_expression, format_fixed_point, Evaluation};
use simple_calc::math_operations::{pow, CpuSnapshot, EntropySource};

const ONE: i128 = 100_000_000;

struct QuietMachine;

impl EntropySource for QuietMachine {
    fn capture(&self) -> CpuSnapshot {
        CpuSnapshot { rflags: 0, registers: [3; 16], xmm: [5; 16] }
    }
}

fn run(text: &str) -> Evaluation {
    execute_expression(text, &QuietMachine)
}

fn shown(text: &str) -> String {
    match run(text) {
        Evaluation::Value(v) => format_fixed_point(v),
        other => panic!("no value for {:?}: {:?}", text, other),
    }
}

#[test]
fn blank_input_does_nothing() {
    assert_eq!(run(""), Evaluation::Blank);
    assert_eq!(run("   \t "), Evaluation::Blank);
}

#[test]
fn basic_arithmetic() {
    assert_eq!(run("1 + 2"), Evaluation::Value(3 * ONE));
    assert_eq!(shown("10 - 12"), "-2");
    assert_eq!(shown("1.5 + 1.25"), "2.75");
    assert_eq!(shown("10 / 4"), "2.5");
    assert_eq!(shown("2.5 * 4"), "10");
    assert_eq!(shown("1 / 3"), "0.33333333");
}

#[test]
fn precedence_and_brackets() {
    assert_eq!(shown("2 + 3 * 4"), "14");
    assert_eq!(shown("(2 + 3) * 4"), "20");
    assert_eq!(shown("((1 + 1) * (2 + 2))"), "8");
    assert_eq!(shown("2 ** 3 ** 2"), "64");
    assert_eq!(shown("2 * 3 ** 2"), "18");
    assert_eq!(shown("0 - 3 !"), "-6");
}

#[test]
fn power_factorial_subfactorial() {
    assert_eq!(shown("2 ** 10"), "1024");
    assert_eq!(shown("2 ** (0 - 1)"), "0.5");
    // There is no unary minus: "-" is always a binary operator.
    assert_eq!(run("2 ** -1"), Evaluation::EvaluationError("Missing operand for trailing operator"));
    assert_eq!(shown("2 ** 0.5"), "1");
    assert_eq!(shown("5 !"), "120");
    assert_eq!(shown("! 5"), "120");
    assert_eq!(shown("0 !"), "1");
    assert_eq!(shown("4 !sub"), "9");
    assert_eq!(shown("0 !sub"), "1");
    assert_eq!(shown("1 !sub"), "0");
    assert_eq!(shown("25 !"), "15511210043330985984000000");
}

#[test]
fn shifts_gcd_lcm() {
    assert_eq!(shown("1 << 4"), "16");
    assert_eq!(shown("256 >> 4"), "16");
    assert_eq!(shown("7 gcd 21"), "7");
    assert_eq!(shown("3 gcd 0"), "3");
    assert_eq!(shown("4 lcm 6"), "12");
    assert_eq!(shown("0 lcm 5"), "0");
    assert_eq!(shown("7.9 gcd 21"), "7");
}

#[test]
fn lmc_is_the_least_common_multiple() {
    assert_eq!(shown("6 lmc 4"), "12");
    assert_eq!(run("6 lmc 4"), run("6 lcm 4"));
    assert_eq!(shown("0 lmc 5"), "0");
    assert_eq!(shown("2 + 3 lmc 4"), "14");
}

#[test]
fn power_in_an_expression_matches_pow() {
    assert_eq!(run("4 ** 2.5"), Evaluation::Value(pow(4 * ONE, 5 * ONE / 2).unwrap()));
    assert_eq!(run("4 ** 2.5"), Evaluation::Value(16 * ONE));
}

#[test]
fn bitwise_logic() {
    assert_eq!(shown("6 & 3"), "2");
    assert_eq!(shown("6 | 3"), "7");
    assert_eq!(shown("6 xor 3"), "5");
    assert_eq!(shown("not 0"), "-1");
    assert_eq!(shown("\u{ac} 5"), "-6");
    assert_eq!(shown("6 \u{ac}& 3"), "-3");
    assert_eq!(shown("6 \u{ac}| 3"), "-8");
}

#[test]
fn number_reading() {
    assert_eq!(shown("0.123456789"), "0.12345678");
    assert_eq!(shown("007"), "7");
    assert_eq!(run("10000000000000000000000000000000"), Evaluation::ParseError("Overflow"));
    assert_eq!(
        run("999999999999999999999999999999999999999999"),
        Evaluation::ParseError("Invalid integer format")
    );
}

#[test]
fn reading_errors() {
    assert_eq!(run("2 )"), Evaluation::ParseError("Unmatched closing bracket"));
    assert_eq!(
        run("x + 1"),
        Evaluation::ParseError("Syntax Error: Unknown variables or implicit multiplication like xyz are disabled.")
    );
    assert_eq!(run("2 < 3"), Evaluation::ParseError("Invalid shift operator usage"));
    assert_eq!(run("2 # 3"), Evaluation::ParseError("Unknown token character encountered"));
    assert_eq!(run("(1 / 0) + 1"), Evaluation::ParseError("Division by zero"));
}

#[test]
fn evaluation_errors() {
    assert_eq!(run("1 / 0"), Evaluation::EvaluationError("Division by zero"));
    assert_eq!(run("2 * (3"), Evaluation::EvaluationError("Unmatched opening brackets"));
    assert_eq!(run("+"), Evaluation::EvaluationError("Empty stack"));
    assert_eq!(run("1 +"), Evaluation::EvaluationError("Missing operand for trailing operator"));
    assert_eq!(run("- 5 !"), Evaluation::EvaluationError("Missing operand for unary operator"));
    assert_eq!(run("2 **"), Evaluation::EvaluationError("Missing operand for power"));
    // Numbers without an operator between them meet the next operator in line.
    assert_eq!(run("1 2 **"), Evaluation::Value(ONE));
    assert_eq!(run("2 *"), Evaluation::EvaluationError("Missing operand"));
    assert_eq!(run("(0 - 3) !"), Evaluation::EvaluationError("Factorial of negative number"));
    assert_eq!(run("(0 - 3) !sub"), Evaluation::EvaluationError("Subfactorial of negative number"));
    assert_eq!(run("40 !"), Evaluation::EvaluationError("Overflow"));
    assert_eq!(run("40 !sub"), Evaluation::EvaluationError("Overflow"));
    assert_eq!(run("2 ** 200"), Evaluation::EvaluationError("Overflow"));
    assert_eq!(run("0 ** (0 - 1)"), Evaluation::EvaluationError("Division by zero in negative power"));
    assert_eq!(run("1 << 200"), Evaluation::EvaluationError("Shift overflow"));
    assert_eq!(run("1 >> 200"), Evaluation::EvaluationError("Shift overflow"));
    assert_eq!(
        run("1000000000000000000000000000000 * 1000000000000000000000000000000"),
        Evaluation::EvaluationError("Overflow")
    );
}

#[test]
fn random_numbers_are_fractions() {
    for _ in 0..5 {
        match run("rand") {
            Evaluation::Value(v) => assert!(0 <= v && v < ONE),
            other => panic!("unexpected {:?}", other),
        }
    }
    match run("rand + 1") {
        Evaluation::Value(v) => assert!(ONE <= v && v < 2 * ONE),
        other => panic!("unexpected {:?}", other),
    }
    match run("(rand) * 0") {
        Evaluation::Value(v) => assert_eq!(v, 0),
        other => panic!("unexpected {:?}", other),
    }
}
