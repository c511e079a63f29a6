use simple_calc::calculator::format_fixed_point;
use simple_calc::math_operations::{CpuSnapshot, EntropySource, RandomEngine};
use simple_calc::math_proccessor::MathStack;
use simple_calc::parser::Lexer;
use simple_calc::text::{int_to_text, parse_int_text};

struct QuietMachine;

impl EntropySource for QuietMachine {
    fn capture(&self) -> CpuSnapshot {
        CpuSnapshot { rflags: 64, registers: [9; 16], xmm: [4; 16] }
    }
}

#[test]
fn number_text_reads_back() {
    for v in [0i128, 7, -7, 100_000_000, i128::MAX, i128::MIN, -1] {
        assert_eq!(parse_int_text(&int_to_text(v)), Some(v));
    }
    assert_eq!(int_to_text(i128::MIN), "-170141183460469231731687303715884105728");
}

#[test]
fn integer_text_parsing() {
    assert_eq!(parse_int_text(&"+12".to_string()), Some(12));
    assert_eq!(parse_int_text(&"-0".to_string()), Some(0));
    assert_eq!(parse_int_text(&"".to_string()), None);
    assert_eq!(parse_int_text(&"-".to_string()), None);
    assert_eq!(parse_int_text(&"1x".to_string()), None);
    assert_eq!(parse_int_text(&"170141183460469231731687303715884105728".to_string()), None);
}

#[test]
fn printed_values_read_back() {
    for v in [0i128, 1, 150_000_000, 12_345_678, 100_000_010, 4_200_000_000, i128::MAX] {
        let printed = format_fixed_point(v);
        let mut lexer = Lexer::new(&printed);
        assert_eq!(lexer.next_token(), Ok(Some(v.to_string())));
        assert_eq!(lexer.next_token(), Ok(None));
    }
}

#[test]
fn stacks_without_rand_ignore_the_engine() {
    let engine = RandomEngine { app_start_ms: 42 };
    let make = || {
        let mut s = MathStack::new();
        s.push_num(600_000_000);
        s.push_op("/");
        s.push_num(400_000_000);
        s
    };
    let mut count: i128 = 3;
    assert_eq!(make().evaluate_with_processor(&mut count, &engine, &QuietMachine), make().evaluate_resolved());
    assert_eq!(count, 3);
    assert_eq!(make().evaluate_resolved(), Ok(150_000_000));
}
