use simple_calc::math_operations::{CpuSnapshot, EntropySource, RandomEngine};
use simple_calc::math_proccessor::{MathProcessor, MathStack};
use simple_calc::parser::ParsingEngine;

const ONE: i128 = 100_000_000;

struct QuietMachine;

impl EntropySource for QuietMachine {
    fn capture(&self) -> CpuSnapshot {
        CpuSnapshot { rflags: 0, registers: [1; 16], xmm: [2; 16] }
    }
}

fn stack(nums: &[i128], ops: &[&str]) -> MathStack {
    let mut s = MathStack::new();
    for n in nums {
        s.push_num(*n);
    }
    for o in ops {
        s.push_op(o);
    }
    s
}

#[test]
fn pushing_keeps_order() {
    let s = stack(&[1, 2], &["+", "**"]);
    assert_eq!(s.numbers, vec![1, 2]);
    assert_eq!(s.operators, vec!["+".to_string(), "**".to_string()]);
}

#[test]
fn resolved_stack_evaluation() {
    assert_eq!(stack(&[5 * ONE, 2 * ONE], &["-"]).evaluate_resolved(), Ok(3 * ONE));
    assert_eq!(stack(&[7 * ONE], &[]).evaluate_resolved(), Ok(7 * ONE));
    assert_eq!(stack(&[], &[]).evaluate_resolved(), Err("Empty stack"));
    assert_eq!(stack(&[ONE, ONE], &["?"]).evaluate_resolved(), Err("Invalid operator"));
    // Unary operators act right to left, each on the number at its own index;
    // without a binary operator the second number is never combined.
    assert_eq!(stack(&[3 * ONE, 2 * ONE], &["!", "!"]).evaluate_resolved(), Ok(6 * ONE));
}

#[test]
fn evaluation_counts_random_operators() {
    let engine = RandomEngine { app_start_ms: 1_700_000_000_000 };
    let mut count: i128 = 10;
    let r = stack(&[ONE], &["rand", "+", "rand"]).evaluate_with_processor(&mut count, &engine, &QuietMachine);
    assert_eq!(count, 12);
    match r {
        Ok(v) => assert!(0 <= v && v < 2 * ONE),
        Err(e) => panic!("unexpected error {}", e),
    }
}

#[test]
fn brackets_deliver_values() {
    let mut p = MathProcessor::new();
    assert_eq!(p.storage.len(), 1);
    assert_eq!(p.op_count, 0);
    p.current_mut().unwrap().push_num(2 * ONE);
    p.current_mut().unwrap().push_op("*");
    p.open_bracket();
    p.current_mut().unwrap().push_num(3 * ONE);
    p.current_mut().unwrap().push_op("+");
    p.current_mut().unwrap().push_num(4 * ONE);
    assert_eq!(p.close_bracket(&QuietMachine), Ok(()));
    assert_eq!(p.storage.len(), 1);
    assert_eq!(p.storage[0].numbers, vec![2 * ONE, 7 * ONE]);
    assert_eq!(p.finalize(&QuietMachine), Ok(14 * ONE));
}

#[test]
fn bracket_errors() {
    let mut p = MathProcessor::new();
    assert_eq!(p.close_bracket(&QuietMachine), Err("Unmatched closing bracket"));
    p.open_bracket();
    assert_eq!(p.finalize(&QuietMachine), Err("Unmatched opening brackets"));

    let mut q = MathProcessor::new();
    q.open_bracket();
    q.current_mut().unwrap().push_op("+");
    assert_eq!(q.close_bracket(&QuietMachine), Err("Empty stack"));
    assert_eq!(q.storage.len(), 1);

    let mut r = MathProcessor::new();
    r.open_bracket();
    assert_eq!(r.close_bracket(&QuietMachine), Err("Empty stack"));
    assert_eq!(r.storage.len(), 1);
    assert!(r.storage[0].numbers.is_empty());

    let mut empty = MathProcessor::new();
    empty.storage.clear();
    assert!(empty.current_mut().is_err());
    assert_eq!(empty.current_mut().err(), Some("No active stack context"));
}

#[test]
fn parsing_fills_the_processor() {
    let mut p = MathProcessor::new();
    assert_eq!(ParsingEngine::parse_into_processor("1 + (2 * 3", &mut p, &QuietMachine), Ok(()));
    assert_eq!(p.storage.len(), 2);
    assert_eq!(p.storage[0].numbers, vec![ONE]);
    assert_eq!(p.storage[1].numbers, vec![2 * ONE, 3 * ONE]);
    assert_eq!(p.storage[1].operators, vec!["*".to_string()]);
    assert_eq!(ParsingEngine::parse_into_processor(")", &mut p, &QuietMachine), Ok(()));
    assert_eq!(p.storage[0].numbers, vec![ONE, 6 * ONE]);
    assert_eq!(p.finalize(&QuietMachine), Ok(7 * ONE));
}

#[test]
fn parsing_without_stacks() {
    let mut p = MathProcessor::new();
    p.storage.clear();
    assert_eq!(ParsingEngine::parse_into_processor("1", &mut p, &QuietMachine), Err("No active stack context"));
    assert_eq!(ParsingEngine::parse_into_processor("+", &mut p, &QuietMachine), Err("No active stack context"));
}

#[test]
fn bracket_levels_follow_the_brackets() {
    let mut p = MathProcessor::new();
    assert_eq!(ParsingEngine::parse_into_processor("((1) + (2", &mut p, &QuietMachine), Ok(()));
    assert_eq!(p.storage.len(), 1 + 3 - 1);
    let mut q = MathProcessor::new();
    assert!(ParsingEngine::parse_into_processor("1 ) )", &mut q, &QuietMachine).is_err());
    assert_eq!(q.storage.len(), 1);
}
