use simple_calc::parser::Lexer;

fn tokens(text: &str) -> Vec<Result<String, &'static str>> {
    let mut lexer = Lexer::new(text);
    let mut out = Vec::new();
    loop {
        match lexer.next_token() {
            Ok(Some(t)) => out.push(Ok(t)),
            Ok(None) => break,
            Err(e) => {
                out.push(Err(e));
                break;
            }
        }
    }
    out
}

fn ok(ts: &[&str]) -> Vec<Result<String, &'static str>> {
    ts.iter().map(|t| Ok(t.to_string())).collect()
}

#[test]
fn numbers_become_fixed_point_text() {
    assert_eq!(tokens("12.5"), ok(&["1250000000"]));
    assert_eq!(tokens("0.5"), ok(&["50000000"]));
    assert_eq!(tokens("3."), ok(&["300000000"]));
    assert_eq!(tokens("1.000000019"), ok(&["100000001"]));
}

#[test]
fn operators_and_words() {
    assert_eq!(tokens("1+x"), ok(&["100000000", "+", "x"]));
    assert_eq!(tokens("2**3*4"), ok(&["200000000", "**", "300000000", "*", "400000000"]));
    assert_eq!(tokens("1<<2>>3"), ok(&["100000000", "<<", "200000000", ">>", "300000000"]));
    assert_eq!(tokens("(gcd)"), ok(&["(", "gcd", ")"]));
    assert_eq!(tokens("a|b&c d"), ok(&["a|b&c", "d"]));
    assert_eq!(tokens("\u{ac}| \u{ac}&"), ok(&["\u{ac}|", "\u{ac}&"]));
    assert_eq!(tokens("xyz"), ok(&["xyz"]));
}

#[test]
fn exclamation_forms() {
    assert_eq!(tokens("!sub"), ok(&["!sub"]));
    assert_eq!(tokens("!subx"), ok(&["!sub", "x"]));
    assert_eq!(tokens("!su"), ok(&["!", "su"]));
    assert_eq!(tokens("5!"), ok(&["500000000", "!"]));
}

#[test]
fn white_space_is_skipped() {
    assert_eq!(tokens(" \t 1 \n + \u{3000} 2 "), ok(&["100000000", "+", "200000000"]));
    assert_eq!(tokens("   "), ok(&[]));
}

#[test]
fn lexing_errors() {
    assert_eq!(tokens("1 < 2"), vec![Ok("100000000".to_string()), Err("Invalid shift operator usage")]);
    assert_eq!(tokens("<"), vec![Err("Invalid shift operator usage")]);
    assert_eq!(tokens("1 . 2"), vec![Ok("100000000".to_string()), Err("Unknown token character encountered")]);
    assert_eq!(tokens("99999999999999999999999999999999999999999"), vec![Err("Invalid integer format")]);
    assert_eq!(tokens("1701411834604692317316873037159"), vec![Err("Overflow")]);
    assert_eq!(tokens("1701411834604692317316873037158.9"), vec![Err("Overflow")]);
    assert_eq!(
        tokens("1701411834604692317316873037158.84105727"),
        ok(&["170141183460469231731687303715884105727"])
    );
}

#[test]
fn lexing_continues_after_a_shift_error() {
    let mut lexer = Lexer::new("<+");
    assert_eq!(lexer.next_token(), Err("Invalid shift operator usage"));
    assert_eq!(lexer.next_token(), Ok(Some("+".to_string())));
    assert_eq!(lexer.next_token(), Ok(None));
}
