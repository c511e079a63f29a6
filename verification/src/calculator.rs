//! The calculator as a whole: the value of an expression's text, and the
//! text of a value.
use vstd::prelude::*;
use crate::fixed::SCALE;
use crate::text::{decimal, is_space, push_char, chars_of, int_to_text, char_is_space};
use crate::math_operations::{EntropySource, RandomEngine, MAX_DURATION_MILLIS};
use crate::math_proccessor::{MathProcessor, draws_fit, rands_from, spec_evaluate};
use crate::parser::{ParsingEngine, parse_run, skip_space};

verus! {

/// `s` without its trailing `'0'` characters.
pub open spec fn trim_trailing_zeros(s: Seq<char>) -> Seq<char>
    decreases s.len(),
{
    if s.len() > 0 && s.last() == '0' { trim_trailing_zeros(s.drop_last()) } else { s }
}

/// The decimal digits of `n` padded with leading zeros to eight characters,
/// as `format!("{:08}", n)` writes them.
pub open spec fn zero_padded8(n: nat) -> Seq<char> {
    Seq::new((8 - decimal(n).len()) as nat, |i: int| '0') + decimal(n)
}

/// The text of a fixed-point value: its sign, its whole part, and the
/// fraction's digits without trailing zeros (and no point when the fraction
/// is zero).
pub open spec fn fixed_text(val: i128) -> Seq<char> {
    let sign = if val < 0 { seq!['-'] } else { Seq::<char>::empty() };
    let a: nat = if val < 0 { (-val) as nat } else { val as nat };
    let whole = a / (SCALE as nat);
    let frac = a % (SCALE as nat);
    let digits = trim_trailing_zeros(zero_padded8(frac));
    if frac == 0 || digits.len() == 0 {
        sign + decimal(whole)
    } else {
        sign + decimal(whole) + seq!['.'] + digits
    }
}

/// Writes a fixed-point value with up to eight decimal places.
#[verifier::spinoff_prover]
pub fn format_fixed_point(val: i128) -> (s: String)
    requires
        val != i128::MIN,
    ensures
        s@ == fixed_text(val),
{
    let mut out = String::new();
    if val < 0 {
        push_char(&mut out, '-');
    }
    let abs_val: i128 = if val < 0 { -val } else { val };
    let integer_part = abs_val / SCALE;
    let fractional_part = abs_val % SCALE;
    let ghost sign = if val < 0 { seq!['-'] } else { Seq::<char>::empty() };
    let whole_text = int_to_text(integer_part);
    out.append(whole_text.as_str());
    assert(out@ == sign + decimal(integer_part as nat));

    if fractional_part == 0 {
        return out;
    }

    // The fraction as eight digits, then without its trailing zeros.
    let frac_text = int_to_text(fractional_part);
    let frac_chars = chars_of(frac_text.as_str());
    proof {
        reveal_with_fuel(crate::text::pow10, 9);
        crate::text::lemma_decimal_len(fractional_part as nat, 8);
    }
    let mut padded: Vec<char> = Vec::new();
    let pad = 8 - frac_chars.len();
    let mut k: usize = 0;
    while k < pad
        invariant
            k <= pad,
            padded@ =~= Seq::new(k as nat, |i: int| '0'),
        decreases pad - k,
    {
        padded.push('0');
        k += 1;
    }
    let mut k: usize = 0;
    while k < frac_chars.len()
        invariant
            k <= frac_chars@.len(),
            padded@ =~= Seq::new(pad as nat, |i: int| '0') + frac_chars@.take(k as int),
        decreases frac_chars@.len() - k,
    {
        padded.push(frac_chars[k]);
        assert(frac_chars@.take(k as int + 1) =~= frac_chars@.take(k as int).push(frac_chars@[k as int]));
        k += 1;
    }
    assert(frac_chars@.take(frac_chars@.len() as int) =~= frac_chars@);
    assert(padded@ == zero_padded8(fractional_part as nat));

    let mut end = padded.len();
    assert(padded@.take(end as int) =~= padded@);
    while end > 0 && padded[end - 1] == '0'
        invariant
            end <= padded@.len(),
            trim_trailing_zeros(padded@) == trim_trailing_zeros(padded@.take(end as int)),
        decreases end,
    {
        assert(padded@.take(end as int).drop_last() =~= padded@.take(end - 1));
        end -= 1;
    }
    assert(trim_trailing_zeros(padded@.take(end as int)) == padded@.take(end as int));
    if end == 0 {
        return out;
    }
    push_char(&mut out, '.');
    let mut k: usize = 0;
    while k < end
        invariant
            k <= end <= padded@.len(),
            integer_part >= 0,
            out@ == sign + decimal(integer_part as nat) + seq!['.'] + padded@.take(k as int),
        decreases end - k,
    {
        push_char(&mut out, padded[k]);
        assert(padded@.take(k as int + 1) =~= padded@.take(k as int).push(padded@[k as int]));
        k += 1;
    }
    out
}

/// What running an expression gives.
#[derive(Clone, Copy, Debug, PartialEq, Eq)]
pub enum Evaluation {
    /// The text is empty or white space only: nothing to evaluate.
    Blank,
    /// The value of the expression.
    Value(i128),
    /// The text could not be read.
    ParseError(&'static str),
    /// The text was read but could not be evaluated.
    EvaluationError(&'static str),
}

/// Whether every character is white space.
pub open spec fn is_blank(s: Seq<char>) -> bool {
    forall|i: int| 0 <= i < s.len() ==> is_space(#[trigger] s[i])
}

/// The outcome of running an expression's text in a fresh processor, when
/// the `rand` operators take, in order, the generated numbers `draws`;
/// `None` where the run cannot go on (see `parse_run`).
pub open spec fn run_expression(text: Seq<char>, draws: Seq<i128>) -> Option<Evaluation> {
    if is_blank(text) {
        Some(Evaluation::Blank)
    } else {
        let start = seq![(Seq::<i128>::empty(), Seq::<Seq<char>>::empty())];
        match parse_run(text, start, 0, draws) {
            None => None,
            Some((Err(e), _, _)) => Some(Evaluation::ParseError(e)),
            Some((Ok(_), stacks, c)) => if stacks.len() != 1 {
                Some(Evaluation::EvaluationError("Unmatched opening brackets"))
            } else if c + rands_from(stacks[0].1, 0) > i128::MAX {
                None
            } else {
                match spec_evaluate(stacks[0].0, stacks[0].1, draws.skip(c)) {
                    None => None,
                    Some(Ok(v)) => Some(Evaluation::Value(v)),
                    Some(Err(e)) => Some(Evaluation::EvaluationError(e)),
                }
            },
        }
    }
}

/// Whether the text is white space only.
pub fn is_blank_text(s: &str) -> (b: bool)
    ensures
        b == is_blank(s@),
{
    let cs = chars_of(s);
    let mut k: usize = 0;
    while k < cs.len()
        invariant
            k <= cs@.len(),
            cs@ == s@,
            forall|i: int| 0 <= i < k ==> is_space(#[trigger] cs@[i]),
        decreases cs@.len() - k,
    {
        if !char_is_space(cs[k]) {
            return false;
        }
        k += 1;
    }
    true
}

/// Evaluates an expression's text in a fresh processor whose random engine
/// starts now: the result is the expression's value for numbers that such an
/// engine can generate, from a start time that the clock can report.
#[verifier::spinoff_prover]
pub fn execute_expression<E: EntropySource>(expr: &str, entropy: &E) -> (r: Evaluation)
    requires
        forall|draws: Seq<i128>| #[trigger] run_expression(expr@, draws) is Some,
    ensures
        exists|engine: RandomEngine, draws: Seq<i128>|
            {
                &&& 0 <= engine.app_start_ms <= MAX_DURATION_MILLIS
                &&& draws_fit(engine, 0, draws)
                &&& run_expression(expr@, draws) == Some(r)
            },
{
    if is_blank_text(expr) {
        assert(run_expression(expr@, Seq::empty()) == Some(Evaluation::Blank));
        assert(draws_fit(RandomEngine { app_start_ms: 0 }, 0, Seq::empty()));
        return Evaluation::Blank;
    }
    let mut processor = MathProcessor::new();
    let ghost start = processor.stacks();
    let ghost engine = processor.rand_engine;
    let ghost c_before = processor.op_count;
    assert forall|draws: Seq<i128>| #[trigger] parse_run(expr@, start, 0, draws) is Some by {
        assert(run_expression(expr@, draws) is Some);
    }
    let parsed = ParsingEngine::parse_into_processor(expr, &mut processor, entropy);
    let ghost d1 = choose|d1: Seq<i128>|
        {
            &&& draws_fit(engine, c_before as int, d1)
            &&& d1.len() == processor.op_count - c_before
            &&& forall|more: Seq<i128>| #[trigger] parse_run(expr@, start, c_before as int, d1 + more)
                == Some((parsed, processor.stacks(), processor.op_count as int))
        };
    match parsed {
        Ok(_) => {
            let ghost stacks = processor.stacks();
            let ghost count = processor.op_count as int;
            proof {
                assert(d1 + Seq::<i128>::empty() =~= d1);
                assert(run_expression(expr@, d1 + Seq::<i128>::empty()) is Some);
                if stacks.len() == 1 {
                    assert forall|d2: Seq<i128>| d2.len() == rands_from(stacks[0].1, 0) implies
                        (#[trigger] spec_evaluate(stacks[0].0, stacks[0].1, d2)) is Some by {
                        assert(run_expression(expr@, d1 + d2) is Some);
                        assert((d1 + d2).skip(count) =~= d2);
                        assert(parse_run(expr@, start, c_before as int, d1 + d2)
                            == Some((parsed, processor.stacks(), processor.op_count as int)));
                    }
                }
            }
            let finished = processor.finalize(entropy);
            let ghost d2 = if stacks.len() == 1 {
                choose|d2: Seq<i128>|
                    {
                        &&& d2.len() == crate::math_proccessor::rands_from(stacks[0].1, 0)
                        &&& draws_fit(engine, count, d2)
                        &&& Some(finished) == spec_evaluate(stacks[0].0, stacks[0].1, d2)
                    }
            } else {
                Seq::<i128>::empty()
            };
            let r = match finished {
                Ok(result) => Evaluation::Value(result),
                Err(err) => Evaluation::EvaluationError(err),
            };
            proof {
                let all = d1 + d2;
                assert(all.skip(count) =~= d2);
                assert(parse_run(expr@, start, c_before as int, d1 + d2)
                    == Some((parsed, processor.stacks(), processor.op_count as int)));
                assert forall|k: int| 0 <= k < all.len() implies engine.can_give(
                    #[verifier::truncate] ((0 + k + 1) as i128), #[trigger] all[k]) by {
                    if k >= d1.len() {
                        assert(all[k] == d2[k - d1.len()]);
                    }
                }
                assert(draws_fit(engine, 0, all));
                assert(run_expression(expr@, all) == Some(r));
            }
            r
        },
        Err(err) => {
            proof {
                assert(d1 + Seq::<i128>::empty() =~= d1);
                assert(parse_run(expr@, start, 0, d1 + Seq::<i128>::empty())
                    == Some((Err::<(), &'static str>(err), processor.stacks(), processor.op_count as int)));
                assert(run_expression(expr@, d1) == Some(Evaluation::ParseError(err)));
            }
            Evaluation::ParseError(err)
        },
    }
}

/// `s` without white space at either end, as `str::trim` leaves it.
pub open spec fn trim_space(s: Seq<char>) -> Seq<char> {
    trim_space_end(skip_space(s))
}

/// `s` without white space at its end.
pub open spec fn trim_space_end(s: Seq<char>) -> Seq<char>
    decreases s.len(),
{
    if s.len() > 0 && is_space(s.last()) { trim_space_end(s.drop_last()) } else { s }
}

/// Whether an input line, trimmed, is `exit` or `quit`.
pub fn is_exit_command(line: &str) -> (b: bool)
    ensures
        b == (trim_space(line@) == seq!['e', 'x', 'i', 't'] || trim_space(line@) == seq!['q', 'u', 'i', 't']),
{
    let cs = chars_of(line);
    let n = cs.len();
    let mut start: usize = 0;
    assert(cs@.skip(0) =~= cs@);
    while start < n && char_is_space(cs[start])
        invariant
            start <= n == cs@.len(),
            cs@ == line@,
            skip_space(line@) == skip_space(cs@.skip(start as int)),
        decreases n - start,
    {
        assert(cs@.skip(start as int).drop_first() =~= cs@.skip(start + 1));
        start += 1;
    }
    assert(skip_space(cs@.skip(start as int)) == cs@.skip(start as int));
    let mut end: usize = n;
    while end > start && char_is_space(cs[end - 1])
        invariant
            start <= end <= n == cs@.len(),
            cs@ == line@,
            trim_space(line@) == trim_space_end(cs@.subrange(start as int, end as int)),
        decreases end - start,
    {
        assert(cs@.subrange(start as int, end as int).drop_last() =~= cs@.subrange(start as int, end - 1));
        end -= 1;
    }
    let ghost t = cs@.subrange(start as int, end as int);
    assert(trim_space_end(t) == t);
    if end - start != 4 {
        return false;
    }
    let a = cs[start];
    let b = cs[start + 1];
    let c = cs[start + 2];
    let d = cs[start + 3];
    assert(t =~= seq![a, b, c, d]);
    (a == 'e' && b == 'x' && c == 'i' && d == 't') || (a == 'q' && b == 'u' && c == 'i' && d == 't')
}

} // verus!
