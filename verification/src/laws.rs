//! Properties of the calculator as a whole, stated over the specifications
//! that the functions' contracts use.
use vstd::prelude::*;
use crate::fixed::{SCALE, abs_int, fits_i128, tdiv, trem};
use crate::math_operations::{spec_fixed_pow, pow_rounds, lemma_tdiv_shrinks};
use crate::math_proccessor::{after_close, rand_fraction, rand_pass, rand_slots_fit, rands_from, spec_evaluate, spec_reduce, is_rand, unary_pass, power_pass, product_pass, low_fold};
use crate::ops::{OpKind, op_kind, is_product_like, wrapping_abs};
use crate::parser::{Stacks, feed_draws, feed_token, parse_run, lex_step, skip_space, digit_run, fraction_units, number_value};
use crate::calculator::{fixed_text, trim_trailing_zeros, zero_padded8};
use crate::text::{all_digits, decimal, digit_char, digit_value, digits_value, int_text, is_digit, is_space, parse_int, pow10, lemma_decimal_len, lemma_pow10_grows};

verus! {

/// The decimal digits of `n` are digits, and they spell `n`.
pub proof fn lemma_decimal_spells(n: nat)
    ensures
        decimal(n).len() >= 1,
        all_digits(decimal(n)),
        digits_value(decimal(n)) == n,
    decreases n,
{
    if n >= 10 {
        lemma_decimal_spells(n / 10);
        let d = decimal(n / 10);
        assert(decimal(n).drop_last() =~= d);
        assert(digit_value(digit_char(n % 10)) == n % 10);
        assert(decimal(n).last() == digit_char(n % 10));
        assert(n == (n / 10) * 10 + n % 10);
        assert(digits_value(decimal(n)) == digits_value(decimal(n).drop_last()) * 10 + digit_value(decimal(n).last()));
        assert forall|i: int| 0 <= i < decimal(n).len() implies is_digit(#[trigger] decimal(n)[i]) by {
            if i < d.len() {
                assert(decimal(n)[i] == d[i]);
            }
        }
    } else {
        assert(decimal(n).drop_last() =~= Seq::<char>::empty());
        assert(digit_value(digit_char(n)) == n);
        assert(digits_value(decimal(n)) == digits_value(decimal(n).drop_last()) * 10 + digit_value(decimal(n).last()));
        assert(digits_value(Seq::<char>::empty()) == 0);
    }
}

/// The text that the lexer gives for a number reads back, as an `i128`, as
/// exactly that number: what a number token carries is its value.
pub proof fn lemma_number_text_reads_back(v: i128)
    ensures
        parse_int(int_text(v)) == Some(v),
{
    if v < 0 {
        let m = (-v) as nat;
        lemma_decimal_spells(m);
        let s = int_text(v);
        assert(s.drop_first() =~= decimal(m));
    } else {
        lemma_decimal_spells(v as nat);
        assert(is_digit(decimal(v as nat)[0]));
    }
}

/// Every `rand` operator stands for a fraction in `[0, 1)`: the generated
/// number's magnitude modulo one. Only the one generated number without a
/// magnitude in `i128`, `i128::MIN`, gives a fraction in `(-1, 0]`.
pub proof fn lemma_rand_fraction_range(g: i128)
    ensures
        g != i128::MIN ==> 0 <= rand_fraction(g) < SCALE,
        g == i128::MIN ==> -SCALE < rand_fraction(g) <= 0,
{
    let a = wrapping_abs(g) as int;
    let q = tdiv(a, SCALE as int);
    if g != i128::MIN {
        assert(a >= 0);
        assert(trem(a, SCALE as int) == a % (SCALE as int));
    } else {
        assert(a < 0);
        assert(-a - (SCALE as int) * ((-a) / (SCALE as int)) == (-a) % (SCALE as int));
    }
}

/// `x^0 = 1`: an exponent whose whole part is zero gives one, whatever the
/// base.
pub proof fn lemma_zero_exponent(base: i128, exp: i128)
    requires
        -SCALE < exp < SCALE,
    ensures
        spec_fixed_pow(base, exp, SCALE) == Ok::<i128, &'static str>(SCALE),
{
    assert(crate::fixed::abs_int(exp as int) < SCALE);
    assert(crate::fixed::abs_int(exp as int) / (SCALE as int) == 0);
    assert(tdiv(exp as int, SCALE as int) == 0);
}

/// White space before a token changes nothing that the lexer reads.
pub proof fn lemma_space_is_skipped(c: char, s: Seq<char>)
    requires
        is_space(c),
    ensures
        lex_step(seq![c] + s) == lex_step(s),
{
    reveal(lex_step);
    assert((seq![c] + s).drop_first() =~= s);
    assert(skip_space(seq![c] + s) == skip_space(s));
}

/// A stack that holds a single number and no operator evaluates to that
/// number.
pub proof fn lemma_single_number(v: i128, draws: Seq<i128>)
    ensures
        spec_evaluate(seq![v], Seq::<Seq<char>>::empty(), draws) == Some(Ok::<i128, &'static str>(v)),
{
    reveal(spec_evaluate);
    assert(spec_reduce(seq![v], Seq::<Seq<char>>::empty()) == Some(Ok::<i128, &'static str>(v)));
}

/// The first pass leaves a stack without `rand` operators as it is.
proof fn lemma_rand_pass_without_rand(nums: Seq<i128>, ops: Seq<Seq<char>>, i: int, draws: Seq<i128>)
    requires
        0 <= i,
        rands_from(ops, i) == 0,
    ensures
        rand_pass(nums, ops, i, draws) == (nums, ops),
        rand_slots_fit(nums.len() as int, ops, i),
    decreases ops.len() - i,
{
    if i < ops.len() {
        assert(!is_rand(ops[i]));
        lemma_rand_pass_without_rand(nums, ops, i + 1, draws);
    }
}

/// Only `rand` operators use generated numbers: without them, a stack's
/// value does not depend on the numbers drawn.
pub proof fn lemma_no_rand_no_draws(nums: Seq<i128>, ops: Seq<Seq<char>>, draws: Seq<i128>)
    requires
        rands_from(ops, 0) == 0,
    ensures
        spec_evaluate(nums, ops, draws) == spec_reduce(nums, ops),
{
    reveal(spec_evaluate);
    lemma_rand_pass_without_rand(nums, ops, 0, draws);
}

/// Zeros in front of a number's digits do not change it.
proof fn lemma_leading_zeros(z: Seq<char>, d: Seq<char>)
    requires
        forall|i: int| 0 <= i < z.len() ==> z[i] == '0',
    ensures
        digits_value(z + d) == digits_value(d),
    decreases d.len(),
{
    if d.len() == 0 {
        assert(z + d =~= z);
        lemma_zeros_are_zero(z);
    } else {
        assert((z + d).drop_last() =~= z + d.drop_last());
        lemma_leading_zeros(z, d.drop_last());
    }
}

/// A run of zeros spells zero.
proof fn lemma_zeros_are_zero(z: Seq<char>)
    requires
        forall|i: int| 0 <= i < z.len() ==> z[i] == '0',
    ensures
        digits_value(z) == 0,
    decreases z.len(),
{
    if z.len() > 0 {
        lemma_zeros_are_zero(z.drop_last());
    }
}

/// Cutting trailing zeros divides by a power of ten and keeps a prefix.
proof fn lemma_trim_trailing_zeros(p: Seq<char>)
    ensures
        trim_trailing_zeros(p).len() <= p.len(),
        trim_trailing_zeros(p) == p.take(trim_trailing_zeros(p).len() as int),
        digits_value(trim_trailing_zeros(p)) * pow10((p.len() - trim_trailing_zeros(p).len()) as nat)
            == digits_value(p),
    decreases p.len(),
{
    let t = trim_trailing_zeros(p);
    if p.len() > 0 && p.last() == '0' {
        let q = p.drop_last();
        lemma_trim_trailing_zeros(q);
        assert(t == trim_trailing_zeros(q));
        assert(q.take(t.len() as int) =~= p.take(t.len() as int));
        let k = (q.len() - t.len()) as nat;
        assert(pow10(k + 1) == 10 * pow10(k));
        assert((p.len() - t.len()) as nat == k + 1);
        let a = digits_value(t);
        assert(a * (10 * pow10(k)) == 10 * (a * pow10(k))) by (nonlinear_arith);
        assert(digits_value(p) == digits_value(q) * 10 + digit_value('0'));
        assert(digit_value('0') == 0);
        assert(a * pow10(k) == digits_value(q));
        assert(digits_value(p) == 10 * (a * pow10(k)));
        assert(a * pow10((p.len() - t.len()) as nat) == a * (10 * pow10(k)));
    } else {
        assert(p.take(p.len() as int) =~= p);
        assert(pow10(0) == 1);
        assert((p.len() - t.len()) as nat == 0);
    }
}

/// How many digits a text starts with, when it starts with a string of
/// digits.
proof fn lemma_digit_run_append(a: Seq<char>, b: Seq<char>)
    requires
        all_digits(a),
    ensures
        digit_run(a + b) == a.len() + digit_run(b),
    decreases a.len(),
{
    if a.len() == 0 {
        assert(a + b =~= b);
    } else {
        assert((a + b).drop_first() =~= a.drop_first() + b);
        assert((a + b)[0] == a[0]);
        lemma_digit_run_append(a.drop_first(), b);
    }
}

/// What the calculator prints for a non-negative value, the lexer reads back
/// as that same value: one number token and nothing after it.
pub proof fn lemma_printed_value_reads_back(v: i128)
    requires
        v >= 0,
    ensures
        lex_step(fixed_text(v)) == (Ok::<Option<Seq<char>>, &'static str>(Some(int_text(v))), Seq::<char>::empty()),
{
    reveal(lex_step);
    let a = v as nat;
    let whole = a / (SCALE as nat);
    let frac = a % (SCALE as nat);
    let d = decimal(whole);
    lemma_decimal_spells(whole);
    let p = zero_padded8(frac);
    let t = trim_trailing_zeros(p);
    let text = fixed_text(v);
    let has_point = frac != 0 && t.len() != 0;
    let rest: Seq<char> = if has_point { seq!['.'] + t } else { Seq::empty() };
    assert(text =~= d + rest);

    // The padded fraction: eight digits that spell the fraction.
    reveal_with_fuel(pow10, 9);
    lemma_decimal_len(frac, 8);
    lemma_decimal_spells(frac);
    let zeros = Seq::new((8 - decimal(frac).len()) as nat, |i: int| '0');
    lemma_leading_zeros(zeros, decimal(frac));
    assert(p.len() == 8);
    assert(all_digits(p)) by {
        assert forall|i: int| 0 <= i < p.len() implies is_digit(#[trigger] p[i]) by {
            if i >= zeros.len() {
                assert(p[i] == decimal(frac)[i - zeros.len()]);
            }
        }
    }
    lemma_trim_trailing_zeros(p);
    assert(all_digits(t)) by {
        assert forall|i: int| 0 <= i < t.len() implies is_digit(#[trigger] t[i]) by {
            assert(t[i] == p[i]);
        }
    }
    assert(p =~= zeros + decimal(frac));
    assert(digits_value(p) == frac);
    if frac != 0 && t.len() == 0 {
        assert(digits_value(t) == 0);
        assert(0 * pow10((p.len() - t.len()) as nat) == 0);
        assert(false);
    }

    // The lexer's view of the text.
    assert(is_digit(text[0]));
    assert(skip_space(text) == text);
    let c = text[0];
    let u = text.drop_first();
    assert(u =~= d.drop_first() + rest);
    assert(all_digits(d.drop_first()));
    lemma_digit_run_append(d.drop_first(), rest);
    if has_point {
        assert(digit_run(rest) == 0);
        assert(rest.drop_first() =~= t);
        lemma_digit_run_append(t, Seq::empty());
        assert(t + Seq::<char>::empty() =~= t);
        assert(t.take(t.len() as int) =~= t);
        assert(t.skip(t.len() as int) =~= Seq::<char>::empty());
    }
    let n = digit_run(u);
    assert(n == d.len() - 1);
    assert(seq![c] + u.take(n as int) =~= d);
    assert(u.skip(n as int) =~= rest);

    // The value of the number read.
    let frac_read: Seq<char> = if has_point { t } else { Seq::empty() };
    assert(fraction_units(frac_read) == frac) by {
        if has_point {
            lemma_pow10_grows(0, (8 - t.len()) as nat);
        }
    }
    vstd::arithmetic::div_mod::lemma_fundamental_div_mod(a as int, SCALE as int);
    assert(whole * SCALE + frac == a);
    assert(number_value(d, frac_read) == Ok::<i128, &'static str>(v));
}

/// The tokens that the lexer reads from `rest`, up to the end of the input or
/// the first lexing error.
pub open spec fn lexed_tokens(rest: Seq<char>) -> Seq<Seq<char>>
    decreases rest.len(),
{
    match lex_step(rest).0 {
        Ok(Some(t)) => if lex_step(rest).1.len() < rest.len() {
            seq![t] + lexed_tokens(lex_step(rest).1)
        } else {
            Seq::empty()
        },
        _ => Seq::empty(),
    }
}

/// How many of the tokens are `t`.
pub open spec fn token_count(toks: Seq<Seq<char>>, t: Seq<char>) -> int
    decreases toks.len(),
{
    if toks.len() == 0 {
        0
    } else {
        (if toks[0] == t { 1int } else { 0int }) + token_count(toks.drop_first(), t)
    }
}

/// Reading an input into a processor never removes the outermost stack: from
/// at least one bracket level, at least one is left, whatever the outcome.
/// And a read that succeeds ends with one more level for every `(` token and
/// one less for every `)` token.
pub proof fn lemma_bracket_levels(rest: Seq<char>, stacks: Stacks, op_count: int, draws: Seq<i128>)
    requires
        stacks.len() >= 1,
        parse_run(rest, stacks, op_count, draws) is Some,
    ensures
        ({
            let (res, last, _) = parse_run(rest, stacks, op_count, draws)->Some_0;
            &&& last.len() >= 1
            &&& res is Ok ==> last.len() == stacks.len() + token_count(lexed_tokens(rest), seq!['('])
                - token_count(lexed_tokens(rest), seq![')'])
        }),
    decreases rest.len(),
{
    reveal(parse_run);
    let (tok, after) = lex_step(rest);
    if let Ok(Some(t)) = tok {
        if after.len() < rest.len() {
            let n = feed_draws(t, stacks);
            reveal(feed_token);
            let toks = lexed_tokens(rest);
            assert(toks == seq![t] + lexed_tokens(after));
            assert(toks.drop_first() =~= lexed_tokens(after));
            assert(toks[0] == t);
            match feed_token(t, stacks, op_count, draws.take(n as int)) {
                Some((Ok(_), next, c)) => {
                    if t == seq![')'] {
                        assert(next.len() == stacks.len() - 1);
                    } else if t == seq!['('] {
                        assert(next.len() == stacks.len() + 1);
                    } else {
                        assert(next.len() == stacks.len());
                    }
                    lemma_bracket_levels(after, next, c, draws.skip(n as int));
                },
                _ => {},
            }
        }
    }
}

/// Closing a bracket whose stack evaluated to `v` removes that stack and
/// delivers `v` to the enclosing one: it gets `v` as its last number and keeps
/// its operators, and the stacks further out stay as they were.
pub proof fn lemma_close_delivers_value(stacks: Stacks, v: i128)
    requires
        stacks.len() >= 2,
    ensures
        ({
            let (res, next) = after_close(stacks, Ok::<i128, &'static str>(v));
            let n = stacks.len() as int;
            &&& res == Ok::<(), &'static str>(())
            &&& next.len() == n - 1
            &&& next.take(n - 2) == stacks.take(n - 2)
            &&& next[n - 2].0 == stacks[n - 2].0.push(v)
            &&& next[n - 2].1 == stacks[n - 2].1
        }),
{
    let n = stacks.len() as int;
    let next = after_close(stacks, Ok::<i128, &'static str>(v)).1;
    assert(next.take(n - 2) =~= stacks.take(n - 2));
}

/// Closing a bracket whose stack failed to evaluate drops that stack, gives
/// nothing to the enclosing one, and returns the error.
pub proof fn lemma_failed_close_drops_stack(stacks: Stacks, m: &'static str)
    requires
        stacks.len() >= 2,
    ensures
        after_close(stacks, Err::<i128, &'static str>(m)) == (Err::<(), &'static str>(m), stacks.drop_last()),
{
}

/// `a ** b` inside an expression gives exactly what `pow(a, b)` gives: the
/// same value or the same error.
pub proof fn lemma_power_operator_is_pow(a: i128, b: i128)
    ensures
        spec_reduce(seq![a, b], seq![seq!['*', '*']]) == Some(spec_fixed_pow(a, b, SCALE)),
{
    let ops = seq![seq!['*', '*']];
    assert(op_kind(ops[0]) == OpKind::Power);
    assert(unary_pass(seq![a, b], ops, 1) == unary_pass(seq![a, b], ops, 0));
    assert(ops.remove(0) =~= Seq::<Seq<char>>::empty());
    match spec_fixed_pow(a, b, SCALE) {
        Ok(v) => {
            assert(seq![a, b].update(0, v).remove(1) =~= seq![v]);
            assert(power_pass(seq![v], Seq::<Seq<char>>::empty(), 0) == Some(Ok::<(Seq<i128>, Seq<Seq<char>>), &'static str>((seq![v], Seq::<Seq<char>>::empty()))));
        },
        Err(_) => {},
    }
}

/// Only the whole part of the exponent counts (cut toward zero): raising to
/// `exp` is raising to `exp` with its fraction dropped.
pub proof fn lemma_whole_exponent(base: i128, exp: i128, scale: i128)
    requires
        scale > 0,
    ensures
        fits_i128(tdiv(exp as int, scale as int) * scale),
        spec_fixed_pow(base, exp, scale)
            == spec_fixed_pow(base, (tdiv(exp as int, scale as int) * scale) as i128, scale),
{
    let e = tdiv(exp as int, scale as int);
    crate::math_operations::lemma_tdiv_shrinks(exp as int, scale as int);
    let q = abs_int(exp as int) / (scale as int);
    assert(q * scale <= abs_int(exp as int)) by (nonlinear_arith)
        requires scale > 0, abs_int(exp as int) >= 0, q == abs_int(exp as int) / (scale as int);
    assert(q >= 0) by (nonlinear_arith)
        requires scale > 0, abs_int(exp as int) >= 0, q == abs_int(exp as int) / (scale as int);
    assert(abs_int(e * scale) == q * scale) by (nonlinear_arith)
        requires scale > 0, q >= 0, e == q || e == -q;
    assert((q * scale) / (scale as int) == q) by (nonlinear_arith) requires scale > 0, q >= 0;
    assert(abs_int(scale as int) == scale);
    if e >= 0 {
        assert(e * scale >= 0) by (nonlinear_arith) requires e >= 0, scale > 0;
    } else {
        assert(e * scale < 0) by (nonlinear_arith) requires e < 0, scale > 0;
    }
    assert(tdiv(e * scale, scale as int) == e);
}

/// The power rounds treat a base and its negation alike when the exponent
/// left is even: the first round only squares the base.
proof fn lemma_pow_rounds_even_negated(res: int, b: int, e: nat, scale: int)
    requires
        e % 2 == 0,
    ensures
        pow_rounds(res, -b, e, scale) == pow_rounds(res, b, e, scale),
{
    if e > 0 {
        assert((-b) * (-b) == b * b) by (nonlinear_arith);
    }
}

/// From a non-negative result and base, the power rounds stay non-negative.
proof fn lemma_pow_rounds_nonneg(res: int, b: int, e: nat, scale: int)
    requires
        res >= 0,
        b >= 0,
        scale > 0,
    ensures
        pow_rounds(res, b, e, scale) matches Some(p) ==> p >= 0,
    decreases e,
{
    if e > 0 {
        assert(res * b >= 0) by (nonlinear_arith) requires res >= 0, b >= 0;
        assert(b * b >= 0) by (nonlinear_arith);
        assert(abs_int(res * b) / scale >= 0) by (nonlinear_arith) requires scale > 0, abs_int(res * b) >= 0;
        assert(abs_int(b * b) / scale >= 0) by (nonlinear_arith) requires scale > 0, abs_int(b * b) >= 0;
        let next_res = if e % 2 == 1 { tdiv(res * b, scale) } else { res };
        lemma_pow_rounds_nonneg(next_res, tdiv(b * b, scale), e / 2, scale);
    }
}

/// An even whole exponent forgets the sign of the base: `(-x)^(2k) = x^(2k)`,
/// and such a power, when it exists, is never negative (a negative even
/// exponent gives the reciprocal of a non-negative power).
pub proof fn lemma_even_power_ignores_sign(base: i128, exp: i128, scale: i128)
    requires
        scale > 0,
        base != i128::MIN,
        tdiv(exp as int, scale as int) % 2 == 0,
    ensures
        spec_fixed_pow((-base) as i128, exp, scale) == spec_fixed_pow(base, exp, scale),
        spec_fixed_pow(base, exp, scale) matches Ok(v) ==> v >= 0,
{
    let e = tdiv(exp as int, scale as int);
    let n = abs_int(e) as nat;
    assert(n % 2 == 0);
    lemma_pow_rounds_even_negated(scale as int, base as int, n, scale as int);
    assert(((-base) as i128) as int == -(base as int));
    let m: int = if base < 0 { -(base as int) } else { base as int };
    lemma_pow_rounds_even_negated(scale as int, m, n, scale as int);
    lemma_pow_rounds_nonneg(scale as int, m, n, scale as int);
    assert(pow_rounds(scale as int, base as int, n, scale as int) == pow_rounds(scale as int, m, n, scale as int));
    crate::math_operations::lemma_pow_rounds_fits(scale as int, m, n, scale as int);
    if let Some(p) = pow_rounds(scale as int, base as int, n, scale as int) {
        assert(p >= 0 && fits_i128(p));
        if e < 0 && p != 0 && fits_i128(scale * scale) {
            assert(scale * scale > 0) by (nonlinear_arith) requires scale > 0;
            let q = tdiv(scale * scale, p);
            assert((scale * scale) / p >= 0) by (nonlinear_arith)
                requires p > 0, scale * scale > 0;
            assert(q == (scale * scale) / p);
            lemma_tdiv_shrinks(scale * scale, p);
            assert(q >= 0);
        }
    }
}

/// The middle pass from position `i` on, when nothing before `i` is of the
/// middle level, leaves no operator of that level.
proof fn lemma_product_pass_consumes_from(nums: Seq<i128>, ops: Seq<Seq<char>>, i: int)
    requires
        0 <= i,
        forall|k: int| 0 <= k < i && k < ops.len() ==> !is_product_like(op_kind(#[trigger] ops[k])),
    ensures
        product_pass(nums, ops, i) matches Some(Ok((n2, o2))) ==> forall|k: int|
            0 <= k < o2.len() ==> !is_product_like(op_kind(#[trigger] o2[k])),
    decreases ops.len() - i,
{
    if i < ops.len() {
        if is_product_like(op_kind(ops[i])) {
            if i + 1 < nums.len() {
                if let Some(Ok(v)) = crate::ops::spec_product(op_kind(ops[i]), nums[i], nums[i + 1]) {
                    let o = ops.remove(i);
                    assert forall|k: int| 0 <= k < i && k < o.len() implies !is_product_like(op_kind(#[trigger] o[k])) by {
                        assert(o[k] == ops[k]);
                    }
                    lemma_product_pass_consumes_from(nums.update(i, v).remove(i + 1), o, i);
                }
            }
        } else {
            lemma_product_pass_consumes_from(nums, ops, i + 1);
        }
    }
}

/// The middle level is used up by its own pass: once it is through, no `*`,
/// `/`, `<<`, `>>`, `gcd` or `lmc` is left for the lowest level, so each of
/// them combines two numbers, however many stand in a row.
pub proof fn lemma_middle_level_consumed(nums: Seq<i128>, ops: Seq<Seq<char>>)
    ensures
        product_pass(nums, ops, 0) matches Some(Ok((n2, o2))) ==> forall|k: int|
            0 <= k < o2.len() ==> !is_product_like(op_kind(#[trigger] o2[k])),
{
    lemma_product_pass_consumes_from(nums, ops, 0);
}

/// What the one-character operator texts mean, worked out once.
proof fn lemma_single_char_kinds()
    ensures
        op_kind(seq!['*']) == OpKind::Multiply,
        op_kind(seq!['/']) == OpKind::Divide,
        op_kind(seq!['+']) == OpKind::Add,
        op_kind(seq!['-']) == OpKind::Subtract,
{
    let ns = crate::ops::not_sign();
    assert(ns == '\u{ac}');
    assert(seq![ns][0] == ns);
    assert(seq!['!'][0] == '!');
    assert(seq!['*'][0] == '*');
    assert(seq!['/'][0] == '/');
    assert(seq!['+'][0] == '+');
    assert(seq!['-'][0] == '-');
    assert(seq!['&'][0] == '&');
    assert(seq!['|'][0] == '|');
    assert(seq!['*'].len() == 1);
    assert(seq!['*'] != seq!['r', 'a', 'n', 'd']);
    assert(seq!['*'] != seq!['n', 'o', 't']);
    assert(seq!['*'] != seq![ns]);
    assert(seq!['*'] != seq!['!', 's', 'u', 'b']);
    assert(seq!['*'] != seq!['*', '*']);
    assert(seq!['*'] != seq!['!']);
    assert(seq!['/'] != seq![ns] && seq!['/'] != seq!['!'] && seq!['/'] != seq!['*']);
    assert(seq!['+'] != seq![ns] && seq!['+'] != seq!['!'] && seq!['+'] != seq!['*'] && seq!['+'] != seq!['/']);
    assert(seq!['-'] != seq![ns] && seq!['-'] != seq!['!'] && seq!['-'] != seq!['*'] && seq!['-'] != seq!['/']
        && seq!['-'] != seq!['+']);
}

/// The text of `*`.
pub open spec fn star() -> Seq<char> {
    seq!['*']
}

/// `a * b * c` multiplies left to right, `(a * b) * c`, each product of two
/// fixed-point numbers cut back to the scale toward zero: both `*` are used
/// by the middle level, none is left over.
pub proof fn lemma_products_chain_left(a: i128, b: i128, c: i128)
    requires
        fits_i128(a * b),
        fits_i128(tdiv(a * b, SCALE as int) * c),
    ensures
        spec_reduce(seq![a, b, c], seq![star(), star()])
            == Some(Ok::<i128, &'static str>(tdiv(tdiv(a * b, SCALE as int) * c, SCALE as int) as i128)),
{
    let ops = seq![star(), star()];
    let nums = seq![a, b, c];
    lemma_single_char_kinds();
    assert(ops[0] == star() && ops[1] == star());
    assert(unary_pass(nums, ops, 2) == unary_pass(nums, ops, 1));
    assert(unary_pass(nums, ops, 1) == unary_pass(nums, ops, 0));
    assert(power_pass(nums, ops, 0) == power_pass(nums, ops, 1));
    assert(power_pass(nums, ops, 1) == power_pass(nums, ops, 2));
    lemma_tdiv_shrinks(a * b, SCALE as int);
    let v1 = tdiv(a * b, SCALE as int) as i128;
    assert(v1 as int == tdiv(a * b, SCALE as int));
    lemma_tdiv_shrinks(v1 * c, SCALE as int);
    let v2 = tdiv(v1 * c, SCALE as int) as i128;
    let n1 = nums.update(0, v1).remove(1);
    assert(n1 =~= seq![v1, c]);
    let o1 = ops.remove(0);
    assert(o1 =~= seq![star()]);
    assert(o1[0] == star());
    let n2 = n1.update(0, v2).remove(1);
    assert(n2 =~= seq![v2]);
    let o2 = o1.remove(0);
    assert(o2 =~= Seq::<Seq<char>>::empty());
    assert(product_pass(n2, o2, 0) == Some(Ok::<(Seq<i128>, Seq<Seq<char>>), &'static str>((n2, o2))));
    assert(product_pass(n1, o1, 0) == Some(Ok::<(Seq<i128>, Seq<Seq<char>>), &'static str>((n2, o2))));
    assert(product_pass(nums, ops, 0) == Some(Ok::<(Seq<i128>, Seq<Seq<char>>), &'static str>((n2, o2))));
    assert(low_fold(v2, n2, o2, 0) == Some(Ok::<i128, &'static str>(v2)));
}

/// A stack of two numbers and one operator of the middle level gives what
/// that operator gives on them.
proof fn lemma_one_middle_operator(a: i128, b: i128, o: Seq<char>)
    requires
        is_product_like(op_kind(o)),
    ensures
        spec_reduce(seq![a, b], seq![o]) == crate::ops::spec_product(op_kind(o), a, b),
{
    let nums = seq![a, b];
    let ops = seq![o];
    assert(ops[0] == o);
    assert(unary_pass(nums, ops, 1) == unary_pass(nums, ops, 0));
    assert(power_pass(nums, ops, 0) == power_pass(nums, ops, 1));
    match crate::ops::spec_product(op_kind(o), a, b) {
        Some(Ok(v)) => {
            let n1 = nums.update(0, v).remove(1);
            assert(n1 =~= seq![v]);
            let o1 = ops.remove(0);
            assert(o1 =~= Seq::<Seq<char>>::empty());
            assert(product_pass(n1, o1, 0) == Some(Ok::<(Seq<i128>, Seq<Seq<char>>), &'static str>((n1, o1))));
            assert(low_fold(v, n1, o1, 0) == Some(Ok::<i128, &'static str>(v)));
        },
        _ => {},
    }
}

/// `a * b` keeps the fractions of both numbers: the exact product of the two
/// fixed-point values, cut back to eight decimals toward zero, or an overflow
/// error when the raw product leaves `i128`.
pub proof fn lemma_multiply_value(a: i128, b: i128)
    ensures
        spec_reduce(seq![a, b], seq![star()]) == if fits_i128(a * b) {
            Some(Ok::<i128, &'static str>(tdiv(a * b, SCALE as int) as i128))
        } else {
            Some(Err::<i128, &'static str>("Overflow"))
        },
{
    lemma_single_char_kinds();
    lemma_one_middle_operator(a, b, star());
}

/// Multiplication does not care about the order of its operands.
pub proof fn lemma_multiply_commutes(a: i128, b: i128)
    ensures
        spec_reduce(seq![a, b], seq![star()]) == spec_reduce(seq![b, a], seq![star()]),
{
    lemma_multiply_value(a, b);
    lemma_multiply_value(b, a);
    assert(a * b == b * a) by (nonlinear_arith);
}

/// The text of `/`.
pub open spec fn slash() -> Seq<char> {
    seq!['/']
}

/// `a / b` divides by the whole fixed-point divisor, fraction included: the
/// quotient `a * SCALE / b` toward zero. Only a zero divisor is refused as a
/// division by zero; a raw numerator out of range is an overflow.
pub proof fn lemma_divide_value(a: i128, b: i128)
    ensures
        spec_reduce(seq![a, b], seq![slash()]) == if b == 0 {
            Some(Err::<i128, &'static str>("Division by zero"))
        } else if fits_i128(a * SCALE) {
            Some(Ok::<i128, &'static str>(tdiv(a * SCALE, b as int) as i128))
        } else {
            Some(Err::<i128, &'static str>("Overflow"))
        },
{
    lemma_single_char_kinds();
    lemma_one_middle_operator(a, b, slash());
}

/// A non-zero number divided by itself is one, fractions included (such as
/// `0.5 / 0.5`).
pub proof fn lemma_divide_by_itself(a: i128)
    requires
        a != 0,
        fits_i128(a * SCALE),
    ensures
        spec_reduce(seq![a, a], seq![slash()]) == Some(Ok::<i128, &'static str>(SCALE)),
{
    lemma_divide_value(a, a);
    let x = a as int;
    assert(abs_int(x * SCALE) == abs_int(x) * SCALE) by (nonlinear_arith)
        requires abs_int(x) == (if x < 0 { -x } else { x }), abs_int(x * SCALE) == (if x * SCALE < 0 { -(x * SCALE) } else { x * SCALE });
    assert((abs_int(x) * SCALE) / abs_int(x) == SCALE) by (nonlinear_arith) requires abs_int(x) > 0;
    assert((x * SCALE < 0) == (x < 0)) by (nonlinear_arith);
}

/// The text of `-`.
pub open spec fn minus() -> Seq<char> {
    seq!['-']
}

/// Subtractions chain from the left: `a - b - c` is `(a - b) - c`, the
/// running total meeting each next number in turn.
pub proof fn lemma_subtraction_chains_left(a: i128, b: i128, c: i128)
    requires
        fits_i128(a - b),
        fits_i128(a - b - c),
    ensures
        spec_reduce(seq![a, b, c], seq![minus(), minus()]) == Some(Ok::<i128, &'static str>((a - b - c) as i128)),
{
    lemma_single_char_kinds();
    let nums = seq![a, b, c];
    let ops = seq![minus(), minus()];
    assert(ops[0] == minus() && ops[1] == minus());
    assert(unary_pass(nums, ops, 2) == unary_pass(nums, ops, 1));
    assert(unary_pass(nums, ops, 1) == unary_pass(nums, ops, 0));
    assert(power_pass(nums, ops, 0) == power_pass(nums, ops, 1));
    assert(power_pass(nums, ops, 1) == power_pass(nums, ops, 2));
    assert(product_pass(nums, ops, 0) == product_pass(nums, ops, 1));
    assert(product_pass(nums, ops, 1) == product_pass(nums, ops, 2));
    let t1 = (a - b) as i128;
    assert(low_fold(t1, nums, ops, 1) == low_fold((t1 - c) as i128, nums, ops, 2));
}

} // verus!
