//! The operators of the calculator: how an operator's text is recognised, and
//! what each one computes on fixed-point operands.
use vstd::prelude::*;
use crate::fixed::{SCALE, abs_int, fits_i128, tdiv, to_raw, to_fixed, raw_part, fixed_from_raw};

verus! {

/// What an operator's text means.
#[derive(Clone, Copy, Debug, PartialEq, Eq, Structural)]
pub enum OpKind {
    Rand,
    Not,
    Factorial,
    Subfactorial,
    Power,
    Multiply,
    Divide,
    ShiftLeft,
    ShiftRight,
    Gcd,
    Lcm,
    Add,
    Subtract,
    BitAnd,
    BitOr,
    BitXor,
    BitNor,
    BitNand,
    Other,
}

/// The logical-not sign `¬` (U+00AC).
pub open spec fn not_sign() -> char {
    '\u{ac}'
}

/// The operator that an operator's text names. The least common multiple is
/// spelled `lmc`, and `lcm` is read the same way.
pub open spec fn op_kind(s: Seq<char>) -> OpKind {
    if s == seq!['r', 'a', 'n', 'd'] {
        OpKind::Rand
    } else if s == seq!['n', 'o', 't'] || s == seq![not_sign()] {
        OpKind::Not
    } else if s == seq!['!'] {
        OpKind::Factorial
    } else if s == seq!['!', 's', 'u', 'b'] {
        OpKind::Subfactorial
    } else if s == seq!['*', '*'] {
        OpKind::Power
    } else if s == seq!['*'] {
        OpKind::Multiply
    } else if s == seq!['/'] {
        OpKind::Divide
    } else if s == seq!['<', '<'] {
        OpKind::ShiftLeft
    } else if s == seq!['>', '>'] {
        OpKind::ShiftRight
    } else if s == seq!['g', 'c', 'd'] {
        OpKind::Gcd
    } else if s == seq!['l', 'm', 'c'] || s == seq!['l', 'c', 'm'] {
        OpKind::Lcm
    } else if s == seq!['+'] {
        OpKind::Add
    } else if s == seq!['-'] {
        OpKind::Subtract
    } else if s == seq!['&'] {
        OpKind::BitAnd
    } else if s == seq!['|'] {
        OpKind::BitOr
    } else if s == seq!['x', 'o', 'r'] {
        OpKind::BitXor
    } else if s == seq![not_sign(), '|'] {
        OpKind::BitNor
    } else if s == seq![not_sign(), '&'] {
        OpKind::BitNand
    } else {
        OpKind::Other
    }
}

/// Operators that act on the single number at their own position.
pub open spec fn is_unary(k: OpKind) -> bool {
    k == OpKind::Not || k == OpKind::Factorial || k == OpKind::Subfactorial
}

/// Operators of the middle precedence level.
pub open spec fn is_product_like(k: OpKind) -> bool {
    k == OpKind::Multiply || k == OpKind::Divide || k == OpKind::ShiftLeft || k
        == OpKind::ShiftRight || k == OpKind::Gcd || k == OpKind::Lcm
}

/// Whether the text equals the literal.
pub(crate) fn text_is(s: &String, lit: &str) -> (b: bool)
    ensures
        b == (s@ == lit@),
{
    *s == String::from_str(lit)
}

/// Recognises an operator's text.
pub fn classify(s: &String) -> (k: OpKind)
    ensures
        k == op_kind(s@),
{
    proof {
        reveal_strlit("rand");
        assert("rand"@ =~= seq!['r', 'a', 'n', 'd']);
        reveal_strlit("not");
        assert("not"@ =~= seq!['n', 'o', 't']);
        reveal_strlit("\u{ac}");
        assert("\u{ac}"@ =~= seq![not_sign()]);
        reveal_strlit("!");
        assert("!"@ =~= seq!['!']);
        reveal_strlit("!sub");
        assert("!sub"@ =~= seq!['!', 's', 'u', 'b']);
        reveal_strlit("**");
        assert("**"@ =~= seq!['*', '*']);
        reveal_strlit("*");
        assert("*"@ =~= seq!['*']);
        reveal_strlit("/");
        assert("/"@ =~= seq!['/']);
        reveal_strlit("<<");
        assert("<<"@ =~= seq!['<', '<']);
        reveal_strlit(">>");
        assert(">>"@ =~= seq!['>', '>']);
        reveal_strlit("gcd");
        assert("gcd"@ =~= seq!['g', 'c', 'd']);
        reveal_strlit("lmc");
        assert("lmc"@ =~= seq!['l', 'm', 'c']);
        reveal_strlit("lcm");
        assert("lcm"@ =~= seq!['l', 'c', 'm']);
        reveal_strlit("+");
        assert("+"@ =~= seq!['+']);
        reveal_strlit("-");
        assert("-"@ =~= seq!['-']);
        reveal_strlit("&");
        assert("&"@ =~= seq!['&']);
        reveal_strlit("|");
        assert("|"@ =~= seq!['|']);
        reveal_strlit("xor");
        assert("xor"@ =~= seq!['x', 'o', 'r']);
        reveal_strlit("\u{ac}|");
        assert("\u{ac}|"@ =~= seq![not_sign(), '|']);
        reveal_strlit("\u{ac}&");
        assert("\u{ac}&"@ =~= seq![not_sign(), '&']);
    }
    if text_is(s, "rand") {
        OpKind::Rand
    } else if text_is(s, "not") || text_is(s, "\u{ac}") {
        OpKind::Not
    } else if text_is(s, "!") {
        OpKind::Factorial
    } else if text_is(s, "!sub") {
        OpKind::Subfactorial
    } else if text_is(s, "**") {
        OpKind::Power
    } else if text_is(s, "*") {
        OpKind::Multiply
    } else if text_is(s, "/") {
        OpKind::Divide
    } else if text_is(s, "<<") {
        OpKind::ShiftLeft
    } else if text_is(s, ">>") {
        OpKind::ShiftRight
    } else if text_is(s, "gcd") {
        OpKind::Gcd
    } else if text_is(s, "lmc") || text_is(s, "lcm") {
        OpKind::Lcm
    } else if text_is(s, "+") {
        OpKind::Add
    } else if text_is(s, "-") {
        OpKind::Subtract
    } else if text_is(s, "&") {
        OpKind::BitAnd
    } else if text_is(s, "|") {
        OpKind::BitOr
    } else if text_is(s, "xor") {
        OpKind::BitXor
    } else if text_is(s, "\u{ac}|") {
        OpKind::BitNor
    } else if text_is(s, "\u{ac}&") {
        OpKind::BitNand
    } else {
        OpKind::Other
    }
}

} // verus!

verus! {

/// `n!`.
pub open spec fn factorial(n: nat) -> nat
    decreases n,
{
    if n == 0 { 1 } else { n * factorial((n - 1) as nat) }
}

/// `!n`, the number of derangements of `n` items.
pub open spec fn subfactorial(n: nat) -> nat
    decreases n,
{
    if n == 0 {
        1
    } else if n == 1 {
        0
    } else {
        ((n - 1) as nat) * (subfactorial((n - 1) as nat) + subfactorial((n - 2) as nat))
    }
}

/// Greatest common divisor by Euclid's rule; `gcd(0, 0) == 0`.
pub open spec fn gcd(a: nat, b: nat) -> nat
    decreases b,
{
    if b == 0 { a } else { gcd(b, a % b) }
}

/// `x << s`, or nothing when the shift is as wide as the type.
pub open spec fn shl_within(x: i128, s: u32) -> Option<i128> {
    if s < 128 { Some(x << s) } else { None }
}

/// `x >> s` (sign-extending), or nothing when the shift is as wide as the type.
pub open spec fn shr_within(x: i128, s: u32) -> Option<i128> {
    if s < 128 { Some(x >> s) } else { None }
}

/// Absolute value of an `i128`, where `i128::MIN` stays as it is.
pub open spec fn wrapping_abs(x: i128) -> i128 {
    if x == i128::MIN { x } else if x < 0 { (-x) as i128 } else { x }
}

/// A unary operator (`not`, `¬`, `!`, `!sub`) applied to the whole part of
/// `a`; `None` where scaling the result back overflows.
pub open spec fn spec_unary(k: OpKind, a: i128) -> Option<Result<i128, &'static str>> {
    let n = to_raw(a);
    if k == OpKind::Not {
        to_fixed(!(n as i128) as int)
    } else if k == OpKind::Factorial {
        if n < 0 {
            Some(Err("Factorial of negative number"))
        } else if factorial(n as nat) > i128::MAX {
            Some(Err("Overflow"))
        } else {
            to_fixed(factorial(n as nat) as int)
        }
    } else {
        if n < 0 {
            Some(Err("Subfactorial of negative number"))
        } else if subfactorial(n as nat) > i128::MAX {
            Some(Err("Overflow"))
        } else {
            to_fixed(subfactorial(n as nat) as int)
        }
    }
}

/// An operator of the middle level (`*`, `/`, `<<`, `>>`, `gcd`, `lmc`) on
/// `a` and `b`. Products and quotients keep the fraction; shifts, `gcd` and
/// `lmc` work on the whole parts. `None` where scaling a whole result back
/// overflows.
pub open spec fn spec_product(k: OpKind, a: i128, b: i128) -> Option<Result<i128, &'static str>> {
    let ra = to_raw(a);
    let rb = to_raw(b);
    if k == OpKind::Multiply {
        if fits_i128(a * b) { Some(Ok(tdiv(a * b, SCALE as int) as i128)) } else { Some(Err("Overflow")) }
    } else if k == OpKind::Divide {
        if b == 0 {
            Some(Err("Division by zero"))
        } else if fits_i128(a * SCALE) {
            Some(Ok(tdiv(a * SCALE, b as int) as i128))
        } else {
            Some(Err("Overflow"))
        }
    } else if k == OpKind::ShiftLeft {
        match shl_within(ra as i128, rb as u32) {
            Some(v) => to_fixed(v as int),
            None => Some(Err("Shift overflow")),
        }
    } else if k == OpKind::ShiftRight {
        match shr_within(ra as i128, rb as u32) {
            Some(v) => to_fixed(v as int),
            None => Some(Err("Shift overflow")),
        }
    } else if k == OpKind::Gcd {
        to_fixed(gcd(abs_int(ra) as nat, abs_int(rb) as nat) as int)
    } else {
        let x = abs_int(ra) as nat;
        let y = abs_int(rb) as nat;
        if x == 0 || y == 0 {
            to_fixed(0)
        } else if fits_i128(((x / gcd(x, y)) * y) as int) {
            to_fixed(((x / gcd(x, y)) * y) as int)
        } else {
            Some(Err("Overflow"))
        }
    }
}

/// An operator of the lowest level on the running total `t` and the next
/// number `n`: checked `+` and `-` on the fixed-point values, bitwise logic on
/// the whole parts (`None` where scaling the result back overflows). Any
/// other operator is refused.
pub open spec fn spec_low(k: OpKind, t: i128, n: i128) -> Option<Result<i128, &'static str>> {
    let x = to_raw(t) as i128;
    let y = to_raw(n) as i128;
    if k == OpKind::Add {
        if fits_i128(t + n) { Some(Ok((t + n) as i128)) } else { Some(Err("Overflow")) }
    } else if k == OpKind::Subtract {
        if fits_i128(t - n) { Some(Ok((t - n) as i128)) } else { Some(Err("Overflow")) }
    } else if k == OpKind::BitAnd {
        to_fixed((x & y) as int)
    } else if k == OpKind::BitOr {
        to_fixed((x | y) as int)
    } else if k == OpKind::BitXor {
        to_fixed((x ^ y) as int)
    } else if k == OpKind::BitNor {
        to_fixed((!(x | y)) as int)
    } else if k == OpKind::BitNand {
        to_fixed((!(x & y)) as int)
    } else {
        Some(Err("Invalid operator"))
    }
}

/// A factorial never shrinks as its argument grows.
pub proof fn lemma_factorial_monotone(i: nat, j: nat)
    requires
        i <= j,
    ensures
        factorial(i) <= factorial(j),
    decreases j,
{
    if i < j {
        lemma_factorial_monotone(i, (j - 1) as nat);
        lemma_factorial_positive((j - 1) as nat);
        assert(factorial((j - 1) as nat) <= j * factorial((j - 1) as nat)) by (nonlinear_arith)
            requires j >= 1;
    }
}

/// A factorial is at least one.
pub proof fn lemma_factorial_positive(n: nat)
    ensures
        factorial(n) >= 1,
    decreases n,
{
    if n > 0 {
        lemma_factorial_positive((n - 1) as nat);
        assert(n * factorial((n - 1) as nat) >= 1) by (nonlinear_arith)
            requires n >= 1, factorial((n - 1) as nat) >= 1;
    }
}

/// From one on, the subfactorials never shrink.
pub proof fn lemma_subfactorial_monotone(i: nat, j: nat)
    requires
        1 <= i <= j,
    ensures
        subfactorial(i) <= subfactorial(j),
    decreases j,
{
    if i < j {
        lemma_subfactorial_monotone(i, (j - 1) as nat);
        let a = subfactorial((j - 1) as nat);
        let b = subfactorial((j - 2) as nat);
        assert(a <= (j - 1) * (a + b)) by (nonlinear_arith)
            requires j >= 2, b >= 0, a >= 0;
    }
}

/// The subfactorials around the top of the `i128` range.
proof fn lemma_subfactorial_values()
    ensures
        subfactorial(33) + subfactorial(34) <= i128::MAX,
        subfactorial(35) > i128::MAX,
{
    assert(subfactorial(0) == 1);
    assert(subfactorial(1) == 0);
    assert(subfactorial(2) == 1) by { assert(subfactorial(2) == 1 * (subfactorial(1) + subfactorial(0))); }
    assert(subfactorial(3) == 2) by { assert(subfactorial(3) == 2 * (subfactorial(2) + subfactorial(1))); }
    assert(subfactorial(4) == 9) by { assert(subfactorial(4) == 3 * (subfactorial(3) + subfactorial(2))); }
    assert(subfactorial(5) == 44) by { assert(subfactorial(5) == 4 * (subfactorial(4) + subfactorial(3))); }
    assert(subfactorial(6) == 265) by { assert(subfactorial(6) == 5 * (subfactorial(5) + subfactorial(4))); }
    assert(subfactorial(7) == 1854) by { assert(subfactorial(7) == 6 * (subfactorial(6) + subfactorial(5))); }
    assert(subfactorial(8) == 14833) by { assert(subfactorial(8) == 7 * (subfactorial(7) + subfactorial(6))); }
    assert(subfactorial(9) == 133496) by { assert(subfactorial(9) == 8 * (subfactorial(8) + subfactorial(7))); }
    assert(subfactorial(10) == 1334961) by { assert(subfactorial(10) == 9 * (subfactorial(9) + subfactorial(8))); }
    assert(subfactorial(11) == 14684570) by { assert(subfactorial(11) == 10 * (subfactorial(10) + subfactorial(9))); }
    assert(subfactorial(12) == 176214841) by { assert(subfactorial(12) == 11 * (subfactorial(11) + subfactorial(10))); }
    assert(subfactorial(13) == 2290792932) by { assert(subfactorial(13) == 12 * (subfactorial(12) + subfactorial(11))); }
    assert(subfactorial(14) == 32071101049) by { assert(subfactorial(14) == 13 * (subfactorial(13) + subfactorial(12))); }
    assert(subfactorial(15) == 481066515734) by { assert(subfactorial(15) == 14 * (subfactorial(14) + subfactorial(13))); }
    assert(subfactorial(16) == 7697064251745) by { assert(subfactorial(16) == 15 * (subfactorial(15) + subfactorial(14))); }
    assert(subfactorial(17) == 130850092279664) by { assert(subfactorial(17) == 16 * (subfactorial(16) + subfactorial(15))); }
    assert(subfactorial(18) == 2355301661033953) by { assert(subfactorial(18) == 17 * (subfactorial(17) + subfactorial(16))); }
    assert(subfactorial(19) == 44750731559645106) by { assert(subfactorial(19) == 18 * (subfactorial(18) + subfactorial(17))); }
    assert(subfactorial(20) == 895014631192902121) by { assert(subfactorial(20) == 19 * (subfactorial(19) + subfactorial(18))); }
    assert(subfactorial(21) == 18795307255050944540) by { assert(subfactorial(21) == 20 * (subfactorial(20) + subfactorial(19))); }
    assert(subfactorial(22) == 413496759611120779881) by { assert(subfactorial(22) == 21 * (subfactorial(21) + subfactorial(20))); }
    assert(subfactorial(23) == 9510425471055777937262) by { assert(subfactorial(23) == 22 * (subfactorial(22) + subfactorial(21))); }
    assert(subfactorial(24) == 228250211305338670494289) by { assert(subfactorial(24) == 23 * (subfactorial(23) + subfactorial(22))); }
    assert(subfactorial(25) == 5706255282633466762357224) by { assert(subfactorial(25) == 24 * (subfactorial(24) + subfactorial(23))); }
    assert(subfactorial(26) == 148362637348470135821287825) by { assert(subfactorial(26) == 25 * (subfactorial(25) + subfactorial(24))); }
    assert(subfactorial(27) == 4005791208408693667174771274) by { assert(subfactorial(27) == 26 * (subfactorial(26) + subfactorial(25))); }
    assert(subfactorial(28) == 112162153835443422680893595673) by { assert(subfactorial(28) == 27 * (subfactorial(27) + subfactorial(26))); }
    assert(subfactorial(29) == 3252702461227859257745914274516) by { assert(subfactorial(29) == 28 * (subfactorial(28) + subfactorial(27))); }
    assert(subfactorial(30) == 97581073836835777732377428235481) by { assert(subfactorial(30) == 29 * (subfactorial(29) + subfactorial(28))); }
    assert(subfactorial(31) == 3025013288941909109703700275299910) by { assert(subfactorial(31) == 30 * (subfactorial(30) + subfactorial(29))); }
    assert(subfactorial(32) == 96800425246141091510518408809597121) by { assert(subfactorial(32) == 31 * (subfactorial(31) + subfactorial(30))); }
    assert(subfactorial(33) == 3194414033122656019847107490716704992) by { assert(subfactorial(33) == 32 * (subfactorial(32) + subfactorial(31))); }
    assert(subfactorial(34) == 108610077126170304674801654684367969729) by { assert(subfactorial(34) == 33 * (subfactorial(33) + subfactorial(32))); }
    assert(subfactorial(35) == 3801352699415960663618057913952878940514) by { assert(subfactorial(35) == 34 * (subfactorial(34) + subfactorial(33))); }
}

/// The gcd is positive as soon as one argument is.
pub proof fn lemma_gcd_positive(a: nat, b: nat)
    requires
        a > 0 || b > 0,
    ensures
        gcd(a, b) > 0,
    decreases b,
{
    if b > 0 {
        lemma_gcd_positive(b, a % b);
    }
}

/// `n!` as a fixed-point value, or the overflow.
fn factorial_fixed(a: i128) -> (r: Result<i128, &'static str>)
    requires
        spec_unary(OpKind::Factorial, a) is Some,
    ensures
        Some(r) == spec_unary(OpKind::Factorial, a),
{
    let n = raw_part(a);
    if n < 0 {
        return Err("Factorial of negative number");
    }
    let mut f: i128 = 1;
    let mut idx: i128 = 1;
    while idx <= n
        invariant
            1 <= idx <= n + 1,
            n == to_raw(a),
            n <= 1_701_411_834_604_692_317_316_873_037_158,
            f == factorial((idx - 1) as nat),
        decreases n + 1 - idx,
    {
        proof {
            assert(factorial(idx as nat) == idx * factorial((idx - 1) as nat));
            assert(f * idx == idx * f) by (nonlinear_arith);
        }
        f = match f.checked_mul(idx) {
            Some(v) => v,
            None => {
                proof {
                    lemma_factorial_monotone(idx as nat, n as nat);
                }
                return Err("Overflow");
            },
        };
        idx += 1;
    }
    Ok(fixed_from_raw(f))
}

/// `!n` as a fixed-point value, or the overflow.
fn subfactorial_fixed(a: i128) -> (r: Result<i128, &'static str>)
    requires
        spec_unary(OpKind::Subfactorial, a) is Some,
    ensures
        Some(r) == spec_unary(OpKind::Subfactorial, a),
{
    let n = raw_part(a);
    if n < 0 {
        return Err("Subfactorial of negative number");
    }
    let mut sub: i128 = 1;
    if n > 0 {
        let mut p1: i128 = 1;
        let mut p2: i128 = 0;
        sub = p2;
        let mut idx: i128 = 2;
        proof {
            lemma_subfactorial_values();
        }
        while idx <= n
            invariant
                2 <= idx <= n + 1,
                n == to_raw(a),
                n <= 1_701_411_834_604_692_317_316_873_037_158,
                p1 == subfactorial((idx - 2) as nat),
                p2 == subfactorial((idx - 1) as nat),
                sub == p2,
                subfactorial(33) + subfactorial(34) <= i128::MAX,
                subfactorial(35) > i128::MAX,
            decreases n + 1 - idx,
        {
            proof {
                if idx > 35 {
                    lemma_subfactorial_monotone(35, (idx - 1) as nat);
                }
                if idx >= 3 {
                    lemma_subfactorial_monotone((idx - 2) as nat, 33);
                    lemma_subfactorial_monotone((idx - 1) as nat, 34);
                }
            }
            sub = match (idx - 1).checked_mul(p1 + p2) {
                Some(v) => v,
                None => {
                    proof {
                        lemma_subfactorial_monotone(idx as nat, n as nat);
                    }
                    return Err("Overflow");
                },
            };
            p1 = p2;
            p2 = sub;
            idx += 1;
        }
    }
    Ok(fixed_from_raw(sub))
}

/// Euclid's algorithm on non-negative numbers.
fn gcd_exec(a: i128, b: i128) -> (g: i128)
    requires
        a >= 0,
        b >= 0,
    ensures
        g == gcd(a as nat, b as nat),
{
    let mut x = a;
    let mut y = b;
    while y != 0
        invariant
            x >= 0,
            y >= 0,
            gcd(x as nat, y as nat) == gcd(a as nat, b as nat),
        decreases y,
    {
        let t = x % y;
        x = y;
        y = t;
    }
    x
}

/// Applies a unary operator to the number at its position.
pub fn apply_unary(k: OpKind, a: i128) -> (r: Result<i128, &'static str>)
    requires
        is_unary(k),
        spec_unary(k, a) is Some,
    ensures
        Some(r) == spec_unary(k, a),
{
    match k {
        OpKind::Not => Ok(fixed_from_raw(!raw_part(a))),
        OpKind::Factorial => factorial_fixed(a),
        _ => subfactorial_fixed(a),
    }
}

/// Applies an operator of the middle level to two neighbouring numbers.
pub fn apply_product(k: OpKind, a: i128, b: i128) -> (r: Result<i128, &'static str>)
    requires
        is_product_like(k),
        spec_product(k, a, b) is Some,
    ensures
        Some(r) == spec_product(k, a, b),
{
    match k {
        OpKind::Multiply => match a.checked_mul(b) {
            Some(v) => {
                assert(v == a * b);
                let q = v / SCALE;
                assert(q == tdiv(a * b, SCALE as int));
                assert(spec_product(k, a, b) == Some(Ok::<i128, &'static str>(q)));
                Ok(q)
            },
            None => {
                assert(!fits_i128(a * b));
                assert(spec_product(k, a, b) == Some(Err::<i128, &'static str>("Overflow")));
                Err("Overflow")
            },
        },
        OpKind::Divide => {
            if b == 0 {
                return Err("Division by zero");
            }
            match a.checked_mul(SCALE) {
                Some(v) => {
                    let q = v.checked_div(b).unwrap();
                    assert(q == tdiv(a * SCALE, b as int));
                    Ok(q)
                },
                None => Err("Overflow"),
            }
        },
        OpKind::ShiftLeft => {
            let x = raw_part(a);
            let s = #[verifier::truncate] (raw_part(b) as u32);
            if s < 128 {
                assert(x.wrapping_shl(s) == x << s);
                Ok(fixed_from_raw(x.wrapping_shl(s)))
            } else {
                Err("Shift overflow")
            }
        },
        OpKind::ShiftRight => {
            let x = raw_part(a);
            let s = #[verifier::truncate] (raw_part(b) as u32);
            if s < 128 {
                assert(x.wrapping_shr(s) == x >> s);
                Ok(fixed_from_raw(x.wrapping_shr(s)))
            } else {
                Err("Shift overflow")
            }
        },
        OpKind::Gcd => {
            let x = magnitude(raw_part(a));
            let y = magnitude(raw_part(b));
            Ok(fixed_from_raw(gcd_exec(x, y)))
        },
        _ => {
            let x = magnitude(raw_part(a));
            let y = magnitude(raw_part(b));
            if x == 0 || y == 0 {
                Ok(fixed_from_raw(0))
            } else {
                let g = gcd_exec(x, y);
                proof {
                    lemma_gcd_positive(x as nat, y as nat);
                }
                match (x / g).checked_mul(y) {
                    Some(v) => {
                        assert(v == (x as nat / gcd(x as nat, y as nat)) * (y as nat));
                        Ok(fixed_from_raw(v))
                    },
                    None => Err("Overflow"),
                }
            }
        },
    }
}

/// Applies an operator of the lowest level to the running total and the next
/// number.
pub fn apply_low(k: OpKind, t: i128, n: i128) -> (r: Result<i128, &'static str>)
    requires
        spec_low(k, t, n) is Some,
    ensures
        Some(r) == spec_low(k, t, n),
{
    let x = raw_part(t);
    let y = raw_part(n);
    match k {
        OpKind::Add => match t.checked_add(n) {
            Some(v) => Ok(v),
            None => Err("Overflow"),
        },
        OpKind::Subtract => match t.checked_sub(n) {
            Some(v) => Ok(v),
            None => Err("Overflow"),
        },
        OpKind::BitAnd => Ok(fixed_from_raw(x & y)),
        OpKind::BitOr => Ok(fixed_from_raw(x | y)),
        OpKind::BitXor => Ok(fixed_from_raw(x ^ y)),
        OpKind::BitNor => Ok(fixed_from_raw(!(x | y))),
        OpKind::BitNand => Ok(fixed_from_raw(!(x & y))),
        _ => Err("Invalid operator"),
    }
}

/// Absolute value, where `i128::MIN`, which has no positive counterpart, is
/// returned unchanged. Used on generated random numbers, which can take any
/// value.
pub fn magnitude(x: i128) -> (r: i128)
    ensures
        r == wrapping_abs(x),
{
    if x == i128::MIN {
        x
    } else if x < 0 {
        -x
    } else {
        x
    }
}

} // verus!
