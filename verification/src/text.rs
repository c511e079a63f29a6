//! Characters and decimal text: the character classes that the lexer uses,
//! and conversions between `i128` values and their decimal form.
use vstd::prelude::*;

verus! {

/// Whether `c` is an ASCII decimal digit.
pub open spec fn is_digit(c: char) -> bool {
    '0' <= c && c <= '9'
}

/// Whether `c` is an ASCII letter.
pub open spec fn is_letter(c: char) -> bool {
    ('a' <= c && c <= 'z') || ('A' <= c && c <= 'Z')
}

/// Whether `c` has the Unicode White_Space property.
pub open spec fn is_space(c: char) -> bool {
    ('\u{9}' <= c && c <= '\u{d}') || c == ' ' || c == '\u{85}' || c == '\u{a0}' || c == '\u{1680}'
        || ('\u{2000}' <= c && c <= '\u{200a}') || c == '\u{2028}' || c == '\u{2029}' || c
        == '\u{202f}' || c == '\u{205f}' || c == '\u{3000}'
}

/// The value of a digit character.
pub open spec fn digit_value(c: char) -> nat {
    (c as int - '0' as int) as nat
}

/// The character of a digit value below ten.
pub open spec fn digit_char(d: nat) -> char {
    (d + '0' as int) as char
}

/// Whether every character is a digit.
pub open spec fn all_digits(s: Seq<char>) -> bool {
    forall|i: int| 0 <= i < s.len() ==> is_digit(#[trigger] s[i])
}

/// The number that a string of digits spells (zero for no digits).
pub open spec fn digits_value(s: Seq<char>) -> nat
    decreases s.len(),
{
    if s.len() == 0 {
        0
    } else {
        digits_value(s.drop_last()) * 10 + digit_value(s.last())
    }
}

/// `10^n`.
pub open spec fn pow10(n: nat) -> nat
    decreases n,
{
    if n == 0 { 1 } else { 10 * pow10((n - 1) as nat) }
}

/// `10^i <= 10^j` when `i <= j`.
pub proof fn lemma_pow10_grows(i: nat, j: nat)
    requires
        i <= j,
    ensures
        pow10(i) <= pow10(j),
    decreases j,
{
    if i < j {
        lemma_pow10_grows(i, (j - 1) as nat);
    }
}

/// The decimal digits of `n`, without leading zeros.
pub open spec fn decimal(n: nat) -> Seq<char>
    decreases n,
{
    if n < 10 {
        seq![digit_char(n)]
    } else {
        decimal(n / 10).push(digit_char(n % 10))
    }
}

/// The text of an `i128` as Rust prints it: a minus sign for negative values.
pub open spec fn int_text(v: i128) -> Seq<char> {
    if v < 0 {
        seq!['-'] + decimal((-v) as nat)
    } else {
        decimal(v as nat)
    }
}

/// What reading `s` as an `i128` gives, as Rust's `str::parse::<i128>` reads
/// it: an optional `+` or `-`, then one or more digits, and a value in range.
pub open spec fn parse_int(s: Seq<char>) -> Option<i128> {
    let neg = s.len() > 0 && s[0] == '-';
    let body = if s.len() > 0 && (s[0] == '-' || s[0] == '+') { s.drop_first() } else { s };
    let v: int = if neg { -digits_value(body) } else { digits_value(body) as int };
    if body.len() == 0 || !all_digits(body) || v < i128::MIN || v > i128::MAX {
        None
    } else {
        Some(v as i128)
    }
}

/// `String::push`: appends one character.
#[verifier::external_body]
pub(crate) fn push_char(s: &mut String, c: char)
    ensures
        final(s)@ == old(s)@.push(c),
{
    s.push(c);
}

/// Whether `c` is an ASCII decimal digit.
pub fn char_is_digit(c: char) -> (b: bool)
    ensures
        b == is_digit(c),
{
    '0' <= c && c <= '9'
}

/// Whether `c` is an ASCII letter.
pub fn char_is_letter(c: char) -> (b: bool)
    ensures
        b == is_letter(c),
{
    ('a' <= c && c <= 'z') || ('A' <= c && c <= 'Z')
}

/// Whether `c` is white space in the Unicode sense.
pub fn char_is_space(c: char) -> (b: bool)
    ensures
        b == is_space(c),
{
    ('\u{9}' <= c && c <= '\u{d}') || c == ' ' || c == '\u{85}' || c == '\u{a0}' || c == '\u{1680}'
        || ('\u{2000}' <= c && c <= '\u{200a}') || c == '\u{2028}' || c == '\u{2029}' || c
        == '\u{202f}' || c == '\u{205f}' || c == '\u{3000}'
}

/// The characters of a string slice.
pub fn chars_of(s: &str) -> (v: Vec<char>)
    ensures
        v@ == s@,
{
    let mut v: Vec<char> = Vec::new();
    for c in it: s.chars()
        invariant
            v@ == it.seq().take(it.index() as int),
    {
        v.push(c);
    }
    v
}

/// Appends the decimal digits of `n`.
fn push_decimal(s: &mut String, n: u128)
    ensures
        final(s)@ == old(s)@ + decimal(n as nat),
    decreases n,
{
    if n >= 10 {
        push_decimal(s, n / 10);
    }
    let d = (n % 10) as u8;
    let c = (48u8 + d) as char;
    assert(c == digit_char((n % 10) as nat));
    push_char(s, c);
    assert(s@ =~= old(s)@ + decimal(n as nat));
}

/// The decimal text of `v`, as `i128::to_string` writes it.
pub fn int_to_text(v: i128) -> (s: String)
    ensures
        s@ == int_text(v),
{
    let mut s = String::new();
    if v < 0 {
        push_char(&mut s, '-');
        let m: u128 = if v == i128::MIN {
            170141183460469231731687303715884105728u128
        } else {
            (-v) as u128
        };
        push_decimal(&mut s, m);
        assert(s@ =~= int_text(v));
    } else {
        push_decimal(&mut s, v as u128);
        assert(s@ =~= int_text(v));
    }
    s
}

/// A number spelled by digits is at least the number spelled by any prefix.
pub proof fn lemma_digits_value_prefix(s: Seq<char>, j: int)
    requires
        0 <= j <= s.len(),
    ensures
        digits_value(s.take(j)) <= digits_value(s),
    decreases s.len(),
{
    if j < s.len() {
        assert(s.drop_last().take(j) =~= s.take(j));
        lemma_digits_value_prefix(s.drop_last(), j);
    } else {
        assert(s.take(j) =~= s);
    }
}

/// Reads text as an `i128`, as `str::parse::<i128>` does.
pub fn parse_int_text(s: &String) -> (r: Option<i128>)
    ensures
        r == parse_int(s@),
{
    let cs = chars_of(s.as_str());
    let n = cs.len();
    let mut start: usize = 0;
    let mut neg = false;
    if n > 0 && cs[0] == '-' {
        neg = true;
        start = 1;
    } else if n > 0 && cs[0] == '+' {
        start = 1;
    }
    let ghost body = cs@.subrange(start as int, n as int);
    assert(body =~= (if cs@.len() > 0 && (cs@[0] == '-' || cs@[0] == '+') { cs@.drop_first() } else { cs@ }));
    if start >= n {
        return None;
    }
    let mut acc: i128 = 0;
    let mut k: usize = start;
    while k < n
        invariant
            start <= k <= n,
            n == cs@.len(),
            start <= 1,
            body == cs@.subrange(start as int, n as int),
            cs@ == s@,
            neg == (s@.len() > 0 && s@[0] == '-'),
            body == (if s@.len() > 0 && (s@[0] == '-' || s@[0] == '+') { s@.drop_first() } else { s@ }),
            body.len() > 0,
            all_digits(body.take(k - start)),
            acc == (if neg { -digits_value(body.take(k - start)) } else { digits_value(body.take(k - start)) as int }),
        decreases n - k,
    {
        let c = cs[k];
        let ghost j: int = k - start;
        if !char_is_digit(c) {
            assert(body[j] == c);
            return None;
        }
        let d = (c as u32 - 48) as i128;
        assert(body.take(j + 1).drop_last() =~= body.take(j));
        assert(body.take(j + 1).last() == c);
        assert(digits_value(body.take(j + 1)) == digits_value(body.take(j)) * 10 + d);
        proof {
            lemma_digits_value_prefix(body, j + 1);
        }
        let m = match acc.checked_mul(10) {
            Some(x) => x,
            None => {
                proof {
                    assert(all_digits(body) ==> digits_value(body.take(j + 1)) <= digits_value(body));
                }
                return None;
            },
        };
        acc = if neg {
            match m.checked_sub(d) {
                Some(x) => x,
                None => return None,
            }
        } else {
            match m.checked_add(d) {
                Some(x) => x,
                None => return None,
            }
        };
        assert(all_digits(body.take(j + 1)));
        k += 1;
    }
    assert(body.take(n - start) =~= body);
    Some(acc)
}

/// A number below `10^k` has at most `k` digits.
pub proof fn lemma_decimal_len(n: nat, k: nat)
    requires
        k >= 1,
        n < pow10(k),
    ensures
        1 <= decimal(n).len() <= k,
    decreases n,
{
    if n >= 10 {
        assert(k >= 2) by {
            if k == 1 {
                assert(pow10(1) == 10 * pow10(0));
            }
        }
        assert(n / 10 < pow10((k - 1) as nat)) by {
            assert(pow10(k) == 10 * pow10((k - 1) as nat));
        }
        lemma_decimal_len(n / 10, (k - 1) as nat);
    }
}

} // verus!
