//! Reading an expression: the lexer splits the text into tokens, and the
//! parsing engine feeds them into a `MathProcessor`.
use vstd::prelude::*;
use crate::fixed::SCALE;
use crate::text::{is_digit, is_letter, is_space, all_digits, digits_value, int_text, parse_int,
    push_char, char_is_digit, char_is_letter, char_is_space, chars_of, int_to_text, parse_int_text,
    pow10, lemma_pow10_grows};
use crate::ops::{OpKind, not_sign, op_kind, classify, text_is};
use crate::math_proccessor::{MathProcessor, after_close, draws_fit, rands_from, spec_evaluate};
use crate::math_operations::EntropySource;

verus! {

/// White space at the front of `s` removed.
pub open spec fn skip_space(s: Seq<char>) -> Seq<char>
    decreases s.len(),
{
    if s.len() > 0 && is_space(s[0]) { skip_space(s.drop_first()) } else { s }
}

/// How many digits `s` starts with.
pub open spec fn digit_run(s: Seq<char>) -> nat
    decreases s.len(),
{
    if s.len() > 0 && is_digit(s[0]) { 1 + digit_run(s.drop_first()) } else { 0 }
}

/// Whether `c` may continue a word: a letter, `|` or `&`.
pub open spec fn is_word_tail(c: char) -> bool {
    is_letter(c) || c == '|' || c == '&'
}

/// How many word characters `s` starts with.
pub open spec fn word_run(s: Seq<char>) -> nat
    decreases s.len(),
{
    if s.len() > 0 && is_word_tail(s[0]) { 1 + word_run(s.drop_first()) } else { 0 }
}

/// The fraction digits as a count of hundred-millionths: padded with zeros
/// to eight digits, or cut to the first eight.
pub open spec fn fraction_units(frac: Seq<char>) -> nat {
    if frac.len() == 0 {
        0
    } else if frac.len() <= 8 {
        digits_value(frac) * pow10((8 - frac.len()) as nat)
    } else {
        digits_value(frac.take(8))
    }
}

/// The fixed-point value of a number written with integer digits `ints` and
/// fraction digits `frac`.
pub open spec fn number_value(ints: Seq<char>, frac: Seq<char>) -> Result<i128, &'static str> {
    let ip = digits_value(ints);
    if ip > i128::MAX {
        Err("Invalid integer format")
    } else if ip * SCALE > i128::MAX {
        Err("Overflow")
    } else if ip * SCALE + fraction_units(frac) > i128::MAX {
        Err("Overflow")
    } else {
        Ok((ip * SCALE + fraction_units(frac)) as i128)
    }
}

/// The characters that stand for themselves as one-character operators.
pub open spec fn is_single_op(c: char) -> bool {
    c == '+' || c == '-' || c == '/' || c == '&' || c == '|' || c == '(' || c == ')'
}

/// What reading one token from `s` gives (nothing at the end of the input,
/// a token's text, or an error), and the input that is left.
/// A number token is the decimal text of its fixed-point value.
#[verifier::opaque]
pub open spec fn lex_step(s: Seq<char>) -> (Result<Option<Seq<char>>, &'static str>, Seq<char>) {
    let t = skip_space(s);
    if t.len() == 0 {
        (Ok(None), t)
    } else {
        let c = t[0];
        let u = t.drop_first();
        if is_digit(c) {
            let d = digit_run(u);
            let ints = seq![c] + u.take(d as int);
            let after = u.skip(d as int);
            let has_point = after.len() > 0 && after[0] == '.';
            let tail = if has_point { after.drop_first() } else { after };
            let f = if has_point { digit_run(tail) } else { 0 };
            let frac = tail.take(f as int);
            let rest = tail.skip(f as int);
            match number_value(ints, frac) {
                Ok(v) => (Ok(Some(int_text(v))), rest),
                Err(e) => (Err(e), rest),
            }
        } else if is_letter(c) || c == not_sign() {
            let w = word_run(u);
            (Ok(Some(seq![c] + u.take(w as int))), u.skip(w as int))
        } else if c == '<' || c == '>' {
            if u.len() > 0 && u[0] == c {
                (Ok(Some(seq![c, c])), u.drop_first())
            } else {
                (Err("Invalid shift operator usage"), u)
            }
        } else if is_single_op(c) {
            (Ok(Some(seq![c])), u)
        } else if c == '*' {
            if u.len() > 0 && u[0] == '*' {
                (Ok(Some(seq!['*', '*'])), u.drop_first())
            } else {
                (Ok(Some(seq!['*'])), u)
            }
        } else if c == '!' {
            if u.len() >= 3 && u.take(3) == seq!['s', 'u', 'b'] {
                (Ok(Some(seq!['!', 's', 'u', 'b'])), u.skip(3))
            } else {
                (Ok(Some(seq!['!'])), u)
            }
        } else {
            (Err("Unknown token character encountered"), u)
        }
    }
}

/// A token result by the text of the token.
pub open spec fn token_view(r: Result<Option<String>, &'static str>) -> Result<Option<Seq<char>>, &'static str> {
    match r {
        Ok(Some(t)) => Ok(Some(t@)),
        Ok(None) => Ok(None),
        Err(e) => Err(e),
    }
}

/// `10^n` for exponents up to eight.
fn pow10_exec(n: u32) -> (r: i128)
    requires
        n <= 8,
    ensures
        r == pow10(n as nat),
        1 <= r <= 100_000_000,
{
    let mut r: i128 = 1;
    let mut k: u32 = 0;
    while k < n
        invariant
            k <= n <= 8,
            r == pow10(k as nat),
            1 <= r <= pow10(k as nat),
            pow10(k as nat) <= 100_000_000,
        decreases n - k,
    {
        assert(pow10((k + 1) as nat) == 10 * pow10(k as nat));
        assert(pow10(8) == 100_000_000) by {
            reveal_with_fuel(pow10, 9);
        }
        proof {
            lemma_pow10_grows((k + 1) as nat, 8);
        }
        r = r * 10;
        k += 1;
    }
    r
}

/// The fixed-point value of the digits of a number token.
fn number_from_digits(int_digits: &String, frac_digits: &String) -> (r: Result<i128, &'static str>)
    requires
        int_digits@.len() > 0,
        all_digits(int_digits@),
        all_digits(frac_digits@),
    ensures
        r == number_value(int_digits@, frac_digits@),
{
    let mut integer_part: i128 = match parse_int_text(int_digits) {
        Some(v) => v,
        None => return Err("Invalid integer format"),
    };
    integer_part = match integer_part.checked_mul(100_000_000) {
        Some(v) => v,
        None => return Err("Overflow"),
    };

    let mut fractional_part: i128 = 0;
    let frac_chars = chars_of(frac_digits.as_str());
    let len = frac_chars.len();
    if len > 0 {
        if len <= 8 {
            proof {
                lemma_digits_below_pow10(frac_digits@);
                lemma_pow10_grows(frac_digits@.len(), 8);
                reveal_with_fuel(pow10, 9);
                assert(is_digit(frac_digits@[0]));
            }
            let frac_val: i128 = match parse_int_text(frac_digits) {
                Some(v) => v,
                None => return Err("Invalid fractional format"),
            };
            proof {
                lemma_digits_below_pow10(frac_digits@);
            }
            let multiplier = pow10_exec((8 - len) as u32);
            fractional_part = match frac_val.checked_mul(multiplier) {
                Some(v) => v,
                None => return Err("Overflow"),
            };
        } else {
            let mut truncated = String::new();
            let mut k: usize = 0;
            while k < 8
                invariant
                    k <= 8 < len,
                    len == frac_chars@.len(),
                    frac_chars@ == frac_digits@,
                    truncated@ == frac_digits@.take(k as int),
                decreases 8 - k,
            {
                push_char(&mut truncated, frac_chars[k]);
                assert(frac_digits@.take(k + 1) =~= frac_digits@.take(k as int).push(frac_chars@[k as int]));
                k += 1;
            }
            proof {
                let t = frac_digits@.take(8);
                assert(all_digits(t));
                lemma_digits_below_pow10(t);
                reveal_with_fuel(pow10, 9);
                assert(is_digit(t[0]));
            }
            fractional_part = match parse_int_text(&truncated) {
                Some(v) => v,
                None => return Err("Invalid fractional format"),
            };
        }
    }

    match integer_part.checked_add(fractional_part) {
        Some(v) => Ok(v),
        None => Err("Overflow"),
    }
}

/// Digits of a string of at most eight digits spell a number below `10^len`.
proof fn lemma_digits_below_pow10(s: Seq<char>)
    requires
        all_digits(s),
    ensures
        digits_value(s) < pow10(s.len()),
    decreases s.len(),
{
    if s.len() > 0 {
        lemma_digits_below_pow10(s.drop_last());
        assert(is_digit(s[s.len() - 1]));
    }
}

/// Splits an expression's text into tokens.
pub struct Lexer {
    input: Vec<char>,
    pos: usize,
}

impl View for Lexer {
    type V = Seq<char>;

    /// The input that is still to be read.
    closed spec fn view(&self) -> Seq<char> {
        self.input@.subrange(self.pos as int, self.input@.len() as int)
    }
}

impl Lexer {
    #[verifier::type_invariant]
    spec fn position_in_input(self) -> bool {
        self.pos <= self.input@.len()
    }

    /// A lexer at the start of `input`.
    pub fn new(input: &str) -> (l: Self)
        ensures
            l@ == input@,
    {
        let chars = chars_of(input);
        let l = Self { input: chars, pos: 0 };
        assert(l@ =~= input@);
        l
    }

    /// The next character, without consuming it.
    fn peek(&self) -> (r: Option<char>)
        ensures
            r == (if self@.len() > 0 { Some(self@[0]) } else { None::<char> }),
    {
        proof {
            use_type_invariant(self);
        }
        if self.pos < self.input.len() {
            Some(self.input[self.pos])
        } else {
            None
        }
    }

    /// Consumes the next character.
    fn bump(&mut self)
        requires
            old(self)@.len() > 0,
        ensures
            final(self)@ == old(self)@.drop_first(),
    {
        proof {
            use_type_invariant(&*self);
        }
        let n = self.input.len();
        assert(self@.len() == n - self.pos);
        self.pos = self.pos + 1;
        assert(self@ =~= old(self)@.drop_first());
    }

    /// Consumes leading white space.
    fn skip_whitespace(&mut self)
        ensures
            final(self)@ == skip_space(old(self)@),
    {
        loop
            invariant
                skip_space(old(self)@) == skip_space(self@),
            ensures
                skip_space(old(self)@) == self@,
            decreases self@.len(),
        {
            match self.peek() {
                Some(c) => {
                    if char_is_space(c) {
                        self.bump();
                    } else {
                        break;
                    }
                },
                None => break,
            }
        }
    }

    /// Appends the digits at the front of the input to `buf`.
    fn take_digits(&mut self, buf: &mut String)
        ensures
            final(buf)@ == old(buf)@ + old(self)@.take(digit_run(old(self)@) as int),
            final(self)@ == old(self)@.skip(digit_run(old(self)@) as int),
            all_digits(old(self)@.take(digit_run(old(self)@) as int)),
    {
        let ghost u = self@;
        let ghost mut cnt: int = 0;
        loop
            invariant
                0 <= cnt <= u.len(),
                buf@ == old(buf)@ + u.take(cnt),
                self@ == u.skip(cnt),
                digit_run(u) == cnt + digit_run(self@),
                all_digits(u.take(cnt)),
            ensures
                cnt == digit_run(u),
                buf@ == old(buf)@ + u.take(cnt),
                self@ == u.skip(cnt),
                all_digits(u.take(cnt)),
            decreases self@.len(),
        {
            match self.peek() {
                Some(c) => {
                    if char_is_digit(c) {
                        push_char(buf, c);
                        self.bump();
                        proof {
                            assert(u.take(cnt + 1) =~= u.take(cnt).push(c));
                            assert(u.skip(cnt).drop_first() =~= u.skip(cnt + 1));
                            cnt = cnt + 1;
                        }
                    } else {
                        break;
                    }
                },
                None => break,
            }
        }
    }

    /// Appends the word characters at the front of the input to `buf`.
    fn take_word(&mut self, buf: &mut String)
        ensures
            final(buf)@ == old(buf)@ + old(self)@.take(word_run(old(self)@) as int),
            final(self)@ == old(self)@.skip(word_run(old(self)@) as int),
    {
        let ghost u = self@;
        let ghost mut cnt: int = 0;
        loop
            invariant
                0 <= cnt <= u.len(),
                buf@ == old(buf)@ + u.take(cnt),
                self@ == u.skip(cnt),
                word_run(u) == cnt + word_run(self@),
            ensures
                cnt == word_run(u),
                buf@ == old(buf)@ + u.take(cnt),
                self@ == u.skip(cnt),
            decreases self@.len(),
        {
            match self.peek() {
                Some(c) => {
                    if char_is_letter(c) || c == '|' || c == '&' {
                        push_char(buf, c);
                        self.bump();
                        proof {
                            assert(u.take(cnt + 1) =~= u.take(cnt).push(c));
                            assert(u.skip(cnt).drop_first() =~= u.skip(cnt + 1));
                            cnt = cnt + 1;
                        }
                    } else {
                        break;
                    }
                },
                None => break,
            }
        }
    }

    /// Whether the input continues with `sub`.
    fn sub_follows(&self) -> (b: bool)
        ensures
            b == (self@.len() >= 3 && self@.take(3) == seq!['s', 'u', 'b']),
    {
        proof {
            use_type_invariant(self);
        }
        let n = self.input.len();
        if n - self.pos >= 3 {
            let b = self.input[self.pos] == 's' && self.input[self.pos + 1] == 'u' && self.input[self.pos + 2] == 'b';
            assert(b == (self@.take(3) =~= seq!['s', 'u', 'b']));
            b
        } else {
            false
        }
    }

    /// Reads the next token: `Ok(None)` at the end of the input, otherwise
    /// the token's text. A number is read with up to eight fraction digits
    /// (more are cut off) and given back as the decimal text of its
    /// fixed-point value.
    #[verifier::spinoff_prover]
    pub fn next_token(&mut self) -> (r: Result<Option<String>, &'static str>)
        ensures
            (token_view(r), final(self)@) == lex_step(old(self)@),
    {
        reveal(lex_step);
        self.skip_whitespace();
        let ghost t = self@;
        let c = match self.peek() {
            Some(ch) => ch,
            None => return Ok(None),
        };
        self.bump();
        let ghost u = self@;
        assert(u == t.drop_first());

        // Numbers, scaled to eight decimal places.
        if char_is_digit(c) {
            let mut int_digits = String::new();
            let mut frac_digits = String::new();
            push_char(&mut int_digits, c);
            self.take_digits(&mut int_digits);
            assert(int_digits@ =~= seq![c] + u.take(digit_run(u) as int));
            let ghost after = self@;
            let mut point = false;
            match self.peek() {
                Some(d) => {
                    if d == '.' {
                        point = true;
                    }
                },
                None => {},
            }
            if point {
                self.bump();
                self.take_digits(&mut frac_digits);
                assert(frac_digits@ =~= after.drop_first().take(digit_run(after.drop_first()) as int));
            } else {
                assert(frac_digits@ =~= after.take(0));
                assert(self@ =~= after.skip(0));
            }
            assert(all_digits(int_digits@));
            let final_fixed_val = match number_from_digits(&int_digits, &frac_digits) {
                Ok(v) => v,
                Err(e) => return Err(e),
            };
            return Ok(Some(int_to_text(final_fixed_val)));
        }

        // Words (no implicit multiplication: a run of letters is one token).
        if char_is_letter(c) || c == '\u{ac}' {
            let mut word = String::new();
            push_char(&mut word, c);
            self.take_word(&mut word);
            assert(word@ =~= seq![c] + u.take(word_run(u) as int));
            return Ok(Some(word));
        }

        // Operators of one or two characters.
        if c == '<' || c == '>' {
            match self.peek() {
                Some(next_c) => {
                    if next_c == c {
                        let mut op = String::new();
                        push_char(&mut op, c);
                        push_char(&mut op, next_c);
                        self.bump();
                        assert(op@ =~= seq![c, c]);
                        return Ok(Some(op));
                    }
                },
                None => {},
            }
            return Err("Invalid shift operator usage");
        }
        if c == '+' || c == '-' || c == '/' || c == '&' || c == '|' || c == '(' || c == ')' {
            let mut op = String::new();
            push_char(&mut op, c);
            assert(op@ =~= seq![c]);
            return Ok(Some(op));
        }
        if c == '*' {
            let mut op = String::new();
            push_char(&mut op, c);
            match self.peek() {
                Some(next_c) => {
                    if next_c == '*' {
                        push_char(&mut op, next_c);
                        self.bump();
                    }
                },
                None => {},
            }
            assert(op@ =~= seq!['*', '*'] || op@ =~= seq!['*']);
            return Ok(Some(op));
        }
        if c == '!' {
            let mut op = String::new();
            push_char(&mut op, c);
            if self.sub_follows() {
                push_char(&mut op, 's');
                push_char(&mut op, 'u');
                push_char(&mut op, 'b');
                self.bump();
                self.bump();
                self.bump();
                assert(self@ =~= u.skip(3));
                assert(op@ =~= seq!['!', 's', 'u', 'b']);
            } else {
                assert(op@ =~= seq!['!']);
            }
            return Ok(Some(op));
        }
        Err("Unknown token character encountered")
    }
}

/// Leading white space is only ever removed.
pub proof fn lemma_skip_space_shrinks(s: Seq<char>)
    ensures
        skip_space(s).len() <= s.len(),
        skip_space(s) == s.skip(s.len() - skip_space(s).len()),
    decreases s.len(),
{
    if s.len() > 0 && is_space(s[0]) {
        lemma_skip_space_shrinks(s.drop_first());
        assert(s.drop_first().skip(s.drop_first().len() - skip_space(s.drop_first()).len())
            =~= s.skip(s.len() - skip_space(s).len()));
    } else {
        assert(s.skip(0) =~= s);
    }
}

/// A run of digits or word characters lies within the text.
pub proof fn lemma_runs_fit(s: Seq<char>)
    ensures
        digit_run(s) <= s.len(),
        word_run(s) <= s.len(),
    decreases s.len(),
{
    if s.len() > 0 {
        lemma_runs_fit(s.drop_first());
    }
}

/// Reading a token consumes input.
pub proof fn lemma_lex_step_shrinks(s: Seq<char>)
    ensures
        lex_step(s).0 is Ok && lex_step(s).0->Ok_0 is Some ==> lex_step(s).1.len() < s.len(),
{
    reveal(lex_step);
    lemma_skip_space_shrinks(s);
    let t = skip_space(s);
    if t.len() > 0 {
        let u = t.drop_first();
        lemma_runs_fit(u);
        let after = u.skip(digit_run(u) as int);
        if after.len() > 0 {
            lemma_runs_fit(after.drop_first());
        }
        lemma_runs_fit(after);
    }
}

/// The stacks of a processor, by their contents.
pub type Stacks = Seq<(Seq<i128>, Seq<Seq<char>>)>;

/// The text of the syntax error for a token that is no number and no operator.
pub open spec fn syntax_error() -> &'static str {
    "Syntax Error: Unknown variables or implicit multiplication like xyz are disabled."
}

/// How many generated numbers feeding token `t` uses: those of the stack
/// that a closing bracket evaluates.
pub open spec fn feed_draws(t: Seq<char>, stacks: Stacks) -> nat {
    if t == seq![')'] && stacks.len() >= 2 { rands_from(stacks.last().1, 0) } else { 0 }
}

/// What feeding token `t` into a processor does, when the `rand` operators
/// take the numbers `drawn`: `Ok(())` to go on or an error, and the stacks
/// and the operation counter after it. `None` where the processor cannot go
/// on: a closing bracket over a stack with a `rand` operator beyond its
/// numbers, or an operation counter that would pass `i128::MAX`.
#[verifier::opaque]
pub open spec fn feed_token(t: Seq<char>, stacks: Stacks, op_count: int, drawn: Seq<i128>)
    -> Option<(Result<(), &'static str>, Stacks, int)>
{
    if t == seq!['('] {
        Some((Ok(()), stacks.push((Seq::<i128>::empty(), Seq::<Seq<char>>::empty())), op_count))
    } else if t == seq![')'] {
        if stacks.len() < 2 {
            Some((Err("Unmatched closing bracket"), stacks, op_count))
        } else if op_count + rands_from(stacks.last().1, 0) > i128::MAX {
            None
        } else {
            let top = stacks.last();
            match spec_evaluate(top.0, top.1, drawn) {
                None => None,
                Some(value) => {
                    let (res, next) = after_close(stacks, value);
                    Some((res, next, op_count + rands_from(top.1, 0)))
                },
            }
        }
    } else if op_kind(t) != OpKind::Other {
        if stacks.len() == 0 {
            Some((Err("No active stack context"), stacks, op_count))
        } else {
            let top = stacks.last();
            Some((Ok(()), stacks.update(stacks.len() - 1, (top.0, top.1.push(t))), op_count))
        }
    } else {
        match parse_int(t) {
            Some(v) => if stacks.len() == 0 {
                Some((Err("No active stack context"), stacks, op_count))
            } else {
                let top = stacks.last();
                Some((Ok(()), stacks.update(stacks.len() - 1, (top.0.push(v), top.1)), op_count))
            },
            None => Some((Err(syntax_error()), stacks, op_count)),
        }
    }
}

/// What feeding the rest of the input into a processor does, when the `rand`
/// operators take, in order, the generated numbers `draws`: the result, and
/// the stacks and the operation counter at the end; `None` where the
/// processor cannot go on (see `feed_token`).
#[verifier::opaque]
pub open spec fn parse_run(rest: Seq<char>, stacks: Stacks, op_count: int, draws: Seq<i128>)
    -> Option<(Result<(), &'static str>, Stacks, int)>
    decreases rest.len(),
{
    let (tok, after) = lex_step(rest);
    match tok {
        Err(e) => Some((Err(e), stacks, op_count)),
        Ok(None) => Some((Ok(()), stacks, op_count)),
        Ok(Some(t)) => if after.len() >= rest.len() {
            None
        } else {
            let n = feed_draws(t, stacks);
            match feed_token(t, stacks, op_count, draws.take(n as int)) {
                None => None,
                Some((Err(e), next, c)) => Some((Err(e), next, c)),
                Some((Ok(_), next, c)) => parse_run(after, next, c, draws.skip(n as int)),
            }
        },
    }
}

/// A run that goes on whatever the draws goes on through its first token,
/// whatever that token draws.
proof fn lemma_feed_defined(rest: Seq<char>, stacks: Stacks, op_count: int)
    requires
        forall|d: Seq<i128>| #[trigger] parse_run(rest, stacks, op_count, d) is Some,
        lex_step(rest).0 is Ok && lex_step(rest).0->Ok_0 is Some,
        lex_step(rest).1.len() < rest.len(),
    ensures
        forall|drawn: Seq<i128>|
            drawn.len() == feed_draws(lex_step(rest).0->Ok_0->Some_0, stacks) ==> (#[trigger] feed_token(
                lex_step(rest).0->Ok_0->Some_0,
                stacks,
                op_count,
                drawn,
            )) is Some,
{
    reveal(parse_run);
    let t = lex_step(rest).0->Ok_0->Some_0;
    assert forall|drawn: Seq<i128>| drawn.len() == feed_draws(t, stacks) implies (#[trigger] feed_token(
        t,
        stacks,
        op_count,
        drawn,
    )) is Some by {
        assert(parse_run(rest, stacks, op_count, drawn) is Some);
        assert(drawn.take(drawn.len() as int) =~= drawn);
    }
}

/// A run ends at the end of the input or at a lexing error.
proof fn lemma_parse_run_end(rest: Seq<char>, stacks: Stacks, op_count: int, draws: Seq<i128>)
    requires
        !(lex_step(rest).0 is Ok && lex_step(rest).0->Ok_0 is Some),
    ensures
        parse_run(rest, stacks, op_count, draws) == (match lex_step(rest).0 {
            Err(e) => Some((Err::<(), &'static str>(e), stacks, op_count)),
            Ok(_) => Some((Ok::<(), &'static str>(()), stacks, op_count)),
        }),
{
    reveal(parse_run);
}

/// One token of a run: the first `feed_draws` numbers go to the token, the
/// rest to the input after it.
proof fn lemma_parse_run_step(rest_in: Seq<char>, stacks: Stacks, op_count: int, drawn: Seq<i128>, rest: Seq<i128>)
    requires
        lex_step(rest_in).0 is Ok && lex_step(rest_in).0->Ok_0 is Some,
        lex_step(rest_in).1.len() < rest_in.len(),
        drawn.len() == feed_draws(lex_step(rest_in).0->Ok_0->Some_0, stacks),
        feed_token(lex_step(rest_in).0->Ok_0->Some_0, stacks, op_count, drawn) is Some,
    ensures
        ({
            let t = lex_step(rest_in).0->Ok_0->Some_0;
            let (res, next, c) = feed_token(t, stacks, op_count, drawn)->Some_0;
            parse_run(rest_in, stacks, op_count, drawn + rest) == (match res {
                Ok(_) => parse_run(lex_step(rest_in).1, next, c, rest),
                Err(e) => Some((Err::<(), &'static str>(e), next, c)),
            })
        }),
{
    reveal(parse_run);
    let r2 = drawn + rest;
    assert(r2.take(drawn.len() as int) =~= drawn);
    assert(r2.skip(drawn.len() as int) =~= rest);
}

/// Reads expressions into a processor.
pub struct ParsingEngine;

impl ParsingEngine {
    /// Feeds a closing bracket into the processor.
    #[verifier::spinoff_prover]
    fn close_on_token<E: EntropySource>(processor: &mut MathProcessor, entropy: &E) -> (r: Result<(), &'static str>)
        requires
            forall|drawn: Seq<i128>|
                drawn.len() == feed_draws(seq![')'], old(processor).stacks()) ==> (#[trigger] feed_token(
                    seq![')'],
                    old(processor).stacks(),
                    old(processor).op_count as int,
                    drawn,
                )) is Some,
        ensures
            final(processor).rand_engine == old(processor).rand_engine,
            final(processor).op_count == old(processor).op_count + feed_draws(seq![')'], old(processor).stacks()),
            exists|drawn: Seq<i128>|
                {
                    &&& drawn.len() == feed_draws(seq![')'], old(processor).stacks())
                    &&& draws_fit(old(processor).rand_engine, old(processor).op_count as int, drawn)
                    &&& feed_token(seq![')'], old(processor).stacks(), old(processor).op_count as int, drawn)
                        == Some((r, final(processor).stacks(), final(processor).op_count as int))
                },
    {
        reveal(feed_token);
        let ghost s0 = processor.stacks();
        let ghost c0 = processor.op_count as int;
        proof {
            assert(draws_fit(processor.rand_engine, c0, Seq::<i128>::empty()));
            if s0.len() >= 2 {
                let top = s0.last();
                let n = rands_from(top.1, 0);
                assert(feed_draws(seq![')'], s0) == n);
                assert forall|d: Seq<i128>| d.len() == n implies
                    (#[trigger] spec_evaluate(top.0, top.1, d)) is Some by {
                    assert(feed_token(seq![')'], s0, c0, d) is Some);
                    if spec_evaluate(top.0, top.1, d) is None {
                        assert(feed_token(seq![')'], s0, c0, d) is None);
                    }
                }
                let zeros = Seq::new(n, |k: int| 0i128);
                assert(feed_token(seq![')'], s0, c0, zeros) is Some);
            } else {
                assert(feed_token(seq![')'], s0, c0, Seq::<i128>::empty()) is Some);
            }
        }
        let r = processor.close_bracket(entropy);
        proof {
            if s0.len() < 2 {
                assert(processor.stacks() =~= s0);
                let w = Seq::<i128>::empty();
                assert(feed_token(seq![')'], s0, c0, w)
                    == Some((r, processor.stacks(), processor.op_count as int)));
                assert(w.len() == feed_draws(seq![')'], s0) && draws_fit(processor.rand_engine, c0, w));
            } else {
                let top = s0.last();
                let d = choose|draws: Seq<i128>|
                    {
                        &&& draws.len() == rands_from(top.1, 0)
                        &&& draws_fit(processor.rand_engine, c0, draws)
                        &&& spec_evaluate(top.0, top.1, draws) is Some
                        &&& (r, processor.stacks()) == after_close(s0, spec_evaluate(top.0, top.1, draws)->Some_0)
                    };
                assert(feed_token(seq![')'], s0, c0, d) == Some((r, processor.stacks(), processor.op_count as int)));
                assert(d.len() == feed_draws(seq![')'], s0) && draws_fit(processor.rand_engine, c0, d));
            }
        }
        r
    }

    /// Feeds an operator's token into the processor.
    #[verifier::spinoff_prover]
    fn push_operator_token(token: &String, processor: &mut MathProcessor) -> (r: Result<(), &'static str>)
        requires
            token@ != seq!['('],
            token@ != seq![')'],
            op_kind(token@) != OpKind::Other,
        ensures
            final(processor).rand_engine == old(processor).rand_engine,
            final(processor).op_count == old(processor).op_count + feed_draws(token@, old(processor).stacks()),
            exists|drawn: Seq<i128>|
                {
                    &&& drawn.len() == feed_draws(token@, old(processor).stacks())
                    &&& draws_fit(old(processor).rand_engine, old(processor).op_count as int, drawn)
                    &&& feed_token(token@, old(processor).stacks(), old(processor).op_count as int, drawn)
                        == Some((r, final(processor).stacks(), final(processor).op_count as int))
                },
    {
        reveal(feed_token);
        let ghost s0 = processor.stacks();
        let ghost w = Seq::<i128>::empty();
        assert(draws_fit(processor.rand_engine, processor.op_count as int, w));
        match processor.current_mut() {
            Ok(stack) => {
                stack.push_op(token.as_str());
            },
            Err(e) => {
                assert(processor.stacks() =~= s0);
                assert(w.len() == feed_draws(token@, old(processor).stacks()));
                assert(draws_fit(old(processor).rand_engine, old(processor).op_count as int, w));
                assert(feed_token(token@, old(processor).stacks(), old(processor).op_count as int, w)
                    == Some((Err::<(), &'static str>(e), processor.stacks(), processor.op_count as int)));
                return Err(e);
            },
        }
        assert(processor.stacks() =~= s0.update(s0.len() - 1, (s0.last().0, s0.last().1.push(token@))));
        assert(w.len() == feed_draws(token@, old(processor).stacks()));
        assert(draws_fit(old(processor).rand_engine, old(processor).op_count as int, w));
        assert(feed_token(token@, old(processor).stacks(), old(processor).op_count as int, w)
            == Some((Ok::<(), &'static str>(()), processor.stacks(), processor.op_count as int)));
        Ok(())
    }

    /// Feeds any other token into the processor: a number, or a syntax error.
    #[verifier::spinoff_prover]
    fn push_number_token(token: &String, processor: &mut MathProcessor) -> (r: Result<(), &'static str>)
        requires
            token@ != seq!['('],
            token@ != seq![')'],
            op_kind(token@) == OpKind::Other,
        ensures
            final(processor).rand_engine == old(processor).rand_engine,
            final(processor).op_count == old(processor).op_count + feed_draws(token@, old(processor).stacks()),
            exists|drawn: Seq<i128>|
                {
                    &&& drawn.len() == feed_draws(token@, old(processor).stacks())
                    &&& draws_fit(old(processor).rand_engine, old(processor).op_count as int, drawn)
                    &&& feed_token(token@, old(processor).stacks(), old(processor).op_count as int, drawn)
                        == Some((r, final(processor).stacks(), final(processor).op_count as int))
                },
    {
        reveal(feed_token);
        let ghost s0 = processor.stacks();
        let ghost w = Seq::<i128>::empty();
        assert(draws_fit(processor.rand_engine, processor.op_count as int, w));
        match crate::text::parse_int_text(token) {
            Some(val) => {
                match processor.current_mut() {
                    Ok(stack) => {
                        stack.push_num(val);
                    },
                    Err(e) => {
                        assert(processor.stacks() =~= s0);
                        assert(w.len() == feed_draws(token@, old(processor).stacks()));
                        assert(draws_fit(old(processor).rand_engine, old(processor).op_count as int, w));
                        assert(feed_token(token@, old(processor).stacks(), old(processor).op_count as int, w)
                            == Some((Err::<(), &'static str>(e), processor.stacks(), processor.op_count as int)));
                        return Err(e);
                    },
                }
                assert(processor.stacks() =~= s0.update(s0.len() - 1, (s0.last().0.push(val), s0.last().1)));
                assert(w.len() == feed_draws(token@, old(processor).stacks()));
                assert(draws_fit(old(processor).rand_engine, old(processor).op_count as int, w));
                assert(feed_token(token@, old(processor).stacks(), old(processor).op_count as int, w)
                    == Some((Ok::<(), &'static str>(()), processor.stacks(), processor.op_count as int)));
                Ok(())
            },
            None => {
                assert(w.len() == feed_draws(token@, old(processor).stacks()));
                assert(draws_fit(old(processor).rand_engine, old(processor).op_count as int, w));
                assert(feed_token(token@, old(processor).stacks(), old(processor).op_count as int, w)
                    == Some((Err::<(), &'static str>(syntax_error()), processor.stacks(), processor.op_count as int)));
                Err("Syntax Error: Unknown variables or implicit multiplication like xyz are disabled.")
            },
        }
    }

    /// Feeds one token into the processor.
    #[verifier::spinoff_prover]
    fn feed<E: EntropySource>(token: &String, processor: &mut MathProcessor, entropy: &E) -> (r: Result<(), &'static str>)
        requires
            forall|drawn: Seq<i128>|
                drawn.len() == feed_draws(token@, old(processor).stacks()) ==> (#[trigger] feed_token(
                    token@,
                    old(processor).stacks(),
                    old(processor).op_count as int,
                    drawn,
                )) is Some,
        ensures
            final(processor).rand_engine == old(processor).rand_engine,
            final(processor).op_count == old(processor).op_count + feed_draws(token@, old(processor).stacks()),
            exists|drawn: Seq<i128>|
                {
                    &&& drawn.len() == feed_draws(token@, old(processor).stacks())
                    &&& draws_fit(old(processor).rand_engine, old(processor).op_count as int, drawn)
                    &&& feed_token(token@, old(processor).stacks(), old(processor).op_count as int, drawn)
                        == Some((r, final(processor).stacks(), final(processor).op_count as int))
                },
    {
        proof {
            reveal_strlit("(");
            reveal_strlit(")");
            assert("("@ =~= seq!['(']);
            assert(")"@ =~= seq![')']);
        }
        let ghost s0 = processor.stacks();
        let ghost c0 = processor.op_count as int;
        let ghost engine = processor.rand_engine;
        let r = if text_is(token, "(") {
            let ghost w = Seq::<i128>::empty();
            assert(draws_fit(engine, c0, w));
            processor.open_bracket();
            assert(feed_token(token@, s0, c0, w)
                == Some((Ok::<(), &'static str>(()), processor.stacks(), processor.op_count as int))) by {
                reveal(feed_token);
            }
            assert(seq!['('][0] != seq![')'][0]);
            assert(w.len() == feed_draws(token@, s0));
            Ok(())
        } else if text_is(token, ")") {
            assert(token@ == seq![')']);
            let r = Self::close_on_token(processor, entropy);
            proof {
                let d = choose|drawn: Seq<i128>|
                    {
                        &&& drawn.len() == feed_draws(seq![')'], s0)
                        &&& draws_fit(engine, c0, drawn)
                        &&& feed_token(seq![')'], s0, c0, drawn)
                            == Some((r, processor.stacks(), processor.op_count as int))
                    };
                assert(d.len() == feed_draws(token@, s0) && draws_fit(engine, c0, d));
                assert(feed_token(token@, s0, c0, d) == Some((r, processor.stacks(), processor.op_count as int)));
            }
            r
        } else if classify(token) != OpKind::Other {
            Self::push_operator_token(token, processor)
        } else {
            Self::push_number_token(token, processor)
        };
        assert(processor.op_count == c0 + feed_draws(token@, s0));
        r
    }

    /// Feeds the tokens of `input` into `processor`: brackets open and close
    /// stacks, operators and numbers go to the innermost stack. Stops at the
    /// first error.
    #[verifier::spinoff_prover]
    pub fn parse_into_processor<E: EntropySource>(
        input: &str,
        processor: &mut MathProcessor,
        entropy: &E,
    ) -> (r: Result<(), &'static str>)
        requires
            forall|draws: Seq<i128>|
                #[trigger] parse_run(input@, old(processor).stacks(), old(processor).op_count as int, draws) is Some,
        ensures
            final(processor).rand_engine == old(processor).rand_engine,
            exists|draws: Seq<i128>|
                {
                    &&& draws_fit(old(processor).rand_engine, old(processor).op_count as int, draws)
                    &&& draws.len() == final(processor).op_count - old(processor).op_count
                    &&& forall|more: Seq<i128>|
                        #[trigger] parse_run(input@, old(processor).stacks(), old(processor).op_count as int, draws + more)
                            == Some((r, final(processor).stacks(), final(processor).op_count as int))
                },
    {
        let ghost s0 = processor.stacks();
        let ghost c0 = processor.op_count as int;
        let ghost engine = processor.rand_engine;
        let ghost mut used: Seq<i128> = Seq::empty();
        let mut lexer = Lexer::new(input);
        assert forall|rest: Seq<i128>| #[trigger] parse_run(input@, s0, c0, used + rest)
            == parse_run(lexer@, processor.stacks(), processor.op_count as int, rest) by {
            assert(used + rest =~= rest);
        }
        loop
            invariant
                forall|d: Seq<i128>| #[trigger] parse_run(input@, s0, c0, d) is Some,
                forall|rest: Seq<i128>| #[trigger] parse_run(input@, s0, c0, used + rest)
                    == parse_run(lexer@, processor.stacks(), processor.op_count as int, rest),
                draws_fit(engine, c0, used),
                processor.op_count as int == c0 + used.len(),
                processor.rand_engine == engine,
                s0 == old(processor).stacks(),
                c0 == old(processor).op_count as int,
                engine == old(processor).rand_engine,
            decreases lexer@.len(),
        {
            let ghost rest_in = lexer@;
            let ghost before = processor.stacks();
            let ghost count = processor.op_count as int;
            let ghost empty = Seq::<i128>::empty();
            proof {
                lemma_lex_step_shrinks(rest_in);
                assert(used + empty =~= used);
                assert(parse_run(input@, s0, c0, used + empty) is Some);
            }
            let token = match lexer.next_token() {
                Ok(Some(t)) => t,
                Ok(None) => {
                    assert forall|more: Seq<i128>| #[trigger] parse_run(input@, s0, c0, used + more)
                        == Some((Ok::<(), &'static str>(()), processor.stacks(), processor.op_count as int)) by {
                        lemma_parse_run_end(rest_in, before, count, more);
                    }
                    return Ok(());
                },
                Err(e) => {
                    assert forall|more: Seq<i128>| #[trigger] parse_run(input@, s0, c0, used + more)
                        == Some((Err::<(), &'static str>(e), processor.stacks(), processor.op_count as int)) by {
                        lemma_parse_run_end(rest_in, before, count, more);
                    }
                    return Err(e);
                },
            };
            let ghost t = token@;
            let ghost n = feed_draws(t, before);
            proof {
                assert forall|d: Seq<i128>| #[trigger] parse_run(rest_in, before, count, d) is Some by {
                    assert(parse_run(input@, s0, c0, used + d) is Some);
                }
                lemma_feed_defined(rest_in, before, count);
            }
            let fed = Self::feed(&token, processor, entropy);
            let ghost drawn = choose|drawn: Seq<i128>|
                {
                    &&& drawn.len() == n
                    &&& draws_fit(engine, count, drawn)
                    &&& feed_token(t, before, count, drawn) == Some((fed, processor.stacks(), processor.op_count as int))
                };
            proof {
                assert forall|rest: Seq<i128>| #[trigger] parse_run(input@, s0, c0, (used + drawn) + rest)
                    == (match fed {
                        Ok(_) => parse_run(lexer@, processor.stacks(), processor.op_count as int, rest),
                        Err(e) => Some((Err::<(), &'static str>(e), processor.stacks(), processor.op_count as int)),
                    }) by {
                    assert((used + drawn) + rest =~= used + (drawn + rest));
                    lemma_parse_run_step(rest_in, before, count, drawn, rest);
                }

                assert forall|k: int| 0 <= k < (used + drawn).len() implies engine.can_give(
                    #[verifier::truncate] ((c0 + k + 1) as i128), #[trigger] (used + drawn)[k]) by {
                    if k >= used.len() {
                        assert((used + drawn)[k] == drawn[k - used.len()]);
                    }
                }
                used = used + drawn;
            }
            match fed {
                Ok(_) => {},
                Err(e) => {
                    assert(draws_fit(engine, c0, used));
                    assert(used.len() == processor.op_count - c0);
                    assert forall|more: Seq<i128>| #[trigger] parse_run(input@, s0, c0, used + more)
                        == Some((Err::<(), &'static str>(e), processor.stacks(), processor.op_count as int)) by {
                        assert(parse_run(input@, s0, c0, used + more) == (match fed {
                            Ok(_) => parse_run(lexer@, processor.stacks(), processor.op_count as int, more),
                            Err(e2) => Some((Err::<(), &'static str>(e2), processor.stacks(), processor.op_count as int)),
                        }));
                    }
                    return Err(e);
                },
            }
        }
    }
}

} // verus!
