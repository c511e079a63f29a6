//! The evaluation stacks: one `MathStack` per open bracket, evaluated by
//! precedence levels when its bracket closes.
use vstd::prelude::*;
use crate::fixed::{SCALE, trem};
use crate::math_operations::{EntropySource, RandomEngine, MAX_DURATION_MILLIS, spec_fixed_pow, pow_rounds, lemma_pow_rounds_fits};
use crate::ops::{OpKind, op_kind, is_unary, is_product_like, spec_unary, spec_product, spec_low, wrapping_abs, classify, apply_unary, apply_product, apply_low, magnitude};

verus! {

/// The texts of a list of operators.
pub open spec fn texts(ops: Seq<String>) -> Seq<Seq<char>> {
    ops.map_values(|s: String| s@)
}

/// The value that a `rand` operator takes from a generated number: its
/// magnitude's remainder modulo `SCALE`, a fraction below one.
pub open spec fn rand_fraction(g: i128) -> i128 {
    trem(wrapping_abs(g) as int, SCALE as int) as i128
}

/// Whether operator `op` is `rand`.
pub open spec fn is_rand(op: Seq<char>) -> bool {
    op_kind(op) == OpKind::Rand
}

/// How many `rand` operators stand at index `i` or later.
pub open spec fn rands_from(ops: Seq<Seq<char>>, i: int) -> nat
    decreases ops.len() - i,
{
    if i < 0 || i >= ops.len() {
        0
    } else {
        rands_from(ops, i + 1) + if is_rand(ops[i]) { 1nat } else { 0nat }
    }
}

/// Whether every `rand` operator, when its turn comes, stands at a position
/// where a number can be inserted (the numbers so far reach up to it).
pub open spec fn rand_slots_fit(num_len: int, ops: Seq<Seq<char>>, i: int) -> bool
    decreases ops.len() - i,
{
    if i < 0 || i >= ops.len() {
        true
    } else if is_rand(ops[i]) {
        i <= num_len && rand_slots_fit(num_len + 1, ops.remove(i), i)
    } else {
        rand_slots_fit(num_len, ops, i + 1)
    }
}

/// The first pass: from position `i` on, each `rand` operator is replaced by
/// the fraction of the next generated number in `draws`, inserted among the
/// numbers at the operator's own position.
pub open spec fn rand_pass(nums: Seq<i128>, ops: Seq<Seq<char>>, i: int, draws: Seq<i128>) -> (Seq<i128>, Seq<Seq<char>>)
    decreases ops.len() - i,
{
    if i < 0 || i >= ops.len() {
        (nums, ops)
    } else if is_rand(ops[i]) {
        rand_pass(nums.insert(i, rand_fraction(draws[0])), ops.remove(i), i, draws.drop_first())
    } else {
        rand_pass(nums, ops, i + 1, draws)
    }
}

/// The outcome of a pass: `None` where an unchecked scaling overflows, else
/// the numbers and operators left, or the error that stopped the pass.
pub type PassOutcome = Option<Result<(Seq<i128>, Seq<Seq<char>>), &'static str>>;

/// The second pass, right to left over the operators below position `i`: a
/// unary operator at position `j` replaces number `j` by its result.
pub open spec fn unary_pass(nums: Seq<i128>, ops: Seq<Seq<char>>, i: int) -> PassOutcome
    decreases i,
{
    if i <= 0 || i > ops.len() {
        Some(Ok((nums, ops)))
    } else {
        let j = i - 1;
        let k = op_kind(ops[j]);
        if is_unary(k) {
            if j >= nums.len() {
                Some(Err("Missing operand for unary operator"))
            } else {
                match spec_unary(k, nums[j]) {
                    None => None,
                    Some(Err(m)) => Some(Err(m)),
                    Some(Ok(v)) => unary_pass(nums.update(j, v), ops.remove(j), j),
                }
            }
        } else {
            unary_pass(nums, ops, j)
        }
    }
}

/// The third pass, left to right from position `i`: `**` at position `j`
/// replaces numbers `j` and `j + 1` by the power.
pub open spec fn power_pass(nums: Seq<i128>, ops: Seq<Seq<char>>, i: int) -> PassOutcome
    decreases ops.len() - i,
{
    if i < 0 || i >= ops.len() {
        Some(Ok((nums, ops)))
    } else if op_kind(ops[i]) == OpKind::Power {
        if i + 1 >= nums.len() {
            Some(Err("Missing operand for power"))
        } else {
            match spec_fixed_pow(nums[i], nums[i + 1], SCALE) {
                Err(m) => Some(Err(m)),
                Ok(v) => power_pass(nums.update(i, v).remove(i + 1), ops.remove(i), i),
            }
        }
    } else {
        power_pass(nums, ops, i + 1)
    }
}

/// The fourth pass, left to right from position `i`: `*`, `/`, `<<`, `>>`,
/// `gcd` and `lmc` at position `j` replace numbers `j` and `j + 1`.
pub open spec fn product_pass(nums: Seq<i128>, ops: Seq<Seq<char>>, i: int) -> PassOutcome
    decreases ops.len() - i,
{
    if i < 0 || i >= ops.len() {
        Some(Ok((nums, ops)))
    } else if is_product_like(op_kind(ops[i])) {
        if i + 1 >= nums.len() {
            Some(Err("Missing operand"))
        } else {
            match spec_product(op_kind(ops[i]), nums[i], nums[i + 1]) {
                None => None,
                Some(Err(m)) => Some(Err(m)),
                Some(Ok(v)) => product_pass(nums.update(i, v).remove(i + 1), ops.remove(i), i),
            }
        }
    } else {
        product_pass(nums, ops, i + 1)
    }
}

/// The last pass: the remaining operators fold into the running total, left
/// to right, operator `i` combining the total with number `i + 1`.
pub open spec fn low_fold(total: i128, nums: Seq<i128>, ops: Seq<Seq<char>>, i: int) -> Option<Result<i128, &'static str>>
    decreases ops.len() - i,
{
    if i < 0 || i >= ops.len() {
        Some(Ok(total))
    } else if i + 1 >= nums.len() {
        Some(Err("Missing operand for trailing operator"))
    } else {
        match spec_low(op_kind(ops[i]), total, nums[i + 1]) {
            None => None,
            Some(Err(m)) => Some(Err(m)),
            Some(Ok(t)) => low_fold(t, nums, ops, i + 1),
        }
    }
}

/// The value of a stack whose `rand` operators have all been replaced;
/// `None` where an unchecked scaling overflows on the way.
pub open spec fn spec_reduce(nums: Seq<i128>, ops: Seq<Seq<char>>) -> Option<Result<i128, &'static str>> {
    if nums.len() == 0 {
        Some(Err("Empty stack"))
    } else {
        match unary_pass(nums, ops, ops.len() as int) {
            None => None,
            Some(Err(m)) => Some(Err(m)),
            Some(Ok((n2, o2))) => match power_pass(n2, o2, 0) {
                None => None,
                Some(Err(m)) => Some(Err(m)),
                Some(Ok((n3, o3))) => match product_pass(n3, o3, 0) {
                    None => None,
                    Some(Err(m)) => Some(Err(m)),
                    Some(Ok((n4, o4))) => low_fold(n4[0], n4, o4, 0),
                },
            },
        }
    }
}

/// The value of a stack when its `rand` operators take, in order, the
/// generated numbers `draws`; `None` where the evaluation cannot be carried
/// out: a `rand` operator stands beyond the numbers, or an unchecked scaling
/// overflows.
#[verifier::opaque]
pub open spec fn spec_evaluate(nums: Seq<i128>, ops: Seq<Seq<char>>, draws: Seq<i128>) -> Option<Result<i128, &'static str>> {
    if !rand_slots_fit(nums.len() as int, ops, 0) {
        None
    } else {
        let (n1, o1) = rand_pass(nums, ops, 0, draws);
        spec_reduce(n1, o1)
    }
}

/// Negating a negative quotient and scaling it back stays in range unless
/// the dividend is `i128::MIN` and the scale divides it.
proof fn lemma_negated_quotient_fits(exp: i128, scale: i128)
    requires
        scale > 0,
        crate::fixed::tdiv(exp as int, scale as int) < 0,
        !(exp == i128::MIN && (exp as int) % (scale as int) == 0),
    ensures
        -crate::fixed::tdiv(exp as int, scale as int) * scale <= i128::MAX,
{
    let e = crate::fixed::tdiv(exp as int, scale as int);
    let a = -(exp as int);
    let q = a / (scale as int);
    assert(e == -q);
    assert(q * scale <= a) by (nonlinear_arith) requires scale > 0, a > 0, q == a / (scale as int);
    if exp == i128::MIN {
        if q * scale == a {
            vstd::arithmetic::div_mod::lemma_mod_multiples_basic(-q, scale as int);
            assert((-q) * scale == exp) by (nonlinear_arith) requires q * scale == a, a == -(exp as int);
        }
    }
}

/// Removing the operator at `i` shifts the count of `rand` operators from
/// any later position down by one place.
pub proof fn lemma_rands_from_remove(ops: Seq<Seq<char>>, i: int, j: int)
    requires
        0 <= i <= j,
        i < ops.len(),
    ensures
        rands_from(ops.remove(i), j) == rands_from(ops, j + 1),
    decreases ops.len() - j,
{
    if j < ops.len() - 1 {
        lemma_rands_from_remove(ops, i, j + 1);
        assert(ops.remove(i)[j] == ops[j + 1]);
    }
}

/// One level of brackets: the numbers and the operators between them, in the
/// order they were read.
pub struct MathStack {
    pub numbers: Vec<i128>,
    pub operators: Vec<String>,
}

impl MathStack {
    /// An empty stack.
    pub fn new() -> (s: Self)
        ensures
            s.numbers@ == Seq::<i128>::empty(),
            texts(s.operators@) == Seq::<Seq<char>>::empty(),
    {
        let s = Self { numbers: Vec::new(), operators: Vec::new() };
        assert(texts(s.operators@) =~= Seq::<Seq<char>>::empty());
        s
    }

    /// Appends a number.
    pub fn push_num(&mut self, val: i128)
        ensures
            final(self).numbers@ == old(self).numbers@.push(val),
            final(self).operators@ == old(self).operators@,
    {
        self.numbers.push(val);
    }

    /// Appends an operator.
    pub fn push_op(&mut self, op: &str)
        ensures
            final(self).numbers@ == old(self).numbers@,
            texts(final(self).operators@) == texts(old(self).operators@).push(op@),
    {
        let s = String::from_str(op);
        self.operators.push(s);
        assert(texts(self.operators@) =~= texts(old(self).operators@).push(op@));
    }

    /// Evaluates a stack whose `rand` operators are already replaced: unary
    /// operators first (right to left), then `**`, then `*`, `/`, `<<`, `>>`,
    /// `gcd`, `lmc`, then `+`, `-` and the bitwise operators (each level left
    /// to right).
    #[verifier::spinoff_prover]
    pub fn evaluate_resolved(self) -> (r: Result<i128, &'static str>)
        requires
            spec_reduce(self.numbers@, texts(self.operators@)) is Some,
        ensures
            Some(r) == spec_reduce(self.numbers@, texts(self.operators@)),
    {
        let mut stack = self;
        let ghost n0 = stack.numbers@;
        let ghost o0 = texts(stack.operators@);
        if stack.numbers.len() == 0 {
            return Err("Empty stack");
        }

        // Unary operations (not, ¬, !, !sub), from right to left.
        let mut i = stack.operators.len();
        while i > 0
            invariant
                i <= texts(stack.operators@).len(),
                stack.numbers@.len() == n0.len(),
                n0.len() > 0,
                n0 == self.numbers@,
                o0 == texts(self.operators@),
                spec_reduce(n0, o0) is Some,
                unary_pass(stack.numbers@, texts(stack.operators@), i as int) == unary_pass(n0, o0, o0.len() as int),
            decreases i,
        {
            i -= 1;
            let k = classify(&stack.operators[i]);
            if k == OpKind::Not || k == OpKind::Factorial || k == OpKind::Subfactorial {
                if i >= stack.numbers.len() {
                    assert(unary_pass(stack.numbers@, texts(stack.operators@), i + 1) == Some(Err::<(Seq<i128>, Seq<Seq<char>>), &'static str>("Missing operand for unary operator")));
                    return Err("Missing operand for unary operator");
                }
                let a = stack.numbers[i];
                let res = match apply_unary(k, a) {
                    Ok(v) => v,
                    Err(m) => {
                        assert(unary_pass(stack.numbers@, texts(stack.operators@), i + 1) == Some(Err::<(Seq<i128>, Seq<Seq<char>>), &'static str>(m)));
                        return Err(m);
                    },
                };
                stack.numbers.set(i, res);
                let ghost before_ops = stack.operators@;
                stack.operators.remove(i);
                assert(texts(stack.operators@) =~= texts(before_ops).remove(i as int));
            }
        }
        let ghost n2 = stack.numbers@;
        let ghost o2 = texts(stack.operators@);
        assert(unary_pass(n0, o0, o0.len() as int) == Some(Ok::<(Seq<i128>, Seq<Seq<char>>), &'static str>((n2, o2))));

        // Power operator, from left to right.
        let mut i: usize = 0;
        while i < stack.operators.len()
            invariant
                i <= texts(stack.operators@).len(),
                stack.numbers@.len() >= 1,
                power_pass(stack.numbers@, texts(stack.operators@), i as int) == power_pass(n2, o2, 0),
                n0 == self.numbers@,
                o0 == texts(self.operators@),
                spec_reduce(n0, o0) is Some,
                n0.len() > 0,
                unary_pass(n0, o0, o0.len() as int) == Some(Ok::<(Seq<i128>, Seq<Seq<char>>), &'static str>((n2, o2))),
            decreases texts(stack.operators@).len() - i,
        {
            if classify(&stack.operators[i]) == OpKind::Power {
                if i + 1 >= stack.numbers.len() {
                    assert(power_pass(stack.numbers@, texts(stack.operators@), i as int) == Some(Err::<(Seq<i128>, Seq<Seq<char>>), &'static str>("Missing operand for power")));
                    return Err("Missing operand for power");
                }
                let a = stack.numbers[i];
                let b = stack.numbers[i + 1];
                let res = match Self::fixed_pow(a, b, SCALE) {
                    Ok(v) => v,
                    Err(m) => {
                        assert(power_pass(stack.numbers@, texts(stack.operators@), i as int) == Some(Err::<(Seq<i128>, Seq<Seq<char>>), &'static str>(m)));
                        return Err(m);
                    },
                };
                stack.numbers.set(i, res);
                stack.numbers.remove(i + 1);
                let ghost before_ops = stack.operators@;
                stack.operators.remove(i);
                assert(texts(stack.operators@) =~= texts(before_ops).remove(i as int));
            } else {
                i += 1;
            }
        }
        let ghost n3 = stack.numbers@;
        let ghost o3 = texts(stack.operators@);
        assert(power_pass(n2, o2, 0) == Some(Ok::<(Seq<i128>, Seq<Seq<char>>), &'static str>((n3, o3))));

        // Binary operations of the middle level, from left to right.
        let mut i: usize = 0;
        while i < stack.operators.len()
            invariant
                i <= texts(stack.operators@).len(),
                stack.numbers@.len() >= 1,
                product_pass(stack.numbers@, texts(stack.operators@), i as int) == product_pass(n3, o3, 0),
                n0 == self.numbers@,
                o0 == texts(self.operators@),
                spec_reduce(n0, o0) is Some,
                n0.len() > 0,
                unary_pass(n0, o0, o0.len() as int) == Some(Ok::<(Seq<i128>, Seq<Seq<char>>), &'static str>((n2, o2))),
                power_pass(n2, o2, 0) == Some(Ok::<(Seq<i128>, Seq<Seq<char>>), &'static str>((n3, o3))),
            decreases texts(stack.operators@).len() - i,
        {
            let k = classify(&stack.operators[i]);
            if k == OpKind::Multiply || k == OpKind::Divide || k == OpKind::ShiftLeft
                || k == OpKind::ShiftRight || k == OpKind::Gcd || k == OpKind::Lcm {
                if i + 1 >= stack.numbers.len() {
                    assert(product_pass(stack.numbers@, texts(stack.operators@), i as int) == Some(Err::<(Seq<i128>, Seq<Seq<char>>), &'static str>("Missing operand")));
                    return Err("Missing operand");
                }
                let a = stack.numbers[i];
                let b = stack.numbers[i + 1];
                let res = match apply_product(k, a, b) {
                    Ok(v) => v,
                    Err(m) => {
                        assert(product_pass(stack.numbers@, texts(stack.operators@), i as int) == Some(Err::<(Seq<i128>, Seq<Seq<char>>), &'static str>(m)));
                        return Err(m);
                    },
                };
                stack.numbers.set(i, res);
                stack.numbers.remove(i + 1);
                let ghost before_ops = stack.operators@;
                stack.operators.remove(i);
                assert(texts(stack.operators@) =~= texts(before_ops).remove(i as int));
            } else {
                i += 1;
            }
        }
        let ghost n4 = stack.numbers@;
        let ghost o4 = texts(stack.operators@);
        assert(product_pass(n3, o3, 0) == Some(Ok::<(Seq<i128>, Seq<Seq<char>>), &'static str>((n4, o4))));

        // Addition, subtraction and bitwise logic, folded from left to right.
        let mut total_val = stack.numbers[0];
        let mut i: usize = 0;
        while i < stack.operators.len()
            invariant
                i <= texts(stack.operators@).len(),
                stack.numbers@ == n4,
                texts(stack.operators@) == o4,
                n4.len() >= 1,
                low_fold(total_val, n4, o4, i as int) == low_fold(n4[0], n4, o4, 0),
                n0 == self.numbers@,
                o0 == texts(self.operators@),
                spec_reduce(n0, o0) is Some,
                n0.len() > 0,
                unary_pass(n0, o0, o0.len() as int) == Some(Ok::<(Seq<i128>, Seq<Seq<char>>), &'static str>((n2, o2))),
                power_pass(n2, o2, 0) == Some(Ok::<(Seq<i128>, Seq<Seq<char>>), &'static str>((n3, o3))),
                product_pass(n3, o3, 0) == Some(Ok::<(Seq<i128>, Seq<Seq<char>>), &'static str>((n4, o4))),
            decreases texts(stack.operators@).len() - i,
        {
            if i + 1 >= stack.numbers.len() {
                assert(low_fold(total_val, n4, o4, i as int) == Some(Err::<i128, &'static str>("Missing operand for trailing operator")));
                return Err("Missing operand for trailing operator");
            }
            let next_val = stack.numbers[i + 1];
            total_val = match apply_low(classify(&stack.operators[i]), total_val, next_val) {
                Ok(v) => v,
                Err(m) => {
                    assert(low_fold(total_val, n4, o4, i as int) == Some(Err::<i128, &'static str>(m)));
                    return Err(m);
                },
            };
            i += 1;
        }
        Ok(total_val)
    }

    /// Evaluates the stack. Each `rand` operator is first replaced, in order,
    /// by a fraction drawn from the random engine (numbering the draws on from
    /// `op_count`), then `evaluate_resolved` computes the value.
    #[verifier::spinoff_prover]
    pub fn evaluate_with_processor<E: EntropySource>(
        self,
        op_count: &mut i128,
        rand_engine: &RandomEngine,
        entropy: &E,
    ) -> (r: Result<i128, &'static str>)
        requires
            can_evaluate(self@, *old(op_count) as int),
        ensures
            *final(op_count) == *old(op_count) + rands_from(texts(self.operators@), 0),
            exists|draws: Seq<i128>|
                {
                    &&& draws.len() == rands_from(texts(self.operators@), 0)
                    &&& draws_fit(*rand_engine, *old(op_count) as int, draws)
                    &&& Some(r) == spec_evaluate(self.numbers@, texts(self.operators@), draws)
                },
    {
        proof {
            reveal(spec_evaluate);
            let zeros = Seq::new(rands_from(texts(self.operators@), 0), |k: int| 0i128);
            assert(spec_evaluate(self.numbers@, texts(self.operators@), zeros) is Some);
        }
        let mut stack = self;
        let ghost n0 = stack.numbers@;
        let ghost o0 = texts(stack.operators@);
        let ghost start = *op_count;
        let ghost mut draws: Seq<i128> = Seq::empty();
        assert forall|rest: Seq<i128>| #[trigger] rand_pass(n0, o0, 0, draws + rest) == rand_pass(n0, o0, 0, rest) by {
            assert(draws + rest =~= rest);
        }

        // Token generators ("rand") first.
        let mut i: usize = 0;
        while i < stack.operators.len()
            invariant
                i <= texts(stack.operators@).len(),
                rand_slots_fit(stack.numbers@.len() as int, texts(stack.operators@), i as int),
                forall|rest: Seq<i128>| #[trigger] rand_pass(n0, o0, 0, draws + rest)
                    == rand_pass(stack.numbers@, texts(stack.operators@), i as int, rest),
                *op_count == start + draws.len(),
                draws.len() + rands_from(texts(stack.operators@), i as int) == rands_from(o0, 0),
                start + rands_from(o0, 0) <= i128::MAX,
                forall|k: int| 0 <= k < draws.len() ==> rand_engine.can_give((start + k + 1) as i128, #[trigger] draws[k]),
            decreases texts(stack.operators@).len() - i,
        {
            if classify(&stack.operators[i]) == OpKind::Rand {
                proof {
                    lemma_rands_from_remove(texts(stack.operators@), i as int, i as int);
                }
                *op_count += 1;
                let generated_raw = rand_engine.next_rand(*op_count, entropy);
                let final_rand = (magnitude(generated_raw) % SCALE) * (SCALE / 100_000_000);
                let ghost cur_n = stack.numbers@;
                let ghost cur_o = texts(stack.operators@);
                stack.numbers.insert(i, final_rand);
                let ghost before_ops = stack.operators@;
                stack.operators.remove(i);
                assert(texts(stack.operators@) =~= texts(before_ops).remove(i as int));
                proof {
                    let old_draws = draws;
                    assert forall|rest: Seq<i128>| #[trigger] rand_pass(n0, o0, 0, old_draws.push(generated_raw) + rest)
                        == rand_pass(stack.numbers@, texts(stack.operators@), i as int, rest) by {
                        let r2 = seq![generated_raw] + rest;
                        assert(r2.drop_first() =~= rest);
                        assert(r2[0] == generated_raw);
                        assert(old_draws.push(generated_raw) + rest =~= old_draws + r2);
                        assert(rand_pass(n0, o0, 0, old_draws + r2) == rand_pass(cur_n, cur_o, i as int, r2));
                    }
                    draws = draws.push(generated_raw);
                }
            } else {
                i += 1;
            }
        }
        proof {
            assert(draws + Seq::<i128>::empty() =~= draws);
            assert(rand_pass(n0, o0, 0, draws + Seq::<i128>::empty())
                == rand_pass(stack.numbers@, texts(stack.operators@), i as int, Seq::<i128>::empty()));
        }
        assert(spec_evaluate(n0, o0, draws) is Some);
        proof {
            reveal(spec_evaluate);
        }
        let r = stack.evaluate_resolved();
        assert(Some(r) == spec_evaluate(n0, o0, draws));
        assert(draws_fit(*rand_engine, start as int, draws));
        r
    }

    /// Fixed-point power with an explicit scale; see `math_operations::pow`.
    fn fixed_pow(base: i128, exp: i128, scale: i128) -> (r: Result<i128, &'static str>)
        requires
            scale > 0,
            !(exp == i128::MIN && (exp as int) % (scale as int) == 0),
        ensures
            r == spec_fixed_pow(base, exp, scale),
        decreases (if crate::fixed::tdiv(exp as int, scale as int) < 0 { 1int } else { 0int }),
    {
        let mut e = exp / scale;
        if e == 0 {
            return Ok(scale);
        }
        if e < 0 {
            proof {
                let k: int = -e;
                let sc: int = scale as int;
                assert(k * sc / sc == k) by (nonlinear_arith) requires k > 0, sc > 0;
                lemma_negated_quotient_fits(exp, scale);
                lemma_pow_rounds_fits(scale as int, base as int, k as nat, scale as int);
            }
            let positive_res = match Self::fixed_pow(base, (-e) * scale, scale) {
                Ok(v) => v,
                Err(m) => return Err(m),
            };
            if positive_res == 0 {
                return Err("Division by zero in negative power");
            }
            let sq = match scale.checked_mul(scale) {
                Some(v) => v,
                None => return Err("Overflow"),
            };
            return match sq.checked_div(positive_res) {
                Some(v) => Ok(v),
                None => Err("Overflow"),
            };
        }
        let ghost e0: int = e as int;
        let mut res = scale;
        let mut b = base;
        proof {
            lemma_pow_rounds_fits(scale as int, base as int, e as nat, scale as int);
        }
        while e > 0
            invariant
                scale > 0,
                e >= 0,
                e0 == crate::fixed::tdiv(exp as int, scale as int),
                e0 > 0,
                pow_rounds(res as int, b as int, e as nat, scale as int)
                    == pow_rounds(scale as int, base as int, e0 as nat, scale as int),
            decreases e,
        {
            assert((e as nat) % 2 == 1 <==> e % 2 == 1);
            assert((e as nat) / 2 == (e / 2) as nat);
            if e % 2 == 1 {
                res = match res.checked_mul(b) {
                    Some(v) => v / scale,
                    None => return Err("Overflow"),
                };
            }
            b = match b.checked_mul(b) {
                Some(v) => v / scale,
                None => return Err("Overflow"),
            };
            e = e / 2;
        }
        Ok(res)
    }
}


/// The numbers and the operators of a stack.
impl View for MathStack {
    type V = (Seq<i128>, Seq<Seq<char>>);

    open spec fn view(&self) -> (Seq<i128>, Seq<Seq<char>>) {
        (self.numbers@, texts(self.operators@))
    }
}

/// Whether `draws` are numbers that the engine can give, in order, for the
/// operations numbered on from `start`.
pub open spec fn draws_fit(engine: RandomEngine, start: int, draws: Seq<i128>) -> bool {
    forall|k: int| 0 <= k < draws.len() ==> engine.can_give((start + k + 1) as i128, #[trigger] draws[k])
}

/// Whether a stack can be evaluated whatever numbers its `rand` operators
/// draw (see `spec_evaluate`), without the operation counter passing
/// `i128::MAX`.
pub open spec fn can_evaluate(stack: (Seq<i128>, Seq<Seq<char>>), op_count: int) -> bool {
    &&& forall|draws: Seq<i128>|
        draws.len() == rands_from(stack.1, 0) ==> (#[trigger] spec_evaluate(stack.0, stack.1, draws)) is Some
    &&& op_count + rands_from(stack.1, 0) <= i128::MAX
}

/// The bracket levels of an expression being read: the outermost stack
/// first, the innermost (where new numbers and operators go) last.
pub struct MathProcessor {
    pub storage: Vec<MathStack>,
    pub op_count: i128,
    pub rand_engine: RandomEngine,
}

impl MathProcessor {
    /// The stacks, by their contents.
    pub open spec fn stacks(&self) -> Seq<(Seq<i128>, Seq<Seq<char>>)> {
        self.storage@.map_values(|s: MathStack| s@)
    }

    /// A processor with one empty stack, no operations counted, and a random
    /// engine started now.
    pub fn new() -> (p: Self)
        ensures
            p.stacks() == seq![(Seq::<i128>::empty(), Seq::<Seq<char>>::empty())],
            p.op_count == 0,
            0 <= p.rand_engine.app_start_ms <= MAX_DURATION_MILLIS,
    {
        let mut storage: Vec<MathStack> = Vec::new();
        storage.push(MathStack::new());
        let p = Self { storage, op_count: 0, rand_engine: RandomEngine::new() };
        assert(p.stacks() =~= seq![(Seq::<i128>::empty(), Seq::<Seq<char>>::empty())]);
        p
    }

    /// The innermost stack, or an error when there is none.
    pub fn current_mut(&mut self) -> (r: Result<&mut MathStack, &'static str>)
        ensures
            old(self).storage@.len() == 0 ==> r == Err::<&mut MathStack, &'static str>("No active stack context")
                && final(self).storage@ == old(self).storage@,
            final(self).op_count == old(self).op_count,
            final(self).rand_engine == old(self).rand_engine,
            old(self).storage@.len() > 0 ==> r is Ok
                && *r.unwrap() == old(self).storage@.last()
                && final(self).storage@ == old(self).storage@.update(
                    old(self).storage@.len() - 1,
                    *final(r.unwrap()),
                ),
    {
        match self.storage.last_mut() {
            Some(s) => Ok(s),
            None => Err("No active stack context"),
        }
    }

    /// Opens a bracket: a new, empty innermost stack.
    pub fn open_bracket(&mut self)
        ensures
            final(self).stacks() == old(self).stacks().push((Seq::<i128>::empty(), Seq::<Seq<char>>::empty())),
            final(self).op_count == old(self).op_count,
            final(self).rand_engine == old(self).rand_engine,
    {
        self.storage.push(MathStack::new());
        assert(self.stacks() =~= old(self).stacks().push((Seq::<i128>::empty(), Seq::<Seq<char>>::empty())));
    }

    /// Closes the innermost bracket: its stack is evaluated and the value is
    /// appended to the numbers of the stack around it. An evaluation error
    /// leaves the stack removed and is returned.
    #[verifier::spinoff_prover]
    pub fn close_bracket<E: EntropySource>(&mut self, entropy: &E) -> (r: Result<(), &'static str>)
        requires
            old(self).storage@.len() >= 2 ==> can_evaluate(old(self).stacks().last(), old(self).op_count as int),
        ensures
            final(self).rand_engine == old(self).rand_engine,
            old(self).storage@.len() < 2 ==> {
                &&& r == Err::<(), &'static str>("Unmatched closing bracket")
                &&& final(self).storage@ == old(self).storage@
                &&& final(self).op_count == old(self).op_count
            },
            old(self).storage@.len() >= 2 ==> {
                let top = old(self).stacks().last();
                &&& final(self).op_count == old(self).op_count + rands_from(top.1, 0)
                &&& exists|draws: Seq<i128>|
                    {
                        &&& draws.len() == rands_from(top.1, 0)
                        &&& draws_fit(old(self).rand_engine, old(self).op_count as int, draws)
                        &&& spec_evaluate(top.0, top.1, draws) is Some
                        &&& (r, final(self).stacks()) == after_close(old(self).stacks(), spec_evaluate(top.0, top.1, draws)->Some_0)
                    }
            },
    {
        if self.storage.len() < 2 {
            return Err("Unmatched closing bracket");
        }
        let ghost old_stacks = self.stacks();
        let current = self.storage.pop().unwrap();
        assert(current@ == old_stacks.last());
        assert(self.stacks() =~= old_stacks.drop_last());
        let result = current.evaluate_with_processor(&mut self.op_count, &self.rand_engine, entropy);
        let ghost draws = choose|draws: Seq<i128>|
            {
                &&& draws.len() == rands_from(texts(current.operators@), 0)
                &&& draws_fit(self.rand_engine, old(self).op_count as int, draws)
                &&& Some(result) == spec_evaluate(current.numbers@, texts(current.operators@), draws)
            };
        let value = match result {
            Ok(v) => v,
            Err(m) => return Err(m),
        };
        let ghost before = self.stacks();
        match self.current_mut() {
            Ok(s) => s.push_num(value),
            Err(m) => return Err(m),
        }
        assert(self.stacks() =~= after_close(old_stacks, Ok::<i128, &'static str>(value)).1);
        Ok(())
    }

    /// Evaluates the whole expression once every bracket is closed.
    #[verifier::spinoff_prover]
    pub fn finalize<E: EntropySource>(self, entropy: &E) -> (r: Result<i128, &'static str>)
        requires
            self.storage@.len() == 1 ==> can_evaluate(self.stacks()[0], self.op_count as int),
        ensures
            self.storage@.len() != 1 ==> r == Err::<i128, &'static str>("Unmatched opening brackets"),
            self.storage@.len() == 1 ==> exists|draws: Seq<i128>|
                {
                    &&& draws.len() == rands_from(self.stacks()[0].1, 0)
                    &&& draws_fit(self.rand_engine, self.op_count as int, draws)
                    &&& Some(r) == spec_evaluate(self.stacks()[0].0, self.stacks()[0].1, draws)
                },
    {
        let mut processor = self;
        if processor.storage.len() != 1 {
            return Err("Unmatched opening brackets");
        }
        let last = processor.storage.pop().unwrap();
        assert(last@ == self.stacks()[0]);
        last.evaluate_with_processor(&mut processor.op_count, &processor.rand_engine, entropy)
    }
}

/// What closing the innermost bracket leaves, when its stack evaluated to
/// `value`: the result of the close, and the remaining stacks.
pub open spec fn after_close(
    stacks: Seq<(Seq<i128>, Seq<Seq<char>>)>,
    value: Result<i128, &'static str>,
) -> (Result<(), &'static str>, Seq<(Seq<i128>, Seq<Seq<char>>)>) {
    let rest = stacks.drop_last();
    match value {
        Err(m) => (Err(m), rest),
        Ok(v) => (Ok(()), rest.update(rest.len() - 1, (rest.last().0.push(v), rest.last().1))),
    }
}

} // verus!
