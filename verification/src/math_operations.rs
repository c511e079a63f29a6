//! Fixed-point exponentiation, and the engine that turns machine state into
//! random numbers.
use vstd::prelude::*;
use crate::fixed::{SCALE, abs_int, fits_i128, tdiv};

verus! {

/// Square-and-multiply on fixed-point values, where every product of two
/// fixed-point numbers is cut back to the scale at once (rounding toward zero).
/// `res` is the accumulated result, `b` the current square and `e` the
/// exponent still to apply; `None` means that a product left the `i128` range.
/// The square is formed in every round, the last one too, so it can overflow
/// even where the result would fit.
pub open spec fn pow_rounds(res: int, b: int, e: nat, scale: int) -> Option<int>
    decreases e,
{
    if e == 0 {
        Some(res)
    } else {
        let next_res = if e % 2 == 1 {
            if fits_i128(res * b) { Some(tdiv(res * b, scale)) } else { None }
        } else {
            Some(res)
        };
        match next_res {
            None => None,
            Some(r) => if fits_i128(b * b) {
                pow_rounds(r, tdiv(b * b, scale), e / 2, scale)
            } else {
                None
            },
        }
    }
}

/// `base` raised to the integer part of `exp` (both fixed-point with the given
/// scale). A negative exponent takes the reciprocal of the positive power.
pub open spec fn spec_fixed_pow(base: i128, exp: i128, scale: i128) -> Result<i128, &'static str> {
    let e = tdiv(exp as int, scale as int);
    if e == 0 {
        Ok(scale)
    } else {
        match pow_rounds(scale as int, base as int, abs_int(e) as nat, scale as int) {
            None => Err("Overflow"),
            Some(p) => if e > 0 {
                Ok(p as i128)
            } else if p == 0 {
                Err("Division by zero in negative power")
            } else if fits_i128(scale * scale) {
                Ok(tdiv(scale * scale, p) as i128)
            } else {
                Err("Overflow")
            },
        }
    }
}

/// Every value that `pow_rounds` passes through stays in range when the scale
/// is positive, so the `i128` results of a run are exact.
pub proof fn lemma_pow_rounds_fits(res: int, b: int, e: nat, scale: int)
    requires
        scale > 0,
        fits_i128(res),
        fits_i128(b),
    ensures
        pow_rounds(res, b, e, scale) matches Some(p) ==> fits_i128(p),
    decreases e,
{
    if e > 0 && (e % 2 == 0 || fits_i128(res * b)) {
        let next_res = if e % 2 == 1 { tdiv(res * b, scale) } else { res };
        if e % 2 == 1 {
            lemma_tdiv_shrinks(res * b, scale);
        }
        if fits_i128(b * b) {
            lemma_tdiv_shrinks(b * b, scale);
            lemma_pow_rounds_fits(next_res, tdiv(b * b, scale), e / 2, scale);
        }
    }
}

/// Dividing by a positive number never moves a value away from zero.
pub proof fn lemma_tdiv_shrinks(a: int, b: int)
    requires
        b > 0,
    ensures
        abs_int(tdiv(a, b)) <= abs_int(a),
{
    assert(abs_int(a) / b <= abs_int(a)) by (nonlinear_arith)
        requires b > 0, abs_int(a) >= 0;
}

/// Fixed-point power: `base` raised to the integer part of `exp`, with eight
/// decimal places. The fraction of the exponent is dropped, `x^0` is one, and
/// a negative exponent gives the reciprocal.
pub fn pow(base: i128, exp: i128) -> (r: Result<i128, &'static str>)
    ensures
        r == spec_fixed_pow(base, exp, SCALE),
    decreases (if tdiv(exp as int, SCALE as int) < 0 { 1int } else { 0int }),
{
    let mut e = exp / 100_000_000;

    if e == 0 {
        return Ok(100_000_000);
    }

    if e < 0 {
        proof {
            let k: int = -e;
            assert(k * 100_000_000 / 100_000_000 == k) by (nonlinear_arith) requires k > 0;
            assert(tdiv(((-e) * 100_000_000) as int, SCALE as int) == -e);
            lemma_pow_rounds_fits(SCALE as int, base as int, k as nat, SCALE as int);
        }
        let positive_res = match pow(base, (-e) * 100_000_000) {
            Ok(v) => v,
            Err(m) => return Err(m),
        };
        if positive_res == 0 {
            return Err("Division by zero in negative power");
        }
        let sq = match 100_000_000i128.checked_mul(100_000_000i128) {
            Some(v) => v,
            None => return Err("Overflow"),
        };
        return match sq.checked_div(positive_res) {
            Some(v) => Ok(v),
            None => Err("Overflow"),
        };
    }

    let ghost e0: int = e as int;
    let mut res = 100_000_000i128;
    let mut b = base;
    proof {
        lemma_pow_rounds_fits(SCALE as int, base as int, e as nat, SCALE as int);
    }

    while e > 0
        invariant
            e >= 0,
            e0 == tdiv(exp as int, SCALE as int),
            e0 > 0,
            pow_rounds(res as int, b as int, e as nat, SCALE as int)
                == pow_rounds(SCALE as int, base as int, e0 as nat, SCALE as int),
        decreases e,
    {
        assert((e as nat) % 2 == 1 <==> e % 2 == 1);
        assert((e as nat) / 2 == (e / 2) as nat);
        if e % 2 == 1 {
            res = match res.checked_mul(b) {
                Some(v) => v,
                None => return Err("Overflow"),
            };
            res = match res.checked_div(100_000_000) {
                Some(v) => v,
                None => return Err("Overflow"),
            };
        }
        b = match b.checked_mul(b) {
            Some(v) => v,
            None => return Err("Overflow"),
        };
        b = match b.checked_div(100_000_000) {
            Some(v) => v,
            None => return Err("Overflow"),
        };
        e = e / 2;
    }

    Ok(res)
}

} // verus!

verus! {

/// The machine state that the random engine mixes into each number: the flags
/// register, the sixteen general-purpose registers (in the order rax, rbx,
/// rcx, rdx, rsi, rdi, rbp, rsp, r8 to r15) and the low 64 bits of the
/// sixteen vector registers xmm0 to xmm15.
#[derive(Clone, Copy, Debug)]
pub struct CpuSnapshot {
    pub rflags: u64,
    pub registers: [u64; 16],
    pub xmm: [u64; 16],
}

/// Where the random engine gets a snapshot of the machine state from. Reading
/// registers takes inline assembly, which stands outside this library: the
/// library assumes nothing of what a capture returns.
pub trait EntropySource {
    fn capture(&self) -> CpuSnapshot;
}

/// Generates the numbers of the `rand` operator.
pub struct RandomEngine {
    pub app_start_ms: i128,
}

#[verifier::external_type_specification]
#[verifier::external_body]
pub struct ExSystemTime(std::time::SystemTime);

#[verifier::external_type_specification]
#[verifier::external_body]
pub struct ExSystemTimeError(std::time::SystemTimeError);

/// `SystemTime::now`: the clock's current reading; nothing is claimed of it.
#[verifier::external_body]
fn clock_now() -> std::time::SystemTime {
    std::time::SystemTime::now()
}

/// `SystemTime::duration_since(UNIX_EPOCH)`: the time elapsed since the Unix
/// epoch, or an error when the clock stands before it; nothing is claimed of
/// the value.
#[verifier::external_body]
fn since_unix_epoch(t: &std::time::SystemTime) -> Result<core::time::Duration, std::time::SystemTimeError> {
    t.duration_since(std::time::SystemTime::UNIX_EPOCH)
}

/// The count of whole milliseconds that `Duration::as_millis` gives for `d`.
pub uninterp spec fn duration_millis(d: core::time::Duration) -> u128;

/// The count of whole nanoseconds that `Duration::as_nanos` gives for `d`.
pub uninterp spec fn duration_nanos(d: core::time::Duration) -> u128;

/// `Duration::as_millis`: the whole milliseconds of a duration, a function of
/// the duration alone. A duration is a `u64` count of seconds (`as_secs`) and
/// a fraction below one second, so the count is at most
/// `u64::MAX * 1000 + 999`.
#[verifier::external_body]
fn whole_millis(d: &core::time::Duration) -> (r: u128)
    ensures
        r == duration_millis(*d),
        r <= MAX_DURATION_MILLIS,
{
    d.as_millis()
}

/// `Duration::as_nanos`: the whole nanoseconds of a duration, a function of
/// the duration alone. A duration is a `u64` count of seconds and under a
/// billion nanoseconds, so the count is at most
/// `u64::MAX * 10^9 + 999_999_999`.
#[verifier::external_body]
fn whole_nanos(d: &core::time::Duration) -> (r: u128)
    ensures
        r == duration_nanos(*d),
        r <= MAX_DURATION_NANOS,
{
    d.as_nanos()
}

/// The largest count of whole milliseconds in a `Duration`.
pub const MAX_DURATION_MILLIS: u128 = 18_446_744_073_709_551_615_999;

/// The largest count of whole nanoseconds in a `Duration`.
pub const MAX_DURATION_NANOS: u128 = 18_446_744_073_709_551_615_999_999_999;

/// A reading of the time since the Unix epoch in whole milliseconds: those of
/// the duration, or zero when the clock stood before the epoch.
pub open spec fn reading_millis(since: Result<core::time::Duration, std::time::SystemTimeError>) -> u128 {
    match since {
        Ok(d) => duration_millis(d),
        Err(_) => 0,
    }
}

/// A reading of the time since the Unix epoch in whole nanoseconds: those of
/// the duration, or zero when the clock stood before the epoch.
pub open spec fn reading_nanos(since: Result<core::time::Duration, std::time::SystemTimeError>) -> u128 {
    match since {
        Ok(d) => duration_nanos(d),
        Err(_) => 0,
    }
}

/// The whole milliseconds of a reading of the time since the Unix epoch, or
/// zero when the clock stood before the epoch.
pub fn millis_or_zero(since: &Result<core::time::Duration, std::time::SystemTimeError>) -> (r: u128)
    ensures
        r == reading_millis(*since),
        r <= MAX_DURATION_MILLIS,
{
    match since {
        Ok(d) => whole_millis(d),
        Err(_) => 0,
    }
}

/// The whole nanoseconds of a reading of the time since the Unix epoch, or
/// zero when the clock stood before the epoch.
pub fn nanos_or_zero(since: &Result<core::time::Duration, std::time::SystemTimeError>) -> (r: u128)
    ensures
        r == reading_nanos(*since),
        r <= MAX_DURATION_NANOS,
{
    match since {
        Ok(d) => whole_nanos(d),
        Err(_) => 0,
    }
}

/// Milliseconds since the Unix epoch by the clock, zero when the clock is
/// before it: the reading itself depends on the time.
fn unix_time_millis() -> (r: u128)
    ensures
        exists|since: Result<core::time::Duration, std::time::SystemTimeError>| r == #[trigger] reading_millis(since),
        r <= MAX_DURATION_MILLIS,
{
    let now = clock_now();
    let since = since_unix_epoch(&now);
    millis_or_zero(&since)
}

/// Nanoseconds since the Unix epoch by the clock, zero when the clock is
/// before it: the reading itself depends on the time.
fn unix_time_nanos() -> (r: u128)
    ensures
        exists|since: Result<core::time::Duration, std::time::SystemTimeError>| r == #[trigger] reading_nanos(since),
        r <= MAX_DURATION_NANOS,
{
    let now = clock_now();
    let since = since_unix_epoch(&now);
    nanos_or_zero(&since)
}

/// Number of bytes hashed for one random number: nineteen `i128` words.
pub const MIX_BYTES: usize = 304;

/// Multiplier used when the registers give none above two.
pub const FALLBACK_PRIME: u128 = 0x1000000000000000000013b;

/// Byte `j` (0 = least significant) of the two's-complement form of `w`.
pub open spec fn word_byte(w: i128, j: int) -> u8 {
    ((w as u128) >> ((j * 8) as u128)) as u8
}

/// The bytes of a sequence of `i128` words as they lie in memory on a
/// little-endian machine.
pub open spec fn words_le_bytes(words: Seq<i128>) -> Seq<u8> {
    Seq::new(words.len() * 16, |k: int| word_byte(words[k / 16], k % 16))
}

/// One step of the hash: xor the byte in, then multiply (mod 2^128).
pub open spec fn hash_step(h: u128, byte: u8, prime: u128) -> u128 {
    vstd::wrapping::u128_specs::wrapping_mul(h ^ (byte as u128), prime)
}

/// The hash of `bytes`, starting from `h`, one byte after another.
pub open spec fn hash_bytes(h: u128, prime: u128, bytes: Seq<u8>) -> u128
    decreases bytes.len(),
{
    if bytes.len() == 0 {
        h
    } else {
        hash_step(hash_bytes(h, prime, bytes.drop_last()), bytes.last(), prime)
    }
}

/// The xor of the low halves of the vector registers.
pub open spec fn xmm_fold(xmm: Seq<u64>, n: int) -> u64
    decreases n,
{
    if n <= 0 { 0 } else { xmm_fold(xmm, n - 1) ^ xmm[n - 1] }
}

/// Bit 6 of the flags register, the zero flag.
pub open spec fn zero_flag(rflags: u64) -> bool {
    rflags & 64 != 0
}

/// The part of a random number that the operation number contributes: it is
/// shifted by an amount drawn from `!op_num * app_start_ms`, right when the
/// zero flag is set, left otherwise, then squared and xored with itself.
pub open spec fn op_mix(app_start_ms: i128, op_num: i128, zf: bool) -> i128 {
    let shift = (vstd::wrapping::i128_specs::wrapping_mul(!op_num, app_start_ms) & 0x7F) as u32;
    let shifted = if zf {
        vstd::wrapping::i128_specs::wrapping_shr(op_num, shift)
    } else {
        vstd::wrapping::i128_specs::wrapping_shl(op_num, shift & 0x3F)
    };
    vstd::wrapping::i128_specs::wrapping_mul(shifted, op_num) ^ op_num
}

/// The nineteen words that are hashed: the general-purpose registers, the
/// folded vector registers, the operation mix and the time.
pub open spec fn mix_words(snap: CpuSnapshot, core_math: i128, time: i128) -> Seq<i128> {
    Seq::new(16, |k: int| snap.registers[k] as i128)
        .push(xmm_fold(snap.xmm@, 16) as i128)
        .push(core_math)
        .push(time)
}

/// The hash multiplier: rax xor rdi made odd, or `FALLBACK_PRIME` when that is one.
pub open spec fn mix_prime(snap: CpuSnapshot) -> u128 {
    let p = ((snap.registers[0] as u128) ^ (snap.registers[5] as u128)) | 1;
    if p < 3 { FALLBACK_PRIME } else { p }
}

/// The hash's starting value: rax in the high half, rdi in the low half.
pub open spec fn mix_seed(snap: CpuSnapshot) -> u128 {
    ((snap.registers[0] as u128) << 64u128) | (snap.registers[5] as u128)
}

/// The random number made from a snapshot, the operation number and the time
/// in nanoseconds: the hash of the words, or-ed with the time, made
/// non-negative and scaled (both mod 2^128).
pub open spec fn spec_mix(app_start_ms: i128, op_num: i128, snap: CpuSnapshot, time: i128) -> i128 {
    let core_math = op_mix(app_start_ms, op_num, zero_flag(snap.rflags));
    let hash = hash_bytes(mix_seed(snap), mix_prime(snap), words_le_bytes(mix_words(snap, core_math, time)));
    let raw = (hash as i128) | time;
    vstd::wrapping::i128_specs::wrapping_mul(crate::ops::wrapping_abs(raw), SCALE)
}

/// The operation number's contribution to a random number.
fn operation_mix(app_start_ms: i128, op_num: i128, zf_is_one: bool) -> (r: i128)
    ensures
        r == op_mix(app_start_ms, op_num, zf_is_one),
{
    let shift_amount = #[verifier::truncate] (((!op_num).wrapping_mul(app_start_ms) & 0x7F) as u32);
    let shifted_part = if zf_is_one {
        op_num.wrapping_shr(shift_amount)
    } else {
        op_num.wrapping_shl(shift_amount & 0x3F)
    };
    shifted_part.wrapping_mul(op_num) ^ op_num
}

/// The nineteen words to hash, in memory order.
fn snapshot_words(snap: &CpuSnapshot, core_math: i128, current_time: i128) -> (words: Vec<i128>)
    ensures
        words@ == mix_words(*snap, core_math, current_time),
{
    let mut xmm_x: u64 = 0;
    let mut k: usize = 0;
    while k < 16
        invariant
            k <= 16,
            xmm_x == xmm_fold(snap.xmm@, k as int),
        decreases 16 - k,
    {
        xmm_x = xmm_x ^ snap.xmm[k];
        k += 1;
    }

    let mut words: Vec<i128> = Vec::new();
    let mut k: usize = 0;
    while k < 16
        invariant
            k <= 16,
            words@ =~= Seq::new(k as nat, |i: int| snap.registers[i] as i128),
        decreases 16 - k,
    {
        words.push(snap.registers[k] as i128);
        k += 1;
    }
    words.push(xmm_x as i128);
    words.push(core_math);
    words.push(current_time);
    assert(words@ =~= mix_words(*snap, core_math, current_time));
    words
}

/// Hashes the memory bytes of the words, starting from `seed`.
fn hash_words(seed: u128, prime: u128, words: &Vec<i128>) -> (h: u128)
    requires
        words@.len() == 19,
    ensures
        h == hash_bytes(seed, prime, words_le_bytes(words@)),
{
    let ghost bytes = words_le_bytes(words@);
    let mut hash = seed;
    let mut idx: usize = 0;
    while idx < MIX_BYTES
        invariant
            idx <= MIX_BYTES,
            words@.len() == 19,
            bytes == words_le_bytes(words@),
            hash == hash_bytes(seed, prime, bytes.take(idx as int)),
        decreases MIX_BYTES - idx,
    {
        let w = words[idx / 16];
        let byte_val = #[verifier::truncate] (((w as u128) >> (((idx % 16) * 8) as u128)) as u8);
        assert(byte_val == bytes[idx as int]);
        assert(bytes.take(idx as int + 1).drop_last() =~= bytes.take(idx as int));
        hash = hash ^ (byte_val as u128);
        hash = hash.wrapping_mul(prime);
        idx += 1;
    }
    assert(bytes.take(MIX_BYTES as int) =~= bytes);
    hash
}

impl RandomEngine {
    /// Whether `r` is a number that the engine can give for operation `op_num`
    /// under some machine state and some reading of the clock: the reading's
    /// whole nanoseconds since the Unix epoch (zero before it), a count that a
    /// `Duration` can hold.
    pub open spec fn can_give(&self, op_num: i128, r: i128) -> bool {
        exists|snap: CpuSnapshot, since: Result<core::time::Duration, std::time::SystemTimeError>|
            #![trigger spec_mix(self.app_start_ms, op_num, snap, reading_nanos(since) as i128)]
            reading_nanos(since) <= MAX_DURATION_NANOS
                && r == spec_mix(self.app_start_ms, op_num, snap, reading_nanos(since) as i128)
    }

    /// An engine whose start time is the clock's Unix time in whole
    /// milliseconds (zero when the clock stands before the epoch).
    pub fn new() -> (e: Self)
        ensures
            exists|since: Result<core::time::Duration, std::time::SystemTimeError>|
                e.app_start_ms == #[trigger] reading_millis(since),
            0 <= e.app_start_ms <= MAX_DURATION_MILLIS,
    {
        let start = unix_time_millis() as i128;
        Self { app_start_ms: start }
    }

    /// The random number for operation `op_num` under the given machine state
    /// and time (nanoseconds since the Unix epoch).
    pub fn mix(&self, op_num: i128, snap: &CpuSnapshot, current_time: i128) -> (r: i128)
        ensures
            r == spec_mix(self.app_start_ms, op_num, *snap, current_time),
    {
        let zf_is_one = (snap.rflags & (1 << 6)) != 0;
        assert((1u64 << 6u64) == 64) by (bit_vector);
        let core_math = operation_mix(self.app_start_ms, op_num, zf_is_one);
        let words = snapshot_words(snap, core_math, current_time);

        let rax = snap.registers[0];
        let rdi = snap.registers[5];
        let hash: u128 = (rax as u128) << 64 | (rdi as u128);
        let mut dynamic_prime: u128 = (rax as u128 ^ rdi as u128) | 1;
        if dynamic_prime < 3 {
            dynamic_prime = FALLBACK_PRIME;
        }
        let hash = hash_words(hash, dynamic_prime, &words);

        let final_raw_rand = #[verifier::truncate] (hash as i128) | current_time;
        crate::ops::magnitude(final_raw_rand).wrapping_mul(100_000_000)
    }

    /// The random number for operation `op_num`: a snapshot of the machine
    /// state, taken by `entropy`, mixed with the current time.
    pub fn next_rand<E: EntropySource>(&self, op_num: i128, entropy: &E) -> (r: i128)
        ensures
            self.can_give(op_num, r),
    {
        let snap = entropy.capture();
        let nanos = unix_time_nanos();
        let current_time = nanos as i128;
        let r = self.mix(op_num, &snap, current_time);
        proof {
            let since = choose|since: Result<core::time::Duration, std::time::SystemTimeError>| nanos == #[trigger] reading_nanos(since);
            assert(r == spec_mix(self.app_start_ms, op_num, snap, reading_nanos(since) as i128));
        }
        r
    }
}

} // verus!
