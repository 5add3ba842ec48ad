//! Torus32 arithmetic: values of `Z/(2^32)Z` stored as `u32`.
use vstd::arithmetic::div_mod::*;
use vstd::arithmetic::mul::*;
use vstd::arithmetic::power2::*;
use vstd::bits::*;
use vstd::prelude::*;

verus! {

/// `2^32`, the modulus of the torus.
pub open spec fn torus_modulus() -> int {
    0x1_0000_0000
}

/// Power-of-two modulus switching with nearest rounding:
/// `floor((x * 2^log_modulus + 2^31) / 2^32) mod 2^log_modulus`.
pub open spec fn modulus_switch_spec(value: u32, log_modulus: nat) -> int {
    ((value * pow2(log_modulus) + 0x8000_0000) / torus_modulus()) % (pow2(log_modulus) as int)
}

/// Rounds a torus value to the nearest multiple of `2^32 / 2^log_modulus`
/// and returns that multiple's index modulo `2^log_modulus`.
pub fn modulus_switch(value: u32, log_modulus: usize) -> (switched: u32)
    requires
        log_modulus <= 32,
    ensures
        switched == modulus_switch_spec(value, log_modulus as nat),
        switched < pow2(log_modulus as nat),
{
    proof {
        lemma2_to64();
        lemma_u64_shl_is_mul(1, log_modulus as u64);
        lemma_pow2_pos(log_modulus as nat);
        if log_modulus < 32 {
            lemma_pow2_strictly_increases(log_modulus as nat, 32);
        }
        lemma_mul_upper_bound(value as int, 0xffff_ffff, pow2(log_modulus as nat) as int, 0x1_0000_0000);
    }
    let modulus = 1u64 << log_modulus;
    let scaled = (value as u64) * modulus + 0x8000_0000u64;
    proof {
        lemma_u64_shr_is_div(scaled, 32);
        lemma_mod_bound((scaled / 0x1_0000_0000) as int, modulus as int);
    }
    ((scaled >> 32) % modulus) as u32
}


/// The torus element represented by an arbitrary integer.
pub open spec fn torus(x: int) -> u32 {
    (x % torus_modulus()) as u32
}

/// The additive inverse of a torus element.
pub open spec fn torus_neg(x: u32) -> u32 {
    torus(-x)
}

pub proof fn lemma_torus_bound(x: int)
    ensures
        0 <= x % torus_modulus() < torus_modulus(),
        torus(x) as int == x % torus_modulus(),
{
    lemma_mod_bound(x, torus_modulus());
}

/// `wrapping_add`, `wrapping_sub` and `wrapping_mul` on `u32` are the torus
/// operations on the integer values.
pub proof fn lemma_wrapping_ops(x: u32, y: u32)
    ensures
        vstd::wrapping::u32_specs::wrapping_add(x, y) == torus(x + y),
        vstd::wrapping::u32_specs::wrapping_sub(x, y) == torus(x - y),
        vstd::wrapping::u32_specs::wrapping_mul(x, y) == torus(x * y),
{
    lemma_torus_bound(x + y);
    lemma_torus_bound(x - y);
    if x + y >= torus_modulus() {
        lemma_fundamental_div_mod_converse(x + y, torus_modulus(), 1, x + y - torus_modulus());
    } else {
        lemma_small_mod((x + y) as nat, torus_modulus() as nat);
    }
    if x - y < 0 {
        lemma_fundamental_div_mod_converse(x - y, torus_modulus(), -1, x - y + torus_modulus());
    } else {
        lemma_small_mod((x - y) as nat, torus_modulus() as nat);
    }
    lemma_mul_nonnegative(x as int, y as int);
}

/// A torus element is its own representative.
pub proof fn lemma_torus_of_u32(x: u32)
    ensures
        torus(x as int) == x,
{
    lemma_small_mod(x as nat, torus_modulus() as nat);
}

/// Reducing an operand modulo `2^32` does not change a torus sum or product.
pub proof fn lemma_torus_congruent(a: int, b: int)
    ensures
        torus(torus(a) + b) == torus(a + b),
        torus(torus(a) * b) == torus(a * b),
        torus(b - torus(a)) == torus(b - a),
{
    lemma_torus_bound(a);
    lemma_add_mod_noop(a, b, torus_modulus());
    lemma_add_mod_noop(a % torus_modulus(), b, torus_modulus());
    lemma_mod_twice(a, torus_modulus());
    lemma_mul_mod_noop_left(a, b, torus_modulus());
    lemma_sub_mod_noop(b, a, torus_modulus());
    lemma_sub_mod_noop(b, a % torus_modulus(), torus_modulus());
}

/// The product of a sequence of sizes, as an integer.
pub open spec fn seq_product(values: Seq<usize>) -> int
    decreases values.len(),
{
    if values.len() == 0 {
        1
    } else {
        seq_product(values.drop_last()) * values.last()
    }
}

/// Multiplies the sizes left to right and fails as soon as a partial product
/// leaves `usize`.
pub fn checked_product(values: &[usize]) -> (product: Option<usize>)
    ensures
        product is Some <==> forall|i: int|
            0 <= i <= values@.len() ==> #[trigger] seq_product(values@.take(i)) <= usize::MAX,
        product matches Some(p) ==> p == seq_product(values@),
{
    let mut accumulated: usize = 1;
    let mut index: usize = 0;
    assert(values@.take(0) =~= Seq::<usize>::empty());
    while index < values.len()
        invariant
            index <= values@.len(),
            accumulated == seq_product(values@.take(index as int)),
            forall|i: int| 0 <= i <= index ==> #[trigger] seq_product(values@.take(i)) <= usize::MAX,
        decreases values@.len() - index,
    {
        assert(values@.take(index + 1).drop_last() =~= values@.take(index as int));
        match accumulated.checked_mul(values[index]) {
            Some(next) => {
                accumulated = next;
            },
            None => {
                assert(seq_product(values@.take(index + 1)) > usize::MAX);
                return None;
            },
        }
        index += 1;
    }
    assert(values@.take(values@.len() as int) =~= values@);
    Some(accumulated)
}

proof fn lemma_pow2_even(k: nat)
    requires
        k >= 1,
    ensures
        pow2(k) % 2 == 0,
        pow2(k) >= 2,
{
    lemma_pow2_unfold(k);
    lemma_pow2_pos((k - 1) as nat);
}

proof fn lemma_not_power_of_two(rest: int, k: nat, j: nat)
    requires
        rest > 1,
        rest % 2 == 1,
    ensures
        pow2(j) != rest * pow2(k),
{
    if pow2(j) != rest * pow2(k) {
        return;
    }
    lemma_pow2_pos(k);
    lemma_pow2_pos(j);
    if j <= k {
        lemma_pow2_adds(j, (k - j) as nat);
        lemma_pow2_pos((k - j) as nat);
        let pj = pow2(j) as int;
        let m = pow2((k - j) as nat) as int;
        assert(pj != rest * (pj * m)) by (nonlinear_arith)
            requires
                pj > 0,
                m >= 1,
                rest > 1,
        ;
    } else {
        lemma_pow2_adds(k, (j - k) as nat);
        lemma_pow2_even((j - k) as nat);
        let pk = pow2(k) as int;
        let m = pow2((j - k) as nat) as int;
        assert(pk * m != rest * pk) by (nonlinear_arith)
            requires
                pk > 0,
                m % 2 == 0,
                rest % 2 == 1,
        {
            if pk * m == rest * pk {
                assert(m == rest);
            }
        }
    }
}

/// The base-2 logarithm of a polynomial size, which must be a power of two
/// no smaller than 2.
pub fn polynomial_log2(size: usize) -> (log: Option<usize>)
    ensures
        log matches Some(k) ==> k >= 1 && pow2(k as nat) == size,
        log is None ==> forall|k: nat| k >= 1 ==> pow2(k) != size,
{
    if size < 2 {
        proof {
            assert forall|k: nat| k >= 1 implies pow2(k) != size by {
                lemma_pow2_even(k);
            }
        }
        return None;
    }
    let mut rest = size;
    let mut exponent: usize = 0;
    proof {
        lemma2_to64();
    }
    while rest % 2 == 0
        invariant
            rest >= 1,
            rest * pow2(exponent as nat) == size,
            exponent < 64,
        decreases rest,
    {
        proof {
            lemma_pow2_unfold((exponent + 1) as nat);
            lemma_mul_is_associative((rest / 2) as int, 2, pow2(exponent as nat) as int);
            lemma_pow2_pos(exponent as nat);
            lemma_mul_increases(rest as int, pow2(exponent as nat) as int);
            if exponent + 1 >= 64 {
                lemma_pow2_strictly_increases(63, (exponent + 1) as nat);
                lemma2_to64_rest();
                lemma_mul_increases((rest / 2) as int, pow2((exponent + 1) as nat) as int);
            }
        }
        rest = rest / 2;
        exponent = exponent + 1;
    }
    if rest == 1 {
        proof {
            if exponent == 0 {
                assert(pow2(0) == 1);
            }
        }
        Some(exponent)
    } else {
        proof {
            assert forall|k: nat| k >= 1 implies pow2(k) != size by {
                if pow2(k) == size {
                    lemma_not_power_of_two(rest as int, exponent as nat, k);
                }
            }
        }
        None
    }
}


/// The value rounded to the nearest multiple of `2^(32 - total_bits)` (ties
/// upward, modulo `2^32`) and shifted down: the `total_bits`-bit integer
/// that signed gadget decomposition splits into digits.
pub open spec fn gadget_state(value: u32, total_bits: nat) -> int {
    let discarded = (32 - total_bits) as nat;
    let rounded = if discarded == 0 {
        value as int
    } else {
        torus(value + pow2((discarded - 1) as nat)) as int
    };
    rounded / (pow2(discarded) as int)
}

/// The chunk of `base_log` bits of `state` at position `offset`, counted
/// from the least significant chunk.
pub open spec fn gadget_chunk(state: int, base_log: nat, offset: nat) -> int {
    (state / (pow2(offset * base_log) as int)) % (pow2(base_log) as int)
}

/// The carry entering chunk `offset`: a chunk plus its incoming carry that
/// reaches half the base is represented by a negative digit and carries one
/// into the next chunk.
pub open spec fn gadget_carry(state: int, base_log: nat, offset: nat) -> int
    decreases offset,
{
    if offset == 0 {
        0
    } else {
        let previous = (offset - 1) as nat;
        let unsigned = gadget_chunk(state, base_log, previous) + gadget_carry(state, base_log, previous);
        if unsigned >= pow2(base_log) / 2 {
            1
        } else {
            0
        }
    }
}

/// The signed digit of chunk `offset`, centered in `[-B/2, B/2)` for
/// `B = 2^base_log`.
pub open spec fn gadget_signed_digit(state: int, base_log: nat, offset: nat) -> int {
    let unsigned = gadget_chunk(state, base_log, offset) + gadget_carry(state, base_log, offset);
    if unsigned >= pow2(base_log) / 2 {
        unsigned - pow2(base_log)
    } else {
        unsigned
    }
}

/// The `level` signed digits of `value` in base `2^base_log`, most
/// significant first.
pub open spec fn gadget_digits(value: u32, base_log: nat, level: nat) -> Seq<i32> {
    Seq::new(
        level,
        |i: int|
            gadget_signed_digit(
                gadget_state(value, base_log * level),
                base_log,
                (level - 1 - i) as nat,
            ) as i32,
    )
}

/// `sum(digits[i] * 2^(32 - (i + 1) * base_log))`: the value that a digit
/// sequence stands for.
pub open spec fn gadget_recompose(digits: Seq<i32>, base_log: nat) -> int
    decreases digits.len(),
{
    if digits.len() == 0 {
        0
    } else {
        gadget_recompose(digits.drop_last(), base_log) + digits.last() * pow2(
            (32 - digits.len() * base_log) as nat,
        )
    }
}

/// `value` rounded to the nearest multiple of `2^(32 - total_bits)`.
pub open spec fn gadget_rounded(value: u32, total_bits: nat) -> u32 {
    torus(gadget_state(value, total_bits) * pow2((32 - total_bits) as nat))
}

/// The digits written below the first `m` chunks, weighted by their
/// position: `sum(digit(o) * 2^(o * base_log))` for `o < m`.
spec fn gadget_partial_sum(state: int, base_log: nat, m: nat) -> int
    decreases m,
{
    if m == 0 {
        0
    } else {
        gadget_partial_sum(state, base_log, (m - 1) as nat) + gadget_signed_digit(
            state,
            base_log,
            (m - 1) as nat,
        ) * pow2(((m - 1) * base_log) as nat)
    }
}

proof fn lemma_gadget_partial_sum(state: int, base_log: nat, m: nat)
    requires
        state >= 0,
        base_log >= 1,
    ensures
        gadget_partial_sum(state, base_log, m) == state % (pow2(m * base_log) as int)
            - gadget_carry(state, base_log, m) * pow2(m * base_log),
        0 <= gadget_carry(state, base_log, m) <= 1,
    decreases m,
{
    if m == 0 {
        lemma2_to64();
        assert(0 * base_log == 0);
        lemma_fundamental_div_mod_converse(state, 1, state, 0);
    } else {
        let p = (m - 1) as nat;
        lemma_gadget_partial_sum(state, base_log, p);
        let pm = pow2(p * base_log) as int;
        let b = pow2(base_log) as int;
        lemma_pow2_pos(p * base_log);
        lemma_pow2_pos(base_log);
        lemma_pow2_adds(p * base_log, base_log);
        assert(p * base_log + base_log == m * base_log) by (nonlinear_arith)
            requires
                p + 1 == m,
        ;
        lemma_mod_breakdown(state, pm, b);
        let raw = gadget_chunk(state, base_log, p);
        let c = gadget_carry(state, base_log, p);
        let c2 = gadget_carry(state, base_log, m);
        let digit = gadget_signed_digit(state, base_log, p);
        assert(digit == raw + c - b * c2);
        assert(digit * pm == raw * pm + c * pm - c2 * (pm * b)) by (nonlinear_arith)
            requires
                digit == raw + c - b * c2,
        ;
        lemma_mul_is_commutative(pm, raw);
    }
}

proof fn lemma_gadget_state_bounds(value: u32, total: nat)
    requires
        total <= 32,
    ensures
        0 <= gadget_state(value, total) < pow2(total),
{
    let discarded = (32 - total) as nat;
    lemma2_to64();
    lemma_pow2_pos(discarded);
    lemma_pow2_adds(discarded, total);
    lemma_torus_bound(value + pow2((discarded - 1) as nat));
    let rounded = if discarded == 0 {
        value as int
    } else {
        torus(value + pow2((discarded - 1) as nat)) as int
    };
    lemma_div_pos_is_pos(rounded, pow2(discarded) as int);
    lemma_multiply_divide_lt(rounded, pow2(discarded) as int, pow2(total) as int);
}

proof fn lemma_gadget_recompose_prefix(value: u32, base_log: nat, level: nat, m: nat)
    requires
        1 <= base_log < 31,
        level >= 1,
        base_log * level <= 32,
        m <= level,
    ensures
        ({
            let digits = gadget_digits(value, base_log, level);
            let state = gadget_state(value, base_log * level);
            let discarded = (32 - base_log * level) as nat;
            gadget_recompose(digits, base_log) == gadget_recompose(
                digits.take(level - m),
                base_log,
            ) + pow2(discarded) * gadget_partial_sum(state, base_log, m)
        }),
    decreases m,
{
    let digits = gadget_digits(value, base_log, level);
    let state = gadget_state(value, base_log * level);
    let discarded = (32 - base_log * level) as nat;
    lemma_gadget_state_bounds(value, base_log * level);
    if m == 0 {
        assert(digits.take(level as int) =~= digits);
        lemma_mul_by_zero_is_zero(pow2(discarded) as int);
    } else {
        let p = (m - 1) as nat;
        lemma_gadget_recompose_prefix(value, base_log, level, p);
        let prefix = digits.take(level - p);
        assert(prefix.drop_last() =~= digits.take(level - m));
        assert(prefix.last() == digits[level - m]);
        assert(level - 1 - (level - m) == p);
        assert((32 - prefix.len() * base_log) == discarded + p * base_log) by (nonlinear_arith)
            requires
                prefix.len() == level - p,
                discarded == 32 - base_log * level,
                base_log * level <= 32,
        ;
        lemma_pow2_adds(discarded, p * base_log);
        let digit = gadget_signed_digit(state, base_log, p);
        assert(prefix.last() == digit as i32);
        lemma_gadget_digit_bounds(state, base_log, p);
        lemma2_to64();
        lemma_pow2_strictly_increases(base_log, 31);
        assert(prefix.last() as int == digit);
        let w = pow2(discarded) as int;
        let v = pow2(p * base_log) as int;
        assert(digit * (w * v) == w * (digit * v)) by (nonlinear_arith);
        lemma_mul_is_distributive_add(
            w,
            gadget_partial_sum(state, base_log, p),
            digit * v,
        );
        assert(gadget_recompose(prefix, base_log) == gadget_recompose(digits.take(level - m), base_log)
            + prefix.last() * pow2((32 - prefix.len() * base_log) as nat));
        assert(pow2((32 - prefix.len() * base_log) as nat) == w * v);
        assert(gadget_partial_sum(state, base_log, m) == gadget_partial_sum(state, base_log, p) + digit * v);
    }
}

proof fn lemma_gadget_digit_bounds(state: int, base_log: nat, offset: nat)
    requires
        state >= 0,
        1 <= base_log < 31,
    ensures
        -(pow2(base_log) / 2) <= gadget_signed_digit(state, base_log, offset) < pow2(base_log) / 2,
{
    lemma_gadget_partial_sum(state, base_log, offset);
    lemma_pow2_pos(base_log);
    lemma_pow2_even(base_log);
    lemma_mod_bound(state / (pow2(offset * base_log) as int), pow2(base_log) as int);
}

/// Signed gadget decomposition: each digit lies in `[-B/2, B/2)` for
/// `B = 2^base_log`, and the digits recompose to the value rounded to its
/// top `base_log * level` bits, modulo `2^32`.
pub proof fn lemma_gadget_decomposition(value: u32, base_log: nat, level: nat)
    requires
        1 <= base_log < 31,
        level >= 1,
        base_log * level <= 32,
    ensures
        forall|i: int|
            0 <= i < level ==> -(pow2(base_log) / 2) <= #[trigger] gadget_digits(value, base_log, level)[i]
                < pow2(base_log) / 2,
        torus(gadget_recompose(gadget_digits(value, base_log, level), base_log)) == gadget_rounded(
            value,
            base_log * level,
        ),
{
    let total = base_log * level;
    let discarded = (32 - total) as nat;
    let state = gadget_state(value, total);
    lemma_gadget_state_bounds(value, total);
    assert forall|i: int| 0 <= i < level implies -(pow2(base_log) / 2) <= #[trigger] gadget_digits(
        value,
        base_log,
        level,
    )[i] < pow2(base_log) / 2 by {
        lemma_gadget_digit_bounds(state, base_log, (level - 1 - i) as nat);
        lemma_pow2_strictly_increases(base_log, 31);
    }
    lemma_gadget_recompose_prefix(value, base_log, level, level);
    assert(gadget_digits(value, base_log, level).take(0) =~= Seq::<i32>::empty());
    lemma_gadget_partial_sum(state, base_log, level);
    // The state has `total` bits, so the partial sum over all chunks is the
    // state minus the final carry times `2^total`.
    lemma2_to64();
    lemma_pow2_adds(discarded, total);
    assert(discarded + total == 32);
    lemma_small_mod(state as nat, pow2(total));
    let c = gadget_carry(state, base_log, level);
    let w = pow2(discarded) as int;
    let t = pow2(total) as int;
    assert(w * (state - c * t) == w * state + (-c) * (w * t)) by (nonlinear_arith);
    lemma_mul_is_commutative(w, state);
    lemma_mod_multiples_vanish(-c, w * state, torus_modulus());
}

/// Splits `value` into `digits.len()` signed digits of `base_log` bits, most
/// significant first, after rounding it to its top `base_log * digits.len()`
/// bits. Fails, leaving `digits` unchanged, unless `0 < base_log < 31`,
/// `digits` is not empty and `base_log * digits.len() <= 32`.
pub fn signed_gadget_decompose_into(value: u32, base_log: usize, digits: &mut [i32]) -> (ok: bool)
    ensures
        ok == (0 < base_log < 31 && old(digits)@.len() > 0 && base_log * old(digits)@.len() <= 32),
        ok ==> final(digits)@ == gadget_digits(value, base_log as nat, old(digits)@.len()),
        !ok ==> final(digits)@ == old(digits)@,
{
    let level = digits.len();
    let product = base_log.checked_mul(level);
    let accepted = match product {
        Some(bits) => base_log > 0 && base_log < 31 && level != 0 && bits <= 32,
        None => false,
    };
    if !accepted {
        return false;
    }
    let total_bits = product.unwrap();
    let ghost b = base_log as nat;
    let ghost state = gadget_state(value, b * (level as nat));
    assert(b * (level as nat) == total_bits as nat);
    let discarded_bits = 32 - total_bits;
    proof {
        lemma2_to64();
        lemma_pow2_pos(discarded_bits as nat);
        if discarded_bits > 0 {
            lemma_u32_shl_is_mul(1, (discarded_bits - 1) as u32);
            lemma_u32_pow2_no_overflow((discarded_bits - 1) as nat);
            lemma_wrapping_ops(value, pow2((discarded_bits - 1) as nat) as u32);
        }
    }
    let rounded = if discarded_bits == 0 {
        value
    } else {
        value.wrapping_add(1u32 << (discarded_bits - 1))
    };
    let state_bits = if discarded_bits == 0 {
        rounded
    } else {
        rounded >> discarded_bits
    };
    proof {
        if discarded_bits > 0 {
            lemma_u32_shr_is_div(rounded, discarded_bits as u32);
            assert(rounded == torus(value + pow2((discarded_bits - 1) as nat)));
        } else {
            assert(pow2(0) == 1);
            assert(value as int / 1 == value as int);
        }
        assert(state_bits == state);
        lemma_u32_shl_is_mul(1, base_log as u32);
        lemma_pow2_strictly_increases(b, 31);
    }
    let base = (1u32 << base_log) as i32;
    let half = base / 2;
    let mask = (base - 1) as u32;
    let mut carry: i32 = 0;
    let mut offset: usize = 0;
    while offset < level
        invariant
            level == digits@.len(),
            level == old(digits)@.len(),
            1 <= b < 31,
            b == base_log,
            b * (level as nat) == total_bits as nat,
            total_bits <= 32,
            base == pow2(b),
            half == pow2(b) / 2,
            mask == pow2(b) - 1,
            state_bits == state,
            state == gadget_state(value, b * (level as nat)),
            state >= 0,
            offset <= level,
            carry == gadget_carry(state, b, offset as nat),
            forall|i: int|
                0 <= i < level - offset ==> #[trigger] digits@[i] == old(digits)@[i],
            forall|i: int|
                level - offset <= i < level ==> #[trigger] digits@[i] == gadget_digits(
                    value,
                    b,
                    level as nat,
                )[i],
        decreases level - offset,
    {
        let index = level - 1 - offset;
        proof {
            assert(offset * b < 32) by (nonlinear_arith)
                requires
                    offset < level,
                    b * level <= 32,
                    b >= 1,
            ;
            lemma_u32_shr_is_div(state_bits, (offset * base_log) as u32);
            lemma_u32_low_bits_mask_is_mod(state_bits >> (offset * base_log) as u32, b);
            lemma_gadget_partial_sum(state, b, offset as nat);
            lemma_mod_bound(state / (pow2(offset as nat * b) as int), pow2(b) as int);
            lemma_pow2_pos(offset as nat * b);
            assert(low_bits_mask(b) == pow2(b) - 1) by {
                lemma_low_bits_mask_values();
                reveal(low_bits_mask);
            }
        }
        let chunk = (state_bits >> (offset * base_log)) & mask;
        assert(chunk == gadget_chunk(state, b, offset as nat));
        let unsigned_digit = chunk as i32 + carry;
        let ghost signed = gadget_signed_digit(state, b, offset as nat);
        assert(unsigned_digit == gadget_chunk(state, b, offset as nat) + gadget_carry(state, b, offset as nat));
        assert((level - 1 - index) as nat == offset as nat);
        assert(gadget_state(value, b * (level as nat)) == state);
        assert(0 <= index < level);
        assert(gadget_digits(value, b, level as nat)[index as int] == gadget_signed_digit(gadget_state(value, b * (level as nat)), b, (level - 1 - index) as nat) as i32);
        assert(gadget_digits(value, b, level as nat)[index as int] == signed as i32);
        if unsigned_digit >= half {
            digits[index] = unsigned_digit - base;
            carry = 1;
        } else {
            digits[index] = unsigned_digit;
            carry = 0;
        }
        assert(digits@[index as int] == gadget_digits(value, b, level as nat)[index as int]);
        offset += 1;
    }
    assert(digits@ =~= gadget_digits(value, b, level as nat));
    true
}

} // verus!
