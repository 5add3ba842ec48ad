//! Polynomials of `Z_{2^32}[X] / (X^N + 1)`: negacyclic rotation, the
//! reference negacyclic product and the exactness of the 16-bit limb split
//! used by the Fourier backend.
use crate::torus::{lemma_torus_bound, lemma_wrapping_ops, torus, torus_modulus, torus_neg};
use vstd::arithmetic::div_mod::*;
use vstd::arithmetic::mul::*;
use vstd::prelude::*;

verus! {

/// Coefficient `d` of `X^rotation * p`, where `p` is the polynomial of
/// `n` coefficients that starts at `base`: with `k = (d - rotation) mod 2n`,
/// the coefficient is `p[k]` when `k < n` and `-p[k - n]` otherwise
/// (`X^n = -1`).
pub open spec fn rotated_coefficient(p: Seq<u32>, base: int, n: int, rotation: int, d: int) -> u32 {
    let k = (d - rotation) % (2 * n);
    if k < n {
        p[base + k]
    } else {
        torus_neg(p[base + k - n])
    }
}

/// Every `n`-coefficient polynomial of `p` multiplied by `X^rotation`.
pub open spec fn rotate_negacyclic_spec(p: Seq<u32>, n: int, rotation: int) -> Seq<u32> {
    Seq::new(p.len(), |i: int| rotated_coefficient(p, i - i % n, n, rotation, i % n))
}

/// The source coefficient `s` that rotation by `r` (with `0 <= r < 2n`) moves
/// to destination `d`, and the parity of the number of times it wraps.
proof fn lemma_rotation_source(n: int, r: int, d: int)
    requires
        n > 0,
        0 <= r < 2 * n,
        0 <= d < n,
    ensures
        ({
            let k = (d - r) % (2 * n);
            let s = if k < n { k } else { k - n };
            &&& 0 <= k < 2 * n
            &&& 0 <= s < n
            &&& (s + r) % n == d
            &&& ((s + r) / n) % 2 == (if k < n { 0int } else { 1int })
        }),
{
    let m = 2 * n;
    if d - r >= 0 {
        lemma_small_mod((d - r) as nat, m as nat);
        lemma_fundamental_div_mod_converse(d, n, 0, d);
    } else {
        lemma_fundamental_div_mod_converse(d - r, m, -1, d - r + m);
        let k = d - r + m;
        if k < n {
            lemma_fundamental_div_mod_converse(k + r, n, 2, d);
        } else {
            lemma_fundamental_div_mod_converse(k - n + r, n, 1, d);
        }
    }
}

spec fn rotation_destination(t: int, r: int, n: int) -> int {
    (t + r) % n
}

/// Distinct sources inside one polynomial land on distinct destinations.
proof fn lemma_rotation_injective(n: int, r: int, t: int, s: int)
    requires
        n > 0,
        0 <= r,
        0 <= t < s < n,
    ensures
        (t + r) % n != (s + r) % n,
{
    lemma_fundamental_div_mod(t + r, n);
    lemma_fundamental_div_mod(s + r, n);
    let q1 = (s + r) / n;
    let q2 = (t + r) / n;
    if (t + r) % n == (s + r) % n {
        assert(s - t == n * q1 - n * q2);
        assert(n * q1 - n * q2 == n * (q1 - q2)) by (nonlinear_arith);
        assert(false) by (nonlinear_arith)
            requires
                s - t == n * (q1 - q2),
                0 < s - t < n,
        ;
    }
}

proof fn lemma_index_in_component(c: int, n: int, d: int)
    requires
        n > 0,
        c >= 0,
        0 <= d < n,
    ensures
        (c * n + d) % n == d,
        (c * n + d) - (c * n + d) % n == c * n,
{
    lemma_fundamental_div_mod_converse(c * n + d, n, c, d);
}

/// Multiplies every polynomial of `input` (consecutive blocks of
/// `polynomial_size` coefficients) by `X^rotation` in `Z_{2^32}[X]/(X^N + 1)`.
/// Fails, leaving `output` unchanged, when the size is zero, the buffers
/// differ in length, or the length is not a multiple of the size.
/// (A slice of `u32` spans at most `isize::MAX` bytes, hence the bound on
/// its length.)
pub fn rotate_negacyclic(input: &[u32], polynomial_size: usize, rotation: i64, output: &mut [u32]) -> (ok: bool)
    requires
        input@.len() <= usize::MAX / 8,
    ensures
        ok == (polynomial_size != 0 && input@.len() == old(output)@.len() && (input@.len() as int)
            % polynomial_size as int == 0),
        ok ==> final(output)@ == rotate_negacyclic_spec(input@, polynomial_size as int, rotation as int),
        !ok ==> final(output)@ == old(output)@,
{
    if polynomial_size == 0 || input.len() != output.len() || input.len() % polynomial_size != 0 {
        return false;
    }
    let ghost n = polynomial_size as int;
    if input.len() == 0 {
        assert(output@ =~= rotate_negacyclic_spec(input@, n, rotation as int));
        return true;
    }
    proof {
        let len = input@.len() as int;
        lemma_fundamental_div_mod(len, n);
        let q = len / n;
        assert(n <= len) by (nonlinear_arith)
            requires
                len == n * q,
                len > 0,
                n > 0,
        {
            if q <= 0 {
                assert(n * q <= 0);
            }
        }
        lemma_mul_is_commutative(n, q);
    }
    let period = 2 * polynomial_size;
    let normalized = rotation.checked_rem_euclid(period as i64).unwrap() as usize;
    let ghost r = normalized as int;
    assert(r == (rotation as int) % (2 * n));
    let components = input.len() / polynomial_size;
    let mut component: usize = 0;
    while component < components
        invariant
            n == polynomial_size as int,
            n > 0,
            3 * n <= usize::MAX,
            0 <= r < 2 * n,
            r == (rotation as int) % (2 * n),
            normalized == r,
            components * n == input@.len(),
            input@.len() <= usize::MAX / 8,
            components == (input@.len() as int) / n,
            output@.len() == input@.len(),
            component <= components,
            forall|i: int|
                0 <= i < component * n ==> output@[i] == #[trigger] rotate_negacyclic_spec(
                    input@,
                    n,
                    rotation as int,
                )[i],
        decreases components - component,
    {
        proof {
            lemma_mul_is_distributive_add_other_way(n, component as int, 1);
            lemma_mul_inequality(component as int + 1, components as int, n);
            assert((component as int + 1) * n == component * n + n);
        }
        let offset = component * polynomial_size;
        let mut source: usize = 0;
        while source < polynomial_size
            invariant
                n == polynomial_size as int,
                n > 0,
                3 * n <= usize::MAX,
                0 <= r < 2 * n,
                normalized == r,
                offset == component * n,
                offset + n <= input@.len(),
                input@.len() <= usize::MAX / 8,
                output@.len() == input@.len(),
                source <= polynomial_size,
                forall|i: int|
                    0 <= i < offset ==> output@[i] == #[trigger] rotate_negacyclic_spec(
                        input@,
                        n,
                        rotation as int,
                    )[i],
                forall|t: int|
                    0 <= t < source ==> output@[offset + #[trigger] rotation_destination(t, r, n)] == (if ((t + r) / n) % 2 == 0 {
                        input@[offset + t]
                    } else {
                        torus_neg(input@[offset + t])
                    }),
            decreases polynomial_size - source,
        {
            let exponent = source + normalized;
            let wraps = exponent / polynomial_size;
            let destination = exponent % polynomial_size;
            proof {
                lemma_mod_bound(exponent as int, n);
                assert(wraps & 1 == 0 <==> wraps % 2 == 0) by (bit_vector);
                assert forall|t: int| 0 <= t < source implies #[trigger] rotation_destination(t, r, n) != (source + r) % n by {
                    lemma_rotation_injective(n, r, t, source as int);
                }
                lemma_wrapping_ops(0, input@[offset + source]);
            }
            let coefficient = input[offset + source];
            let value = if wraps & 1 == 0 {
                coefficient
            } else {
                0u32.wrapping_sub(coefficient)
            };
            output[offset + destination] = value;
            source += 1;
        }
        proof {
            assert forall|i: int| 0 <= i < (component + 1) * n implies output@[i]
                == #[trigger] rotate_negacyclic_spec(input@, n, rotation as int)[i] by {
                if i >= offset {
                    let d = i - offset;
                    lemma_rotation_source(n, r, d);
                    let k = (d - r) % (2 * n);
                    let s = if k < n { k } else { k - n };
                    assert(output@[offset + rotation_destination(s, r, n)] == (if ((s + r) / n) % 2 == 0 {
                        input@[offset + s]
                    } else {
                        torus_neg(input@[offset + s])
                    }));
                    lemma_index_in_component(component as int, n, d);
                    lemma_sub_mod_noop(d, rotation as int, 2 * n);
                    lemma_small_mod(d as nat, (2 * n) as nat);
                    lemma_mod_twice(rotation as int, 2 * n);
                    lemma_sub_mod_noop(d, r, 2 * n);
                }
            }
        }
        component += 1;
    }
    true
}


/// Coefficient `x` of the polynomial at `base`, extended to every integer
/// exponent by `X^n = -1`: the exponent is taken modulo `2n`, and exponents
/// in `[n, 2n)` stand for negated coefficients.
pub open spec fn extended_coefficient(p: Seq<u32>, base: int, n: int, x: int) -> u32 {
    let k = x % (2 * n);
    if k < n {
        p[base + k]
    } else {
        torus_neg(p[base + k - n])
    }
}

proof fn lemma_torus_neg_neg(x: u32)
    ensures
        torus_neg(torus_neg(x)) == x,
{
    lemma_torus_bound(-x);
    lemma_torus_bound(-(torus(-x) as int));
    lemma_sub_mod_noop(0, -x, torus_modulus());
    lemma_small_mod(x as nat, torus_modulus() as nat);
    lemma_mod_twice(-x, torus_modulus());
    lemma_sub_mod_noop(0, (-x) % torus_modulus(), torus_modulus());
}

/// Shifting the exponent by `n` negates the extended coefficient.
proof fn lemma_extended_half_turn(p: Seq<u32>, base: int, n: int, y: int)
    requires
        n > 0,
        0 <= base,
        base + n <= p.len(),
    ensures
        extended_coefficient(p, base, n, y) == torus_neg(extended_coefficient(p, base, n, y - n)),
{
    let m = 2 * n;
    let z = y % m;
    lemma_mod_bound(y, m);
    lemma_fundamental_div_mod(y, m);
    if z >= n {
        lemma_fundamental_div_mod_converse(y - n, m, y / m, z - n);
        lemma_torus_neg_neg(p[base + z - n]);
    } else {
        let q = y / m;
        assert((q - 1) * m == q * m - m) by (nonlinear_arith);
        lemma_mul_is_commutative(q, m);
        lemma_fundamental_div_mod_converse(y - n, m, q - 1, z + n);
    }
}

proof fn lemma_extended_of_rotation(p: Seq<u32>, n: int, r: int, c: int, x: int)
    requires
        n > 0,
        0 <= c,
        (c + 1) * n <= p.len(),
    ensures
        extended_coefficient(rotate_negacyclic_spec(p, n, r), c * n, n, x) == extended_coefficient(
            p,
            c * n,
            n,
            x - r,
        ),
{
    let m = 2 * n;
    let k = x % m;
    let base = c * n;
    lemma_mod_bound(x, m);
    assert((c + 1) * n == c * n + n) by (nonlinear_arith);
    assert(0 <= c * n) by (nonlinear_arith)
        requires
            0 <= c,
            n > 0,
    ;
    lemma_sub_mod_noop(x, r, m);
    lemma_mod_twice(x, m);
    lemma_sub_mod_noop(k, r, m);
    if k < n {
        lemma_index_in_component(c, n, k);
    } else {
        lemma_index_in_component(c, n, k - n);
        lemma_extended_half_turn(p, base, n, k - r);
        lemma_sub_mod_noop(k - n, r, m);
        lemma_mod_twice(k - n, m);
    }
}

/// Negacyclic rotations compose: multiplying by `X^a` and then by `X^b` is
/// multiplying by `X^(a + b)`.
pub proof fn lemma_rotation_composes(p: Seq<u32>, n: int, a: int, b: int)
    requires
        n > 0,
        (p.len() as int) % n == 0,
    ensures
        rotate_negacyclic_spec(rotate_negacyclic_spec(p, n, a), n, b) == rotate_negacyclic_spec(
            p,
            n,
            a + b,
        ),
{
    let inner = rotate_negacyclic_spec(p, n, a);
    assert forall|i: int| 0 <= i < p.len() implies #[trigger] rotate_negacyclic_spec(inner, n, b)[i]
        == rotate_negacyclic_spec(p, n, a + b)[i] by {
        let d = i % n;
        let c = i / n;
        lemma_fundamental_div_mod(i, n);
        lemma_mod_bound(i, n);
        lemma_div_pos_is_pos(i, n);
        lemma_fundamental_div_mod(p.len() as int, n);
        assert((c + 1) * n <= p.len()) by (nonlinear_arith)
            requires
                i == n * c + d,
                0 <= d < n,
                i < p.len(),
                p.len() == n * ((p.len() as int) / n),
                n > 0,
        {
            if c + 1 > (p.len() as int) / n {
                assert(n * c >= n * ((p.len() as int) / n)) by (nonlinear_arith)
                    requires
                        c >= (p.len() as int) / n,
                        n > 0,
                ;
            }
        }
        lemma_mul_is_commutative(n, c);
        assert(i - i % n == c * n);
        lemma_extended_of_rotation(p, n, a, c, d - b);
        assert(d - b - a == d - (a + b));
    }
    assert(rotate_negacyclic_spec(inner, n, b) =~= rotate_negacyclic_spec(p, n, a + b));
}

/// Rotating by `0` or by `2n` leaves every polynomial unchanged.
pub proof fn lemma_rotation_full_turn(p: Seq<u32>, n: int)
    requires
        n > 0,
    ensures
        rotate_negacyclic_spec(p, n, 0) == p,
        rotate_negacyclic_spec(p, n, 2 * n) == p,
{
    assert forall|i: int| 0 <= i < p.len() implies #[trigger] rotate_negacyclic_spec(p, n, 0)[i] == p[i]
        && rotate_negacyclic_spec(p, n, 2 * n)[i] == p[i] by {
        let d = i % n;
        lemma_mod_bound(i, n);
        lemma_small_mod(d as nat, (2 * n) as nat);
        lemma_fundamental_div_mod_converse(d - 2 * n, 2 * n, -1, d);
    }
    assert(rotate_negacyclic_spec(p, n, 0) =~= p);
    assert(rotate_negacyclic_spec(p, n, 2 * n) =~= p);
}

/// Rotating by `n` negates every coefficient: `X^n = -1`.
pub proof fn lemma_rotation_half_turn(p: Seq<u32>, n: int)
    requires
        n > 0,
    ensures
        rotate_negacyclic_spec(p, n, n) == Seq::new(p.len(), |i: int| torus_neg(p[i])),
{
    assert forall|i: int| 0 <= i < p.len() implies #[trigger] rotate_negacyclic_spec(p, n, n)[i]
        == torus_neg(p[i]) by {
        let d = i % n;
        lemma_mod_bound(i, n);
        lemma_fundamental_div_mod_converse(d - n, 2 * n, -1, d + n);
    }
    assert(rotate_negacyclic_spec(p, n, n) =~= Seq::new(p.len(), |i: int| torus_neg(p[i])));
}

/// Term `i` of coefficient `k` of the negacyclic product `a * b` in
/// `Z[X]/(X^n + 1)`: `a[i] * b[k - i]`, negated when the exponent wraps.
pub open spec fn negacyclic_term(a: Seq<int>, b: Seq<int>, n: int, i: int, k: int) -> int {
    if i <= k {
        a[i] * b[k - i]
    } else {
        -(a[i] * b[k - i + n])
    }
}

/// The sum of the first `count` terms of coefficient `k`.
pub open spec fn negacyclic_partial(a: Seq<int>, b: Seq<int>, n: int, k: int, count: nat) -> int
    decreases count,
{
    if count == 0 {
        0
    } else {
        negacyclic_partial(a, b, n, k, (count - 1) as nat) + negacyclic_term(a, b, n, count - 1, k)
    }
}

/// Coefficient `k` of the negacyclic product of two polynomials of `n`
/// integer coefficients:
/// `sum(i <= k, a[i] * b[k-i]) - sum(i > k, a[i] * b[k-i+n])`.
pub open spec fn negacyclic_coefficient(a: Seq<int>, b: Seq<int>, n: nat, k: int) -> int {
    negacyclic_partial(a, b, n as int, k, n)
}

/// The integer values of torus coefficients.
pub open spec fn as_integers(p: Seq<u32>) -> Seq<int> {
    p.map_values(|x: u32| x as int)
}

/// Which 16-bit half of a coefficient an FFT convolution works on.
#[derive(Clone, Copy)]
pub enum Limb {
    Low,
    High,
}

/// The 16-bit limb of a value.
pub open spec fn limb_spec(value: u32, half: Limb) -> int {
    match half {
        Limb::Low => (value as int) % 0x1_0000,
        Limb::High => (value as int) / 0x1_0000,
    }
}

/// The limb of every coefficient of a polynomial.
pub open spec fn limbs_of(p: Seq<u32>, half: Limb) -> Seq<int> {
    p.map_values(|x: u32| limb_spec(x, half))
}

/// The low or high 16 bits of a coefficient; the FFT convolves these
/// limbs so that every rounded sum stays exact.
pub fn limb(value: u32, half: Limb) -> (part: u32)
    ensures
        part == limb_spec(value, half),
        part < 0x1_0000,
{
    match half {
        Limb::Low => {
            assert(value & 0xffff == value % 0x1_0000) by (bit_vector);
            value & 0xffff
        },
        Limb::High => {
            assert(value >> 16 == value / 0x1_0000) by (bit_vector);
            value >> 16
        },
    }
}

/// Reassembles a torus coefficient from the three limb convolutions
/// `low*low`, `low*high` and `high*low`:
/// `low_low + 2^16 * (low_high + high_low)` modulo `2^32` (the
/// `high*high` product is a multiple of `2^32`).
pub fn recombine_limbs(low_low: i64, low_high: i64, high_low: i64) -> (value: u32)
    ensures
        value == torus(low_low + 0x1_0000 * (low_high + high_low)),
{
    let wide = low_low as i128 + (low_high as i128 + high_low as i128) * 0x1_0000;
    proof {
        assert((wide as u32) as int == (wide as int) % 0x1_0000_0000) by (bit_vector);
    }
    wide as u32
}

proof fn lemma_term_split(a1: int, a2: int, b1: int, b2: int, s: int)
    ensures
        (a1 + s * a2) * (b1 + s * b2) == a1 * b1 + s * (a1 * b2 + a2 * b1) + s * s * (a2 * b2),
{
    let x = b1 + s * b2;
    lemma_mul_is_distributive_add_other_way(x, a1, s * a2);
    lemma_mul_is_distributive_add(a1, b1, s * b2);
    lemma_mul_is_distributive_add(s * a2, b1, s * b2);
    assert(a1 * (s * b2) == s * (a1 * b2)) by (nonlinear_arith);
    assert((s * a2) * b1 == s * (a2 * b1)) by (nonlinear_arith);
    assert((s * a2) * (s * b2) == s * s * (a2 * b2)) by (nonlinear_arith);
    lemma_mul_is_distributive_add(s, a1 * b2, a2 * b1);
}

/// Bilinearity of the partial negacyclic sums over a split of both operands
/// as `x = x1 + s * x2`.
proof fn lemma_negacyclic_partial_split(
    a: Seq<int>,
    a1: Seq<int>,
    a2: Seq<int>,
    b: Seq<int>,
    b1: Seq<int>,
    b2: Seq<int>,
    s: int,
    n: int,
    k: int,
    count: nat,
)
    requires
        0 <= k < n,
        count <= n,
        a.len() == n && a1.len() == n && a2.len() == n,
        b.len() == n && b1.len() == n && b2.len() == n,
        forall|i: int| 0 <= i < n ==> #[trigger] a[i] == a1[i] + s * a2[i],
        forall|i: int| 0 <= i < n ==> #[trigger] b[i] == b1[i] + s * b2[i],
    ensures
        negacyclic_partial(a, b, n, k, count) == negacyclic_partial(a1, b1, n, k, count) + s * (
        negacyclic_partial(a1, b2, n, k, count) + negacyclic_partial(a2, b1, n, k, count)) + s * s
            * negacyclic_partial(a2, b2, n, k, count),
    decreases count,
{
    if count == 0 {
        lemma_mul_basics(s);
        lemma_mul_basics(s * s);
    } else {
        let c = (count - 1) as nat;
        lemma_negacyclic_partial_split(a, a1, a2, b, b1, b2, s, n, k, c);
        let i = count - 1;
        let j = if i <= k {
            k - i
        } else {
            k - i + n
        };
        assert(0 <= j < n);
        lemma_term_split(a1[i], a2[i], b1[j], b2[j], s);
        let p1 = negacyclic_partial(a1, b1, n, k, c);
        let p2 = negacyclic_partial(a1, b2, n, k, c);
        let p3 = negacyclic_partial(a2, b1, n, k, c);
        let p4 = negacyclic_partial(a2, b2, n, k, c);
        let t1 = negacyclic_term(a1, b1, n, i, k);
        let t2 = negacyclic_term(a1, b2, n, i, k);
        let t3 = negacyclic_term(a2, b1, n, i, k);
        let t4 = negacyclic_term(a2, b2, n, i, k);
        assert(negacyclic_term(a, b, n, i, k) == t1 + s * (t2 + t3) + s * s * t4) by {
            if i <= k {
            } else {
                lemma_mul_unary_negation(s, a1[i] * b2[j] + a2[i] * b1[j]);
                lemma_mul_unary_negation(s * s, a2[i] * b2[j]);
                lemma_mul_is_distributive_add(s, -(a1[i] * b2[j]), -(a2[i] * b1[j]));
                lemma_mul_is_distributive_add(s, a1[i] * b2[j], a2[i] * b1[j]);
            }
        }
        lemma_mul_is_distributive_add(s, p2 + p3, t2 + t3);
        lemma_mul_is_distributive_add(s * s, p4, t4);
        assert(negacyclic_partial(a1, b1, n, k, count) == p1 + t1);
        assert(negacyclic_partial(a1, b2, n, k, count) == p2 + t2);
        assert(negacyclic_partial(a2, b1, n, k, count) == p3 + t3);
        assert(negacyclic_partial(a2, b2, n, k, count) == p4 + t4);
        assert(negacyclic_partial(a, b, n, k, count) == negacyclic_partial(a, b, n, k, c) + negacyclic_term(a, b, n, i, k));
        assert((p2 + t2) + (p3 + t3) == (p2 + p3) + (t2 + t3));
        assert(s * ((p2 + t2) + (p3 + t3)) == s * (p2 + p3) + s * (t2 + t3));
        assert(negacyclic_partial(a, b, n, k, c) == p1 + s * (p2 + p3) + s * s * p4);
    }
}

/// Exactness of the 16-bit limb split: modulo `2^32`, the negacyclic product
/// of two torus polynomials is `low*low + 2^16 * (low*high + high*low)`,
/// the convolutions being taken over the integer limbs.
pub proof fn lemma_limb_recombination(a: Seq<u32>, b: Seq<u32>, k: int)
    requires
        a.len() == b.len(),
        0 <= k < a.len(),
    ensures
        torus(
            negacyclic_coefficient(limbs_of(a, Limb::Low), limbs_of(b, Limb::Low), a.len(), k)
                + 0x1_0000 * (negacyclic_coefficient(
                limbs_of(a, Limb::Low),
                limbs_of(b, Limb::High),
                a.len(),
                k,
            ) + negacyclic_coefficient(limbs_of(a, Limb::High), limbs_of(b, Limb::Low), a.len(), k)),
        ) == torus(negacyclic_coefficient(as_integers(a), as_integers(b), a.len(), k)),
{
    let n = a.len() as int;
    let s: int = 0x1_0000;
    assert forall|i: int| 0 <= i < n implies #[trigger] as_integers(a)[i] == limbs_of(a, Limb::Low)[i]
        + s * limbs_of(a, Limb::High)[i] by {
        lemma_fundamental_div_mod(a[i] as int, s);
    }
    assert forall|i: int| 0 <= i < n implies #[trigger] as_integers(b)[i] == limbs_of(b, Limb::Low)[i]
        + s * limbs_of(b, Limb::High)[i] by {
        lemma_fundamental_div_mod(b[i] as int, s);
    }
    lemma_negacyclic_partial_split(
        as_integers(a),
        limbs_of(a, Limb::Low),
        limbs_of(a, Limb::High),
        as_integers(b),
        limbs_of(b, Limb::Low),
        limbs_of(b, Limb::High),
        s,
        n,
        k,
        a.len(),
    );
    let low = negacyclic_coefficient(limbs_of(a, Limb::Low), limbs_of(b, Limb::Low), a.len(), k)
        + s * (negacyclic_coefficient(limbs_of(a, Limb::Low), limbs_of(b, Limb::High), a.len(), k)
        + negacyclic_coefficient(limbs_of(a, Limb::High), limbs_of(b, Limb::Low), a.len(), k));
    let high = negacyclic_coefficient(limbs_of(a, Limb::High), limbs_of(b, Limb::High), a.len(), k);
    assert(s * s == torus_modulus());
    lemma_mod_multiples_vanish(high, low, torus_modulus());
    lemma_mul_is_commutative(high, torus_modulus());
}

} // verus!
