//! GLWE-level helpers of the blind rotation: elementwise torus sums and
//! differences, the gadget decomposition of a whole GLWE ciphertext, and
//! sample extraction.
use crate::keyswitch::decomposable;
use crate::negacyclic::{as_integers, negacyclic_coefficient, negacyclic_partial, negacyclic_term};
use crate::torus::{
    gadget_digits, gadget_recompose, gadget_rounded, lemma_gadget_decomposition,
    lemma_torus_congruent, lemma_wrapping_ops, signed_gadget_decompose_into, torus, torus_neg,
};
use vstd::arithmetic::power2::pow2;
use vstd::arithmetic::div_mod::*;
use vstd::arithmetic::mul::*;
use vstd::prelude::*;

verus! {

/// Elementwise torus sum.
pub open spec fn torus_add_seq(a: Seq<u32>, b: Seq<u32>) -> Seq<u32> {
    Seq::new(a.len(), |i: int| torus(a[i] + b[i]))
}

/// Elementwise torus difference.
pub open spec fn torus_sub_seq(a: Seq<u32>, b: Seq<u32>) -> Seq<u32> {
    Seq::new(a.len(), |i: int| torus(a[i] - b[i]))
}

/// The decomposed GLWE ciphertext fed to an external product: row
/// `l * columns + c` holds, for every coefficient `j`, digit `l` of
/// coefficient `j` of component `c`, reinterpreted as `u32`.
pub open spec fn glwe_digits_spec(
    difference: Seq<u32>,
    columns: int,
    n: int,
    base_log: nat,
    level: nat,
) -> Seq<u32> {
    Seq::new(
        (level * columns * n) as nat,
        |index: int|
            {
                let row = index / n;
                let j = index % n;
                gadget_digits(difference[(row % columns) * n + j], base_log, level)[row
                    / columns] as u32
            },
    )
}

/// Adds `addend` to `accumulator` elementwise modulo `2^32`.
pub fn add_assign_wrapping(accumulator: &mut [u32], addend: &[u32])
    requires
        old(accumulator)@.len() == addend@.len(),
    ensures
        final(accumulator)@ == torus_add_seq(old(accumulator)@, addend@),
{
    let ghost initial = accumulator@;
    let mut index: usize = 0;
    while index < accumulator.len()
        invariant
            accumulator@.len() == initial.len(),
            initial.len() == addend@.len(),
            index <= accumulator@.len(),
            forall|i: int| 0 <= i < index ==> #[trigger] accumulator@[i] == torus(initial[i] + addend@[i]),
            forall|i: int| index <= i < accumulator@.len() ==> #[trigger] accumulator@[i] == initial[i],
        decreases accumulator@.len() - index,
    {
        proof {
            lemma_wrapping_ops(accumulator@[index as int], addend@[index as int]);
        }
        accumulator[index] = accumulator[index].wrapping_add(addend[index]);
        index += 1;
    }
    assert(accumulator@ =~= torus_add_seq(initial, addend@));
}

/// Where digit `l` of coefficient `j` of component `c` is stored.
pub open spec fn digit_position(l: int, c: int, j: int, columns: int, n: int) -> int {
    (l * columns + c) * n + j
}

proof fn lemma_digit_index(l: int, c: int, j: int, columns: int, n: int, level: int)
    requires
        0 <= l < level,
        0 <= c < columns,
        0 <= j < n,
    ensures
        ({
            let index = (l * columns + c) * n + j;
            &&& 0 <= index < level * columns * n
            &&& index / n == l * columns + c
            &&& index % n == j
            &&& (l * columns + c) / columns == l
            &&& (l * columns + c) % columns == c
        }),
{
    lemma_fundamental_div_mod_converse((l * columns + c) * n + j, n, l * columns + c, j);
    lemma_fundamental_div_mod_converse(l * columns + c, columns, l, c);
    assert(0 <= l * columns + c) by (nonlinear_arith)
        requires
            0 <= l,
            0 <= c < columns,
    ;
    assert(l * columns + c + 1 <= level * columns) by (nonlinear_arith)
        requires
            0 <= l < level,
            0 <= c < columns,
    {
        assert((l + 1) * columns <= level * columns) by (nonlinear_arith)
            requires
                l + 1 <= level,
                0 <= columns,
        ;
    }
    assert(0 <= (l * columns + c) * n + j < level * columns * n) by (nonlinear_arith)
        requires
            0 <= l * columns + c,
            l * columns + c + 1 <= level * columns,
            0 <= j < n,
    {
        assert((l * columns + c) * n + j < (l * columns + c + 1) * n) by (nonlinear_arith)
            requires
                j < n,
        ;
        assert((l * columns + c + 1) * n <= level * columns * n) by (nonlinear_arith)
            requires
                l * columns + c + 1 <= level * columns,
                0 <= j < n,
        ;
        assert(0 <= (l * columns + c) * n) by (nonlinear_arith)
            requires
                0 <= l * columns + c,
                0 <= j < n,
        ;
    }
}

proof fn lemma_digit_index_split(index: int, columns: int, n: int, level: int)
    requires
        0 <= index < level * columns * n,
        columns > 0,
        n > 0,
    ensures
        ({
            let row = index / n;
            let j = index % n;
            let l = row / columns;
            let c = row % columns;
            &&& 0 <= l < level
            &&& 0 <= c < columns
            &&& 0 <= j < n
            &&& index == (l * columns + c) * n + j
        }),
{
    let row = index / n;
    lemma_fundamental_div_mod(index, n);
    lemma_fundamental_div_mod(row, columns);
    lemma_mod_bound(index, n);
    lemma_mod_bound(row, columns);
    lemma_div_pos_is_pos(index, n);
    lemma_div_pos_is_pos(row, columns);
    lemma_mul_is_commutative(n, row);
    lemma_mul_is_commutative(columns, row / columns);
    assert(row < level * columns) by (nonlinear_arith)
        requires
            index == n * row + index % n,
            0 <= index % n,
            index < level * columns * n,
            n > 0,
    {
        if row >= level * columns {
            assert(n * row >= n * (level * columns)) by (nonlinear_arith)
                requires
                    row >= level * columns,
                    n > 0,
            ;
        }
    }
    assert(row / columns < level) by (nonlinear_arith)
        requires
            row == columns * (row / columns) + row % columns,
            0 <= row % columns,
            row < level * columns,
            columns > 0,
    {
        if row / columns >= level {
            assert(columns * (row / columns) >= columns * level) by (nonlinear_arith)
                requires
                    row / columns >= level,
                    columns > 0,
            ;
        }
    }
}

/// Decomposes every coefficient of the GLWE ciphertext `difference`
/// (`columns` polynomials of `n` coefficients) into `level` signed digits of
/// `base_log` bits, writing digit `l` of coefficient `j` of component `c` at
/// `(l * columns + c) * n + j` of `digits`. Fails when the gadget cannot be
/// decomposed.
pub fn decompose_glwe(
    difference: &[u32],
    columns: usize,
    n: usize,
    base_log: usize,
    level: usize,
    decomposition: &mut Vec<i32>,
    digits: &mut Vec<u32>,
) -> (ok: bool)
    requires
        columns >= 1,
        n >= 1,
        difference@.len() == columns * n,
        old(digits)@.len() == level * columns * n,
        old(decomposition)@.len() >= level,
        level * columns * n <= usize::MAX,
    ensures
        final(digits)@.len() == old(digits)@.len(),
        final(decomposition)@.len() == old(decomposition)@.len(),
        ok == decomposable(base_log as nat, level as nat),
        ok ==> final(digits)@ == glwe_digits_spec(
            difference@,
            columns as int,
            n as int,
            base_log as nat,
            level as nat,
        ),
{
    let ghost total = level * columns * n;
    let mut component: usize = 0;
    let accepted = match base_log.checked_mul(level) {
        Some(bits) => level != 0 && base_log != 0 && base_log < 31 && bits <= 32,
        None => false,
    };
    if !accepted {
        return false;
    }
    while component < columns
        invariant
            columns >= 1,
            n >= 1,
            difference@.len() == columns * n,
            digits@.len() == total,
            total == level * columns * n,
            total <= usize::MAX,
            decomposition@.len() == old(decomposition)@.len(),
            decomposition@.len() >= level,
            decomposable(base_log as nat, level as nat),
            component <= columns,
            forall|l: int, c: int, j: int|
                0 <= l < level && 0 <= c < component && 0 <= j < n ==> digits@[#[trigger] digit_position(l, c, j, columns as int, n as int)] == gadget_digits(difference@[c * n + j], base_log as nat, level as nat)[l]
                    as u32,
        decreases columns - component,
    {
        let mut coefficient: usize = 0;
        while coefficient < n
            invariant
                columns >= 1,
                n >= 1,
                difference@.len() == columns * n,
                digits@.len() == total,
                total == level * columns * n,
                total <= usize::MAX,
                decomposition@.len() == old(decomposition)@.len(),
                decomposition@.len() >= level,
                decomposable(base_log as nat, level as nat),
                component < columns,
                coefficient <= n,
                forall|l: int, c: int, j: int|
                    0 <= l < level && 0 <= c < columns && 0 <= j < n && (c < component || (c
                        == component && j < coefficient)) ==> digits@[#[trigger] digit_position(l, c, j, columns as int, n as int)] == gadget_digits(difference@[c * n + j], base_log as nat, level as nat)[l]
                        as u32,
            decreases n - coefficient,
        {
            proof {
                lemma_digit_index(0, component as int, coefficient as int, columns as int, n as int, 1);
                lemma_mul_basics(columns as int);
                lemma_mul_basics(columns * n);
                assert(columns * n <= level * columns * n) by (nonlinear_arith)
                    requires
                        level >= 1,
                        columns >= 1,
                        n >= 1,
                ;
            }
            let value = difference[component * n + coefficient];
            let ghost value_digits = gadget_digits(value, base_log as nat, level as nat);
            let (head, _tail) = decomposition.as_mut_slice().split_at_mut(level);
            let decomposed = signed_gadget_decompose_into(value, base_log, head);
            assert(decomposed);
            let mut current: usize = 0;
            while current < level
                invariant
                    columns >= 1,
                    n >= 1,
                    difference@.len() == columns * n,
                    digits@.len() == total,
                    total == level * columns * n,
                    total <= usize::MAX,
                    level >= 1,
                    component < columns,
                    coefficient < n,
                    current <= level,
                    value == difference@[component * n + coefficient],
                    head@ == value_digits,
                    value_digits == gadget_digits(value, base_log as nat, level as nat),
                    forall|l: int, c: int, j: int|
                        0 <= l < level && 0 <= c < columns && 0 <= j < n && (c < component || (c
                            == component && j < coefficient) || (c == component && j == coefficient
                            && l < current)) ==> digits@[#[trigger] digit_position(l, c, j, columns as int, n as int)]
                            == gadget_digits(difference@[c * n + j], base_log as nat, level as nat)[l]
                            as u32,
                decreases level - current,
            {
                proof {
                    lemma_digit_index(
                        current as int,
                        component as int,
                        coefficient as int,
                        columns as int,
                        n as int,
                        level as int,
                    );
                    assert forall|l: int, c: int, j: int|
                        0 <= l < level && 0 <= c < columns && 0 <= j < n && !(l == current && c
                            == component && j == coefficient) implies #[trigger] digit_position(l, c, j, columns as int, n as int)
                        != digit_position(current as int, component as int, coefficient as int, columns as int, n as int) by {
                        lemma_digit_index(l, c, j, columns as int, n as int, level as int);
                    }
                }
                let row = current * columns + component;
                let digit = head[current];
                let ghost before_set = digits@;
                digits.set(row * n + coefficient, digit as u32);
                assert(digit == gadget_digits(difference@[component * n + coefficient], base_log as nat, level as nat)[current as int]);
                assert(digits@[digit_position(current as int, component as int, coefficient as int, columns as int, n as int)] == digit as u32);
                assert forall|l: int, c: int, j: int|
                    0 <= l < level && 0 <= c < columns && 0 <= j < n && (c < component || (c
                        == component && j < coefficient) || (c == component && j == coefficient
                        && l < current + 1)) implies digits@[#[trigger] digit_position(l, c, j, columns as int, n as int)]
                        == gadget_digits(difference@[c * n + j], base_log as nat, level as nat)[l]
                        as u32 by {
                    if l == current && c == component && j == coefficient {
                        assert(digits@[digit_position(l, c, j, columns as int, n as int)] == digit as u32);
                        assert(c * n + j == component * n + coefficient);
                    } else {
                        lemma_digit_index(l, c, j, columns as int, n as int, level as int);
                        assert(digit_position(l, c, j, columns as int, n as int) != digit_position(current as int, component as int, coefficient as int, columns as int, n as int));
                        assert(digits@[digit_position(l, c, j, columns as int, n as int)] == before_set[digit_position(l, c, j, columns as int, n as int)]);
                        assert(before_set[digit_position(l, c, j, columns as int, n as int)] == gadget_digits(difference@[c * n + j], base_log as nat, level as nat)[l] as u32);
                    }
                }
                current += 1;
            }
            coefficient += 1;
        }
        component += 1;
    }
    proof {
        assert forall|index: int| 0 <= index < total implies #[trigger] digits@[index]
            == glwe_digits_spec(difference@, columns as int, n as int, base_log as nat, level as nat)[index] by {
            lemma_digit_index_split(index, columns as int, n as int, level as int);
            let row = index / (n as int);
            let j = index % (n as int);
            let l = row / (columns as int);
            let c = row % (columns as int);
            assert(digits@[digit_position(l, c, j, columns as int, n as int)] == gadget_digits(
                difference@[c * n + j],
                base_log as nat,
                level as nat,
            )[l] as u32);
        }
        assert(digits@ =~= glwe_digits_spec(
            difference@,
            columns as int,
            n as int,
            base_log as nat,
            level as nat,
        ));
    }
    true
}


/// The LWE ciphertext of coefficient 0 of the GLWE ciphertext `state`
/// (mask polynomials of `n` coefficients followed by the body): mask
/// coefficient `f` of component `f / n` is coefficient 0 of that mask
/// polynomial when `f % n == 0`, and otherwise the negated coefficient
/// `n - f % n` (the negacyclic sign rule); the body is `state[mask_size]`.
pub open spec fn sample_extract_spec(state: Seq<u32>, n: int, mask_size: int) -> Seq<u32> {
    Seq::new(
        (mask_size + 1) as nat,
        |f: int|
            if f == mask_size {
                state[mask_size]
            } else if f % n == 0 {
                state[(f / n) * n]
            } else {
                torus_neg(state[(f / n) * n + n - f % n])
            },
    )
}

/// Extracts the LWE ciphertext of the constant coefficient of a GLWE
/// ciphertext whose mask has `mask_size` coefficients.
pub fn sample_extract(state: &[u32], n: usize, mask_size: usize, output: &mut [u32])
    requires
        n > 0,
        (mask_size as int) % (n as int) == 0,
        state@.len() > mask_size,
        old(output)@.len() == mask_size + 1,
    ensures
        final(output)@ == sample_extract_spec(state@, n as int, mask_size as int),
{
    let mut flat_index: usize = 0;
    while flat_index < mask_size
        invariant
            n > 0,
            (mask_size as int) % (n as int) == 0,
            state@.len() > mask_size,
            output@.len() == mask_size + 1,
            flat_index <= mask_size,
            forall|f: int|
                0 <= f < flat_index ==> #[trigger] output@[f] == sample_extract_spec(
                    state@,
                    n as int,
                    mask_size as int,
                )[f],
        decreases mask_size - flat_index,
    {
        let component = flat_index / n;
        let coefficient = flat_index % n;
        proof {
            lemma_fundamental_div_mod(flat_index as int, n as int);
            lemma_fundamental_div_mod(mask_size as int, n as int);
            lemma_mod_bound(flat_index as int, n as int);
            lemma_div_is_ordered(flat_index as int, mask_size as int, n as int);
            lemma_mul_is_commutative(n as int, component as int);
            lemma_mul_is_commutative(n as int, (mask_size / n) as int);
            if component as int == (mask_size as int) / (n as int) {
                assert(flat_index as int >= mask_size as int);
            }
            assert(component < mask_size / n);
            assert((component + 1) * n <= mask_size) by (nonlinear_arith)
                requires
                    component + 1 <= mask_size / n,
                    mask_size == (mask_size / n) * n,
                    n > 0,
            ;
            assert((component + 1) * n == component * n + n) by (nonlinear_arith);
            lemma_wrapping_ops(0, state@[(component * n + n - coefficient) as int]);
        }
        let value = if coefficient == 0 {
            state[component * n]
        } else {
            0u32.wrapping_sub(state[component * n + n - coefficient])
        };
        output[flat_index] = value;
        flat_index += 1;
    }
    output[mask_size] = state[mask_size];
    assert(output@ =~= sample_extract_spec(state@, n as int, mask_size as int));
}

/// The `level` digits written for coefficient `j` of component `c`, most
/// significant first, read back as signed values.
pub open spec fn digit_column(digits: Seq<u32>, columns: int, n: int, level: nat, c: int, j: int) -> Seq<i32> {
    Seq::new(level, |l: int| digits[(l * columns + c) * n + j] as i32)
}

/// Each coefficient of a GLWE ciphertext is decomposed from its own value:
/// the digits written for coefficient `j` of component `c` lie in
/// `[-B/2, B/2)` and recompose, modulo `2^32`, to that coefficient rounded
/// to its top `base_log * level` bits.
pub proof fn lemma_glwe_digits_recompose(
    difference: Seq<u32>,
    columns: int,
    n: int,
    base_log: nat,
    level: nat,
    c: int,
    j: int,
)
    requires
        decomposable(base_log, level),
        columns >= 1,
        n >= 1,
        difference.len() == columns * n,
        0 <= c < columns,
        0 <= j < n,
    ensures
        forall|l: int|
            0 <= l < level ==> -(pow2(base_log) / 2) <= #[trigger] digit_column(
                glwe_digits_spec(difference, columns, n, base_log, level),
                columns,
                n,
                level,
                c,
                j,
            )[l] < pow2(base_log) / 2,
        torus(
            gadget_recompose(
                digit_column(glwe_digits_spec(difference, columns, n, base_log, level), columns, n, level, c, j),
                base_log,
            ),
        ) == gadget_rounded(difference[c * n + j], base_log * level),
{
    let digits = glwe_digits_spec(difference, columns, n, base_log, level);
    let expected = gadget_digits(difference[c * n + j], base_log, level);
    assert forall|l: int| 0 <= l < level implies #[trigger] digit_column(digits, columns, n, level, c, j)[l]
        == expected[l] by {
        lemma_digit_index(l, c, j, columns, n, level as int);
        let d = expected[l];
        assert((d as u32) as i32 == d) by (bit_vector);
    }
    assert(digit_column(digits, columns, n, level, c, j) =~= expected);
    lemma_gadget_decomposition(difference[c * n + j], base_log, level);
}

/// `sum(ct[start + i] * key[start + i])` for `i < count`.
pub open spec fn lwe_block_product(ct: Seq<u32>, key: Seq<int>, start: int, count: int) -> int
    decreases count,
{
    if count <= 0 {
        0
    } else {
        lwe_block_product(ct, key, start, count - 1) + ct[start + count - 1] * key[start + count - 1]
    }
}

/// The phase of the LWE ciphertext `ct` (a mask of `dimension` words, then
/// the body) under the integer key `key`: `body - <mask, key>` modulo `2^32`.
pub open spec fn lwe_phase(ct: Seq<u32>, key: Seq<int>, dimension: int) -> u32 {
    torus(ct[dimension] - lwe_block_product(ct, key, 0, dimension))
}

/// `sum(S_c * A_c)` at coefficient 0, over the first `components` mask
/// polynomials `A_c` of `state` and key polynomials `S_c` of `key`, each of
/// `n` coefficients, multiplied in `Z[X]/(X^n + 1)`.
pub open spec fn glwe_mask_constant(state: Seq<u32>, key: Seq<int>, n: int, components: int) -> int
    decreases components,
{
    if components <= 0 {
        0
    } else {
        let c = components - 1;
        glwe_mask_constant(state, key, n, c) + negacyclic_coefficient(
            key.subrange(c * n, c * n + n),
            as_integers(state.subrange(c * n, c * n + n)),
            n as nat,
            0,
        )
    }
}

/// Coefficient 0 of the phase `B - sum(S_c * A_c)` of the GLWE ciphertext
/// `state` (`components` mask polynomials, then the body `B`) under the key
/// polynomials in `key`, modulo `2^32`.
pub open spec fn glwe_constant_phase(state: Seq<u32>, key: Seq<int>, n: int, components: int) -> u32 {
    torus(state[components * n] - glwe_mask_constant(state, key, n, components))
}

proof fn lemma_torus_sum_congruent(a: int, b: int, x: int, y: int)
    requires
        torus(a) == torus(b),
        torus(x) == torus(y),
    ensures
        torus(a + x) == torus(b + y),
{
    lemma_torus_congruent(a, x);
    lemma_torus_congruent(b, y);
    lemma_torus_congruent(x, torus(a) as int);
    lemma_torus_congruent(y, torus(b) as int);
}

proof fn lemma_lwe_block_split(ct: Seq<u32>, key: Seq<int>, start: int, count: int)
    requires
        start >= 0,
        count >= 0,
    ensures
        lwe_block_product(ct, key, 0, start + count) == lwe_block_product(ct, key, 0, start)
            + lwe_block_product(ct, key, start, count),
    decreases count,
{
    if count > 0 {
        lemma_lwe_block_split(ct, key, start, count - 1);
    }
}

/// One mask polynomial of the extracted ciphertext against its key
/// polynomial gives coefficient 0 of `S_c * A_c`.
proof fn lemma_extracted_block(state: Seq<u32>, key: Seq<int>, n: int, k: int, c: int, m: int)
    requires
        n >= 1,
        0 <= c < k,
        0 <= m <= n,
        state.len() > k * n,
        key.len() == k * n,
    ensures
        torus(lwe_block_product(sample_extract_spec(state, n, k * n), key, c * n, m)) == torus(
            negacyclic_partial(
                key.subrange(c * n, c * n + n),
                as_integers(state.subrange(c * n, c * n + n)),
                n,
                0,
                m as nat,
            ),
        ),
    decreases m,
{
    if m > 0 {
        lemma_extracted_block(state, key, n, k, c, m - 1);
        let i = m - 1;
        let f = c * n + i;
        let extracted = sample_extract_spec(state, n, k * n);
        let keys = key.subrange(c * n, c * n + n);
        let mask = as_integers(state.subrange(c * n, c * n + n));
        assert(c * n + n <= k * n) by (nonlinear_arith)
            requires
                c + 1 <= k,
                n >= 1,
        ;
        assert(0 <= c * n) by (nonlinear_arith)
            requires
                c >= 0,
                n >= 1,
        ;
        lemma_fundamental_div_mod_converse(f, n, c, i);
        assert(keys[i] == key[f]);
        if i == 0 {
            assert(extracted[f] == state[c * n]);
            assert(mask[0] == state[c * n] as int);
            lemma_mul_is_commutative(keys[0], mask[0]);
            assert(negacyclic_term(keys, mask, n, 0, 0) == extracted[f] * key[f]);
        } else {
            let a = state[c * n + n - i];
            assert(extracted[f] == torus_neg(a));
            assert(mask[n - i] == a as int);
            assert(negacyclic_term(keys, mask, n, i, 0) == -(key[f] * a));
            lemma_torus_congruent(-(a as int), key[f]);
            lemma_mul_is_commutative(key[f], a as int);
            assert(-(key[f] * a) == (-(a as int)) * key[f]) by (nonlinear_arith);
        }
        lemma_torus_sum_congruent(
            lwe_block_product(extracted, key, c * n, m - 1),
            negacyclic_partial(keys, mask, n, 0, (m - 1) as nat),
            extracted[f] * key[f],
            negacyclic_term(keys, mask, n, i, 0),
        );
    }
}

proof fn lemma_extracted_mask(state: Seq<u32>, key: Seq<int>, n: int, k: int, c: int)
    requires
        n >= 1,
        0 <= c <= k,
        state.len() > k * n,
        key.len() == k * n,
    ensures
        torus(lwe_block_product(sample_extract_spec(state, n, k * n), key, 0, c * n)) == torus(
            glwe_mask_constant(state, key, n, c),
        ),
    decreases c,
{
    if c == 0 {
        assert(c * n == 0) by (nonlinear_arith)
            requires
                c == 0,
        ;
    } else {
        let extracted = sample_extract_spec(state, n, k * n);
        lemma_extracted_mask(state, key, n, k, c - 1);
        assert(0 <= (c - 1) * n) by (nonlinear_arith)
            requires
                c >= 1,
                n >= 1,
        ;
        assert((c - 1) * n + n == c * n) by (nonlinear_arith);
        assert(c * n <= k * n) by (nonlinear_arith)
            requires
                c <= k,
                n >= 1,
        ;
        lemma_lwe_block_split(extracted, key, (c - 1) * n, n);
        assert(glwe_mask_constant(state, key, n, c) == glwe_mask_constant(state, key, n, c - 1)
            + negacyclic_partial(
            key.subrange((c - 1) * n, (c - 1) * n + n),
            as_integers(state.subrange((c - 1) * n, (c - 1) * n + n)),
            n,
            0,
            n as nat,
        ));
        lemma_extracted_block(state, key, n, k, c - 1, n);
        lemma_torus_sum_congruent(
            lwe_block_product(extracted, key, 0, (c - 1) * n),
            glwe_mask_constant(state, key, n, c - 1),
            lwe_block_product(extracted, key, (c - 1) * n, n),
            negacyclic_partial(
                key.subrange((c - 1) * n, (c - 1) * n + n),
                as_integers(state.subrange((c - 1) * n, (c - 1) * n + n)),
                n,
                0,
                n as nat,
            ),
        );
        assert(lwe_block_product(extracted, key, 0, c * n) == lwe_block_product(extracted, key, 0, (c - 1) * n)
            + lwe_block_product(extracted, key, (c - 1) * n, n));
    }
}

/// Sample extraction preserves the message: under any key of `k`
/// polynomials of `n` coefficients, flattened, the phase of the extracted
/// LWE ciphertext is coefficient 0 of the phase of the GLWE ciphertext
/// `state`, modulo `2^32`.
pub proof fn lemma_sample_extract_decrypts(state: Seq<u32>, key: Seq<int>, n: int, k: int)
    requires
        n >= 1,
        k >= 0,
        state.len() > k * n,
        key.len() == k * n,
    ensures
        lwe_phase(sample_extract_spec(state, n, k * n), key, k * n) == glwe_constant_phase(
            state,
            key,
            n,
            k,
        ),
{
    let extracted = sample_extract_spec(state, n, k * n);
    assert(0 <= k * n) by (nonlinear_arith)
        requires
            k >= 0,
            n >= 1,
    ;
    lemma_extracted_mask(state, key, n, k, k);
    lemma_torus_congruent(lwe_block_product(extracted, key, 0, k * n), state[k * n] as int);
    lemma_torus_congruent(glwe_mask_constant(state, key, n, k), state[k * n] as int);
}

} // verus!
