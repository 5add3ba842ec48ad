//! LWE key switching with a signed gadget decomposition of every mask
//! coefficient.
use crate::torus::{
    gadget_digits, lemma_torus_bound, lemma_torus_congruent, lemma_torus_of_u32,
    lemma_wrapping_ops, signed_gadget_decompose_into, torus, torus_modulus,
};
use vstd::arithmetic::div_mod::*;
use vstd::arithmetic::mul::*;
use vstd::prelude::*;

verus! {

/// Whether a gadget of `level` digits of `base_log` bits can be decomposed.
pub open spec fn decomposable(base_log: nat, level: nat) -> bool {
    0 < base_log < 31 && level > 0 && base_log * level <= 32
}

/// The contribution of key-switching row `row` (mask coefficient
/// `row / level`, gadget level `row % level`) to output word `word`:
/// the row's word times the signed digit of the mask coefficient.
pub open spec fn key_switch_term(
    ksk: Seq<u32>,
    input: Seq<u32>,
    base_log: nat,
    level: nat,
    width: nat,
    row: nat,
    word: int,
) -> int {
    ksk[row * width + word] * gadget_digits(input[(row / level) as int], base_log, level)[(row
        % level) as int]
}

/// The sum of the contributions of the first `rows` rows to `word`.
pub open spec fn key_switch_sum(
    ksk: Seq<u32>,
    input: Seq<u32>,
    base_log: nat,
    level: nat,
    width: nat,
    rows: nat,
    word: int,
) -> int
    decreases rows,
{
    if rows == 0 {
        0
    } else {
        key_switch_sum(ksk, input, base_log, level, width, (rows - 1) as nat, word) + key_switch_term(
            ksk,
            input,
            base_log,
            level,
            width,
            (rows - 1) as nat,
            word,
        )
    }
}

/// The key-switched ciphertext: the body of `input` minus the sum, over
/// every mask coefficient `i` and gadget level `l`, of row `i * level + l`
/// of the key-switching key times digit `l` of `input[i]`, modulo `2^32`.
pub open spec fn key_switch_spec(
    ksk: Seq<u32>,
    input: Seq<u32>,
    input_dimension: nat,
    output_dimension: nat,
    base_log: nat,
    level: nat,
) -> Seq<u32> {
    Seq::new(
        output_dimension + 1,
        |word: int|
            torus(
                (if word == output_dimension {
                    input[input_dimension as int] as int
                } else {
                    0
                }) - key_switch_sum(
                    ksk,
                    input,
                    base_log,
                    level,
                    output_dimension + 1,
                    input_dimension * level,
                    word,
                ),
            ),
    )
}

proof fn lemma_row_bounds(i: int, l: int, level: int, width: int, word: int, dimension: int)
    requires
        0 <= i < dimension,
        0 <= l < level,
        0 <= word < width,
    ensures
        (i * level + l) / level == i,
        (i * level + l) % level == l,
        0 <= (i * level + l) * width + word < dimension * level * width,
        (i * level + l) * width + word + 1 <= dimension * level * width,
        0 <= i * level,
        i * level + l + 1 <= dimension * level,
        dimension * level <= dimension * level * width,
{
    assert(0 <= i * level) by (nonlinear_arith)
        requires
            0 <= i,
            0 <= l < level,
    ;
    assert(dimension * level <= dimension * level * width) by (nonlinear_arith)
        requires
            0 <= i < dimension,
            0 <= l < level,
            1 <= width,
    ;
    assert(i * level + l + 1 <= dimension * level) by (nonlinear_arith)
        requires
            0 <= i < dimension,
            0 <= l < level,
    {
        assert((i + 1) * level <= dimension * level) by (nonlinear_arith)
            requires
                i + 1 <= dimension,
                0 <= level,
        ;
    }
    lemma_fundamental_div_mod_converse(i * level + l, level, i, l);
    assert(0 <= (i * level + l) * width + word) by (nonlinear_arith)
        requires
            0 <= i,
            0 <= l,
            0 <= word,
            0 <= width,
            0 <= level,
    ;
    assert((i * level + l) * width + word + 1 <= dimension * level * width) by (nonlinear_arith)
        requires
            0 <= i < dimension,
            0 <= l < level,
            0 <= word < width,
    {
        assert(i * level + l + 1 <= dimension * level) by (nonlinear_arith)
            requires
                0 <= i < dimension,
                0 <= l < level,
        {
            assert((i + 1) * level <= dimension * level) by (nonlinear_arith)
                requires
                    i + 1 <= dimension,
                    0 <= level,
            ;
        }
        assert((i * level + l) * width + word + 1 <= (i * level + l + 1) * width) by (nonlinear_arith)
            requires
                word + 1 <= width,
        ;
        assert((i * level + l + 1) * width <= dimension * level * width) by (nonlinear_arith)
            requires
                i * level + l + 1 <= dimension * level,
                0 <= word < width,
        ;
    }
}

/// Subtracting `key_word * digit` from a torus word, with the digit
/// reinterpreted as `u32`, subtracts the signed product modulo `2^32`.
proof fn lemma_subtract_scaled_digit(previous: u32, base_value: int, key_word: u32, digit: i32)
    requires
        previous == torus(base_value),
    ensures
        previous.wrapping_sub(key_word.wrapping_mul(digit as u32)) == torus(base_value - key_word * digit),
        digit == 0 ==> previous == torus(base_value - key_word * digit),
{
    assert((digit as u32) as int == (if digit < 0 {
        digit + 0x1_0000_0000
    } else {
        digit as int
    })) by (bit_vector);
    lemma_wrapping_ops(key_word, digit as u32);
    let product = key_word.wrapping_mul(digit as u32);
    lemma_wrapping_ops(previous, product);
    let extra: int = if digit < 0 {
        key_word as int
    } else {
        0
    };
    assert(key_word * (digit as u32) == key_word * digit + extra * torus_modulus()) by (nonlinear_arith)
        requires
            (digit as u32) as int == (if digit < 0 {
                digit + torus_modulus()
            } else {
                digit as int
            }),
            extra == (if digit < 0 {
                key_word as int
            } else {
                0
            }),
    ;
    lemma_mod_multiples_vanish(extra, key_word * digit, torus_modulus());
    // product == torus(key_word * digit)
    lemma_torus_bound(key_word * digit);
    lemma_torus_bound(key_word * (digit as u32));
    // previous - product == base_value - key_word * digit (mod 2^32)
    lemma_torus_bound(base_value);
    lemma_torus_bound(base_value - key_word * digit);
    lemma_sub_mod_noop(base_value, key_word * digit, torus_modulus());
    lemma_torus_bound(previous - product);
    lemma_sub_mod_noop(previous as int, product as int, torus_modulus());
    lemma_small_mod(previous as nat, torus_modulus() as nat);
    lemma_small_mod(product as nat, torus_modulus() as nat);
    lemma_mod_twice(base_value, torus_modulus());
    lemma_mod_twice(key_word * digit, torus_modulus());
    if digit == 0 {
        lemma_mul_by_zero_is_zero(key_word as int);
    }
}

/// Switches the LWE ciphertext `input` (`input_dimension` mask coefficients
/// and a body) to the key of `ksk`, writing the `output_dimension + 1`
/// words into `output`; `digits` is workspace for the gadget digits.
/// Fails when `input` has the wrong length or, when there is a mask
/// coefficient to decompose, when the gadget cannot be decomposed.
pub fn key_switch(
    ksk: &[u32],
    input: &[u32],
    input_dimension: usize,
    output_dimension: usize,
    base_log: usize,
    level: usize,
    digits: &mut Vec<i32>,
    output: &mut Vec<u32>,
) -> (ok: bool)
    requires
        input_dimension < usize::MAX,
        output_dimension < usize::MAX,
        old(output)@.len() == output_dimension + 1,
        old(digits)@.len() >= level,
        ksk@.len() == input_dimension * level * (output_dimension + 1),
    ensures
        ok == (input@.len() == input_dimension + 1 && (input_dimension == 0 || decomposable(
            base_log as nat,
            level as nat,
        ))),
        ok ==> final(output)@ == key_switch_spec(
            ksk@,
            input@,
            input_dimension as nat,
            output_dimension as nat,
            base_log as nat,
            level as nat,
        ),
        input@.len() != input_dimension + 1 ==> final(output)@ == old(output)@,
        final(output)@.len() == old(output)@.len(),
        final(digits)@.len() == old(digits)@.len(),
{
    if input.len() != input_dimension + 1 {
        return false;
    }
    let width = output_dimension + 1;
    let ksk_len = ksk.len();
    let ghost w = width as nat;
    let ghost spec_level = level as nat;
    let ghost spec_base = base_log as nat;
    let mut word: usize = 0;
    while word < width
        invariant
            width == output_dimension + 1,
            output@.len() == width,
            word <= width,
            forall|v: int| 0 <= v < word ==> #[trigger] output@[v] == 0u32,
        decreases width - word,
    {
        output[word] = 0;
        word += 1;
    }
    output[output_dimension] = input[input_dimension];
    proof {
        assert forall|v: int| 0 <= v < width implies #[trigger] output@[v] == torus(
            (if v == output_dimension {
                input@[input_dimension as int] as int
            } else {
                0
            }) - key_switch_sum(ksk@, input@, spec_base, spec_level, w, (0 * spec_level) as nat, v),
        ) by {
            lemma_torus_of_u32(output@[v]);
        }
    }
    let mut index: usize = 0;
    while index < input_dimension
        invariant
            input@.len() == input_dimension + 1,
            width == output_dimension + 1,
            w == width,
            spec_level == level,
            spec_base == base_log,
            ksk@.len() == input_dimension * level * width,
            ksk_len == ksk@.len(),
            output@.len() == width,
            old(output)@.len() == width,
            digits@.len() >= level,
            digits@.len() == old(digits)@.len(),
            index <= input_dimension,
            index > 0 ==> decomposable(spec_base, spec_level),
            forall|v: int|
                0 <= v < width ==> #[trigger] output@[v] == torus(
                    (if v == output_dimension {
                        input@[input_dimension as int] as int
                    } else {
                        0
                    }) - key_switch_sum(ksk@, input@, spec_base, spec_level, w, (index * spec_level) as nat, v),
                ),
        decreases input_dimension - index,
    {
        let ghost before = digits@;
        let (head, _tail) = digits.as_mut_slice().split_at_mut(level);
        if !signed_gadget_decompose_into(input[index], base_log, head) {
            return false;
        }
        let mut current: usize = 0;
        while current < level
            invariant
                input@.len() == input_dimension + 1,
                width == output_dimension + 1,
                w == width,
                spec_level == level,
                spec_base == base_log,
                ksk@.len() == input_dimension * level * width,
                ksk_len == ksk@.len(),
                output@.len() == width,
                index < input_dimension,
                decomposable(spec_base, spec_level),
                current <= level,
                head@ == gadget_digits(input@[index as int], spec_base, spec_level),
                forall|v: int|
                    0 <= v < width ==> #[trigger] output@[v] == torus(
                        (if v == output_dimension {
                            input@[input_dimension as int] as int
                        } else {
                            0
                        }) - key_switch_sum(
                            ksk@,
                            input@,
                            spec_base,
                            spec_level,
                            w,
                            (index * spec_level + current) as nat,
                            v,
                        ),
                    ),
            decreases level - current,
        {
            let digit = head[current];
            let ghost row = (index * spec_level + current) as nat;
            proof {
                lemma_row_bounds(index as int, current as int, level as int, width as int, 0, input_dimension as int);
            }
            let offset = (index * level + current) * width;
            let mut position: usize = 0;
            while position < width
                invariant
                    input@.len() == input_dimension + 1,
                    width == output_dimension + 1,
                    w == width,
                    spec_level == level,
                    spec_base == base_log,
                    ksk@.len() == input_dimension * level * width,
                    ksk_len == ksk@.len(),
                    output@.len() == width,
                    index < input_dimension,
                    current < level,
                    row == index * spec_level + current,
                    offset == row * w,
                    digit == gadget_digits(input@[index as int], spec_base, spec_level)[current as int],
                    position <= width,
                    forall|v: int|
                        0 <= v < width ==> #[trigger] output@[v] == torus(
                            (if v == output_dimension {
                                input@[input_dimension as int] as int
                            } else {
                                0
                            }) - key_switch_sum(ksk@, input@, spec_base, spec_level, w, row, v) - (if v
                                < position {
                                key_switch_term(ksk@, input@, spec_base, spec_level, w, row, v)
                            } else {
                                0
                            }),
                        ),
                decreases width - position,
            {
                proof {
                    lemma_row_bounds(
                        index as int,
                        current as int,
                        level as int,
                        width as int,
                        position as int,
                        input_dimension as int,
                    );
                }
                let key_word = ksk[offset + position];
                let ghost previous = output@[position as int];
                let ghost base_value = (if position == output_dimension {
                    input@[input_dimension as int] as int
                } else {
                    0
                }) - key_switch_sum(ksk@, input@, spec_base, spec_level, w, row, position as int);
                let ghost term = key_switch_term(ksk@, input@, spec_base, spec_level, w, row, position as int);
                proof {
                    assert(term == key_word * digit);
                    lemma_subtract_scaled_digit(previous, base_value, key_word, digit);
                }
                if digit != 0 {
                    output[position] = output[position].wrapping_sub(key_word.wrapping_mul(digit as u32));
                }
                position += 1;
            }
            current += 1;
            proof {
                assert forall|v: int| 0 <= v < width implies #[trigger] output@[v] == torus(
                    (if v == output_dimension {
                        input@[input_dimension as int] as int
                    } else {
                        0
                    }) - key_switch_sum(
                        ksk@,
                        input@,
                        spec_base,
                        spec_level,
                        w,
                        (index * spec_level + current) as nat,
                        v,
                    ),
                ) by {
                    assert(key_switch_sum(ksk@, input@, spec_base, spec_level, w, row + 1, v)
                        == key_switch_sum(ksk@, input@, spec_base, spec_level, w, row, v)
                        + key_switch_term(ksk@, input@, spec_base, spec_level, w, row, v));
                }
            }
        }
        proof {
            assert((index + 1) * spec_level == index * spec_level + spec_level) by (nonlinear_arith);
        }
        index += 1;
    }
    proof {
        assert(output@ =~= key_switch_spec(
            ksk@,
            input@,
            input_dimension as nat,
            output_dimension as nat,
            base_log as nat,
            level as nat,
        ));
    }
    true
}

} // verus!
