//! Sizes and offsets of the Fourier-domain objects: FFT scratch, the
//! Fourier bootstrapping key indexed as `[ggsw][digit][output][frequency]`,
//! and the shapes accepted by (batched) external products. The Fourier
//! values themselves are handled outside this crate.
use crate::pbs::{FFT_INVALID_SIZE, FFT_OK, MAX_BUFFER_LEN};
use vstd::arithmetic::div_mod::*;
use vstd::arithmetic::mul::*;
use vstd::prelude::*;

verus! {

/// Bytes of an FFT scratch for polynomials of `n` coefficients whose FFT
/// needs `fft_scratch_len` values and that holds `digit_capacity` digit
/// spectra: `2n + fft_scratch_len + digit_capacity * n/2 + n/2` complex
/// values of 16 bytes, plus three `i64` and one `u32` per coefficient.
pub open spec fn scratch_bytes_spec(n: int, fft_scratch_len: int, digit_capacity: int) -> int {
    (2 * n + fft_scratch_len + digit_capacity * (n / 2) + n / 2) * 16 + n * (3 * 8 + 4)
}

/// The size in bytes of an FFT scratch, or 0 when a capacity is zero or the
/// size does not fit in `usize`.
pub fn scratch_bytes(
    polynomial_size: usize,
    fft_scratch_len: usize,
    digit_capacity: u32,
    output_capacity: u32,
) -> (bytes: usize)
    ensures
        bytes == (if digit_capacity == 0 || output_capacity == 0 || scratch_bytes_spec(
            polynomial_size as int,
            fft_scratch_len as int,
            digit_capacity as int,
        ) > usize::MAX {
            0
        } else {
            scratch_bytes_spec(polynomial_size as int, fft_scratch_len as int, digit_capacity as int)
        }),
{
    if digit_capacity == 0 || output_capacity == 0 {
        return 0;
    }
    let ghost n = polynomial_size as int;
    let half_size = polynomial_size / 2;
    let ghost d = digit_capacity as int;
    let ghost f = fft_scratch_len as int;
    proof {
        lemma_mul_nonnegative(d, n / 2);
        assert(scratch_bytes_spec(n, f, d) >= (2 * n + f + d * (n / 2) + n / 2) * 16);
    }
    let digit_values = match (digit_capacity as usize).checked_mul(half_size) {
        Some(value) => value,
        None => {
            return 0;
        },
    };
    let complex_values = match polynomial_size.checked_mul(2) {
        Some(value) => match value.checked_add(fft_scratch_len) {
            Some(value) => match value.checked_add(digit_values) {
                Some(value) => match value.checked_add(half_size) {
                    Some(value) => value,
                    None => {
                        return 0;
                    },
                },
                None => {
                    return 0;
                },
            },
            None => {
                return 0;
            },
        },
        None => {
            return 0;
        },
    };
    let complex_bytes = match complex_values.checked_mul(16) {
        Some(value) => value,
        None => {
            return 0;
        },
    };
    let integer_bytes = match polynomial_size.checked_mul(3 * 8 + 4) {
        Some(value) => value,
        None => {
            return 0;
        },
    };
    match complex_bytes.checked_add(integer_bytes) {
        Some(value) => value,
        None => 0,
    }
}

/// Number of complex values of a Fourier bootstrapping key of
/// `ggsw_count * digit_count * output_count` polynomials of `half_size`
/// frequencies; `None` when a count is zero or the product leaves `usize`.
pub fn fourier_spectrum_count(
    half_size: usize,
    ggsw_count: usize,
    digit_count: usize,
    output_count: usize,
) -> (count: Option<usize>)
    requires
        half_size >= 1,
    ensures
        count is Some <==> (ggsw_count != 0 && digit_count != 0 && output_count != 0 && ggsw_count
            * digit_count * output_count * half_size <= usize::MAX),
        count matches Some(c) ==> c == ggsw_count * digit_count * output_count * half_size,
{
    if ggsw_count == 0 || digit_count == 0 || output_count == 0 {
        return None;
    }
    proof {
        assert(ggsw_count * digit_count * output_count * half_size >= 0) by (nonlinear_arith)
            requires
                ggsw_count >= 1,
                digit_count >= 1,
                output_count >= 1,
        ;
        assert(ggsw_count <= ggsw_count * digit_count <= ggsw_count * digit_count * output_count)
            by (nonlinear_arith)
            requires
                ggsw_count >= 1,
                digit_count >= 1,
                output_count >= 1,
        ;
    }
    let polynomial_count = match ggsw_count.checked_mul(digit_count) {
        Some(value) => match value.checked_mul(output_count) {
            Some(value) => value,
            None => {
                proof {
                    assert(ggsw_count * digit_count * output_count * half_size > usize::MAX)
                        by (nonlinear_arith)
                        requires
                            ggsw_count * digit_count * output_count > usize::MAX,
                            half_size >= 1,
                    ;
                }
                return None;
            },
        },
        None => {
            proof {
                assert(ggsw_count * digit_count * output_count * half_size > usize::MAX)
                    by (nonlinear_arith)
                    requires
                        ggsw_count * digit_count > usize::MAX,
                        output_count >= 1,
                        half_size >= 1,
                ;
            }
            return None;
        },
    };
    polynomial_count.checked_mul(half_size)
}

/// Offset of the spectrum of polynomial `(ggsw, digit, output)` in a
/// Fourier bootstrapping key.
pub open spec fn spectrum_offset_spec(
    ggsw: int,
    digit: int,
    output: int,
    digit_count: int,
    output_count: int,
    polynomial_size: int,
) -> int {
    ((ggsw * digit_count + digit) * output_count + output) * (polynomial_size / 2)
}

/// The offset of a spectrum; the spectrum and the ones before it fit in the
/// key.
pub fn spectrum_offset(
    ggsw: usize,
    digit: usize,
    output: usize,
    ggsw_count: usize,
    digit_count: usize,
    output_count: usize,
    polynomial_size: usize,
) -> (offset: usize)
    requires
        ggsw < ggsw_count,
        digit < digit_count,
        output < output_count,
        polynomial_size >= 2,
        ggsw_count * digit_count * output_count * (polynomial_size / 2) <= usize::MAX,
    ensures
        offset == spectrum_offset_spec(
            ggsw as int,
            digit as int,
            output as int,
            digit_count as int,
            output_count as int,
            polynomial_size as int,
        ),
        offset + polynomial_size / 2 <= ggsw_count * digit_count * output_count * (polynomial_size
            / 2),
{
    let half = polynomial_size / 2;
    proof {
        let g = ggsw as int;
        let d = digit as int;
        let o = output as int;
        let dc = digit_count as int;
        let oc = output_count as int;
        let h = half as int;
        assert(g * dc + d + 1 <= ggsw_count * dc) by (nonlinear_arith)
            requires
                0 <= g < ggsw_count,
                0 <= d < dc,
        {
            assert((g + 1) * dc <= ggsw_count * dc) by (nonlinear_arith)
                requires
                    g + 1 <= ggsw_count,
                    dc >= 0,
            ;
        }
        assert((g * dc + d) * oc + o + 1 <= ggsw_count * dc * oc) by (nonlinear_arith)
            requires
                g * dc + d + 1 <= ggsw_count * dc,
                0 <= o < oc,
                0 <= g * dc + d,
        {
            assert((g * dc + d + 1) * oc <= ggsw_count * dc * oc) by (nonlinear_arith)
                requires
                    g * dc + d + 1 <= ggsw_count * dc,
                    oc >= 0,
            ;
        }
        assert(((g * dc + d) * oc + o) * h + h <= ggsw_count * dc * oc * h) by (nonlinear_arith)
            requires
                (g * dc + d) * oc + o + 1 <= ggsw_count * dc * oc,
                h >= 0,
        {
            assert(((g * dc + d) * oc + o + 1) * h <= ggsw_count * dc * oc * h) by (nonlinear_arith)
                requires
                    (g * dc + d) * oc + o + 1 <= ggsw_count * dc * oc,
                    h >= 0,
            ;
        }
        assert(0 <= g * dc + d) by (nonlinear_arith)
            requires
                g >= 0,
                dc >= 0,
                d >= 0,
        ;
        assert(0 <= (g * dc + d) * oc + o) by (nonlinear_arith)
            requires
                g * dc + d >= 0,
                oc >= 0,
                o >= 0,
        ;
        assert(g * dc + d <= (g * dc + d) * oc + o) by (nonlinear_arith)
            requires
                g * dc + d >= 0,
                oc >= 1,
                o >= 0,
        ;
        assert(((g * dc + d) * oc + o) * h >= 0) by (nonlinear_arith)
            requires
                (g * dc + d) * oc + o >= 0,
                h >= 0,
        ;
        assert(ggsw_count * dc * oc <= usize::MAX) by (nonlinear_arith)
            requires
                ggsw_count * dc * oc * h <= usize::MAX,
                h >= 1,
                ggsw_count * dc * oc >= 0,
        ;
        assert(ggsw_count * dc * oc >= 0) by (nonlinear_arith)
            requires
                ggsw_count >= 0,
                dc >= 0,
                oc >= 0,
        ;
    }
    ((ggsw * digit_count + digit) * output_count + output) * half
}

/// Whether an external product with control `ggsw_index` of a Fourier key
/// (`ggsw_count` controls, `digit_count` digit rows, `output_count`
/// outputs, polynomials of `key_polynomial_size` coefficients), using an FFT
/// plan of `plan_polynomial_size` coefficients and a scratch of the given
/// capacities, accepts `digits_len` digit words and `output_len` output
/// words.
pub open spec fn external_product_accepts(
    key_polynomial_size: int,
    ggsw_count: int,
    digit_count: int,
    output_count: int,
    plan_polynomial_size: int,
    scratch_digit_capacity: int,
    scratch_output_capacity: int,
    ggsw_index: int,
    digits_len: int,
    output_len: int,
) -> bool {
    &&& plan_polynomial_size == key_polynomial_size
    &&& ggsw_index < ggsw_count
    &&& scratch_digit_capacity >= digit_count
    &&& scratch_output_capacity >= output_count
    &&& digits_len == digit_count * key_polynomial_size
    &&& output_len == output_count * key_polynomial_size
}

/// Checks the shapes of an external product.
pub fn external_product_accepts_shapes(
    key_polynomial_size: usize,
    ggsw_count: usize,
    digit_count: usize,
    output_count: usize,
    plan_polynomial_size: usize,
    scratch_digit_capacity: usize,
    scratch_output_capacity: usize,
    ggsw_index: usize,
    digits_len: usize,
    output_len: usize,
) -> (accepted: bool)
    ensures
        accepted == external_product_accepts(
            key_polynomial_size as int,
            ggsw_count as int,
            digit_count as int,
            output_count as int,
            plan_polynomial_size as int,
            scratch_digit_capacity as int,
            scratch_output_capacity as int,
            ggsw_index as int,
            digits_len as int,
            output_len as int,
        ),
{
    if plan_polynomial_size != key_polynomial_size || ggsw_index >= ggsw_count || scratch_digit_capacity
        < digit_count || scratch_output_capacity < output_count {
        return false;
    }
    let digit_words = digit_count.checked_mul(key_polynomial_size);
    let output_words = output_count.checked_mul(key_polynomial_size);
    match (digit_words, output_words) {
        (Some(d), Some(o)) => d == digits_len && o == output_len,
        _ => false,
    }
}

/// `a * b` capped at `usize::MAX`.
pub open spec fn saturating_product_spec(a: int, b: int) -> int {
    if a * b > usize::MAX {
        usize::MAX as int
    } else {
        a * b
    }
}

/// `a * b`, or `usize::MAX` when the product leaves `usize`.
fn saturating_product(a: usize, b: usize) -> (product: usize)
    ensures
        product == saturating_product_spec(a as int, b as int),
{
    match a.checked_mul(b) {
        Some(value) => value,
        None => usize::MAX,
    }
}

/// The digit and output words of one product of a batch of `batch_count`
/// external products, for a key of `key_digit_count` digit rows and
/// `key_output_count` outputs: `None` when a per-product size leaves
/// `usize`, the batch is empty, or the buffers do not hold exactly
/// `batch_count` products (a total that leaves `usize` is taken as
/// `usize::MAX`).
pub fn batch_layout(
    key_digit_count: usize,
    key_output_count: usize,
    polynomial_size: usize,
    batch_count: usize,
    digit_count: usize,
    output_count: usize,
) -> (layout: Option<(usize, usize)>)
    ensures
        layout is Some <==> ({
            let d = key_digit_count * polynomial_size;
            let o = key_output_count * polynomial_size;
            &&& d <= usize::MAX
            &&& o <= usize::MAX
            &&& batch_count != 0
            &&& digit_count == saturating_product_spec(batch_count as int, d)
            &&& output_count == saturating_product_spec(batch_count as int, o)
        }),
        layout matches Some((d, o)) ==> d == key_digit_count * polynomial_size && o == key_output_count
            * polynomial_size,
{
    let digits_per_batch = match key_digit_count.checked_mul(polynomial_size) {
        Some(value) => value,
        None => {
            return None;
        },
    };
    let output_per_batch = match key_output_count.checked_mul(polynomial_size) {
        Some(value) => value,
        None => {
            return None;
        },
    };
    if batch_count == 0 || digit_count != saturating_product(batch_count, digits_per_batch)
        || output_count != saturating_product(batch_count, output_per_batch) {
        return None;
    }
    Some((digits_per_batch, output_per_batch))
}

/// The status of a negacyclic product for a plan and a scratch of the given
/// polynomial sizes: `FFT_OK` when both operands, the output and the scratch
/// all have the plan's polynomial size, `FFT_INVALID_SIZE` otherwise.
pub fn negacyclic_product_status(
    plan_polynomial_size: usize,
    scratch_polynomial_size: usize,
    lhs_len: usize,
    rhs_len: usize,
    output_len: usize,
) -> (status: i32)
    ensures
        status == (if lhs_len == plan_polynomial_size && rhs_len == plan_polynomial_size
            && output_len == plan_polynomial_size && scratch_polynomial_size == plan_polynomial_size {
            FFT_OK
        } else {
            FFT_INVALID_SIZE
        }),
{
    if lhs_len != plan_polynomial_size || rhs_len != plan_polynomial_size || output_len
        != plan_polynomial_size || scratch_polynomial_size != plan_polynomial_size {
        FFT_INVALID_SIZE
    } else {
        FFT_OK
    }
}

/// The number of words of each operand of a sum of `term_count` negacyclic
/// products: `None` when there is no term, the scratch does not match the
/// plan, or the length leaves `usize`.
pub fn convolution_terms_len(
    plan_polynomial_size: usize,
    scratch_polynomial_size: usize,
    term_count: u32,
) -> (len: Option<usize>)
    ensures
        len is Some <==> (term_count != 0 && scratch_polynomial_size == plan_polynomial_size
            && plan_polynomial_size * term_count <= usize::MAX),
        len matches Some(l) ==> l == plan_polynomial_size * term_count,
{
    if term_count == 0 || scratch_polynomial_size != plan_polynomial_size {
        return None;
    }
    plan_polynomial_size.checked_mul(term_count as usize)
}

} // verus!
