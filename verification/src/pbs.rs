//! The integer part of the native programmable-bootstrapping context:
//! parameter validation, workspace, key switching, the blind-rotation
//! control flow and sample extraction. The Fourier key and its external
//! products are supplied from outside through [`PbsAction`].
use crate::clock::{duration_nanos, elapsed_nanos, instant_elapsed, instant_now};
use crate::glwe::{
    decompose_glwe, digit_column, glwe_digits_spec, lemma_glwe_digits_recompose, sample_extract, sample_extract_spec, torus_add_seq,
    torus_sub_seq,
};
use crate::keyswitch::{decomposable, key_switch, key_switch_spec};
use std::time::Instant;
use crate::negacyclic::{rotate_negacyclic, rotate_negacyclic_spec};
use crate::torus::{
    gadget_digits, gadget_recompose, gadget_rounded, gadget_state, lemma_torus_congruent, lemma_torus_of_u32, lemma_wrapping_ops, modulus_switch, modulus_switch_spec, polynomial_log2,
    signed_gadget_decompose_into, torus, torus_neg,
};
use vstd::arithmetic::div_mod::*;
use vstd::arithmetic::mul::*;
use vstd::arithmetic::power2::*;
use vstd::prelude::*;

verus! {

/// Status returned on success.
pub const FFT_OK: i32 = 0;

/// Status returned for a missing buffer.
pub const FFT_NULL_POINTER: i32 = 1;

/// Status returned for a shape that does not match the context.
pub const FFT_INVALID_SIZE: i32 = 2;

/// Status returned when a computation panicked.
pub const FFT_PANIC: i32 = 3;

/// Status returned when the context is already evaluating.
pub const FFT_BUSY: i32 = 4;

/// The largest number of `u32` words in one buffer: an allocation spans at
/// most `isize::MAX` bytes.
pub const MAX_BUFFER_LEN: usize = usize::MAX / 8;

/// The shape of a bootstrapping context.
#[derive(Clone, Copy)]
pub struct PbsParameters {
    pub polynomial_size: usize,
    pub input_dimension: usize,
    pub glwe_dimension: usize,
    pub pbs_base_log: usize,
    pub pbs_level: usize,
    pub ksk_input_dimension: usize,
    pub ksk_output_dimension: usize,
    pub ksk_base_log: usize,
    pub ksk_level: usize,
    pub order: u32,
}

impl PbsParameters {
    /// Number of GLWE components, `k + 1`.
    pub open spec fn columns(self) -> int {
        self.glwe_dimension + 1
    }

    /// Number of coefficients in one GLWE ciphertext.
    pub open spec fn glwe_size(self) -> int {
        self.columns() * self.polynomial_size
    }

    /// Number of decomposed polynomials fed to one external product.
    pub open spec fn digit_count(self) -> int {
        self.pbs_level * self.columns()
    }

    /// Number of coefficients of one encrypted GGSW control.
    pub open spec fn control_coefficient_count(self) -> int {
        self.digit_count() * self.columns() * self.polynomial_size
    }

    /// Number of coefficients of the whole coefficient bootstrapping key.
    pub open spec fn coefficient_count(self) -> int {
        self.input_dimension * self.digit_count() * self.columns() * self.polynomial_size
    }

    /// Number of words of the key-switching key.
    pub open spec fn ksk_count(self) -> int {
        self.ksk_input_dimension * self.ksk_level * (self.ksk_output_dimension + 1)
    }

    /// Length of an evaluation input: the ciphertext that is processed first.
    pub open spec fn input_size(self) -> int {
        if self.order == 0 {
            self.ksk_input_dimension + 1
        } else {
            self.input_dimension + 1
        }
    }

    /// Length of an evaluation output.
    pub open spec fn output_size(self) -> int {
        if self.order == 0 {
            self.ksk_input_dimension + 1
        } else {
            self.ksk_output_dimension + 1
        }
    }

    /// Length of the key-switching input buffer, which also holds the
    /// blind-rotation input.
    pub open spec fn switched_size(self) -> int {
        if self.ksk_input_dimension >= self.ksk_output_dimension {
            self.ksk_input_dimension + 1
        } else {
            self.ksk_output_dimension + 1
        }
    }

    /// Length of the decomposition workspace.
    pub open spec fn decomposition_size(self) -> int {
        if self.pbs_level >= self.ksk_level {
            self.pbs_level as int
        } else {
            self.ksk_level as int
        }
    }

    /// Whether a context of this shape can be built: the polynomial size is
    /// a power of two no smaller than 2, both gadgets fit in 32 bits, the
    /// key-switching dimensions connect the GLWE key to the LWE key, the
    /// order is 0 (key switching first) or 1 (bootstrapping first), and every
    /// buffer can be allocated: at most `MAX_BUFFER_LEN` words each, the
    /// Fourier key taking 8 bytes per coefficient.
    pub open spec fn valid(self) -> bool {
        &&& exists|k: nat| 1 <= k <= 31 && pow2(k) == self.polynomial_size
        &&& self.input_dimension >= 1
        &&& self.glwe_dimension >= 1
        &&& self.pbs_base_log >= 1
        &&& self.pbs_level >= 1
        &&& self.pbs_base_log * self.pbs_level <= 32
        &&& self.ksk_base_log >= 1
        &&& self.ksk_base_log * self.ksk_level <= 32
        &&& self.ksk_input_dimension == self.glwe_dimension * self.polynomial_size
        &&& self.ksk_output_dimension == self.input_dimension
        &&& self.order <= 1
        &&& self.digit_count() * self.polynomial_size <= MAX_BUFFER_LEN
        &&& self.ksk_input_dimension + 1 <= MAX_BUFFER_LEN
        &&& self.coefficient_count() <= MAX_BUFFER_LEN
        &&& self.ksk_count() <= MAX_BUFFER_LEN
    }
}


/// What the caller must do next for an evaluation in progress.
#[derive(Clone, Copy, Debug, PartialEq, Eq)]
pub enum PbsAction {
    /// Compute the external product of encrypted control `ggsw_index` with
    /// the decomposed digits, and pass it to `NativePbsContext::resume`.
    ExternalProduct(usize),
    /// The evaluation ended with this status.
    Finished(i32),
}

/// A bootstrapping context: the shape, the key-switching key and every
/// workspace buffer of an evaluation, so that evaluating allocates nothing.
pub struct NativePbsContext {
    parameters: PbsParameters,
    ksk: Vec<u32>,
    state_a: Vec<u32>,
    state_b: Vec<u32>,
    rotated: Vec<u32>,
    difference: Vec<u32>,
    digits: Vec<u32>,
    decomposition_digits: Vec<i32>,
    extracted: Vec<u32>,
    ksk_result: Vec<u32>,
    switched_input: Vec<u32>,
    initialized_controls: Vec<bool>,
    last_key_switch_ns: u64,
    last_external_product_ns: u64,
    last_external_product_count: u64,
    last_blind_rotation_ns: u64,
    last_sample_extraction_ns: u64,
    rotation_position: usize,
    external_product_count: u64,
    external_product_nanos: u128,
    rotation_started: Instant,
    product_started: Instant,
    active_a: bool,
    awaiting_product: bool,
}

/// A zeroed buffer.
fn zeroed_u32(len: usize) -> (buffer: Vec<u32>)
    ensures
        buffer@ == Seq::new(len as nat, |i: int| 0u32),
{
    let buffer = vec![0u32; len];
    assert(buffer@ =~= Seq::new(len as nat, |i: int| 0u32));
    buffer
}

/// A copy of a slice.
fn copy_of(source: &[u32]) -> (copy: Vec<u32>)
    ensures
        copy@ == source@,
{
    let mut copy: Vec<u32> = Vec::new();
    let mut index: usize = 0;
    while index < source.len()
        invariant
            index <= source@.len(),
            copy@ == source@.take(index as int),
        decreases source@.len() - index,
    {
        copy.push(source[index]);
        index += 1;
        assert(copy@ =~= source@.take(index as int));
    }
    assert(source@.take(source@.len() as int) =~= source@);
    copy
}

impl NativePbsContext {
    /// The shape of this context.
    pub closed spec fn params(&self) -> PbsParameters {
        self.parameters
    }

    /// The stored key-switching key.
    pub closed spec fn ksk_view(&self) -> Seq<u32> {
        self.ksk@
    }

    /// Which encrypted controls have been converted.
    pub closed spec fn controls_view(&self) -> Seq<bool> {
        self.initialized_controls@
    }

    /// The context's internal consistency: a valid shape, a key of the
    /// matching length and workspace buffers of their fixed lengths.
    pub closed spec fn wf(&self) -> bool {
        let p = self.parameters;
        &&& p.valid()
        &&& self.ksk@.len() == p.ksk_count()
        &&& self.state_a@.len() == p.glwe_size()
        &&& self.state_b@.len() == p.glwe_size()
        &&& self.rotated@.len() == p.glwe_size()
        &&& self.difference@.len() == p.glwe_size()
        &&& self.digits@.len() == p.digit_count() * p.polynomial_size
        &&& self.decomposition_digits@.len() == p.decomposition_size()
        &&& self.extracted@.len() == p.ksk_input_dimension + 1
        &&& self.ksk_result@.len() == p.ksk_output_dimension + 1
        &&& self.switched_input@.len() == p.switched_size()
        &&& self.initialized_controls@.len() == p.input_dimension
        &&& self.rotation_position <= p.input_dimension
        &&& self.awaiting_product ==> self.rotation_position < p.input_dimension
        &&& self.external_product_count <= self.rotation_position
        &&& self.external_product_count == switched_count(
            self.rotation_input(),
            rotation_log_modulus(p),
            self.rotation_position as int,
        )
        &&& self.awaiting_product ==> modulus_switch_spec(
            self.rotation_input()[self.rotation_position as int],
            rotation_log_modulus(p),
        ) != 0
    }

    /// Builds an empty context (no encrypted control converted yet) of the
    /// given shape, keeping a copy of the key-switching key. Returns `None`
    /// exactly when the shape is not valid or the key has the wrong length.
    pub fn new_empty(
        polynomial_size: u32,
        input_dimension: u32,
        glwe_dimension: u32,
        pbs_base_log: u32,
        pbs_level: u32,
        ksk_input_dimension: u32,
        ksk_output_dimension: u32,
        ksk_base_log: u32,
        ksk_level: u32,
        order: u32,
        ksk: &[u32],
    ) -> (context: Option<Self>)
        ensures
            ({
                let p = PbsParameters {
                    polynomial_size: polynomial_size as usize,
                    input_dimension: input_dimension as usize,
                    glwe_dimension: glwe_dimension as usize,
                    pbs_base_log: pbs_base_log as usize,
                    pbs_level: pbs_level as usize,
                    ksk_input_dimension: ksk_input_dimension as usize,
                    ksk_output_dimension: ksk_output_dimension as usize,
                    ksk_base_log: ksk_base_log as usize,
                    ksk_level: ksk_level as usize,
                    order,
                };
                &&& context is Some <==> (p.valid() && ksk@.len() == p.ksk_count())
                &&& context matches Some(c) ==> {
                    &&& c.wf()
                    &&& c.params() == p
                    &&& c.ksk_view() == ksk@
                    &&& c.controls_view() == Seq::new(input_dimension as nat, |i: int| false)
                }
            }),
    {
        let n = polynomial_size as usize;
        let inputs = input_dimension as usize;
        let k = glwe_dimension as usize;
        let p = PbsParameters {
            polynomial_size: n,
            input_dimension: inputs,
            glwe_dimension: k,
            pbs_base_log: pbs_base_log as usize,
            pbs_level: pbs_level as usize,
            ksk_input_dimension: ksk_input_dimension as usize,
            ksk_output_dimension: ksk_output_dimension as usize,
            ksk_base_log: ksk_base_log as usize,
            ksk_level: ksk_level as usize,
            order,
        };
        proof {
            lemma_mul_upper_bound(pbs_base_log as int, 0xffff_ffff, pbs_level as int, 0xffff_ffff);
            lemma_mul_upper_bound(ksk_base_log as int, 0xffff_ffff, ksk_level as int, 0xffff_ffff);
        }
        let log = polynomial_log2(n);
        if log.is_none() || inputs == 0 || k == 0 || pbs_base_log == 0 || pbs_level == 0
            || ksk_base_log == 0 || (pbs_base_log as u64) * (pbs_level as u64) > 32
            || (ksk_base_log as u64) * (ksk_level as u64) > 32 || ksk_output_dimension
            != input_dimension || order > 1 {
            proof {
                if log.is_none() {
                    assert(!(exists|e: nat| 1 <= e <= 31 && pow2(e) == p.polynomial_size));
                }
            }
            return None;
        }
        proof {
            let e = log.unwrap() as nat;
            lemma2_to64();
            if e > 32 {
                lemma_pow2_strictly_increases(32, e);
            }
            assert(e <= 31);
        }
        let columns = match k.checked_add(1) {
            Some(value) => value,
            None => {
                proof {
                    assert(p.digit_count() * p.polynomial_size > MAX_BUFFER_LEN) by (nonlinear_arith)
                        requires
                            p.columns() > usize::MAX,
                            p.pbs_level >= 1,
                            p.polynomial_size >= 2,
                            p.digit_count() == p.pbs_level * p.columns(),
                    ;
                }
                return None;
            },
        };
        let glwe_words = match (k as u64).checked_mul(n as u64) {
            Some(value) if value == ksk_input_dimension as u64 => ksk_input_dimension as usize,
            _ => {
                return None;
            },
        };
        let digit_count = match (pbs_level as usize).checked_mul(columns) {
            Some(value) => value,
            None => {
                proof {
                    assert(p.digit_count() * p.polynomial_size > MAX_BUFFER_LEN) by (nonlinear_arith)
                        requires
                            p.digit_count() > usize::MAX,
                            p.polynomial_size >= 2,
                    ;
                }
                return None;
            },
        };
        let digit_words = match digit_count.checked_mul(n) {
            Some(value) if value <= MAX_BUFFER_LEN => value,
            _ => {
                proof {
                    assert(p.digit_count() * p.polynomial_size > MAX_BUFFER_LEN);
                }
                return None;
            },
        };
        proof {
            assert(columns * n <= digit_count * n) by (nonlinear_arith)
                requires
                    digit_count == (pbs_level as int) * columns,
                    pbs_level >= 1,
                    columns >= 0,
                    n >= 0,
            ;
        }
        let glwe_size = columns * n;
        if glwe_words >= MAX_BUFFER_LEN {
            return None;
        }
        let coefficient_count = match checked_product_of(inputs, digit_count, columns, n) {
            Some(value) if value <= MAX_BUFFER_LEN => value,
            _ => {
                return None;
            },
        };
        let ksk_width = match inputs.checked_add(1) {
            Some(value) => value,
            None => {
                proof {
                    assert(p.digit_count() >= 1) by (nonlinear_arith)
                        requires
                            p.pbs_level >= 1,
                            p.columns() >= 2,
                            p.digit_count() == p.pbs_level * p.columns(),
                    ;
                    assert(p.coefficient_count() > usize::MAX) by (nonlinear_arith)
                        requires
                            p.input_dimension == usize::MAX,
                            p.digit_count() >= 1,
                            p.columns() >= 2,
                            p.polynomial_size >= 2,
                            p.coefficient_count() == p.input_dimension * p.digit_count()
                                * p.columns() * p.polynomial_size,
                    ;
                }
                return None;
            },
        };
        let ksk_len = ksk.len();
        proof {
            lemma_mul_basics(p.ksk_count());
        }
        let ksk_count = match checked_product_of(glwe_words, ksk_level as usize, ksk_width, 1) {
            Some(value) if value == ksk_len && value <= MAX_BUFFER_LEN => value,
            _ => {
                return None;
            },
        };
        proof {
            lemma_mul_basics(p.ksk_count());
        }
        let switched_size = if glwe_words >= inputs {
            glwe_words + 1
        } else {
            inputs + 1
        };
        let decomposition_size = if pbs_level >= ksk_level {
            pbs_level as usize
        } else {
            ksk_level as usize
        };
        let mut decomposition_digits: Vec<i32> = Vec::new();
        let mut index: usize = 0;
        while index < decomposition_size
            invariant
                index <= decomposition_size,
                decomposition_digits@.len() == index,
            decreases decomposition_size - index,
        {
            decomposition_digits.push(0);
            index += 1;
        }
        let mut initialized_controls: Vec<bool> = Vec::new();
        let mut index: usize = 0;
        while index < inputs
            invariant
                index <= inputs,
                initialized_controls@ == Seq::new(index as nat, |i: int| false),
            decreases inputs - index,
        {
            initialized_controls.push(false);
            index += 1;
            assert(initialized_controls@ =~= Seq::new(index as nat, |i: int| false));
        }
        let context = NativePbsContext {
            parameters: p,
            ksk: copy_of(ksk),
            state_a: zeroed_u32(glwe_size),
            state_b: zeroed_u32(glwe_size),
            rotated: zeroed_u32(glwe_size),
            difference: zeroed_u32(glwe_size),
            digits: zeroed_u32(digit_words),
            decomposition_digits,
            extracted: zeroed_u32(glwe_words + 1),
            ksk_result: zeroed_u32(inputs + 1),
            switched_input: zeroed_u32(switched_size),
            initialized_controls,
            last_key_switch_ns: 0,
            last_external_product_ns: 0,
            last_external_product_count: 0,
            last_blind_rotation_ns: 0,
            last_sample_extraction_ns: 0,
            rotation_position: 0,
            external_product_count: 0,
            external_product_nanos: 0,
            rotation_started: instant_now(),
            product_started: instant_now(),
            active_a: true,
            awaiting_product: false,
        };
        Some(context)
    }
}

/// `log2(polynomial_size) + 1`: the number of bits of the rotation
/// amounts, which live modulo `2N`.
pub open spec fn rotation_log_modulus(p: PbsParameters) -> nat {
    (choose|k: nat| 1 <= k <= 31 && pow2(k) == p.polynomial_size) + 1
}

/// The first mask index, from `from` on, whose coefficient switches to a
/// nonzero rotation; `count` when there is none.
pub open spec fn next_rotation_index(input: Seq<u32>, log_modulus: nat, from: int, count: int) -> int
    decreases count - from,
{
    if from >= count {
        count
    } else if modulus_switch_spec(input[from], log_modulus) != 0 {
        from
    } else {
        next_rotation_index(input, log_modulus, from + 1, count)
    }
}

/// The number of the first `count` mask coefficients that switch to a
/// nonzero rotation, each of which costs one external product.
pub open spec fn switched_count(input: Seq<u32>, log_modulus: nat, count: int) -> nat
    decreases count,
{
    if count <= 0 {
        0
    } else {
        switched_count(input, log_modulus, count - 1) + if modulus_switch_spec(
            input[count - 1],
            log_modulus,
        ) != 0 {
            1nat
        } else {
            0nat
        }
    }
}

/// What a blind rotation does from mask index `from` on, with `active` as
/// its accumulator: at the next index `j` with a nonzero switched
/// coefficient `s`, it decomposes `X^(-s) * active - active` and asks for
/// the external product with control `j`; when no index is left it extracts
/// the constant coefficient, records the number of external products of
/// the rotation and, for order 1, key-switches the extracted ciphertext.
pub open spec fn advance_outcome(
    p: PbsParameters,
    ksk: Seq<u32>,
    input: Seq<u32>,
    active: Seq<u32>,
    from: int,
    action: PbsAction,
    pending: Option<nat>,
    active_after: Seq<u32>,
    digits_after: Seq<u32>,
    output_after: Seq<u32>,
    product_count_after: u64,
) -> bool {
    let n = p.polynomial_size as int;
    let j = next_rotation_index(input, rotation_log_modulus(p), from, p.input_dimension as int);
    if j < p.input_dimension {
        let s = modulus_switch_spec(input[j], rotation_log_modulus(p));
        let difference = torus_sub_seq(rotate_negacyclic_spec(active, n, -s), active);
        if decomposable(p.pbs_base_log as nat, p.pbs_level as nat) {
            &&& action == PbsAction::ExternalProduct(j as usize)
            &&& pending == Some(j as nat)
            &&& active_after == active
            &&& digits_after == glwe_digits_spec(
                difference,
                p.columns(),
                n,
                p.pbs_base_log as nat,
                p.pbs_level as nat,
            )
        } else {
            action == PbsAction::Finished(FFT_INVALID_SIZE) && pending is None
        }
    } else {
        let extracted = sample_extract_spec(active, n, p.ksk_input_dimension as int);
        &&& product_count_after == switched_count(
            input,
            rotation_log_modulus(p),
            p.input_dimension as int,
        )
        &&& if p.order == 0 {
            &&& action == PbsAction::Finished(FFT_OK)
            &&& pending is None
            &&& output_after == extracted
        } else if decomposable(p.ksk_base_log as nat, p.ksk_level as nat) {
            &&& action == PbsAction::Finished(FFT_OK)
            &&& pending is None
            &&& output_after == key_switch_spec(
                ksk,
                extracted,
                p.ksk_input_dimension as nat,
                p.ksk_output_dimension as nat,
                p.ksk_base_log as nat,
                p.ksk_level as nat,
            )
        } else {
            action == PbsAction::Finished(FFT_INVALID_SIZE) && pending is None
        }
    }
}

/// A gadget of 32 bits rounds nothing.
proof fn lemma_full_precision_rounding(value: u32)
    ensures
        gadget_rounded(value, 32) == value,
{
    assert(pow2(0) == 1) by {
        lemma2_to64();
    }
    assert(gadget_state(value, 32) == value as int) by {
        assert((value as int) / 1 == value as int);
    }
    assert(gadget_state(value, 32) * pow2(0) == value as int);
    lemma_torus_of_u32(value);
}

/// Each step of the blind rotation is a CMux on `X^(-s)`: when the
/// context asks for the external product with control `j`, whose mask
/// coefficient switches to `s`, the digits it hands over recompose, for
/// every coefficient, to `X^(-s) * ACC - ACC` rounded to the gadget's
/// `base_log * level` bits, `ACC` being the accumulator. So with a
/// full-precision gadget, adding the recomposed digits (an exact external
/// product with an encryption of 1) turns the accumulator into exactly
/// `X^(-s) * ACC`.
pub proof fn lemma_cmux_step(
    p: PbsParameters,
    ksk: Seq<u32>,
    input: Seq<u32>,
    active: Seq<u32>,
    from: int,
    action: PbsAction,
    pending: Option<nat>,
    active_after: Seq<u32>,
    digits_after: Seq<u32>,
    output_after: Seq<u32>,
    product_count_after: u64,
    c: int,
    i: int,
)
    requires
        p.valid(),
        active.len() == p.glwe_size(),
        0 <= from <= p.input_dimension,
        advance_outcome(
            p,
            ksk,
            input,
            active,
            from,
            action,
            pending,
            active_after,
            digits_after,
            output_after,
            product_count_after,
        ),
        action is ExternalProduct,
        0 <= c < p.columns(),
        0 <= i < p.polynomial_size,
    ensures
        ({
            let n = p.polynomial_size as int;
            let s = modulus_switch_spec(input[action->ExternalProduct_0 as int], rotation_log_modulus(p));
            let rotated = rotate_negacyclic_spec(active, n, -s);
            let recomposed = gadget_recompose(
                digit_column(digits_after, p.columns(), n, p.pbs_level as nat, c, i),
                p.pbs_base_log as nat,
            );
            &&& torus(recomposed) == gadget_rounded(
                torus(rotated[c * n + i] - active[c * n + i]),
                (p.pbs_base_log * p.pbs_level) as nat,
            )
            &&& p.pbs_base_log * p.pbs_level == 32 ==> torus(active[c * n + i] + recomposed)
                == rotated[c * n + i]
        }),
{
    let n = p.polynomial_size as int;
    let log_modulus = rotation_log_modulus(p);
    lemma_next_rotation_index_bounds(input, log_modulus, from, p.input_dimension as int);
    let j = next_rotation_index(input, log_modulus, from, p.input_dimension as int);
    assert(j < p.input_dimension);
    assert(action->ExternalProduct_0 as int == j);
    let s = modulus_switch_spec(input[j], log_modulus);
    let rotated = rotate_negacyclic_spec(active, n, -s);
    let difference = torus_sub_seq(rotated, active);
    assert(digits_after == glwe_digits_spec(difference, p.columns(), n, p.pbs_base_log as nat, p.pbs_level as nat));
    let e = choose|k: nat| 1 <= k <= 31 && pow2(k) == p.polynomial_size;
    lemma_pow2_strictly_increases(0, e);
    lemma2_to64();
    assert(c * n + i < p.columns() * n) by (nonlinear_arith)
        requires
            0 <= c < p.columns(),
            0 <= i < n,
    {
        assert((c + 1) * n <= p.columns() * n) by (nonlinear_arith)
            requires
                c + 1 <= p.columns(),
                n >= 0,
        ;
    }
    assert(0 <= c * n) by (nonlinear_arith)
        requires
            0 <= c,
            n >= 0,
    ;
    lemma_glwe_digits_recompose(difference, p.columns(), n, p.pbs_base_log as nat, p.pbs_level as nat, c, i);
    let recomposed = gadget_recompose(
        digit_column(digits_after, p.columns(), n, p.pbs_level as nat, c, i),
        p.pbs_base_log as nat,
    );
    let k = c * n + i;
    assert(difference[k] == torus(rotated[k] - active[k]));
    if p.pbs_base_log * p.pbs_level == 32 {
        lemma_full_precision_rounding(difference[k]);
        lemma_torus_congruent(recomposed, active[k] as int);
        lemma_torus_congruent(rotated[k] - active[k], active[k] as int);
        lemma_torus_of_u32(rotated[k]);
    }
}

proof fn lemma_pow2_injective(a: nat, b: nat)
    requires
        pow2(a) == pow2(b),
    ensures
        a == b,
{
    if a < b {
        lemma_pow2_strictly_increases(a, b);
    } else if b < a {
        lemma_pow2_strictly_increases(b, a);
    }
}

proof fn lemma_next_rotation_index_bounds(input: Seq<u32>, log_modulus: nat, from: int, count: int)
    requires
        0 <= from <= count,
    ensures
        from <= next_rotation_index(input, log_modulus, from, count) <= count,
        next_rotation_index(input, log_modulus, from, count) < count ==> modulus_switch_spec(
            input[next_rotation_index(input, log_modulus, from, count)],
            log_modulus,
        ) != 0,
    decreases count - from,
{
    if from < count && modulus_switch_spec(input[from], log_modulus) == 0 {
        lemma_next_rotation_index_bounds(input, log_modulus, from + 1, count);
    }
}

impl NativePbsContext {
    /// The blind-rotation input of the evaluation in progress.
    pub closed spec fn rotation_input(&self) -> Seq<u32> {
        self.switched_input@.subrange(0, self.parameters.input_dimension + 1)
    }

    /// The accumulator of the evaluation in progress.
    pub closed spec fn active_state(&self) -> Seq<u32> {
        if self.active_a {
            self.state_a@
        } else {
            self.state_b@
        }
    }

    /// The mask index whose external product the evaluation waits for.
    pub closed spec fn pending(&self) -> Option<nat> {
        if self.awaiting_product {
            Some(self.rotation_position as nat)
        } else {
            None
        }
    }

    /// The decomposed digits handed to the next external product.
    pub closed spec fn digits_view(&self) -> Seq<u32> {
        self.digits@
    }

    /// The result of the last completed evaluation.
    pub closed spec fn output_view(&self) -> Seq<u32> {
        if self.parameters.order == 0 {
            self.extracted@
        } else {
            self.ksk_result@
        }
    }

    /// Every encrypted control has been converted.
    pub open spec fn ready_spec(&self) -> bool {
        forall|i: int| 0 <= i < self.controls_view().len() ==> #[trigger] self.controls_view()[i]
    }

    /// The shape of this context.
    pub fn parameters(&self) -> (p: PbsParameters)
        ensures
            p == self.params(),
    {
        self.parameters
    }

    /// The number of coefficients of one encrypted control.
    pub fn control_coefficient_count(&self) -> (count: usize)
        requires
            self.wf(),
        ensures
            count == self.params().control_coefficient_count(),
    {
        proof {
            self.lemma_sizes();
        }
        let p = self.parameters;
        (p.pbs_level * (p.glwe_dimension + 1)) * (p.glwe_dimension + 1) * p.polynomial_size
    }

    /// The number of coefficients of the whole coefficient bootstrapping key.
    pub fn coefficient_count(&self) -> (count: usize)
        requires
            self.wf(),
        ensures
            count == self.params().coefficient_count(),
    {
        proof {
            self.lemma_sizes();
        }
        let p = self.parameters;
        p.input_dimension * (p.pbs_level * (p.glwe_dimension + 1)) * (p.glwe_dimension + 1)
            * p.polynomial_size
    }

    /// The number of words of the key-switching key.
    pub fn ksk_count(&self) -> (count: usize)
        requires
            self.wf(),
        ensures
            count == self.params().ksk_count(),
    {
        self.ksk.len()
    }

    /// The decomposed digits for the pending external product.
    pub fn digits(&self) -> (digits: &[u32])
        ensures
            digits@ == self.digits_view(),
    {
        self.digits.as_slice()
    }

    /// The result of the last completed evaluation.
    pub fn output(&self) -> (output: &[u32])
        ensures
            output@ == self.output_view(),
    {
        if self.parameters.order == 0 {
            self.extracted.as_slice()
        } else {
            self.ksk_result.as_slice()
        }
    }

    proof fn lemma_sizes(&self)
        requires
            self.wf(),
        ensures
            self.params().columns() * self.params().polynomial_size <= self.params().digit_count()
                * self.params().polynomial_size,
            self.params().control_coefficient_count() <= self.params().coefficient_count(),
            self.params().digit_count() >= 2,
            self.params().coefficient_count() <= MAX_BUFFER_LEN,
            self.params().digit_count() * self.params().polynomial_size <= MAX_BUFFER_LEN,
            self.params().polynomial_size >= 2,
            self.params().columns() <= self.params().digit_count(),
            self.params().digit_count() <= self.params().digit_count() * self.params().columns(),
            self.params().digit_count() * self.params().columns() <= self.params().control_coefficient_count(),
            self.params().input_dimension * self.params().digit_count() <= self.params().input_dimension
                * self.params().digit_count() * self.params().columns(),
            self.params().input_dimension * self.params().digit_count() * self.params().columns()
                <= self.params().coefficient_count(),
            self.params().input_dimension + 1 <= usize::MAX,
    {
        let p = self.parameters;
        let e = choose|k: nat| 1 <= k <= 31 && pow2(k) == p.polynomial_size;
        lemma_pow2_strictly_increases(0, e);
        lemma2_to64();
        assert(p.digit_count() >= 2) by (nonlinear_arith)
            requires
                p.pbs_level >= 1,
                p.columns() >= 2,
                p.digit_count() == p.pbs_level * p.columns(),
        ;
        assert(p.columns() * p.polynomial_size <= p.digit_count() * p.polynomial_size) by (nonlinear_arith)
            requires
                p.pbs_level >= 1,
                p.columns() >= 2,
                p.polynomial_size >= 0,
                p.digit_count() == p.pbs_level * p.columns(),
        ;
        assert(p.columns() <= p.digit_count()) by (nonlinear_arith)
            requires
                p.pbs_level >= 1,
                p.columns() >= 2,
                p.digit_count() == p.pbs_level * p.columns(),
        ;
        assert(p.digit_count() <= p.digit_count() * p.columns()) by (nonlinear_arith)
            requires
                p.digit_count() >= 2,
                p.columns() >= 2,
        ;
        assert(p.digit_count() * p.columns() <= p.control_coefficient_count()) by (nonlinear_arith)
            requires
                p.digit_count() >= 2,
                p.columns() >= 2,
                p.polynomial_size >= 2,
                p.control_coefficient_count() == p.digit_count() * p.columns() * p.polynomial_size,
        ;
        assert(p.input_dimension * p.digit_count() <= p.input_dimension * p.digit_count() * p.columns())
            by (nonlinear_arith)
            requires
                p.digit_count() >= 2,
                p.columns() >= 2,
                p.input_dimension >= 1,
        ;
        assert(p.input_dimension * p.digit_count() * p.columns() <= p.coefficient_count()) by (nonlinear_arith)
            requires
                p.digit_count() >= 2,
                p.columns() >= 2,
                p.input_dimension >= 1,
                p.polynomial_size >= 2,
                p.coefficient_count() == p.input_dimension * p.digit_count() * p.columns()
                    * p.polynomial_size,
        ;
        assert(8 * p.input_dimension <= p.coefficient_count()) by (nonlinear_arith)
            requires
                p.digit_count() >= 2,
                p.columns() >= 2,
                p.input_dimension >= 1,
                p.polynomial_size >= 2,
                p.coefficient_count() == p.input_dimension * p.digit_count() * p.columns()
                    * p.polynomial_size,
        ;
        assert(p.control_coefficient_count() <= p.coefficient_count()) by (nonlinear_arith)
            requires
                p.input_dimension >= 1,
                p.control_coefficient_count() >= 0,
                p.control_coefficient_count() == p.digit_count() * p.columns() * p.polynomial_size,
                p.coefficient_count() == p.input_dimension * p.digit_count() * p.columns()
                    * p.polynomial_size,
        {
            assert(p.coefficient_count() == p.input_dimension * p.control_coefficient_count());
        }
    }

    /// Records that encrypted control `index` is being converted, after
    /// checking that it exists, has not been converted yet, and that
    /// `coefficients` has the length of one control. Returns whether it was
    /// accepted; the Fourier conversion of an accepted control follows.
    pub fn set_control(&mut self, index: usize, coefficients: &[u32]) -> (accepted: bool)
        requires
            old(self).wf(),
        ensures
            final(self).wf(),
            final(self).params() == old(self).params(),
            final(self).ksk_view() == old(self).ksk_view(),
            accepted == (index < old(self).params().input_dimension && !old(self).controls_view()[index as int]
                && coefficients@.len() == old(self).params().control_coefficient_count()),
            accepted ==> final(self).controls_view() == old(self).controls_view().update(index as int, true),
            !accepted ==> final(self).controls_view() == old(self).controls_view(),
    {
        if index >= self.parameters.input_dimension || self.initialized_controls[index]
            || coefficients.len() != self.control_coefficient_count() {
            return false;
        }
        self.initialized_controls.set(index, true);
        true
    }

    /// Whether every encrypted control has been converted.
    pub fn ready(&self) -> (ready: bool)
        requires
            self.wf(),
        ensures
            ready == self.ready_spec(),
    {
        let mut index: usize = 0;
        while index < self.initialized_controls.len()
            invariant
                index <= self.initialized_controls@.len(),
                self.initialized_controls@ == self.controls_view(),
                forall|i: int| 0 <= i < index ==> #[trigger] self.controls_view()[i],
            decreases self.initialized_controls@.len() - index,
        {
            if !self.initialized_controls[index] {
                return false;
            }
            index += 1;
        }
        true
    }

    /// The length of an evaluation input.
    pub fn input_size(&self) -> (size: usize)
        requires
            self.wf(),
        ensures
            size == self.params().input_size(),
    {
        proof {
            self.lemma_sizes();
        }
        if self.parameters.order == 0 {
            self.parameters.ksk_input_dimension + 1
        } else {
            self.parameters.input_dimension + 1
        }
    }

    /// The length of an evaluation output.
    pub fn output_size(&self) -> (size: usize)
        requires
            self.wf(),
        ensures
            size == self.params().output_size(),
    {
        proof {
            self.lemma_sizes();
        }
        if self.parameters.order == 0 {
            self.parameters.ksk_input_dimension + 1
        } else {
            self.parameters.ksk_output_dimension + 1
        }
    }

    /// Copies the key-switching key into `output`, which must have exactly
    /// its length.
    pub fn export_ksk(&self, output: &mut [u32]) -> (ok: bool)
        requires
            self.wf(),
        ensures
            ok == (old(output)@.len() == self.ksk_view().len()),
            ok ==> final(output)@ == self.ksk_view(),
            !ok ==> final(output)@ == old(output)@,
    {
        if output.len() != self.ksk.len() {
            return false;
        }
        let mut index: usize = 0;
        while index < output.len()
            invariant
                output@.len() == self.ksk@.len(),
                index <= output@.len(),
                forall|i: int| 0 <= i < index ==> #[trigger] output@[i] == self.ksk@[i],
            decreases output@.len() - index,
        {
            output[index] = self.ksk[index];
            index += 1;
        }
        assert(output@ =~= self.ksk@);
        true
    }
}

/// Writes `a - b` elementwise modulo `2^32` into `output`.
fn sub_into(a: &[u32], b: &[u32], output: &mut Vec<u32>)
    requires
        a@.len() == b@.len(),
        old(output)@.len() == a@.len(),
    ensures
        final(output)@ == torus_sub_seq(a@, b@),
{
    let mut index: usize = 0;
    while index < a.len()
        invariant
            a@.len() == b@.len(),
            output@.len() == a@.len(),
            index <= a@.len(),
            forall|i: int| 0 <= i < index ==> #[trigger] output@[i] == torus(a@[i] - b@[i]),
        decreases a@.len() - index,
    {
        proof {
            lemma_wrapping_ops(a@[index as int], b@[index as int]);
        }
        output.set(index, a[index].wrapping_sub(b[index]));
        index += 1;
    }
    assert(output@ =~= torus_sub_seq(a@, b@));
}

/// Writes `a + b` elementwise modulo `2^32` into `output`.
fn add_into(a: &[u32], b: &[u32], output: &mut Vec<u32>)
    requires
        a@.len() == b@.len(),
        old(output)@.len() == a@.len(),
    ensures
        final(output)@ == torus_add_seq(a@, b@),
{
    let mut index: usize = 0;
    while index < a.len()
        invariant
            a@.len() == b@.len(),
            output@.len() == a@.len(),
            index <= a@.len(),
            forall|i: int| 0 <= i < index ==> #[trigger] output@[i] == torus(a@[i] + b@[i]),
        decreases a@.len() - index,
    {
        proof {
            lemma_wrapping_ops(a@[index as int], b@[index as int]);
        }
        output.set(index, a[index].wrapping_add(b[index]));
        index += 1;
    }
    assert(output@ =~= torus_add_seq(a@, b@));
}

/// Copies `source` into the start of `target`.
fn copy_prefix(source: &[u32], target: &mut Vec<u32>)
    requires
        source@.len() <= old(target)@.len(),
    ensures
        final(target)@.len() == old(target)@.len(),
        final(target)@.subrange(0, source@.len() as int) == source@,
{
    let mut index: usize = 0;
    while index < source.len()
        invariant
            source@.len() <= target@.len(),
            target@.len() == old(target)@.len(),
            index <= source@.len(),
            forall|i: int| 0 <= i < index ==> #[trigger] target@[i] == source@[i],
        decreases source@.len() - index,
    {
        target.set(index, source[index]);
        index += 1;
    }
    assert(target@.subrange(0, source@.len() as int) =~= source@);
}

/// Saturates a nanosecond count to `u64`.
fn saturate_nanos(nanos: u128) -> (saturated: u64)
    ensures
        saturated == (if nanos > u64::MAX {
            u64::MAX as int
        } else {
            nanos as int
        }),
{
    if nanos > u64::MAX as u128 {
        u64::MAX
    } else {
        nanos as u64
    }
}

impl NativePbsContext {
    /// `log2(N) + 1` for the context's polynomial size.
    fn log_modulus(&self) -> (log: usize)
        requires
            self.wf(),
        ensures
            log == rotation_log_modulus(self.params()),
            2 <= log <= 32,
    {
        let ghost e = choose|k: nat| 1 <= k <= 31 && pow2(k) == self.parameters.polynomial_size as nat;
        let log = polynomial_log2(self.parameters.polynomial_size);
        proof {
            assert(1 <= e <= 31 && pow2(e) == self.parameters.polynomial_size);
        }
        match log {
            Some(k) => {
                proof {
                    lemma_pow2_injective(k as nat, e);
                }
                k + 1
            },
            None => {
                proof {
                    assert(pow2(e) != self.parameters.polynomial_size);
                }
                0
            },
        }
    }

    /// Runs the blind rotation from the current mask index: skips the mask
    /// coefficients that switch to zero, then either prepares the digits of
    /// the next external product or, when no index is left, extracts the
    /// result (and key-switches it for order 1).
    fn advance(&mut self, log_modulus: usize) -> (action: PbsAction)
        requires
            old(self).wf(),
            !old(self).awaiting_product,
            log_modulus == rotation_log_modulus(old(self).params()),
            2 <= log_modulus <= 32,
        ensures
            final(self).wf(),
            final(self).params() == old(self).params(),
            final(self).ksk_view() == old(self).ksk_view(),
            final(self).controls_view() == old(self).controls_view(),
            final(self).rotation_input() == old(self).rotation_input(),
            advance_outcome(
                old(self).params(),
                old(self).ksk_view(),
                old(self).rotation_input(),
                old(self).active_state(),
                old(self).rotation_position as int,
                action,
                final(self).pending(),
                final(self).active_state(),
                final(self).digits_view(),
                final(self).output_view(),
                final(self).stage_values()[2],
            ),
    {
        let ghost initial = *self;
        let ghost p = self.parameters;
        let ghost input = self.rotation_input();
        let ghost active = self.active_state();
        proof {
            self.lemma_sizes();
            lemma_next_rotation_index_bounds(input, log_modulus as nat, self.rotation_position as int, p.input_dimension as int);
        }
        let n = self.parameters.polynomial_size;
        let dimension = self.parameters.input_dimension;
        while self.rotation_position < dimension
            invariant
                self.wf(),
                !self.awaiting_product,
                initial == *old(self),
                p == initial.parameters,
                input == initial.rotation_input(),
                active == initial.active_state(),
                self.parameters == p,
                self.ksk@ == initial.ksk@,
                self.initialized_controls@ == initial.initialized_controls@,
                self.rotation_input() == input,
                self.active_state() == active,
                self.active_a == initial.active_a,
                n == p.polynomial_size,
                dimension == p.input_dimension,
                log_modulus == rotation_log_modulus(p),
                2 <= log_modulus <= 32,
                next_rotation_index(input, log_modulus as nat, initial.rotation_position as int, dimension as int)
                    == next_rotation_index(input, log_modulus as nat, self.rotation_position as int, dimension as int),
            decreases dimension - self.rotation_position,
        {
            let position = self.rotation_position;
            let switched = modulus_switch(self.switched_input[position], log_modulus);
            proof {
                assert(input[position as int] == self.switched_input@[position as int]);
            }
            if switched != 0 {
                proof {
                    self.lemma_sizes();
                    lemma_mod_multiples_basic(p.columns(), n as int);
                    lemma_mul_is_commutative(p.columns(), n as int);
                }
                let rotation = -(switched as i64);
                if self.active_a {
                    rotate_negacyclic(&self.state_a, n, rotation, &mut self.rotated);
                    sub_into(&self.rotated, &self.state_a, &mut self.difference);
                } else {
                    rotate_negacyclic(&self.state_b, n, rotation, &mut self.rotated);
                    sub_into(&self.rotated, &self.state_b, &mut self.difference);
                }
                let columns = self.parameters.glwe_dimension + 1;
                let decomposed = decompose_glwe(
                    &self.difference,
                    columns,
                    n,
                    self.parameters.pbs_base_log,
                    self.parameters.pbs_level,
                    &mut self.decomposition_digits,
                    &mut self.digits,
                );
                if !decomposed {
                    self.awaiting_product = false;
                    return PbsAction::Finished(FFT_INVALID_SIZE);
                }
                self.awaiting_product = true;
                self.product_started = instant_now();
                return PbsAction::ExternalProduct(position);
            }
            self.rotation_position = position + 1;
        }
        self.last_external_product_ns = saturate_nanos(self.external_product_nanos);
        self.last_external_product_count = self.external_product_count;
        self.last_blind_rotation_ns = elapsed_nanos(&self.rotation_started);
        let extraction_started = instant_now();
        proof {
            self.lemma_sizes();
            lemma_mod_multiples_basic(p.glwe_dimension as int, n as int);
            lemma_mul_is_commutative(p.glwe_dimension as int, n as int);
            assert(p.glwe_size() == p.ksk_input_dimension + n) by (nonlinear_arith)
                requires
                    p.glwe_size() == (p.glwe_dimension + 1) * n,
                    p.ksk_input_dimension == p.glwe_dimension * n,
            ;
        }
        let mask_size = self.parameters.ksk_input_dimension;
        proof {
            assert(next_rotation_index(input, log_modulus as nat, dimension as int, dimension as int) == dimension);
            assert(mask_size >= 2) by (nonlinear_arith)
                requires
                    mask_size == p.glwe_dimension * n,
                    p.glwe_dimension >= 1,
                    n >= 2,
            ;
        }
        if self.active_a {
            sample_extract(&self.state_a, n, mask_size, &mut self.extracted);
        } else {
            sample_extract(&self.state_b, n, mask_size, &mut self.extracted);
        }
        self.last_sample_extraction_ns = elapsed_nanos(&extraction_started);
        assert(self.extracted@ == sample_extract_spec(active, n as int, mask_size as int));
        if self.parameters.order == 0 {
            return PbsAction::Finished(FFT_OK);
        }
        let key_switch_started = instant_now();
        let switched = key_switch(
            &self.ksk,
            &self.extracted,
            mask_size,
            self.parameters.ksk_output_dimension,
            self.parameters.ksk_base_log,
            self.parameters.ksk_level,
            &mut self.decomposition_digits,
            &mut self.ksk_result,
        );
        self.last_key_switch_ns = elapsed_nanos(&key_switch_started);
        if switched {
            PbsAction::Finished(FFT_OK)
        } else {
            PbsAction::Finished(FFT_INVALID_SIZE)
        }
    }
}

impl NativePbsContext {
    /// Starts evaluating the lookup table `accumulator` (a GLWE ciphertext)
    /// on `input`, whose result will have `output_len` words. For order 0
    /// the input is key-switched first; the blind rotation then starts from
    /// `X^(switch(b)) * accumulator`, `b` being the body of the rotation
    /// input. Fails when a control is missing, a length does not match the
    /// shape, or the gadget of a key switch cannot be decomposed.
    pub fn begin(&mut self, input: &[u32], accumulator: &[u32], output_len: usize) -> (action: PbsAction)
        requires
            old(self).wf(),
        ensures
            final(self).wf(),
            final(self).params() == old(self).params(),
            final(self).ksk_view() == old(self).ksk_view(),
            final(self).controls_view() == old(self).controls_view(),
            ({
                let p = old(self).params();
                let sizes_match = input@.len() == p.input_size() && output_len == p.output_size()
                    && accumulator@.len() == p.glwe_size();
                let rotation_input = if p.order == 0 {
                    key_switch_spec(
                        old(self).ksk_view(),
                        input@,
                        p.ksk_input_dimension as nat,
                        p.ksk_output_dimension as nat,
                        p.ksk_base_log as nat,
                        p.ksk_level as nat,
                    )
                } else {
                    input@
                };
                if !old(self).ready_spec() || !sizes_match || (p.order == 0 && !decomposable(
                    p.ksk_base_log as nat,
                    p.ksk_level as nat,
                )) {
                    action == PbsAction::Finished(FFT_INVALID_SIZE) && final(self).pending() is None
                } else {
                    &&& final(self).rotation_input() == rotation_input
                    &&& advance_outcome(
                        p,
                        old(self).ksk_view(),
                        rotation_input,
                        rotate_negacyclic_spec(
                            accumulator@,
                            p.polynomial_size as int,
                            modulus_switch_spec(
                                rotation_input[p.input_dimension as int],
                                rotation_log_modulus(p),
                            ),
                        ),
                        0,
                        action,
                        final(self).pending(),
                        final(self).active_state(),
                        final(self).digits_view(),
                        final(self).output_view(),
                        final(self).stage_values()[2],
                    )
                }
            }),
    {
        self.awaiting_product = false;
        if !self.ready() {
            assert(!self.ready_spec());
            assert(self.controls_view() == old(self).controls_view());
            assert(!old(self).ready_spec());
            assert(self.pending() is None);
            return PbsAction::Finished(FFT_INVALID_SIZE);
        }
        if input.len() != self.input_size() || output_len != self.output_size() || accumulator.len()
            != self.state_a.len() {
            return PbsAction::Finished(FFT_INVALID_SIZE);
        }
        proof {
            self.lemma_sizes();
        }
        let log_modulus = self.log_modulus();
        let dimension = self.parameters.input_dimension;
        self.external_product_nanos = 0;
        self.external_product_count = 0;
        self.rotation_position = 0;
        if self.parameters.order == 0 {
            let key_switch_started = instant_now();
            proof {
                assert(self.parameters.ksk_input_dimension >= 2) by (nonlinear_arith)
                    requires
                        self.parameters.ksk_input_dimension == self.parameters.glwe_dimension
                            * self.parameters.polynomial_size,
                        self.parameters.glwe_dimension >= 1,
                        self.parameters.polynomial_size >= 2,
                ;
            }
            let switched = key_switch(
                &self.ksk,
                input,
                self.parameters.ksk_input_dimension,
                self.parameters.ksk_output_dimension,
                self.parameters.ksk_base_log,
                self.parameters.ksk_level,
                &mut self.decomposition_digits,
                &mut self.ksk_result,
            );
            self.last_key_switch_ns = elapsed_nanos(&key_switch_started);
            if !switched {
                return PbsAction::Finished(FFT_INVALID_SIZE);
            }
            copy_prefix(&self.ksk_result, &mut self.switched_input);
        } else {
            copy_prefix(input, &mut self.switched_input);
        }
        self.rotation_started = instant_now();
        proof {
            lemma_mod_multiples_basic(self.parameters.glwe_dimension as int + 1, self.parameters.polynomial_size as int);
            lemma_mul_is_commutative(self.parameters.glwe_dimension as int + 1, self.parameters.polynomial_size as int);
        }
        assert(self.rotation_input() == (if self.parameters.order == 0 {
            key_switch_spec(
                old(self).ksk_view(),
                input@,
                self.parameters.ksk_input_dimension as nat,
                self.parameters.ksk_output_dimension as nat,
                self.parameters.ksk_base_log as nat,
                self.parameters.ksk_level as nat,
            )
        } else {
            input@
        }));
        let body = modulus_switch(self.switched_input[dimension], log_modulus);
        rotate_negacyclic(accumulator, self.parameters.polynomial_size, body as i64, &mut self.state_a);
        self.active_a = true;
        self.rotation_position = 0;
        self.advance(log_modulus)
    }

    /// Continues the evaluation with the external product that was asked
    /// for: the product plus the current accumulator becomes the
    /// accumulator, and the rotation moves to the next mask index. Fails
    /// when no product was pending or `product` is not one GLWE ciphertext.
    pub fn resume(&mut self, product: &[u32]) -> (action: PbsAction)
        requires
            old(self).wf(),
        ensures
            final(self).wf(),
            final(self).params() == old(self).params(),
            final(self).ksk_view() == old(self).ksk_view(),
            final(self).controls_view() == old(self).controls_view(),
            ({
                let p = old(self).params();
                match old(self).pending() {
                    Some(j) => if product@.len() == p.glwe_size() {
                        &&& final(self).rotation_input() == old(self).rotation_input()
                        &&& advance_outcome(
                            p,
                            old(self).ksk_view(),
                            old(self).rotation_input(),
                            torus_add_seq(product@, old(self).active_state()),
                            j + 1int,
                            action,
                            final(self).pending(),
                            final(self).active_state(),
                            final(self).digits_view(),
                            final(self).output_view(),
                            final(self).stage_values()[2],
                        )
                    } else {
                        action == PbsAction::Finished(FFT_INVALID_SIZE) && final(self).pending() is None
                    },
                    None => action == PbsAction::Finished(FFT_INVALID_SIZE) && final(self).pending()
                        is None,
                }
            }),
    {
        if !self.awaiting_product || product.len() != self.state_a.len() {
            self.awaiting_product = false;
            return PbsAction::Finished(FFT_INVALID_SIZE);
        }
        self.awaiting_product = false;
        if self.active_a {
            add_into(product, &self.state_a, &mut self.state_b);
        } else {
            add_into(product, &self.state_b, &mut self.state_a);
        }
        let product_nanos = duration_nanos(&instant_elapsed(&self.product_started));
        self.external_product_nanos = self.external_product_nanos.saturating_add(product_nanos);
        self.external_product_count = self.external_product_count + 1;
        self.active_a = !self.active_a;
        self.rotation_position = self.rotation_position + 1;
        let log_modulus = self.log_modulus();
        self.advance(log_modulus)
    }
}

/// Bytes of the integer workspace of a context: the eight `u32` buffers,
/// the `i32` decomposition digits and one byte per control flag.
pub open spec fn integer_workspace_bytes(p: PbsParameters) -> int {
    (4 * p.glwe_size() + p.digit_count() * p.polynomial_size + (p.ksk_input_dimension + 1) + (
    p.ksk_output_dimension + 1) + p.switched_size()) * 4 + p.decomposition_size() * 4
        + p.input_dimension
}

/// Bytes of the Fourier workspace of a context whose FFT needs
/// `fft_scratch_len` scratch values: the plan's two twist tables (`N`
/// complex values each) and the scratch (`2N + fft_scratch_len +
/// digit_count * N/2 + N/2` complex values of 16 bytes, three `i64` and one
/// `u32` per coefficient).
pub open spec fn fourier_workspace_bytes(p: PbsParameters, fft_scratch_len: int) -> int {
    let n = p.polynomial_size as int;
    2 * n * 16 + (2 * n + fft_scratch_len + p.digit_count() * (n / 2) + n / 2) * 16 + n * 28
}

/// `value` capped at `usize::MAX`.
pub open spec fn saturate_usize(value: int) -> int {
    if value > usize::MAX {
        usize::MAX as int
    } else {
        value
    }
}

impl NativePbsContext {
    /// The last stage timings and the number of external products of the
    /// last blind rotation: key switching, external products, product
    /// count, blind rotation, sample extraction.
    pub closed spec fn stage_values(&self) -> Seq<u64> {
        seq![
            self.last_key_switch_ns,
            self.last_external_product_ns,
            self.last_external_product_count,
            self.last_blind_rotation_ns,
            self.last_sample_extraction_ns,
        ]
    }

    /// Stage metric `metric` (see `stage_values`), or 0 for an unknown one.
    pub fn stage_metric(&self, metric: u32) -> (value: u64)
        ensures
            value == (if metric < 5 {
                self.stage_values()[metric as int]
            } else {
                0
            }),
    {
        match metric {
            0 => self.last_key_switch_ns,
            1 => self.last_external_product_ns,
            2 => self.last_external_product_count,
            3 => self.last_blind_rotation_ns,
            4 => self.last_sample_extraction_ns,
            _ => 0,
        }
    }

    /// Bytes of the Fourier bootstrapping key: `N/2` complex values of 16
    /// bytes per polynomial.
    pub fn fourier_key_bytes(&self) -> (bytes: usize)
        requires
            self.wf(),
        ensures
            bytes == self.params().coefficient_count() * 8,
    {
        proof {
            self.lemma_sizes();
        }
        self.coefficient_count() * 8
    }

    /// Bytes of the key-switching key.
    pub fn ksk_bytes(&self) -> (bytes: usize)
        requires
            self.wf(),
        ensures
            bytes == self.params().ksk_count() * 4,
    {
        self.ksk.len() * 4
    }

    /// Bytes of the workspace, the FFT needing `fft_scratch_len` scratch
    /// values; capped at `usize::MAX`.
    pub fn workspace_bytes(&self, fft_scratch_len: usize) -> (bytes: usize)
        requires
            self.wf(),
        ensures
            bytes == saturate_usize(
                fourier_workspace_bytes(self.params(), fft_scratch_len as int)
                    + integer_workspace_bytes(self.params()),
            ),
    {
        proof {
            self.lemma_sizes();
        }
        let total = self.workspace_total(fft_scratch_len);
        if total > usize::MAX as u128 {
            usize::MAX
        } else {
            total as usize
        }
    }

    fn workspace_total(&self, fft_scratch_len: usize) -> (total: u128)
        requires
            self.wf(),
        ensures
            total == fourier_workspace_bytes(self.params(), fft_scratch_len as int)
                + integer_workspace_bytes(self.params()),
    {
        proof {
            self.lemma_sizes();
        }
        let p = self.parameters;
        let n = p.polynomial_size as u128;
        let half = n / 2;
        let digit_count = (p.pbs_level * (p.glwe_dimension + 1)) as u128;
        let glwe = self.state_a.len() as u128;
        let digits = self.digits.len() as u128;
        proof {
            assert(digit_count * half <= digit_count * n) by (nonlinear_arith)
                requires
                    half <= n,
                    digit_count >= 0,
            ;
        }
        let fourier = 2 * n * 16 + (2 * n + fft_scratch_len as u128 + digit_count * half + half) * 16
            + n * 28;
        let integer = (4 * glwe + digits + self.extracted.len() as u128 + self.ksk_result.len() as u128
            + self.switched_input.len() as u128) * 4 + self.decomposition_digits.len() as u128 * 4
            + self.initialized_controls.len() as u128;
        fourier + integer
    }

    /// Bytes held by the context: Fourier key, key-switching key and
    /// workspace; capped at `usize::MAX`.
    pub fn resident_bytes(&self, fft_scratch_len: usize) -> (bytes: usize)
        requires
            self.wf(),
        ensures
            bytes == saturate_usize(
                self.params().coefficient_count() * 8 + self.params().ksk_count() * 4
                    + saturate_usize(
                    fourier_workspace_bytes(self.params(), fft_scratch_len as int)
                        + integer_workspace_bytes(self.params()),
                ),
            ),
    {
        let key = self.fourier_key_bytes();
        let ksk = self.ksk_bytes();
        let workspace = self.workspace_bytes(fft_scratch_len);
        key.saturating_add(ksk).saturating_add(workspace)
    }

    /// Memory metric `metric`: 0 resident bytes, 1 Fourier key, 2
    /// key-switching key, 3 workspace; 0 for an unknown metric.
    pub fn memory_metric(&self, metric: u32, fft_scratch_len: usize) -> (bytes: usize)
        requires
            self.wf(),
        ensures
            bytes == (match metric {
                0 => saturate_usize(
                    self.params().coefficient_count() * 8 + self.params().ksk_count() * 4
                        + saturate_usize(
                        fourier_workspace_bytes(self.params(), fft_scratch_len as int)
                            + integer_workspace_bytes(self.params()),
                    ),
                ),
                1 => self.params().coefficient_count() * 8,
                2 => self.params().ksk_count() * 4,
                3 => saturate_usize(
                    fourier_workspace_bytes(self.params(), fft_scratch_len as int)
                        + integer_workspace_bytes(self.params()),
                ),
                _ => 0,
            }),
    {
        match metric {
            0 => self.resident_bytes(fft_scratch_len),
            1 => self.fourier_key_bytes(),
            2 => self.ksk_bytes(),
            3 => self.workspace_bytes(fft_scratch_len),
            _ => 0,
        }
    }
}

/// `a * b * c * d` when it fits in `usize` (the last two factors are
/// positive, so the partial products never exceed the whole one).
fn checked_product_of(a: usize, b: usize, c: usize, d: usize) -> (product: Option<usize>)
    requires
        c >= 1,
        d >= 1,
    ensures
        product is Some <==> a * b * c * d <= usize::MAX,
        product matches Some(value) ==> value == a * b * c * d,
{
    proof {
        lemma_mul_nonnegative(a as int, b as int);
        lemma_mul_nonnegative(a * b, c as int);
        assert(a * b * c * d >= a * b * c >= a * b) by (nonlinear_arith)
            requires
                c >= 1,
                d >= 1,
                a * b >= 0,
        ;
    }
    let ab = match a.checked_mul(b) {
        Some(value) => value,
        None => {
            return None;
        },
    };
    let abc = match ab.checked_mul(c) {
        Some(value) => value,
        None => {
            return None;
        },
    };
    abc.checked_mul(d)
}

} // verus!
