use moontfhe_native::pbs::{NativePbsContext, PbsAction, FFT_INVALID_SIZE, FFT_OK};

/// Runs an evaluation, answering every external product with `product`
/// (which is what a key of zeros gives: the product is zero) and copying the
/// result into `output`. Returns the status and the controls asked for.
fn evaluate(
    context: &mut NativePbsContext,
    input: &[u32],
    accumulator: &[u32],
    output: &mut [u32],
    product: &[u32],
) -> (i32, Vec<usize>) {
    let mut asked = Vec::new();
    let mut action = context.begin(input, accumulator, output.len());
    loop {
        match action {
            PbsAction::ExternalProduct(index) => {
                asked.push(index);
                action = context.resume(product);
            }
            PbsAction::Finished(status) => {
                if status == FFT_OK {
                    output.copy_from_slice(context.output());
                }
                return (status, asked);
            }
        }
    }
}

fn set_all_controls(context: &mut NativePbsContext, input_dimension: usize, control_size: usize) {
    let control = vec![0u32; control_size];
    for index in 0..input_dimension {
        assert!(context.set_control(index, &control));
    }
}

#[test]
fn native_pbs_context_evaluates_and_exports_without_secret_material() {
    let polynomial_size = 8usize;
    let input_dimension = 2usize;
    let glwe_dimension = 1usize;
    let pbs_level = 8usize;
    let columns = glwe_dimension + 1;
    let coefficient_count = input_dimension * pbs_level * columns * columns * polynomial_size;
    let ksk_input_dimension = glwe_dimension * polynomial_size;
    let ksk_output_dimension = input_dimension;
    let ksk_level = 8usize;
    let ksk_count = ksk_input_dimension * ksk_level * (ksk_output_dimension + 1);
    let ksk = vec![0u32; ksk_count];
    let mut context = NativePbsContext::new_empty(
        polynomial_size as u32,
        input_dimension as u32,
        glwe_dimension as u32,
        4,
        pbs_level as u32,
        ksk_input_dimension as u32,
        ksk_output_dimension as u32,
        4,
        ksk_level as u32,
        1,
        &ksk,
    )
    .unwrap();
    assert_eq!(context.coefficient_count(), coefficient_count);
    let control_size = context.control_coefficient_count();
    set_all_controls(&mut context, input_dimension, control_size);
    let mut input = vec![0u32; input_dimension + 1];
    input[0] = 0x2000_0000;
    let mut accumulator = vec![0u32; columns * polynomial_size];
    accumulator[glwe_dimension * polynomial_size] = 0x2000_0000;
    let mut output = vec![0u32; ksk_output_dimension + 1];
    let zero_product = vec![0u32; columns * polynomial_size];
    let (status, asked) = evaluate(&mut context, &input, &accumulator, &mut output, &zero_product);
    assert_eq!(status, FFT_OK);
    assert_eq!(asked, vec![0]);
    assert!(context.stage_metric(0) > 0);
    assert!(context.stage_metric(1) > 0);
    assert!(context.stage_metric(2) > 0);
    assert!(context.stage_metric(3) > 0);
    assert!(context.stage_metric(4) > 0);
    assert_eq!(output, vec![0, 0, 0x2000_0000]);
    let (status, _) = evaluate(&mut context, &input, &accumulator, &mut output, &zero_product);
    assert_eq!(status, FFT_OK);
    let mut restored_ksk = vec![0u32; ksk_count];
    assert!(context.export_ksk(&mut restored_ksk));
    assert_eq!(restored_ksk, ksk);
    assert!(context.resident_bytes(0) > coefficient_count * std::mem::size_of::<u32>());
}

#[test]
fn native_pbs_context_streams_controls_without_a_coefficient_bsk() {
    let polynomial_size = 32usize;
    let input_dimension = 3usize;
    let glwe_dimension = 1usize;
    let pbs_level = 4usize;
    let columns = glwe_dimension + 1;
    let control_size = pbs_level * columns * columns * polynomial_size;
    let ksk_input_dimension = glwe_dimension * polynomial_size;
    let ksk_output_dimension = input_dimension;
    let ksk_level = 4usize;
    let ksk = vec![0u32; ksk_input_dimension * ksk_level * (ksk_output_dimension + 1)];
    let mut context = NativePbsContext::new_empty(
        polynomial_size as u32,
        input_dimension as u32,
        glwe_dimension as u32,
        8,
        pbs_level as u32,
        ksk_input_dimension as u32,
        ksk_output_dimension as u32,
        8,
        ksk_level as u32,
        1,
        &ksk,
    )
    .unwrap();
    assert!(!context.ready());
    let input = vec![0u32; input_dimension + 1];
    let accumulator = vec![0u32; columns * polynomial_size];
    let mut output = vec![0u32; ksk_output_dimension + 1];
    let zero_product = vec![0u32; columns * polynomial_size];
    assert_eq!(
        evaluate(&mut context, &input, &accumulator, &mut output, &zero_product).0,
        FFT_INVALID_SIZE
    );
    let control = vec![0u32; control_size];
    for index in 0..input_dimension {
        assert!(context.set_control(index, &control));
        assert!(!context.set_control(index, &control));
    }
    assert!(context.ready());
    assert_eq!(
        evaluate(&mut context, &input, &accumulator, &mut output, &zero_product).0,
        FFT_OK
    );
}

fn small_context(order: u32, ksk: &[u32]) -> Option<NativePbsContext> {
    NativePbsContext::new_empty(8, 2, 1, 4, 8, 8, 2, 4, 8, order, ksk)
}

#[test]
fn invalid_shapes_are_refused() {
    let ksk = vec![0u32; 8 * 8 * 3];
    assert!(small_context(1, &ksk).is_some());
    assert!(small_context(0, &ksk).is_some());
    assert!(small_context(2, &ksk).is_none());
    assert!(small_context(1, &ksk[1..]).is_none());
    // polynomial size not a power of two, or too small
    assert!(NativePbsContext::new_empty(12, 2, 1, 4, 8, 12, 2, 4, 8, 1, &vec![0u32; 12 * 8 * 3]).is_none());
    assert!(NativePbsContext::new_empty(1, 2, 1, 4, 8, 1, 2, 4, 8, 1, &vec![0u32; 8 * 3]).is_none());
    // empty dimensions or gadgets
    assert!(NativePbsContext::new_empty(8, 0, 1, 4, 8, 8, 0, 4, 8, 1, &vec![0u32; 8 * 8]).is_none());
    assert!(NativePbsContext::new_empty(8, 2, 0, 4, 8, 0, 2, 4, 8, 1, &[]).is_none());
    assert!(NativePbsContext::new_empty(8, 2, 1, 0, 8, 8, 2, 4, 8, 1, &ksk).is_none());
    assert!(NativePbsContext::new_empty(8, 2, 1, 4, 8, 8, 2, 0, 8, 1, &ksk).is_none());
    // gadgets wider than 32 bits
    assert!(NativePbsContext::new_empty(8, 2, 1, 5, 8, 8, 2, 4, 8, 1, &ksk).is_none());
    assert!(NativePbsContext::new_empty(8, 2, 1, 4, 8, 8, 2, 5, 8, 1, &ksk).is_none());
    // key-switching dimensions that do not connect the keys
    assert!(NativePbsContext::new_empty(8, 2, 1, 4, 8, 9, 2, 4, 8, 1, &vec![0u32; 9 * 8 * 3]).is_none());
    assert!(NativePbsContext::new_empty(8, 2, 1, 4, 8, 8, 3, 4, 8, 1, &vec![0u32; 8 * 8 * 4]).is_none());
}

#[test]
fn controls_are_accepted_once_each_with_the_right_length() {
    let ksk = vec![0u32; 8 * 8 * 3];
    let mut context = small_context(1, &ksk).unwrap();
    let size = context.control_coefficient_count();
    assert_eq!(size, 8 * 2 * 2 * 8);
    assert!(!context.set_control(2, &vec![0u32; size]));
    assert!(!context.set_control(0, &vec![0u32; size - 1]));
    assert!(!context.ready());
    assert!(context.set_control(1, &vec![0u32; size]));
    assert!(!context.ready());
    assert!(!context.set_control(1, &vec![0u32; size]));
    assert!(context.set_control(0, &vec![0u32; size]));
    assert!(context.ready());
}

#[test]
fn sizes_follow_the_order() {
    let ksk = vec![0u32; 8 * 8 * 3];
    let bootstrap_first = small_context(1, &ksk).unwrap();
    assert_eq!(bootstrap_first.input_size(), 3);
    assert_eq!(bootstrap_first.output_size(), 3);
    let switch_first = small_context(0, &ksk).unwrap();
    assert_eq!(switch_first.input_size(), 9);
    assert_eq!(switch_first.output_size(), 9);
    assert_eq!(switch_first.ksk_count(), 192);
    assert_eq!(switch_first.coefficient_count(), 512);
}

#[test]
fn the_external_product_is_added_to_the_accumulator() {
    let ksk = vec![0u32; 8 * 8 * 3];
    let mut context = small_context(1, &ksk).unwrap();
    let size = context.control_coefficient_count();
    set_all_controls(&mut context, 2, size);
    let input = [0x2000_0000u32, 0, 0];
    let mut accumulator = vec![0u32; 16];
    accumulator[8] = 0x2000_0000;
    let product = vec![1u32; 16];
    let mut output = vec![0u32; 3];
    let mut action = context.begin(&input, &accumulator, 3);
    assert_eq!(action, PbsAction::ExternalProduct(0));
    assert_eq!(context.digits().len(), 8 * 2 * 8);
    action = context.resume(&product);
    assert_eq!(action, PbsAction::Finished(FFT_OK));
    output.copy_from_slice(context.output());
    assert_eq!(output, vec![0, 0, 0x2000_0001]);
    assert_eq!(context.stage_metric(2), 1);
    // a second resume has nothing to continue
    assert_eq!(context.resume(&product), PbsAction::Finished(FFT_INVALID_SIZE));
}

#[test]
fn a_product_of_the_wrong_length_ends_the_evaluation() {
    let ksk = vec![0u32; 8 * 8 * 3];
    let mut context = small_context(1, &ksk).unwrap();
    let size = context.control_coefficient_count();
    set_all_controls(&mut context, 2, size);
    let input = [0u32, 0x2000_0000, 0];
    let accumulator = vec![0u32; 16];
    assert_eq!(context.begin(&input, &accumulator, 3), PbsAction::ExternalProduct(1));
    assert_eq!(context.resume(&[0u32; 15]), PbsAction::Finished(FFT_INVALID_SIZE));
}

#[test]
fn key_switching_first_extracts_the_rotated_accumulator() {
    let ksk = vec![0u32; 8 * 8 * 3];
    let mut context = small_context(0, &ksk).unwrap();
    let size = context.control_coefficient_count();
    set_all_controls(&mut context, 2, size);
    let input = vec![0x1234_5678u32; 9];
    let accumulator: Vec<u32> = (1..=16).collect();
    let mut output = vec![0u32; 9];
    // The key-switching key is zero, so the switched mask is zero and the
    // switched body is 0x1234_5678, which rotates the accumulator by
    // X^(switch(0x1234_5678)) = X^1.
    let zero_product = vec![0u32; 16];
    let (status, asked) = evaluate(&mut context, &input, &accumulator, &mut output, &zero_product);
    assert_eq!(status, FFT_OK);
    assert!(asked.is_empty());
    assert_eq!(context.stage_metric(2), 0);
    // X * accumulator: the mask becomes [-8, 1, ..., 7] and the body
    // [-16, 9, ..., 15]; extraction reads the mask backwards, negated.
    let mut expected = vec![8u32.wrapping_neg()];
    for f in 1..8u32 {
        expected.push((8 - f).wrapping_neg());
    }
    expected.push(16u32.wrapping_neg());
    assert_eq!(output, expected);
}

#[test]
fn mismatched_lengths_are_refused() {
    let ksk = vec![0u32; 8 * 8 * 3];
    let mut context = small_context(1, &ksk).unwrap();
    let size = context.control_coefficient_count();
    set_all_controls(&mut context, 2, size);
    let accumulator = vec![0u32; 16];
    assert_eq!(context.begin(&[0u32; 2], &accumulator, 3), PbsAction::Finished(FFT_INVALID_SIZE));
    assert_eq!(context.begin(&[0u32; 3], &accumulator, 2), PbsAction::Finished(FFT_INVALID_SIZE));
    assert_eq!(context.begin(&[0u32; 3], &accumulator[1..], 3), PbsAction::Finished(FFT_INVALID_SIZE));
    assert_eq!(context.begin(&[0u32; 3], &accumulator, 3), PbsAction::Finished(FFT_OK));
}

#[test]
fn metrics_report_sizes_and_unknown_metrics_are_zero() {
    let ksk = vec![0u32; 8 * 8 * 3];
    let context = small_context(1, &ksk).unwrap();
    assert_eq!(context.memory_metric(1, 0), 4096);
    assert_eq!(context.memory_metric(2, 0), 768);
    assert_eq!(context.memory_metric(3, 0), 2710);
    assert_eq!(context.memory_metric(0, 0), 4096 + 768 + 2710);
    assert_eq!(context.memory_metric(3, 10), 2710 + 160);
    assert_eq!(context.memory_metric(4, 0), 0);
    assert_eq!(context.fourier_key_bytes(), 4096);
    assert_eq!(context.ksk_bytes(), 768);
    assert_eq!(context.stage_metric(2), 0);
    assert_eq!(context.stage_metric(5), 0);
    let mut wrong = vec![0u32; 191];
    assert!(!context.export_ksk(&mut wrong));
}
