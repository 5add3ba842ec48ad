use moontfhe_native::fourier_layout::{
    batch_layout, convolution_terms_len, external_product_accepts_shapes, fourier_spectrum_count,
    negacyclic_product_status, scratch_bytes, spectrum_offset,
};
use moontfhe_native::pbs::{FFT_INVALID_SIZE, FFT_OK};

#[test]
fn malformed_lengths_are_rejected() {
    assert_eq!(negacyclic_product_status(8, 8, 7, 8, 8), FFT_INVALID_SIZE);
}

#[test]
fn product_shapes_must_all_match_the_plan() {
    assert_eq!(negacyclic_product_status(8, 8, 8, 8, 8), FFT_OK);
    assert_eq!(negacyclic_product_status(8, 8, 8, 9, 8), FFT_INVALID_SIZE);
    assert_eq!(negacyclic_product_status(8, 8, 8, 8, 16), FFT_INVALID_SIZE);
    assert_eq!(negacyclic_product_status(8, 16, 8, 8, 8), FFT_INVALID_SIZE);
}

#[test]
fn scratch_size_counts_complex_and_integer_buffers() {
    assert_eq!(scratch_bytes(8, 0, 1, 1), (16 + 4 + 4) * 16 + 8 * 28);
    assert_eq!(scratch_bytes(1024, 1024, 16, 2), (2048 + 1024 + 16 * 512 + 512) * 16 + 1024 * 28);
    assert_eq!(scratch_bytes(8, 0, 0, 1), 0);
    assert_eq!(scratch_bytes(8, 0, 1, 0), 0);
    assert_eq!(scratch_bytes(usize::MAX / 2, 0, 1, 1), 0);
}

#[test]
fn spectra_are_laid_out_control_digit_output() {
    assert_eq!(spectrum_offset(0, 0, 0, 2, 2, 2, 8), 0);
    assert_eq!(spectrum_offset(0, 0, 1, 2, 2, 2, 8), 4);
    assert_eq!(spectrum_offset(0, 1, 0, 2, 2, 2, 8), 8);
    assert_eq!(spectrum_offset(1, 1, 1, 2, 2, 2, 8), 28);
    assert_eq!(fourier_spectrum_count(4, 2, 2, 2), Some(32));
    assert_eq!(fourier_spectrum_count(4, 0, 2, 2), None);
    assert_eq!(fourier_spectrum_count(4, 2, 2, 0), None);
    assert_eq!(fourier_spectrum_count(4, usize::MAX, 2, 1), None);
}

#[test]
fn external_product_shapes_are_checked() {
    assert!(external_product_accepts_shapes(8, 2, 2, 2, 8, 2, 2, 1, 16, 16));
    assert!(!external_product_accepts_shapes(8, 2, 2, 2, 16, 2, 2, 1, 16, 16));
    assert!(!external_product_accepts_shapes(8, 2, 2, 2, 8, 2, 2, 2, 16, 16));
    assert!(!external_product_accepts_shapes(8, 2, 2, 2, 8, 1, 2, 1, 16, 16));
    assert!(!external_product_accepts_shapes(8, 2, 2, 2, 8, 2, 1, 1, 16, 16));
    assert!(!external_product_accepts_shapes(8, 2, 2, 2, 8, 2, 2, 1, 15, 16));
    assert!(!external_product_accepts_shapes(8, 2, 2, 2, 8, 2, 2, 1, 16, 17));
}

#[test]
fn batches_hold_whole_products() {
    assert_eq!(batch_layout(2, 2, 8, 3, 48, 48), Some((16, 16)));
    assert_eq!(batch_layout(2, 2, 8, 3, 47, 48), None);
    assert_eq!(batch_layout(2, 2, 8, 0, 0, 0), None);
    assert_eq!(batch_layout(2, 2, 8, usize::MAX, usize::MAX, usize::MAX), Some((16, 16)));
    assert_eq!(batch_layout(usize::MAX, 2, 8, 1, 0, 16), None);
}

#[test]
fn convolution_terms_need_a_term_and_a_matching_scratch() {
    assert_eq!(convolution_terms_len(8, 8, 3), Some(24));
    assert_eq!(convolution_terms_len(8, 8, 0), None);
    assert_eq!(convolution_terms_len(8, 16, 3), None);
}
