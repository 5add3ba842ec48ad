use moontfhe_native::torus::{
    checked_product, modulus_switch, polynomial_log2, signed_gadget_decompose_into,
};

#[test]
fn modulus_switch_rounds_to_nearest() {
    assert_eq!(modulus_switch(0x2000_0000, 4), 2);
    assert_eq!(modulus_switch(0x8000_0000, 1), 1);
    assert_eq!(modulus_switch(0xFFFF_FFFF, 4), 0);
    assert_eq!(modulus_switch(0x0800_0000, 5), 1);
    assert_eq!(modulus_switch(0x07FF_FFFF, 5), 1);
    assert_eq!(modulus_switch(0x1234_5678, 11), 146);
    assert_eq!(modulus_switch(0xFFFF_FFFF, 32), 0xFFFF_FFFF);
    assert_eq!(modulus_switch(5, 0), 0);
}

#[test]
fn checked_product_stops_on_overflow() {
    assert_eq!(checked_product(&[2, 3, 4]), Some(24));
    assert_eq!(checked_product(&[]), Some(1));
    assert_eq!(checked_product(&[usize::MAX, 2]), None);
    assert_eq!(checked_product(&[0, usize::MAX, 2]), Some(0));
    assert_eq!(checked_product(&[usize::MAX, 2, 0]), None);
}

#[test]
fn polynomial_log2_accepts_powers_of_two_from_two() {
    assert_eq!(polynomial_log2(0), None);
    assert_eq!(polynomial_log2(1), None);
    assert_eq!(polynomial_log2(2), Some(1));
    assert_eq!(polynomial_log2(12), None);
    assert_eq!(polynomial_log2(1024), Some(10));
    assert_eq!(polynomial_log2(1 << 31), Some(31));
}

fn decompose(value: u32, base_log: usize, level: usize) -> Option<Vec<i32>> {
    let mut digits = vec![0i32; level];
    if signed_gadget_decompose_into(value, base_log, &mut digits) {
        Some(digits)
    } else {
        None
    }
}

#[test]
fn gadget_digits_are_signed_and_most_significant_first() {
    assert_eq!(decompose(0x2000_0000, 4, 2), Some(vec![2, 0]));
    assert_eq!(decompose(0xF000_0000, 4, 2), Some(vec![-1, 0]));
    assert_eq!(decompose(0x0880_0000, 4, 2), Some(vec![1, -7]));
    assert_eq!(decompose(0x80FF_0001, 8, 4), Some(vec![-127, -1, 0, 1]));
    assert_eq!(decompose(0x7FFF_FFFF, 8, 4), Some(vec![-128, 0, 0, -1]));
    assert_eq!(decompose(0xFFFF_FFFF, 4, 8), Some(vec![0, 0, 0, 0, 0, 0, 0, -1]));
    assert_eq!(
        decompose(0x1234_5678, 3, 10),
        Some(vec![1, -3, -4, 3, 2, 1, 3, -1, -4, -2])
    );
}

#[test]
fn gadget_decomposition_recomposes_the_rounded_value() {
    for &(base_log, level) in &[(4usize, 8usize), (8, 4), (3, 10), (7, 3), (10, 2)] {
        let total = base_log * level;
        for step in 0..200u32 {
            let value = step.wrapping_mul(0x9E37_79B9) ^ 0x5A5A_0F0F;
            let digits = decompose(value, base_log, level).unwrap();
            let half = 1i64 << (base_log - 1);
            let mut sum = 0i64;
            for (index, digit) in digits.iter().enumerate() {
                assert!(-half <= *digit as i64 && (*digit as i64) < half);
                sum += (*digit as i64) << (32 - base_log * (index + 1));
            }
            let discarded = 32 - total;
            let rounded = if discarded == 0 {
                value
            } else {
                let kept = value.wrapping_add(1u32 << (discarded - 1)) >> discarded;
                kept.checked_shl(discarded as u32).unwrap_or(0)
            };
            assert_eq!(sum as u32, rounded);
        }
    }
}

#[test]
fn invalid_gadgets_leave_digits_untouched() {
    let mut digits = [9i32, 9];
    assert!(!signed_gadget_decompose_into(7, 0, &mut digits));
    assert!(!signed_gadget_decompose_into(7, 31, &mut digits));
    assert!(!signed_gadget_decompose_into(7, 17, &mut digits));
    assert_eq!(digits, [9, 9]);
    let mut empty: [i32; 0] = [];
    assert!(!signed_gadget_decompose_into(7, 4, &mut empty));
    let mut five = [0i32; 5];
    assert!(!signed_gadget_decompose_into(7, 8, &mut five));
    assert_eq!(five, [0; 5]);
}
