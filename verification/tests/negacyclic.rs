use moontfhe_native::negacyclic::{limb, recombine_limbs, rotate_negacyclic, Limb};

fn rotate(input: &[u32], n: usize, rotation: i64) -> Vec<u32> {
    let mut output = vec![0u32; input.len()];
    assert!(rotate_negacyclic(input, n, rotation, &mut output));
    output
}

#[test]
fn rotation_multiplies_by_a_power_of_x() {
    let p = [1u32, 2, 3, 4];
    assert_eq!(rotate(&p, 4, 0), vec![1, 2, 3, 4]);
    assert_eq!(rotate(&p, 4, 1), vec![4u32.wrapping_neg(), 1, 2, 3]);
    assert_eq!(rotate(&p, 4, -1), vec![2, 3, 4, 1u32.wrapping_neg()]);
    assert_eq!(
        rotate(&p, 4, 4),
        vec![
            1u32.wrapping_neg(),
            2u32.wrapping_neg(),
            3u32.wrapping_neg(),
            4u32.wrapping_neg()
        ]
    );
    assert_eq!(rotate(&p, 4, 8), vec![1, 2, 3, 4]);
    assert_eq!(rotate(&p, 4, -8), vec![1, 2, 3, 4]);
    assert_eq!(rotate(&p, 4, 9), rotate(&p, 4, 1));
}

#[test]
fn rotation_acts_on_every_polynomial() {
    let p = [1u32, 2, 3, 10, 20, 30];
    assert_eq!(
        rotate(&p, 3, 2),
        vec![2u32.wrapping_neg(), 3u32.wrapping_neg(), 1, 20u32.wrapping_neg(), 30u32.wrapping_neg(), 10]
    );
}

#[test]
fn rotations_compose() {
    let p: Vec<u32> = (0..16u32).map(|i| i.wrapping_mul(0x9E37_79B9)).collect();
    for a in -20i64..20 {
        for b in [-7i64, 0, 3, 8, 15] {
            assert_eq!(rotate(&rotate(&p, 8, a), 8, b), rotate(&p, 8, a + b));
        }
    }
}

#[test]
fn malformed_rotations_are_rejected() {
    let input = [1u32, 2, 3, 4];
    let mut output = [7u32; 4];
    assert!(!rotate_negacyclic(&input, 0, 1, &mut output));
    assert!(!rotate_negacyclic(&input, 3, 1, &mut output));
    let mut short = [7u32; 3];
    assert!(!rotate_negacyclic(&input, 4, 1, &mut short));
    assert_eq!(output, [7; 4]);
    assert_eq!(short, [7; 3]);
    let empty: [u32; 0] = [];
    let mut empty_output: [u32; 0] = [];
    assert!(rotate_negacyclic(&empty, 4, 1, &mut empty_output));
}

#[test]
fn limbs_split_a_coefficient() {
    assert_eq!(limb(0x1234_5678, Limb::Low), 0x5678);
    assert_eq!(limb(0x1234_5678, Limb::High), 0x1234);
    assert_eq!(limb(u32::MAX, Limb::Low), 0xFFFF);
    assert_eq!(limb(u32::MAX, Limb::High), 0xFFFF);
}

#[test]
fn limb_recombination_wraps_modulo_two_to_the_32() {
    assert_eq!(recombine_limbs(1, 0, 0), 1);
    assert_eq!(recombine_limbs(0, 1, 1), 0x2_0000);
    assert_eq!(recombine_limbs(-1, 0, 0), u32::MAX);
    assert_eq!(recombine_limbs(0, 0x8000, 0x8000), 0);
    assert_eq!(recombine_limbs(5, -1, 0), 5u32.wrapping_sub(0x1_0000));
}

fn reference(lhs: &[u32], rhs: &[u32]) -> Vec<u32> {
    let n = lhs.len();
    let mut output = vec![0u32; n];
    for i in 0..n {
        for j in 0..n {
            let product = lhs[i].wrapping_mul(rhs[j]);
            let index = i + j;
            if index < n {
                output[index] = output[index].wrapping_add(product);
            } else {
                output[index - n] = output[index - n].wrapping_sub(product);
            }
        }
    }
    output
}

/// The exact integer negacyclic convolution of two limb polynomials, which
/// the Fourier backend computes in floating point and rounds.
fn limb_convolution(lhs: &[u32], lhs_limb: Limb, rhs: &[u32], rhs_limb: Limb) -> Vec<i64> {
    let n = lhs.len();
    let mut output = vec![0i64; n];
    for i in 0..n {
        for j in 0..n {
            let product = limb(lhs[i], lhs_limb) as i64 * limb(rhs[j], rhs_limb) as i64;
            let index = i + j;
            if index < n {
                output[index] += product;
            } else {
                output[index - n] -= product;
            }
        }
    }
    output
}

#[test]
fn limb_split_products_match_reference() {
    for &n in &[8usize, 32, 512, 1024] {
        let lhs: Vec<u32> = (0..n)
            .map(|index| (index as u32).wrapping_mul(0x9E37_79B9) ^ 0x8000_0001)
            .collect();
        let rhs: Vec<u32> = (0..n)
            .map(|index| (index as u32).wrapping_mul(0x85EB_CA6B) ^ 0xFFFF_0001)
            .collect();
        let low_low = limb_convolution(&lhs, Limb::Low, &rhs, Limb::Low);
        let low_high = limb_convolution(&lhs, Limb::Low, &rhs, Limb::High);
        let high_low = limb_convolution(&lhs, Limb::High, &rhs, Limb::Low);
        let output: Vec<u32> = (0..n)
            .map(|index| recombine_limbs(low_low[index], low_high[index], high_low[index]))
            .collect();
        assert_eq!(output, reference(&lhs, &rhs), "N={n}");
    }
}
