use shamir::{egcd, interpolate_at_zero, mod_exp, mod_inverse, modulo, ShareError, P};

#[test]
fn test_modulo() {
    assert_eq!(modulo(3, 2), 1);
    assert_eq!(modulo(-1, 65413), 65412);
}

#[test]
fn modulo_stays_in_range_for_negative_values() {
    assert_eq!(modulo(-7, 3), 2);
    assert_eq!(modulo(-6, 3), 0);
    assert_eq!(modulo(i64::MIN, P), ((i64::MIN as i128).rem_euclid(P as i128)) as i64);
    assert_eq!(modulo(i64::MAX, i64::MAX), 0);
}

#[test]
fn test_modular_exp() {
    let p = P;
    assert_eq!(mod_exp(2, 0, p), 1);
    assert_eq!(mod_exp(2, 4, p), 16);
    assert_eq!(mod_exp(2, 6, 31), 2);
    assert_eq!(mod_exp(3, 4, 31), 19);
}

#[test]
fn mod_exp_zero_exponent_is_one() {
    assert_eq!(mod_exp(0, 0, 2), 1);
    assert_eq!(mod_exp(-5, 0, P), 1);
    assert_eq!(mod_exp(123456, 0, 7), 1);
}

#[test]
fn mod_exp_reduces_large_and_negative_bases() {
    assert_eq!(mod_exp(-1, 3, P), P - 1);
    assert_eq!(mod_exp(P + 2, 10, P), 1024);
    // Fermat: a^(P-1) == 1 in the field
    assert_eq!(mod_exp(12345, P - 1, P), 1);
}

#[test]
fn test_egcd() {
    assert_eq!(egcd(30, 50), (10, 2, -1));
    assert_eq!(egcd(12, 8), (4, 1, -1));
    assert_eq!(egcd(4, 11), (1, 3, -1));
    assert_eq!(egcd(1, 1), (1, 1, 0));
}

#[test]
fn egcd_of_zero_is_degenerate_triple() {
    assert_eq!(egcd(0, 9), (9, 0, 1));
    assert_eq!(egcd(0, 0), (0, 0, 1));
}

#[test]
fn test_mod_inverse() {
    assert_eq!(mod_inverse(4, 11), Ok(3));
}

#[test]
fn mod_inverse_is_reduced_into_range() {
    // egcd(2, 5) gives the coefficient -2; the inverse is 3
    assert_eq!(mod_inverse(2, 5), Ok(3));
    assert_eq!(mod_inverse(-4, 11), Ok(8));
}

#[test]
fn mod_inverse_of_multiple_of_modulus_is_degenerate() {
    assert_eq!(mod_inverse(0, P), Err(ShareError::DegenerateInverse));
    assert_eq!(mod_inverse(2 * P, P), Err(ShareError::DegenerateInverse));
    assert_eq!(mod_inverse(6, 9), Err(ShareError::DegenerateInverse));
}

#[test]
fn mod_inverse_times_value_is_one_in_the_field() {
    for x in [1i64, 2, 3, 1000, 65412] {
        let v = mod_inverse(x, P).unwrap();
        assert!(0 <= v && v < P);
        assert_eq!(modulo(v * x, P), 1);
    }
}

#[test]
fn test_interpolate() {
    assert_eq!(interpolate_at_zero(vec![1, 2], vec![2, 4], 1), Ok(0));
    assert_eq!(interpolate_at_zero(vec![1, 2, 3], vec![3, 6, 11], 2), Ok(2));
}

#[test]
fn interpolate_errors() {
    assert_eq!(
        interpolate_at_zero(vec![1, 2], vec![2], 1),
        Err(ShareError::LengthMismatch)
    );
    assert_eq!(
        interpolate_at_zero(vec![1, 2], vec![2, 4], 2),
        Err(ShareError::InsufficientShares)
    );
    assert_eq!(
        interpolate_at_zero(vec![1, 1], vec![2, 4], 1),
        Err(ShareError::DegenerateInverse)
    );
    assert_eq!(
        interpolate_at_zero(vec![1, 1 + P], vec![2, 4], 1),
        Err(ShareError::DegenerateInverse)
    );
}

#[test]
fn interpolate_single_point_is_its_value() {
    assert_eq!(interpolate_at_zero(vec![5], vec![42], 0), Ok(42));
    assert_eq!(interpolate_at_zero(vec![5], vec![P + 42], 0), Ok(42));
}

#[test]
fn interpolate_is_linear_in_y() {
    let xs = vec![3, 7, 11];
    let ya = vec![10, 20, 30];
    let yb = vec![P - 5, 4, 100];
    let yc: Vec<i64> = ya.iter().zip(yb.iter()).map(|(a, b)| modulo(a + b, P)).collect();
    let a = interpolate_at_zero(xs.clone(), ya, 2).unwrap();
    let b = interpolate_at_zero(xs.clone(), yb, 2).unwrap();
    assert_eq!(interpolate_at_zero(xs, yc, 2), Ok(modulo(a + b, P)));
}
