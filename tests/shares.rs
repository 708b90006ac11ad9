use rand::{thread_rng, Rng};
use shamir::{add_shares, create_shares, modulo, reconstruct, share_polynomial, Polynomial, Share, ShareError, P};

fn share(x: i64, y: i64, threshold: i64) -> Share {
    Share { x, y, threshold, id: String::new() }
}

#[test]
fn test_polynomial_impl() {
    assert_eq!(0, 0);
}

#[test]
fn test_share_and_reconstruct() {
    let mut secret = 100;
    let mut shares = create_shares(secret, 3, 3).unwrap();
    let mut recons = reconstruct(&shares).unwrap();
    assert_eq!(secret, recons);

    secret = 60;
    shares = create_shares(secret, 8, 4).unwrap();
    println!("{:?}", shares);
    recons = reconstruct(&shares).unwrap();
    assert_eq!(secret, recons);

    let mut rng = thread_rng();
    let a: i64 = rng.gen_range(0, P);
    shares = create_shares(a, 10, 10).unwrap();
    recons = reconstruct(&shares).unwrap();
    assert_eq!(a, recons);
}

#[test]
fn test_add_shares() {
    let mut rng = thread_rng();
    let a: i64 = rng.gen_range(0, P);
    let b: i64 = rng.gen_range(0, P);
    let s1 = create_shares(a, 5, 5).unwrap();
    let s2 = create_shares(b, 5, 5).unwrap();

    let result = modulo(a + b, P);
    let c = add_shares(&s1, &s2).unwrap();
    let recons = reconstruct(&c).unwrap();
    assert_eq!(result, recons);
}

#[test]
fn eval_at_point_of_explicit_polynomial() {
    // 3 + 2x + x^2
    let poly = Polynomial::new(vec![3, 2, 1]);
    assert_eq!(poly.degree, 2);
    assert_eq!(poly.eval_at_point(0), 3);
    assert_eq!(poly.eval_at_point(2), 11);
    assert_eq!(poly.eval_at_point(-1), 2);
    assert_eq!(poly.eval_at_point(P), 3);
    // 1 + 65412 x at 2 is 1 + 2 * (P - 1) == P - 1 in the field
    assert_eq!(Polynomial::new(vec![1, P - 1]).eval_at_point(2), P - 1);
}

#[test]
fn random_polynomial_keeps_intercept_and_degree() {
    let poly = Polynomial::new_random_poly(77, 4);
    assert_eq!(poly.degree, 4);
    assert_eq!(poly.coefficients.len(), 5);
    assert_eq!(poly.coefficients[0], 77);
    assert!(poly.coefficients[1..].iter().all(|&c| 0 <= c && c < P));
    assert_eq!(poly.eval_at_point(0), 77);
}

#[test]
fn shares_of_explicit_polynomial() {
    let poly = Polynomial::new(vec![2, 1, 1]);
    let shares = share_polynomial(&poly, 3, 3);
    let points: Vec<(i64, i64, i64)> = shares.iter().map(|s| (s.x, s.y, s.threshold)).collect();
    assert_eq!(points, vec![(1, 4, 3), (2, 8, 3), (3, 14, 3)]);
    assert_eq!(reconstruct(&shares), Ok(2));
}

#[test]
fn reconstruct_scenario_hundred_three_of_three() {
    let shares = create_shares(100, 3, 3).unwrap();
    assert_eq!(shares.len(), 3);
    assert_eq!(reconstruct(&shares), Ok(100));
}

#[test]
fn reconstruct_any_four_of_eight() {
    let shares = create_shares(60, 8, 4).unwrap();
    let n = shares.len();
    for a in 0..n {
        for b in a + 1..n {
            for c in b + 1..n {
                for d in c + 1..n {
                    let subset: Vec<Share> = [a, b, c, d]
                        .iter()
                        .map(|&i| share(shares[i].x, shares[i].y, shares[i].threshold))
                        .collect();
                    assert_eq!(reconstruct(&subset), Ok(60));
                }
            }
        }
    }
}

#[test]
fn reconstruct_all_shares_for_edge_secrets() {
    for secret in [0, 1, P - 1] {
        let shares = create_shares(secret, 6, 2).unwrap();
        assert_eq!(reconstruct(&shares), Ok(secret));
    }
    let shares = create_shares(5, 1, 1).unwrap();
    assert_eq!(shares[0].y, 5);
    assert_eq!(reconstruct(&shares), Ok(5));
}

#[test]
fn create_shares_rejects_invalid_parameters() {
    assert_eq!(create_shares(5, 3, 0).unwrap_err(), ShareError::InvalidParameters);
    assert_eq!(create_shares(5, 3, 4).unwrap_err(), ShareError::InvalidParameters);
    assert_eq!(create_shares(-1, 3, 2).unwrap_err(), ShareError::InvalidParameters);
    assert_eq!(create_shares(P, 3, 2).unwrap_err(), ShareError::InvalidParameters);
    assert_eq!(create_shares(5, P, 2).unwrap_err(), ShareError::InvalidParameters);
    assert!(create_shares(5, P - 1, 1).is_ok());
}

#[test]
fn reconstruct_errors() {
    assert_eq!(reconstruct(&vec![]), Err(ShareError::InsufficientShares));
    assert_eq!(reconstruct(&vec![share(1, 5, 2)]), Err(ShareError::InsufficientShares));
    assert_eq!(reconstruct(&vec![share(1, 5, 0)]), Err(ShareError::InvalidParameters));
    assert_eq!(
        reconstruct(&vec![share(1, 5, 2), share(1, 7, 2)]),
        Err(ShareError::DegenerateInverse)
    );
}

#[test]
fn add_shares_scenario_five_hundred_and_seven_hundred() {
    let s1 = create_shares(500, 5, 5).unwrap();
    let s2 = create_shares(700, 5, 5).unwrap();
    let c = add_shares(&s1, &s2).unwrap();
    assert_eq!(reconstruct(&c), Ok(1200 % P));
}

#[test]
fn add_shares_wraps_around_the_modulus() {
    let s1 = create_shares(P - 1, 4, 3).unwrap();
    let s2 = create_shares(2, 4, 3).unwrap();
    let c = add_shares(&s1, &s2).unwrap();
    assert_eq!(reconstruct(&c), Ok(1));
}

#[test]
fn add_shares_sums_y_in_the_field() {
    let c = add_shares(&vec![share(1, P - 1, 1)], &vec![share(1, 3, 1)]).unwrap();
    assert_eq!((c[0].x, c[0].y, c[0].threshold), (1, 2, 1));
}

#[test]
fn add_shares_errors() {
    let a = vec![share(1, 1, 2), share(2, 2, 2)];
    assert_eq!(add_shares(&a, &vec![share(1, 1, 2)]).unwrap_err(), ShareError::LengthMismatch);
    let wrong_x = vec![share(1, 1, 2), share(3, 2, 2)];
    assert_eq!(add_shares(&a, &wrong_x).unwrap_err(), ShareError::CoordinateMismatch);
    let wrong_t = vec![share(1, 1, 3), share(2, 2, 2)];
    assert_eq!(add_shares(&a, &wrong_t).unwrap_err(), ShareError::CoordinateMismatch);
}

#[test]
fn share_add_checks_coordinates() {
    let s = share(4, 10, 3);
    let t = share(4, 20, 3);
    let sum = s.add(&t).unwrap();
    assert_eq!((sum.x, sum.y, sum.threshold), (4, 30, 3));
    assert_eq!(s.add(&share(5, 20, 3)).unwrap_err(), ShareError::CoordinateMismatch);
    assert_eq!(s.add(&share(4, 20, 2)).unwrap_err(), ShareError::CoordinateMismatch);
}
