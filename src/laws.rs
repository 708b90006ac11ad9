//! Laws of the field arithmetic and of share algebra, proved over the contracts' models.
use vstd::arithmetic::div_mod::*;
use vstd::prelude::*;

use crate::utils::{
    degenerate, fe, gcd, repeated_x, interpolation_at_zero, inverse, invertible, lagrange_num, lagrange_den, lagrange_sum,
    lemma_p_prime,
};
use crate::{aligned, sum_of_shares, xs_of, ys_of, Share, P};

verus! {

/// Bezout coefficients `(x, y)` with `b * x + n * y == gcd(b, n)`, by Euclid's reduction.
pub open spec fn bezout(b: nat, n: nat) -> (int, int)
    decreases b,
{
    if b == 0 {
        (0, 1)
    } else {
        let (x, y) = bezout(n % b, b);
        (y - (n / b) * x, x)
    }
}

/// Bezout's identity for `bezout`.
pub proof fn lemma_bezout(b: nat, n: nat)
    ensures
        b * bezout(b, n).0 + n * bezout(b, n).1 == gcd(b, n),
    decreases b,
{
    if b != 0 {
        let r = n % b;
        let q = n / b;
        lemma_bezout(r, b);
        lemma_fundamental_div_mod(n as int, b as int);
        let (x, y) = bezout(r, b);
        assert(b * (y - q * x) + n * x == r * x + b * y) by (nonlinear_arith)
            requires
                n == b * q + r,
        ;
    }
}

/// A value coprime to the modulus, once reduced, has an inverse.
pub proof fn lemma_coprime_invertible(t: int, m: int)
    requires
        m > 1,
        gcd((t % m) as nat, m as nat) == 1,
    ensures
        invertible(t, m),
{
    let red = t % m;
    lemma_bezout(red as nat, m as nat);
    let (x, y) = bezout(red as nat, m as nat);
    let v = x % m;
    lemma_mul_mod_noop_general(t, x, m);
    lemma_mul_mod_noop_general(red, x, m);
    assert(red * x == 1 + m * (-y)) by (nonlinear_arith)
        requires
            red * x + m * y == 1,
    ;
    lemma_mod_multiples_vanish(-y, 1, m);
    lemma_small_mod(1nat, m as nat);
    assert((t * v) % m == 1int % m);
}

/// Every non-zero element of the field has an inverse, and the inverse times the element
/// is one in the field.
pub proof fn lemma_inverse_in_field(x: int)
    requires
        1 <= x < P,
    ensures
        gcd((x % (P as int)) as nat, P as nat) == 1,
        invertible(x, P as int),
        (inverse(x, P as int) * x) % (P as int) == 1,
{
    lemma_small_mod(x as nat, P as nat);
    lemma_p_prime(x);
    lemma_coprime_invertible(x, P as int);
    lemma_small_mod(1nat, P as nat);
    let v = inverse(x, P as int);
    assert(v * x == x * v) by (nonlinear_arith);
}

/// The field has no zero divisors: a product of non-zero elements is non-zero.
pub proof fn lemma_field_no_zero_divisors(a: int, b: int)
    requires
        fe(a) != 0,
        fe(b) != 0,
    ensures
        fe(a * b) != 0,
{
    let m = P as int;
    lemma_mod_bound(a, m);
    lemma_mod_twice(a, m);
    lemma_p_prime(fe(a));
    lemma_coprime_invertible(a, m);
    let v = choose|v: int| 0 <= v < m && #[trigger] ((a * v) % m) == 1int % m;
    lemma_small_mod(1nat, m as nat);
    if fe(a * b) == 0 {
        lemma_mul_mod_noop_right(v, a * b, m);
        assert(v * 0 == 0);
        lemma_small_mod(0nat, m as nat);
        assert(v * (a * b) == (a * v) * b) by (nonlinear_arith);
        lemma_mul_mod_noop_left(a * v, b, m);
        assert(1 * b == b);
    }
}

/// Two values are equal in the field exactly when their difference is zero there.
pub proof fn lemma_fe_sub_zero(a: int, b: int)
    ensures
        fe(a - b) == 0 <==> fe(a) == fe(b),
{
    let m = P as int;
    lemma_sub_mod_noop(a, b, m);
    lemma_mod_bound(a, m);
    lemma_mod_bound(b, m);
    let d = fe(a) - fe(b);
    if d >= 0 {
        lemma_small_mod(d as nat, m as nat);
    } else {
        lemma_fundamental_div_mod_converse_mod(d, m, -1, d + m);
    }
}

/// The Lagrange denominator of point `i` over the first `j` points vanishes exactly when one of
/// those points other than `i` has the x-coordinate of `i` in the field.
proof fn lemma_den_zero(xs: Seq<i64>, i: int, j: int)
    requires
        0 <= i < xs.len(),
        0 <= j <= xs.len(),
    ensures
        0 <= lagrange_den(xs, i, j) < P,
        lagrange_den(xs, i, j) == 0 <==> exists|l: int|
            0 <= l < j && l != i && #[trigger] fe(xs[l] as int) == fe(xs[i] as int),
    decreases j,
{
    if j > 0 {
        lemma_den_zero(xs, i, j - 1);
        let l = j - 1;
        if l != i {
            let d = lagrange_den(xs, i, l);
            let e = xs[i] - xs[l];
            lemma_mod_bound(d * e, P as int);
            lemma_fe_sub_zero(xs[i] as int, xs[l] as int);
            lemma_small_mod(d as nat, P as nat);
            if d != 0 && fe(e) != 0 {
                lemma_field_no_zero_divisors(d, e);
            } else if d == 0 {
                assert(d * e == 0);
                lemma_small_mod(0nat, P as nat);
            } else {
                lemma_mul_mod_noop_right(d, e, P as int);
                assert(d * 0 == 0);
                lemma_small_mod(0nat, P as nat);
            }
        }
    }
}

/// A Lagrange denominator vanishes exactly when two x-coordinates are equal in the field.
pub proof fn lemma_degenerate_iff_repeated_x(xs: Seq<i64>)
    ensures
        degenerate(xs) <==> repeated_x(xs),
{
    let n = xs.len() as int;
    if degenerate(xs) {
        let i = choose|i: int| 0 <= i < n && #[trigger] lagrange_den(xs, i, n) == 0;
        lemma_den_zero(xs, i, n);
        let l = choose|l: int| 0 <= l < n && l != i && #[trigger] fe(xs[l] as int) == fe(xs[i] as int);
        assert(fe(xs[i] as int) == fe(xs[l] as int));
    }
    if repeated_x(xs) {
        let (i, l) = choose|i: int, l: int|
            0 <= i < n && 0 <= l < n && i != l && #[trigger] fe(xs[i] as int) == #[trigger] fe(
                xs[l] as int,
            );
        lemma_den_zero(xs, i, n);
        assert(fe(xs[l] as int) == fe(xs[i] as int));
        assert(lagrange_den(xs, i, n) == 0);
    }
}

/// `fe(fe(a) + b) == fe(a + b)`.
proof fn lemma_fe_add_left(a: int, b: int)
    ensures
        fe(fe(a) + b) == fe(a + b),
{
    lemma_add_mod_noop(a, b, P as int);
    lemma_add_mod_noop(fe(a), b, P as int);
    lemma_mod_twice(a, P as int);
}

/// Interpolation at zero is linear in the y-coordinates: over the same x-coordinates, the
/// field sum of two sets of y-coordinates interpolates to the field sum of the two values.
pub proof fn lemma_interpolation_linear(xs: Seq<i64>, ya: Seq<i64>, yb: Seq<i64>, yc: Seq<i64>, i: int)
    requires
        ya.len() == xs.len(),
        yb.len() == xs.len(),
        yc.len() == xs.len(),
        0 <= i <= xs.len(),
        forall|k: int| 0 <= k < xs.len() ==> #[trigger] yc[k] == fe(ya[k] + yb[k]),
    ensures
        lagrange_sum(xs, yc, i) == fe(lagrange_sum(xs, ya, i) + lagrange_sum(xs, yb, i)),
    decreases i,
{
    if i == 0 {
        lemma_small_mod(0nat, P as nat);
    } else {
        let k = i - 1;
        lemma_interpolation_linear(xs, ya, yb, yc, k);
        let n = xs.len() as int;
        let w = lagrange_num(xs, k, n) * inverse(lagrange_den(xs, k, n), P as int);
        let sa = lagrange_sum(xs, ya, k);
        let sb = lagrange_sum(xs, yb, k);
        let a = ya[k] as int;
        let b = yb[k] as int;
        // left: fe(fe(sa + sb) + w * fe(a + b)) == fe(sa + sb + w * (a + b))
        lemma_fe_add_left(sa + sb, w * fe(a + b));
        lemma_mul_mod_noop_right(w, a + b, P as int);
        lemma_fe_add_left(w * (a + b), sa + sb);
        lemma_fe_add_left(w * fe(a + b), sa + sb);
        // right: fe(fe(sa + w a) + fe(sb + w b)) == fe(sa + w a + sb + w b)
        lemma_add_mod_noop(sa + w * a, sb + w * b, P as int);
        assert(w * (a + b) == w * a + w * b) by (nonlinear_arith);
        assert(lagrange_sum(xs, yc, i) == fe(lagrange_sum(xs, yc, k) + w * yc[k]));
        assert(lagrange_sum(xs, ya, i) == fe(sa + w * a));
        assert(lagrange_sum(xs, yb, i) == fe(sb + w * b));
    }
}

/// Adding share sets is homomorphic: the sum of two aligned share sets has their
/// x-coordinates, and interpolates at zero to the field sum of what they interpolate to.
/// So reconstructing the output of `add_shares` gives the sum of the two reconstructions.
pub proof fn lemma_add_shares_homomorphic(a: Seq<Share>, b: Seq<Share>, c: Seq<Share>)
    requires
        aligned(a, b),
        sum_of_shares(a, b, c),
    ensures
        xs_of(c) == xs_of(a),
        xs_of(b) == xs_of(a),
        c.len() > 0 ==> c[0].threshold == a[0].threshold && b[0].threshold == a[0].threshold,
        interpolation_at_zero(xs_of(c), ys_of(c)) == fe(
            interpolation_at_zero(xs_of(a), ys_of(a)) + interpolation_at_zero(xs_of(b), ys_of(b)),
        ),
{
    let xs = xs_of(a);
    assert(xs_of(c) =~= xs);
    assert(xs_of(b) =~= xs);
    lemma_interpolation_linear(xs, ys_of(a), ys_of(b), ys_of(c), xs.len() as int);
}

} // verus!
