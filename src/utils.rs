//! Arithmetic modulo a positive integer, and interpolation at zero in the field of size `P`.
use vstd::prelude::*;
use vstd::arithmetic::div_mod::*;
use vstd::arithmetic::power::*;
use crate::ShareError;

verus! {

/// Canonical remainder of `a` modulo `b`, in `[0, b)` also for negative `a`.
pub fn modulo(a: i64, b: i64) -> (r: i64)
    requires
        b > 0,
    ensures
        r == a as int % b as int,
        0 <= r < b,
{
    let r = a % b;
    proof {
        if a < 0 {
            let m = (-a) as int % b as int;
            let q = (-a) as int / b as int;
            lemma_fundamental_div_mod(-a as int, b as int);
            assert(r == -m);
            assert(a == (-q - 1) * b + (b - m) && a == (-q) * b - m) by (nonlinear_arith)
                requires
                    -a == b * q + m,
            ;
            if m > 0 {
                lemma_fundamental_div_mod_converse_mod(a as int, b as int, -q - 1, b - m);
            } else {
                lemma_fundamental_div_mod_converse_mod(a as int, b as int, -q, 0);
            }
        }
    }
    if r < 0 {
        r + b
    } else {
        r
    }
}

/// Largest modulus whose squared residues still fit in an `i64`.
pub const MAX_MODULUS: i64 = 3037000499;

/// `b^e` splits into the factor of the lowest bit of `e` and the square raised to `e / 2`.
proof fn lemma_pow_halve(b: int, e: nat)
    ensures
        pow(b, e) == (if e % 2 == 1 { b } else { 1 }) * pow(b * b, e / 2),
{
    let h = e / 2;
    lemma_square_is_pow2(b);
    lemma_pow_multiplies(b, 2, h);
    let even: nat = (2 * h) as nat;
    assert(pow(b * b, h) == pow(b, even));
    if e % 2 == 1 {
        assert(e == even + 1);
        lemma_pow_adds(b, even, 1);
        lemma_pow1(b);
        assert(pow(b, e) == pow(b, even) * b);
    } else {
        assert(e == even);
    }
}

/// One squaring step keeps `acc * b^e` unchanged modulo `m`.
proof fn lemma_mod_exp_step(acc: int, b: int, e: nat, m: int)
    requires
        m > 0,
    ensures
        ({
            let acc2 = if e % 2 == 1 { (acc * b) % m } else { acc };
            (acc2 * pow((b * b) % m, e / 2)) % m == (acc * pow(b, e)) % m
        }),
{
    let h = e / 2;
    let q = pow(b * b, h);
    lemma_pow_mod_noop(b * b, h, m);
    lemma_pow_halve(b, e);
    if e % 2 == 1 {
        lemma_mul_mod_noop_general(acc * b, pow((b * b) % m, h), m);
        lemma_mul_mod_noop_general(acc * b, q, m);
        assert((acc * b) * q == acc * (b * q)) by (nonlinear_arith);
    } else {
        lemma_mul_mod_noop_general(acc, pow((b * b) % m, h), m);
        lemma_mul_mod_noop_general(acc, q, m);
    }
}

/// `base` raised to `exp`, reduced modulo `modulus` by repeated squaring.
/// With `exp == 0` the result is `1`, whatever the base.
pub fn mod_exp(base: i64, exp: i64, modulus: i64) -> (r: i64)
    requires
        exp >= 0,
        0 < modulus <= MAX_MODULUS,
    ensures
        exp == 0 ==> r == 1,
        exp > 0 ==> r == pow(base as int, exp as nat) % (modulus as int),
{
    let mut b = modulo(base, modulus);
    let mut e = exp;
    let mut result: i64 = 1;
    proof {
        lemma_pow_mod_noop(base as int, exp as nat, modulus as int);
    }
    while e > 0
        invariant
            0 < modulus <= MAX_MODULUS,
            0 <= b < modulus,
            0 <= e <= exp,
            0 <= result,
            result < modulus || result == 1,
            exp > 0 && e == 0 ==> result < modulus,
            e == exp ==> result == 1,
            (result * pow(b as int, e as nat)) % (modulus as int) == pow(base as int, exp as nat)
                % (modulus as int),
        decreases e,
    {
        proof {
            lemma_mod_exp_step(result as int, b as int, e as nat, modulus as int);
            assert(result * b <= (modulus - 1) * (modulus - 1) || result * b < modulus) by (nonlinear_arith)
                requires
                    0 <= b < modulus,
                    0 <= result,
                    result < modulus || result == 1,
            ;
            assert(b * b <= (modulus - 1) * (modulus - 1)) by (nonlinear_arith)
                requires
                    0 <= b < modulus,
            ;
            assert((modulus - 1) * (modulus - 1) <= (MAX_MODULUS - 1) * (MAX_MODULUS - 1)) by (nonlinear_arith)
                requires
                    0 < modulus <= MAX_MODULUS,
            ;
        }
        if e % 2 == 1 {
            result = modulo(result * b, modulus);
        }
        b = modulo(b * b, modulus);
        e = e / 2;
    }
    proof {
        lemma_pow0(b as int);
        if exp > 0 {
            lemma_small_mod(result as nat, modulus as nat);
        }
    }
    result
}

/// Greatest common divisor, by Euclid's reduction `gcd(a, b) == gcd(b mod a, a)`.
pub open spec fn gcd(a: nat, b: nat) -> nat
    decreases a,
{
    if a == 0 {
        b
    } else {
        gcd(b % a, a)
    }
}

/// Absolute value of an integer.
pub open spec fn abs(v: int) -> nat {
    if v < 0 {
        (-v) as nat
    } else {
        v as nat
    }
}

/// Extended Euclid: `(g, x, y)` with `b * x + n * y == g == gcd(b, n)`.
/// With `b == 0` the result is `(n, 0, 1)`.
pub fn egcd(b: i64, n: i64) -> (r: (i64, i64, i64))
    requires
        0 <= b,
        0 <= n,
    ensures
        r.0 == gcd(b as nat, n as nat),
        b * r.1 + n * r.2 == r.0,
        b == 0 ==> r == (n, 0i64, 1i64),
        abs(r.1 as int) <= if n == 0 { 1 } else { n as int },
        abs(r.2 as int) <= if b == 0 { 1 } else { b as int },
    decreases b,
{
    if b == 0 {
        (n, 0, 1)
    } else {
        let rem = modulo(n, b);
        let q = n / b;
        let (g, x, y) = egcd(rem, b);
        proof {
            lemma_fundamental_div_mod(n as int, b as int);
            assert(q * b <= n) by (nonlinear_arith)
                requires
                    n == b * q + rem,
                    0 <= rem,
            ;
            assert(abs(q * x) <= q * b) by (nonlinear_arith)
                requires
                    abs(x as int) <= b,
                    q >= 0,
            ;
            assert(b * (y - q * x) + n * x == rem * x + b * y) by (nonlinear_arith)
                requires
                    n == b * q + rem,
            ;
            if rem == 0 {
                assert(x == 0 && y == 1);
                assert(q * x == 0) by (nonlinear_arith)
                    requires
                        x == 0,
                ;
            } else {
                assert(abs(y as int) <= rem);
                assert(abs(y - q * x) <= rem + q * b);
                assert(rem + q * b == n) by (nonlinear_arith)
                    requires
                        n == b * q + rem,
                ;
            }
        }
        (g, y - q * x, x)
    }
}

/// Whether `t` has an inverse modulo `m`: some `v` in `[0, m)` with `t * v == 1 (mod m)`.
pub open spec fn invertible(t: int, m: int) -> bool {
    exists|v: int| 0 <= v < m && #[trigger] ((t * v) % m) == 1int % m
}

/// The inverse of `t` modulo `m`, where one exists.
pub open spec fn inverse(t: int, m: int) -> int {
    choose|v: int| 0 <= v < m && #[trigger] ((t * v) % m) == 1int % m
}

/// `gcd(a, b)` is positive, unless both are zero, and divides both.
pub proof fn lemma_gcd_divides(a: nat, b: nat)
    requires
        a > 0 || b > 0,
    ensures
        gcd(a, b) > 0,
        a % gcd(a, b) == 0,
        b % gcd(a, b) == 0,
    decreases a,
{
    if a == 0 {
        lemma_mod_self_0(b as int);
    } else {
        let r = b % a;
        let g = gcd(r, a);
        lemma_gcd_divides(r, a);
        lemma_fundamental_div_mod(b as int, a as int);
        lemma_fundamental_div_mod(a as int, g as int);
        lemma_fundamental_div_mod(r as int, g as int);
        let q = b as int / a as int;
        let ka = a as int / g as int;
        let kr = r as int / g as int;
        assert(b == (q * ka + kr) * g) by (nonlinear_arith)
            requires
                b == a * q + r,
                a == g * ka,
                r == g * kr,
        ;
        lemma_mod_multiples_basic(q * ka + kr, g as int);
    }
}

/// An inverse modulo `m` is unique in `[0, m)`.
proof fn lemma_inverse_unique(t: int, m: int, v1: int, v2: int)
    requires
        m > 0,
        0 <= v1 < m,
        0 <= v2 < m,
        (t * v1) % m == 1int % m,
        (t * v2) % m == 1int % m,
    ensures
        v1 == v2,
{
    lemma_mul_mod_noop_right(v1, t * v2, m);
    lemma_mul_mod_noop_right(v2, t * v1, m);
    lemma_mul_mod_noop_right(v1, 1, m);
    lemma_mul_mod_noop_right(v2, 1, m);
    lemma_small_mod(v1 as nat, m as nat);
    lemma_small_mod(v2 as nat, m as nat);
    assert(v1 * (t * v2) == v2 * (t * v1)) by (nonlinear_arith);
}

/// The inverse of `base` modulo `modulus`, in `[0, modulus)`.
/// It exists exactly when `base` reduced modulo `modulus` is coprime to `modulus`;
/// otherwise the result is `DegenerateInverse`.
pub fn mod_inverse(base: i64, modulus: i64) -> (r: Result<i64, ShareError>)
    requires
        0 < modulus,
    ensures
        r is Ok <==> gcd((base as int % modulus as int) as nat, modulus as nat) == 1,
        r is Ok <==> invertible(base as int, modulus as int),
        r is Ok ==> r->Ok_0 == inverse(base as int, modulus as int),
        r is Err ==> r->Err_0 == ShareError::DegenerateInverse,
{
    let reduced = modulo(base, modulus);
    let (g, x, y) = egcd(reduced, modulus);
    proof {
        lemma_gcd_divides(reduced as nat, modulus as nat);
    }
    if g != 1 {
        proof {
            if invertible(base as int, modulus as int) {
                let m = modulus as int;
                let v = choose|v: int| 0 <= v < m && #[trigger] ((base as int * v) % m) == 1int % m;
                let gi = g as int;
                lemma_mul_mod_noop_left(base as int, v, m);
                lemma_fundamental_div_mod(reduced as int, gi);
                lemma_fundamental_div_mod(m, gi);
                lemma_fundamental_div_mod(reduced * v, m);
                let w = reduced * v / m;
                let kr = reduced as int / gi;
                let km = m / gi;
                // reduced * v - m * w == 1int % m, and g divides its left side
                assert(reduced * v - m * w == gi * (kr * v - km * w)) by (nonlinear_arith)
                    requires
                        reduced == gi * kr,
                        m == gi * km,
                ;
                if m == 1 {
                    assert(gcd(reduced as nat, 1) == 1) by {
                        lemma_small_mod(1nat, 2nat);
                        assert(reduced == 0);
                    }
                } else {
                    lemma_small_mod(1nat, m as nat);
                    assert(gi * (kr * v - km * w) == 1);
                    assert(gi == 1) by (nonlinear_arith)
                        requires
                            gi * (kr * v - km * w) == 1,
                            gi > 0,
                    ;
                }
            }
        }
        return Err(ShareError::DegenerateInverse);
    }
    let inv = modulo(x, modulus);
    proof {
        let m = modulus as int;
        lemma_mul_mod_noop_general(base as int, x as int, m);
        lemma_mul_mod_noop_left(base as int, x as int, m);
        lemma_mul_mod_noop_right(base as int, x as int, m);
        assert((reduced * x) % m == 1int % m) by {
            lemma_mod_multiples_vanish(y as int, 1, m);
            assert(reduced * x == m * y * (-1) + 1) by (nonlinear_arith)
                requires
                    reduced * x + m * y == 1,
            ;
            lemma_mod_multiples_vanish(-y, 1, m);
            assert(m * y * (-1) == m * (-y)) by (nonlinear_arith);
        }
        lemma_mul_mod_noop_left(base as int, inv as int, m);
        lemma_mul_mod_noop_right(base as int, x as int, m);
        assert((base * inv) % m == 1int % m);
        assert(invertible(base as int, m));
        let c = inverse(base as int, m);
        lemma_inverse_unique(base as int, m, c, inv as int);
    }
    Ok(inv)
}

/// `P` is prime: every `v` in `[1, P)` is coprime to it.
pub proof fn lemma_p_prime(v: int)
    requires
        1 <= v < crate::P,
    ensures
        gcd(v as nat, crate::P as nat) == 1,
{
    let p = crate::P as int;
    assert(forall|k: u16| 2 <= k < 256 ==> #[trigger] (65413u16 % k) != 0u16) by (bit_vector);
    assert forall|k: int| 2 <= k < 256 implies #[trigger] (p % k) != 0 by {
        let k16 = k as u16;
        assert(65413u16 % k16 != 0u16);
    }
    let g = gcd(v as nat, p as nat) as int;
    lemma_gcd_divides(v as nat, p as nat);
    lemma_fundamental_div_mod(v, g);
    lemma_fundamental_div_mod(p, g);
    let kv = v / g;
    let c = p / g;
    assert(g <= v) by (nonlinear_arith)
        requires
            v == g * kv,
            g > 0,
            v > 0,
    ;
    if g != 1 {
        assert(c >= 2) by (nonlinear_arith)
            requires
                p == g * c,
                1 < g < p,
        ;
        if g < 256 {
            assert(p % g != 0);
        } else {
            assert(c < 256) by (nonlinear_arith)
                requires
                    p == g * c,
                    g >= 256,
                    p == 65413,
            ;
            lemma_mod_multiples_basic(g, c);
            assert(p % c == 0);
            assert(p % c != 0);
        }
    }
}

/// `v` reduced into the field of size `P`.
pub open spec fn fe(v: int) -> int {
    v % (crate::P as int)
}

/// Numerator of the Lagrange basis value at zero for point `i`, over the first `j` points:
/// the product of `0 - x_l` for `l < j`, `l != i`, in the field.
pub open spec fn lagrange_num(xs: Seq<i64>, i: int, j: int) -> int
    decreases j,
{
    if j <= 0 {
        1
    } else if j - 1 == i {
        lagrange_num(xs, i, j - 1)
    } else {
        fe(lagrange_num(xs, i, j - 1) * (0 - xs[j - 1]))
    }
}

/// Denominator of the Lagrange basis value for point `i`, over the first `j` points:
/// the product of `x_i - x_l` for `l < j`, `l != i`, in the field.
pub open spec fn lagrange_den(xs: Seq<i64>, i: int, j: int) -> int
    decreases j,
{
    if j <= 0 {
        1
    } else if j - 1 == i {
        lagrange_den(xs, i, j - 1)
    } else {
        fe(lagrange_den(xs, i, j - 1) * (xs[i] - xs[j - 1]))
    }
}

/// Whether some point's Lagrange denominator vanishes in the field, so that it has no inverse.
pub open spec fn degenerate(xs: Seq<i64>) -> bool {
    exists|i: int| 0 <= i < xs.len() && #[trigger] lagrange_den(xs, i, xs.len() as int) == 0
}

/// Some two points have x-coordinates equal in the field.
pub open spec fn repeated_x(xs: Seq<i64>) -> bool {
    exists|i: int, l: int|
        0 <= i < xs.len() && 0 <= l < xs.len() && i != l && #[trigger] fe(xs[i] as int) == #[trigger] fe(
            xs[l] as int,
        )
}

/// Term of point `i` in the interpolation at zero: `y_i * num_i / den_i`.
pub open spec fn lagrange_term(xs: Seq<i64>, ys: Seq<i64>, i: int) -> int {
    lagrange_num(xs, i, xs.len() as int) * inverse(
        lagrange_den(xs, i, xs.len() as int),
        crate::P as int,
    ) * ys[i]
}

/// Sum of the terms of the first `i` points, in the field.
pub open spec fn lagrange_sum(xs: Seq<i64>, ys: Seq<i64>, i: int) -> int
    decreases i,
{
    if i <= 0 {
        0
    } else {
        fe(lagrange_sum(xs, ys, i - 1) + lagrange_term(xs, ys, i - 1))
    }
}

/// Value at zero of the polynomial through the points `(xs[i], ys[i])`, by Lagrange's formula
/// over all of them.
pub open spec fn interpolation_at_zero(xs: Seq<i64>, ys: Seq<i64>) -> int {
    lagrange_sum(xs, ys, xs.len() as int)
}

/// Multiplying by congruent factors gives congruent products.
proof fn lemma_mul_congruent(s: int, a: int, b: int, m: int)
    requires
        m > 0,
        a % m == b % m,
    ensures
        (s * a) % m == (s * b) % m,
{
    lemma_mul_mod_noop_right(s, a, m);
    lemma_mul_mod_noop_right(s, b, m);
}

/// In the field, every non-zero element has an inverse and zero has none.
proof fn lemma_field_invertible(t: int)
    requires
        0 <= t < crate::P,
    ensures
        gcd(t as nat, crate::P as nat) == 1 <==> t != 0,
{
    if t != 0 {
        lemma_p_prime(t);
    } else {
        assert(gcd(0, crate::P as nat) == crate::P);
    }
}

/// Lagrange interpolation at zero over all the points `(x_values[i], y_values[i])`, in the field
/// of size `P`. The degree is that of the polynomial sought: it needs `degree + 1` points.
/// Two x-coordinates equal in the field leave a denominator without inverse: `DegenerateInverse`.
pub fn interpolate_at_zero(x_values: Vec<i64>, y_values: Vec<i64>, degree: i64) -> (r: Result<
    i64,
    ShareError,
>)
    ensures
        x_values.len() != y_values.len() ==> r == Err::<i64, ShareError>(ShareError::LengthMismatch),
        x_values.len() == y_values.len() && degree >= x_values.len() ==> r == Err::<
            i64,
            ShareError,
        >(ShareError::InsufficientShares),
        x_values.len() == y_values.len() && degree < x_values.len() && repeated_x(x_values@)
            ==> r == Err::<i64, ShareError>(ShareError::DegenerateInverse),
        x_values.len() == y_values.len() && degree < x_values.len() && !repeated_x(x_values@)
            ==> r == Ok::<i64, ShareError>(
            interpolation_at_zero(x_values@, y_values@) as i64,
        ),
        r is Ok ==> 0 <= r->Ok_0 < crate::P,
{
    if x_values.len() != y_values.len() {
        return Err(ShareError::LengthMismatch);
    }
    let n = x_values.len();
    if degree >= 0 && degree as u64 >= n as u64 {
        return Err(ShareError::InsufficientShares);
    }
    assert(degree < x_values.len());
    let p = crate::P;
    let ghost xs = x_values@;
    proof {
        crate::laws::lemma_degenerate_iff_repeated_x(xs);
    }
    let ghost ys = y_values@;
    let mut k: i64 = 0;
    let mut i: usize = 0;
    while i < n
        invariant
            n == xs.len(),
            n == ys.len(),
            xs == x_values@,
            ys == y_values@,
            p == crate::P,
            degree < n,
            degenerate(xs) <==> repeated_x(xs),
            0 <= i <= n,
            k == lagrange_sum(xs, ys, i as int),
            0 <= k < p,
            forall|l: int| 0 <= l < i ==> #[trigger] lagrange_den(xs, l, n as int) != 0,
        decreases n - i,
    {
        let xi = modulo(x_values[i], p);
        let mut s: i64 = 1;
        let mut t: i64 = 1;
        let mut j: usize = 0;
        while j < n
            invariant
                n == xs.len(),
                xs == x_values@,
                p == crate::P,
                0 <= i < n,
                0 <= j <= n,
                xi == fe(xs[i as int] as int),
                s == lagrange_num(xs, i as int, j as int),
                t == lagrange_den(xs, i as int, j as int),
                0 <= s < p,
                0 <= t < p,
            decreases n - j,
        {
            if j != i {
                let xj = modulo(x_values[j], p);
                proof {
                    let m = p as int;
                    lemma_sub_mod_noop_right(0, xs[j as int] as int, m);
                    lemma_mul_congruent(s as int, 0 - xj, 0 - xs[j as int], m);
                    lemma_sub_mod_noop(xs[i as int] as int, xs[j as int] as int, m);
                    lemma_mul_congruent(t as int, xi - xj, xs[i as int] - xs[j as int], m);
                    assert(s * (0 - xj) <= m * m && s * (0 - xj) >= -(m * m)) by (nonlinear_arith)
                        requires
                            0 <= s < m,
                            0 <= xj < m,
                    ;
                    assert(t * (xi - xj) <= m * m && t * (xi - xj) >= -(m * m)) by (nonlinear_arith)
                        requires
                            0 <= t < m,
                            0 <= xj < m,
                            0 <= xi < m,
                    ;
                }
                s = modulo(s * (0 - xj), p);
                t = modulo(t * (xi - xj), p);
            }
            j += 1;
        }
        proof {
            lemma_field_invertible(t as int);
            lemma_small_mod(t as nat, p as nat);
        }
        let inv = match mod_inverse(t, p) {
            Ok(v) => v,
            Err(e) => {
                assert(lagrange_den(xs, i as int, n as int) == 0);
                return Err(e);
            },
        };
        let yi = modulo(y_values[i], p);
        proof {
            let m = p as int;
            assert(s * inv < m * m) by (nonlinear_arith)
                requires
                    0 <= s < m,
                    0 <= inv < m,
            ;
        }
        let term = modulo(s * inv, p);
        proof {
            let m = p as int;
            assert(0 <= term * yi < m * m) by (nonlinear_arith)
                requires
                    0 <= term < m,
                    0 <= yi < m,
            ;
            let full = s * inv * ys[i as int];
            lemma_mul_mod_noop_general(s * inv, ys[i as int] as int, m);
            lemma_add_mod_noop_right(k as int, term * yi, m);
            lemma_add_mod_noop_right(k as int, full, m);
            assert(full == lagrange_term(xs, ys, i as int));
        }
        k = modulo(k + term * yi, p);
        i += 1;
    }
    Ok(k)
}

} // verus!
