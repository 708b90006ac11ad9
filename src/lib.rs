//! Threshold secret sharing (Shamir's scheme) over the prime field of size `P`.
use rand::rngs::ThreadRng;
use rand::Rng;
use vstd::arithmetic::div_mod::*;
use vstd::arithmetic::power::*;
use vstd::prelude::*;

pub mod laws;
pub mod utils;

pub use utils::{egcd, interpolate_at_zero, mod_exp, mod_inverse, modulo};
use utils::{fe, MAX_MODULUS};

verus! {

/// The prime modulus of the field in which secrets, coefficients and shares live.
pub const P: i64 = 65413;

/// Why an operation of the scheme refused its input.
#[derive(Debug, Clone, Copy, PartialEq, Eq, Structural)]
pub enum ShareError {
    /// Fewer shares were given than the threshold they carry.
    InsufficientShares,
    /// The two share sequences to add differ in length.
    LengthMismatch,
    /// Two shares to add differ in x-coordinate or in threshold.
    CoordinateMismatch,
    /// A value without an inverse modulo the modulus had to be inverted.
    DegenerateInverse,
    /// The threshold, the number of shares or the secret is out of range.
    InvalidParameters,
}

/// One point `(x, y)` of a sharing polynomial, with the number of points that recover it.
#[derive(Debug)]
pub struct Share {
    pub x: i64,
    pub y: i64,
    pub threshold: i64,
    pub id: String,
}

/// A polynomial over the field; `coefficients[i]` belongs to `x^i`, so `coefficients[0]`
/// is the value at zero.
#[derive(Debug)]
pub struct Polynomial {
    pub degree: i64,
    pub coefficients: Vec<i64>,
}

/// `sum of cs[i] * x^i` over the first `k` coefficients, over the integers.
pub open spec fn poly_value(cs: Seq<i64>, x: int, k: int) -> int
    decreases k,
{
    if k <= 0 {
        0
    } else {
        poly_value(cs, x, k - 1) + cs[k - 1] * pow(x, (k - 1) as nat)
    }
}

/// The value of the polynomial with coefficients `cs` at `x`, in the field.
pub open spec fn poly_eval(cs: Seq<i64>, x: int) -> int {
    fe(poly_value(cs, x, cs.len() as int))
}

/// Every value of `cs` lies in the field `[0, P)`.
pub open spec fn all_in_field(cs: Seq<i64>) -> bool {
    forall|i: int| 0 <= i < cs.len() ==> 0 <= #[trigger] cs[i] < P
}

impl Polynomial {
    /// At least one coefficient, and the degree is their number less one.
    pub open spec fn wf(&self) -> bool {
        self.coefficients.len() >= 1 && self.degree == self.coefficients.len() - 1
    }

    /// A polynomial of the given degree whose value at zero is `y_intercept` and whose
    /// other coefficients are drawn uniformly from the field.
    pub fn new_random_poly(y_intercept: i64, degree: i64) -> (r: Polynomial)
        requires
            0 <= degree < i64::MAX,
        ensures
            r.wf(),
            r.degree == degree,
            r.coefficients@[0] == y_intercept,
            all_in_field(r.coefficients@.drop_first()),
    {
        let mut coefficients: Vec<i64> = Vec::new();
        coefficients.push(y_intercept);
        let mut rng = new_rng();
        let mut i: i64 = 0;
        while i < degree
            invariant
                0 <= i <= degree,
                coefficients.len() == i + 1,
                coefficients@[0] == y_intercept,
                forall|k: int| 1 <= k < coefficients.len() ==> 0 <= #[trigger] coefficients@[k] < P,
            decreases degree - i,
        {
            let a = draw_in_range(&mut rng, 0, P);
            coefficients.push(a);
            i += 1;
        }
        assert(all_in_field(coefficients@.drop_first()));
        Polynomial { degree, coefficients }
    }

    /// The polynomial with exactly these coefficients.
    pub fn new(coefficients: Vec<i64>) -> (r: Polynomial)
        requires
            1 <= coefficients.len() <= i64::MAX,
        ensures
            r.wf(),
            r.coefficients@ == coefficients@,
    {
        let degree: i64 = (coefficients.len() - 1) as i64;
        Polynomial { degree, coefficients }
    }

    /// The value of the polynomial at `point`, in the field.
    pub fn eval_at_point(&self, point: i64) -> (r: i64)
        requires
            self.wf(),
        ensures
            r == poly_eval(self.coefficients@, point as int),
            0 <= r < P,
    {
        let cs = &self.coefficients;
        let n = cs.len();
        let mut result: i64 = 0;
        let mut d: usize = 0;
        while d < n
            invariant
                n == cs.len(),
                n <= i64::MAX + 1,
                0 <= d <= n,
                result == fe(poly_value(cs@, point as int, d as int)),
                0 <= result < P,
            decreases n - d,
        {
            let c = modulo(cs[d], P);
            let e = mod_exp(point, d as i64, P);
            proof {
                let m = P as int;
                let pw = pow(point as int, d as nat);
                if d == 0 {
                    lemma_pow0(point as int);
                    lemma_small_mod(1nat, m as nat);
                }
                assert(e == pw % m);
                assert(0 <= c * e < m * m) by (nonlinear_arith)
                    requires
                        0 <= c < m,
                        0 <= e < m,
                ;
                let prev = poly_value(cs@, point as int, d as int);
                lemma_mul_mod_noop_general(cs[d as int] as int, pw, m);
                lemma_add_mod_noop(prev, cs[d as int] * pw, m);
                lemma_add_mod_noop(result as int, c * e, m);
                lemma_mod_twice(prev, m);
                lemma_mod_twice(c * e, m);
            }
            result = modulo(result + c * e, P);
            d += 1;
        }
        result
    }
}

/// The x-coordinates of a share sequence.
pub open spec fn xs_of(shares: Seq<Share>) -> Seq<i64> {
    shares.map_values(|s: Share| s.x)
}

/// The y-coordinates of a share sequence.
pub open spec fn ys_of(shares: Seq<Share>) -> Seq<i64> {
    shares.map_values(|s: Share| s.y)
}

/// `shares` are the values of the polynomial with coefficients `cs` at `x = 1, ..., n`,
/// each tagged with `threshold`.
pub open spec fn shares_of_polynomial(shares: Seq<Share>, cs: Seq<i64>, n: int, threshold: i64) -> bool {
    &&& shares.len() == n
    &&& forall|i: int|
        0 <= i < n ==> {
            &&& (#[trigger] shares[i]).x == i + 1
            &&& shares[i].y == poly_eval(cs, i + 1)
            &&& shares[i].threshold == threshold
        }
}

/// The parameters with which a sharing can be made: `1 <= threshold <= n`, every
/// x-coordinate `1..=n` a non-zero field element, and the secret in the field.
pub open spec fn valid_share_parameters(secret: i64, n: i64, threshold: i64) -> bool {
    1 <= threshold <= n < P && 0 <= secret < P
}

/// The shares of a given polynomial: its values at `x = 1, ..., n`, each tagged with
/// `threshold`. Zero is never a share's x-coordinate: the value there is the secret.
pub fn share_polynomial(poly: &Polynomial, n: i64, threshold: i64) -> (r: Vec<Share>)
    requires
        poly.wf(),
        0 <= n < i64::MAX,
    ensures
        shares_of_polynomial(r@, poly.coefficients@, n as int, threshold),
{
    let mut shares: Vec<Share> = Vec::new();
    let mut x: i64 = 1;
    while x <= n
        invariant
            poly.wf(),
            0 <= n < i64::MAX,
            1 <= x <= n + 1,
            shares_of_polynomial(shares@, poly.coefficients@, x - 1, threshold),
        decreases n + 1 - x,
    {
        let y = poly.eval_at_point(x);
        shares.push(Share { x, y, threshold, id: String::new() });
        x += 1;
    }
    shares
}

/// Splits `secret` into `n` shares, any `threshold` of which recover it: the values at
/// `x = 1, ..., n` of a polynomial of degree `threshold - 1` whose value at zero is the secret
/// and whose other coefficients are drawn uniformly from the field.
pub fn create_shares(secret: i64, n: i64, threshold: i64) -> (r: Result<Vec<Share>, ShareError>)
    ensures
        r is Err <==> !valid_share_parameters(secret, n, threshold),
        r is Err ==> r->Err_0 == ShareError::InvalidParameters,
        r is Ok ==> exists|cs: Seq<i64>|
            {
                &&& cs.len() == threshold
                &&& cs[0] == secret
                &&& all_in_field(cs)
                &&& #[trigger] shares_of_polynomial(r->Ok_0@, cs, n as int, threshold)
            },
{
    if threshold < 1 || threshold > n || n >= P || secret < 0 || secret >= P {
        return Err(ShareError::InvalidParameters);
    }
    let poly = Polynomial::new_random_poly(secret, threshold - 1);
    let shares = share_polynomial(&poly, n, threshold);
    assert(all_in_field(poly.coefficients@)) by {
        assert forall|i: int| 0 <= i < poly.coefficients@.len() implies 0 <= #[trigger] poly.coefficients@[i] < P by {
            if i > 0 {
                assert(poly.coefficients@[i] == poly.coefficients@.drop_first()[i - 1]);
            }
        }
    }
    let r: Result<Vec<Share>, ShareError> = Ok(shares);
    assert(shares_of_polynomial(r->Ok_0@, poly.coefficients@, n as int, threshold));
    r
}

/// Recovers the secret from shares by Lagrange interpolation at zero over all of them.
/// The threshold is that of the first share; fewer shares than it, or none, is
/// `InsufficientShares`, and a threshold below one `InvalidParameters`.
pub fn reconstruct(shares: &Vec<Share>) -> (r: Result<i64, ShareError>)
    ensures
        shares.len() == 0 || shares@[0].threshold > shares.len() ==> r == Err::<i64, ShareError>(
            ShareError::InsufficientShares,
        ),
        shares.len() > 0 && shares@[0].threshold <= shares.len() && shares@[0].threshold < 1
            ==> r == Err::<i64, ShareError>(ShareError::InvalidParameters),
        shares.len() > 0 && 1 <= shares@[0].threshold <= shares.len() ==> {
            if utils::repeated_x(xs_of(shares@)) {
                r == Err::<i64, ShareError>(ShareError::DegenerateInverse)
            } else {
                r == Ok::<i64, ShareError>(
                    utils::interpolation_at_zero(xs_of(shares@), ys_of(shares@)) as i64,
                )
            }
        },
        r is Ok ==> 0 <= r->Ok_0 < P,
{
    if shares.len() == 0 {
        return Err(ShareError::InsufficientShares);
    }
    let t = shares[0].threshold;
    if t > 0 && t as u64 > shares.len() as u64 {
        return Err(ShareError::InsufficientShares);
    }
    if t < 1 {
        return Err(ShareError::InvalidParameters);
    }
    let n = shares.len();
    let mut x_values: Vec<i64> = Vec::new();
    let mut y_values: Vec<i64> = Vec::new();
    let mut i: usize = 0;
    while i < n
        invariant
            n == shares.len(),
            0 <= i <= n,
            x_values@ == xs_of(shares@).take(i as int),
            y_values@ == ys_of(shares@).take(i as int),
        decreases n - i,
    {
        x_values.push(shares[i].x);
        y_values.push(shares[i].y);
        proof {
            assert(xs_of(shares@).take(i + 1) == xs_of(shares@).take(i as int).push(shares@[i as int].x));
            assert(ys_of(shares@).take(i + 1) == ys_of(shares@).take(i as int).push(shares@[i as int].y));
        }
        i += 1;
    }
    assert(x_values@ == xs_of(shares@));
    assert(y_values@ == ys_of(shares@));
    let k = interpolate_at_zero(x_values, y_values, t - 1)?;
    Ok(k % P)
}

/// `a` and `b` have equal length and pair shares of equal x-coordinate and threshold.
pub open spec fn aligned(a: Seq<Share>, b: Seq<Share>) -> bool {
    &&& a.len() == b.len()
    &&& forall|i: int|
        0 <= i < a.len() ==> (#[trigger] a[i]).x == b[i].x && a[i].threshold == b[i].threshold
}

/// `c` is `a` with each y-coordinate replaced by its field sum with that of `b`.
pub open spec fn sum_of_shares(a: Seq<Share>, b: Seq<Share>, c: Seq<Share>) -> bool {
    &&& c.len() == a.len()
    &&& forall|i: int|
        0 <= i < c.len() ==> {
            &&& (#[trigger] c[i]).x == a[i].x
            &&& c[i].threshold == a[i].threshold
            &&& c[i].y == fe(a[i].y + b[i].y)
        }
}

impl Share {
    /// The share of the sum of two secrets at one x-coordinate: same x and threshold, and
    /// the field sum of the y-coordinates. Shares of different x or threshold are
    /// `CoordinateMismatch`.
    pub fn add(&self, o: &Share) -> (r: Result<Share, ShareError>)
        ensures
            r is Err <==> self.threshold != o.threshold || self.x != o.x,
            r is Err ==> r->Err_0 == ShareError::CoordinateMismatch,
            r is Ok ==> {
                &&& r->Ok_0.x == self.x
                &&& r->Ok_0.threshold == self.threshold
                &&& r->Ok_0.y == fe(self.y + o.y)
            },
    {
        if self.threshold != o.threshold || self.x != o.x {
            return Err(ShareError::CoordinateMismatch);
        }
        let y = modulo(modulo(self.y, P) + modulo(o.y, P), P);
        proof {
            lemma_add_mod_noop(self.y as int, o.y as int, P as int);
        }
        Ok(Share { x: self.x, y, threshold: self.threshold, id: String::new() })
    }
}

/// Adds two share sequences index by index, giving shares of the sum of their secrets.
/// Sequences of different length are `LengthMismatch`; a pair of shares of different x or
/// threshold is `CoordinateMismatch`.
pub fn add_shares(a: &Vec<Share>, b: &Vec<Share>) -> (r: Result<Vec<Share>, ShareError>)
    ensures
        a.len() != b.len() ==> r == Err::<Vec<Share>, ShareError>(ShareError::LengthMismatch),
        a.len() == b.len() && !aligned(a@, b@) ==> r == Err::<Vec<Share>, ShareError>(
            ShareError::CoordinateMismatch,
        ),
        r is Ok <==> aligned(a@, b@),
        r is Ok ==> sum_of_shares(a@, b@, r->Ok_0@),
{
    if a.len() != b.len() {
        return Err(ShareError::LengthMismatch);
    }
    let n = a.len();
    let mut c: Vec<Share> = Vec::new();
    let mut i: usize = 0;
    while i < n
        invariant
            n == a.len(),
            n == b.len(),
            0 <= i <= n,
            aligned(a@.take(i as int), b@.take(i as int)),
            sum_of_shares(a@.take(i as int), b@.take(i as int), c@),
        decreases n - i,
    {
        let s = match a[i].add(&b[i]) {
            Ok(s) => s,
            Err(e) => {
                assert(!aligned(a@, b@)) by {
                    assert(a@[i as int].x != b@[i as int].x || a@[i as int].threshold
                        != b@[i as int].threshold);
                }
                return Err(e);
            },
        };
        c.push(s);
        proof {
            assert(a@.take(i + 1) == a@.take(i as int).push(a@[i as int]));
            assert(b@.take(i + 1) == b@.take(i as int).push(b@[i as int]));
        }
        i += 1;
    }
    assert(a@.take(n as int) == a@);
    assert(b@.take(n as int) == b@);
    Ok(c)
}

/// Relies on rand::thread_rng: a handle on the calling thread's generator.
#[verifier::external_body]
fn new_rng() -> (r: ThreadRng) {
    rand::thread_rng()
}

/// Relies on rand::Rng::gen_range: a value drawn from `[low, high)`; it panics when `low >= high`.
#[verifier::external_body]
fn draw_in_range(rng: &mut ThreadRng, low: i64, high: i64) -> (r: i64)
    requires
        low < high,
    ensures
        low <= r < high,
{
    rng.gen_range(low, high)
}

/// rand::rngs::ThreadRng, the thread's generator handle, carried through opaque.
#[verifier::external_type_specification]
#[verifier::external_body]
pub struct ExThreadRng(ThreadRng);

} // verus!
