//! The fixed polynomial `2·x1³ + x1·x3 + x2·x3` and the round polynomials
//! that a sum-check prover sends for it.

use crate::field::{modulus, lemma_modulus_bound, Scalar};
use crate::univariate::{power_sum, UnivariatePolynomial};
use vstd::arithmetic::div_mod::{
    lemma_small_mod,
    lemma_add_mod_noop,
    lemma_mod_twice,
    lemma_mul_mod_noop_left,
    lemma_mul_mod_noop_right,
};
use vstd::arithmetic::power::pow;
use vstd::prelude::*;

verus! {

/// `2·x1³ + x1·x3 + x2·x3` over the integers.
pub open spec fn poly_value(x1: int, x2: int, x3: int) -> int {
    2 * (x1 * x1 * x1) + x1 * x3 + x2 * x3
}

/// The sum of the polynomial over the eight points of `{0,1}³`.
pub open spec fn hypercube_sum() -> int {
    poly_value(0, 0, 0) + poly_value(0, 1, 0) + poly_value(0, 0, 1) + poly_value(0, 1, 1)
        + poly_value(1, 0, 0) + poly_value(1, 1, 0) + poly_value(1, 0, 1) + poly_value(1, 1, 1)
}

/// Coefficients of the first round polynomial in `x1`, constant term first.
pub open spec fn round1_coeffs() -> Seq<int> {
    seq![1, 2, 0, 8]
}

/// Coefficients of the second round polynomial in `x2`, with `x1 = r1`.
pub open spec fn round2_coeffs(r1: int) -> Seq<int> {
    seq![4 * (r1 * r1 * r1) + r1, 1]
}

/// Coefficients of the third round polynomial in `x3`, with `x1 = r1`, `x2 = r2`.
pub open spec fn round3_coeffs(r1: int, r2: int) -> Seq<int> {
    seq![2 * (r1 * r1 * r1), r1 + r2]
}

/// Each coefficient replaced by its remainder modulo the prime.
pub open spec fn reduced(c: Seq<int>) -> Seq<int> {
    c.map_values(|v: int| v % modulus())
}

/// Reducing the coefficients of a linear polynomial does not change its
/// value modulo the prime.
proof fn lemma_reduced_two(c: Seq<int>, x: int)
    requires
        c.len() == 2,
    ensures
        power_sum(reduced(c), x) % modulus() == power_sum(c, x) % modulus(),
{
    let m = modulus();
    lemma_modulus_bound();
    lemma_power_sum_two(c, x);
    lemma_power_sum_two(reduced(c), x);
    let (a, b) = (c[0], c[1]);
    assert(reduced(c)[0] == a % m && reduced(c)[1] == b % m);
    lemma_add_mod_noop(a % m, (b % m) * x, m);
    lemma_mod_twice(a, m);
    lemma_mul_mod_noop_left(b, x, m);
    lemma_add_mod_noop(a, b * x, m);
}

proof fn lemma_power_sum_two(c: Seq<int>, x: int)
    requires
        c.len() == 2,
    ensures
        power_sum(c, x) == c[0] + c[1] * x,
{
    reveal_with_fuel(pow, 2);
    let c1 = c.drop_last();
    assert(c1.len() == 1 && c1.last() == c[0] && c.last() == c[1]);
    assert(c1.drop_last().len() == 0);
    assert(power_sum(c1, x) == power_sum(c1.drop_last(), x) + c1.last() * pow(x, 0));
    assert(power_sum(c1, x) == c[0]);
    assert(power_sum(c, x) == power_sum(c1, x) + c.last() * pow(x, 1));
}

proof fn lemma_power_sum_four(c: Seq<int>, x: int)
    requires
        c.len() == 4,
    ensures
        power_sum(c, x) == c[0] + c[1] * x + c[2] * (x * x) + c[3] * (x * x * x),
{
    reveal_with_fuel(pow, 4);
    let c3 = c.drop_last();
    lemma_power_sum_two(c3.drop_last(), x);
    assert(power_sum(c3, x) == power_sum(c3.drop_last(), x) + c[2] * pow(x, 2));
    assert(pow(x, 2) == x * x);
    assert(pow(x, 3) == x * x * x) by (nonlinear_arith)
        requires
            pow(x, 3) == x * pow(x, 2),
            pow(x, 2) == x * x,
    ;
}

/// The first round polynomial at any `x` is the polynomial summed over
/// `x2, x3 ∈ {0,1}` with `x1 = x`.
pub proof fn lemma_round1_is_partial_sum(x: int)
    ensures
        power_sum(round1_coeffs(), x) == poly_value(x, 0, 0) + poly_value(x, 0, 1) + poly_value(
            x,
            1,
            0,
        ) + poly_value(x, 1, 1),
{
    let c = round1_coeffs();
    lemma_power_sum_four(c, x);
    assert(c[0] == 1 && c[1] == 2 && c[2] == 0 && c[3] == 8);
    assert(2 * x + 0 * (x * x) + 8 * (x * x * x) == 4 * (2 * (x * x * x)) + x * 1 + x * 1)
        by (nonlinear_arith);
}

/// The second round polynomial at any `x` is the polynomial summed over
/// `x3 ∈ {0,1}` with `x1 = r1`, `x2 = x`.
pub proof fn lemma_round2_is_partial_sum(r1: int, x: int)
    ensures
        power_sum(round2_coeffs(r1), x) == poly_value(r1, x, 0) + poly_value(r1, x, 1),
        power_sum(reduced(round2_coeffs(r1)), x) % modulus() == (poly_value(r1, x, 0) % modulus()
            + poly_value(r1, x, 1) % modulus()) % modulus(),
{
    let c = round2_coeffs(r1);
    assert(power_sum(c, x) == poly_value(r1, x, 0) + poly_value(r1, x, 1)) by {
        lemma_power_sum_two(c, x);
        assert(c[0] == 4 * (r1 * r1 * r1) + r1 && c[1] == 1);
        assert(r1 * 0 == 0 && x * 0 == 0 && r1 * 1 == r1 && x * 1 == x) by (nonlinear_arith);
    }
    lemma_reduced_two(c, x);
    lemma_modulus_bound();
    lemma_add_mod_noop(poly_value(r1, x, 0), poly_value(r1, x, 1), modulus());
}

/// The third round polynomial at any `x` is the polynomial with `x1 = r1`,
/// `x2 = r2`, `x3 = x`.
pub proof fn lemma_round3_is_restriction(r1: int, r2: int, x: int)
    ensures
        power_sum(round3_coeffs(r1, r2), x) == poly_value(r1, r2, x),
        power_sum(reduced(round3_coeffs(r1, r2)), x) % modulus() == poly_value(r1, r2, x)
            % modulus(),
{
    lemma_reduced_two(round3_coeffs(r1, r2), x);
    let c = round3_coeffs(r1, r2);
    lemma_power_sum_two(c, x);
    assert(c[0] == 2 * (r1 * r1 * r1) && c[1] == r1 + r2);
    assert((r1 + r2) * x == r1 * x + r2 * x) by (nonlinear_arith);
}

/// Summed over the eight points of `{0,1}³` the polynomial gives 12, in the
/// integers and so in the field.
pub proof fn lemma_hypercube_sum()
    ensures
        hypercube_sum() == 12,
        hypercube_sum() % modulus() == 12,
{
    lemma_modulus_bound();
    assert(hypercube_sum() == 12);
    vstd::arithmetic::div_mod::lemma_small_mod(12, modulus() as nat);
}

/// The first round polynomial at 0 plus at 1 is the sum over the whole
/// hypercube.
pub proof fn lemma_round1_sound()
    ensures
        power_sum(round1_coeffs(), 0) + power_sum(round1_coeffs(), 1) == hypercube_sum(),
        (power_sum(round1_coeffs(), 0) % modulus() + power_sum(round1_coeffs(), 1) % modulus())
            % modulus() == hypercube_sum() % modulus(),
{
    lemma_round1_is_partial_sum(0);
    lemma_round1_is_partial_sum(1);
    lemma_modulus_bound();
    lemma_add_mod_noop(power_sum(round1_coeffs(), 0), power_sum(round1_coeffs(), 1), modulus());
}

/// For every challenge `r1`, the second round polynomial at 0 plus at 1 is
/// the first round polynomial at `r1`: over the integers, and in the field
/// for the coefficients that `s2` returns.
pub proof fn lemma_round2_consistent(r1: nat)
    ensures
        power_sum(round2_coeffs(r1 as int), 0) + power_sum(round2_coeffs(r1 as int), 1)
            == power_sum(round1_coeffs(), r1 as int),
        (power_sum(reduced(round2_coeffs(r1 as int)), 0) % modulus() + power_sum(
            reduced(round2_coeffs(r1 as int)),
            1,
        ) % modulus()) % modulus() == power_sum(round1_coeffs(), r1 as int) % modulus(),
{
    let r = r1 as int;
    let c = round2_coeffs(r);
    lemma_round2_is_partial_sum(r, 0);
    lemma_round2_is_partial_sum(r, 1);
    lemma_round1_is_partial_sum(r);
    lemma_reduced_two(c, 0);
    lemma_reduced_two(c, 1);
    lemma_modulus_bound();
    lemma_add_mod_noop(power_sum(c, 0), power_sum(c, 1), modulus());
}

/// For every pair of challenges `r1`, `r2`, the third round polynomial at 0
/// plus at 1 is the second round polynomial for `r1` at `r2`: over the
/// integers, and in the field for the coefficients that `s3` and `s2` return.
pub proof fn lemma_round3_consistent(r1: nat, r2: nat)
    ensures
        power_sum(round3_coeffs(r1 as int, r2 as int), 0) + power_sum(
            round3_coeffs(r1 as int, r2 as int),
            1,
        ) == power_sum(round2_coeffs(r1 as int), r2 as int),
        (power_sum(reduced(round3_coeffs(r1 as int, r2 as int)), 0) % modulus() + power_sum(
            reduced(round3_coeffs(r1 as int, r2 as int)),
            1,
        ) % modulus()) % modulus() == power_sum(reduced(round2_coeffs(r1 as int)), r2 as int)
            % modulus(),
{
    let (a, b) = (r1 as int, r2 as int);
    let c = round3_coeffs(a, b);
    lemma_round3_is_restriction(a, b, 0);
    lemma_round3_is_restriction(a, b, 1);
    lemma_round2_is_partial_sum(a, b);
    lemma_reduced_two(c, 0);
    lemma_reduced_two(c, 1);
    lemma_reduced_two(round2_coeffs(a), b);
    lemma_modulus_bound();
    lemma_add_mod_noop(power_sum(c, 0), power_sum(c, 1), modulus());
}

/// `2·x³` in the field, for `x` below the prime.
fn twice_cube(x: Scalar) -> (r: Scalar)
    ensures
        r.value() == (2 * (x.value() * x.value() * x.value())) % modulus(),
{
    let cube = x.square().mul(x);
    let r = cube.double();
    proof {
        let (v, m) = (x.value(), modulus());
        lemma_modulus_bound();
        lemma_mul_mod_noop_left(v * v, v, m);
        lemma_mul_mod_noop_right(2, v * v * v, m);
    }
    r
}

/// Lifts integer coefficients into the field, one for one.
fn lift(coeffs: &Vec<u64>) -> (r: Vec<Scalar>)
    ensures
        r@.len() == coeffs@.len(),
        forall|i: int| 0 <= i < r@.len() ==> (#[trigger] r@[i]).value() == coeffs@[i] as int,
{
    let mut r: Vec<Scalar> = Vec::new();
    let mut i: usize = 0;
    while i < coeffs.len()
        invariant
            i <= coeffs@.len(),
            r@.len() == i,
            forall|j: int| 0 <= j < i ==> (#[trigger] r@[j]).value() == coeffs@[j] as int,
        decreases coeffs@.len() - i,
    {
        r.push(Scalar::from_u64(coeffs[i]));
        i = i + 1;
    }
    r
}

/// Builds the round polynomial from integer coefficients.
fn round_polynomial(coeffs: &Vec<u64>) -> (r: UnivariatePolynomial)
    ensures
        r.coefficients() == coeffs@.map_values(|v: u64| v as int),
{
    let lifted = lift(coeffs);
    let r = UnivariatePolynomial::new(lifted);
    assert(r.coefficients() =~= coeffs@.map_values(|v: u64| v as int));
    r
}

/// A point `(x1, x2, x3)` at which the polynomial `2·x1³ + x1·x3 + x2·x3`
/// is evaluated.
pub struct Polynomial {
    x_1: Scalar,
    x_2: Scalar,
    x_3: Scalar,
}

impl Polynomial {
    /// The first coordinate.
    pub closed spec fn x1(&self) -> int {
        self.x_1.value()
    }

    /// The second coordinate.
    pub closed spec fn x2(&self) -> int {
        self.x_2.value()
    }

    /// The third coordinate.
    pub closed spec fn x3(&self) -> int {
        self.x_3.value()
    }

    /// The point with the three integers lifted into the field.
    pub fn new(x_1: u64, x_2: u64, x_3: u64) -> (r: Polynomial)
        ensures
            r.x1() == x_1 as int,
            r.x2() == x_2 as int,
            r.x3() == x_3 as int,
    {
        Polynomial {
            x_1: Scalar::from_u64(x_1),
            x_2: Scalar::from_u64(x_2),
            x_3: Scalar::from_u64(x_3),
        }
    }

    /// `2·x1³ + x1·x3 + x2·x3` in the field.
    pub fn evaluate(&self) -> (r: Scalar)
        ensures
            r.value() == poly_value(self.x1(), self.x2(), self.x3()) % modulus(),
    {
        let xxx1 = self.x_1.square().mul(self.x_1);
        let xxx21 = xxx1.double();
        let x1x3 = self.x_1.mul(self.x_3);
        let x2x3 = self.x_2.mul(self.x_3);
        let r = xxx21.add(x1x3).add(x2x3);
        proof {
            let (a, b, c, m) = (self.x1(), self.x2(), self.x3(), modulus());
            lemma_modulus_bound();
            lemma_mul_mod_noop_left(a * a, a, m);
            lemma_mul_mod_noop_right(2, a * a * a, m);
            lemma_add_mod_noop(2 * (a * a * a), a * c, m);
            lemma_mod_twice(2 * (a * a * a), m);
            lemma_mod_twice(a * c, m);
            lemma_add_mod_noop(2 * (a * a * a) + a * c, b * c, m);
            lemma_mod_twice(2 * (a * a * a) + a * c, m);
            lemma_mod_twice(b * c, m);
        }
        r
    }

    /// The first round polynomial, in `x1`: the polynomial summed over
    /// `x2, x3 ∈ {0,1}`.
    pub fn s1() -> (r: UnivariatePolynomial)
        ensures
            r.coefficients() == round1_coeffs(),
    {
        let mut coeffs: Vec<u64> = vec![0; 4];
        // x1, 0, 0
        coeffs.set(3, coeffs[3] + 2);
        // x1, 0, 1
        coeffs.set(3, coeffs[3] + 2);
        coeffs.set(1, coeffs[1] + 1);
        // x1, 1, 0
        coeffs.set(3, coeffs[3] + 2);
        // x1, 1, 1
        coeffs.set(3, coeffs[3] + 2);
        coeffs.set(1, coeffs[1] + 1);
        coeffs.set(0, coeffs[0] + 1);
        let r = round_polynomial(&coeffs);
        assert(r.coefficients() =~= round1_coeffs());
        r
    }

    /// The second round polynomial, in `x2`, for the challenge `x1 = r1`: the
    /// polynomial summed over `x3 ∈ {0,1}`, with coefficients in the field.
    pub fn s2(r1: u64) -> (r: UnivariatePolynomial)
        ensures
            r.coefficients() == reduced(round2_coeffs(r1 as int)),
    {
        let x1 = Scalar::from_u64(r1);
        let t = twice_cube(x1);
        // r1, x2, 0
        let mut c0 = t;
        // r1, x2, 1
        c0 = c0.add(t);
        c0 = c0.add(x1);
        let c1 = Scalar::from_u64(1);
        let r = UnivariatePolynomial::new(vec![c0, c1]);
        proof {
            let (v, m) = (r1 as int, modulus());
            let k = 2 * (v * v * v);
            lemma_modulus_bound();
            lemma_add_mod_noop(k, k, m);
            lemma_mod_twice(k, m);
            lemma_add_mod_noop(k + k, v, m);
            lemma_small_mod(v as nat, m as nat);
            lemma_small_mod(1, m as nat);
            assert(r.coefficients() =~= reduced(round2_coeffs(v)));
        }
        r
    }

    /// The third round polynomial, in `x3`, for the challenges `x1 = r1` and
    /// `x2 = r2`, with coefficients in the field.
    pub fn s3(r1: u64, r2: u64) -> (r: UnivariatePolynomial)
        ensures
            r.coefficients() == reduced(round3_coeffs(r1 as int, r2 as int)),
    {
        let x1 = Scalar::from_u64(r1);
        let x2 = Scalar::from_u64(r2);
        // r1, r2, x3
        let c0 = twice_cube(x1);
        let c1 = x1.add(x2);
        let r = UnivariatePolynomial::new(vec![c0, c1]);
        proof {
            assert(r.coefficients() =~= reduced(round3_coeffs(r1 as int, r2 as int)));
        }
        r
    }
}

} // verus!
