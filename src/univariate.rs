//! Univariate polynomials over the field, evaluated by Horner's method.

use crate::field::{modulus, lemma_modulus_bound, Scalar};
use vstd::arithmetic::div_mod::{lemma_add_mod_noop, lemma_mul_mod_noop_left};
use vstd::arithmetic::power::pow;
use vstd::prelude::*;

verus! {

/// `c[0] + c[1]·x + ... + c[n-1]·x^(n-1)`, each power taken on its own.
pub open spec fn power_sum(c: Seq<int>, x: int) -> int
    decreases c.len(),
{
    if c.len() == 0 {
        0
    } else {
        power_sum(c.drop_last(), x) + c.last() * pow(x, (c.len() - 1) as nat)
    }
}

/// The same sum in nested form: `c[0] + x·(c[1] + x·(...))`.
pub open spec fn nested_sum(c: Seq<int>, x: int) -> int
    decreases c.len(),
{
    if c.len() == 0 {
        0
    } else {
        c[0] + x * nested_sum(c.drop_first(), x)
    }
}

/// Both forms give the same polynomial value.
pub proof fn lemma_nested_is_power_sum(c: Seq<int>, x: int)
    ensures
        nested_sum(c, x) == power_sum(c, x),
    decreases c.len(),
{
    reveal(pow);
    if c.len() == 0 {
    } else if c.len() == 1 {
        assert(c.drop_first().len() == 0);
        assert(c.drop_last().len() == 0);
        assert(pow(x, 0) == 1);
        assert(nested_sum(c, x) == c[0] + x * nested_sum(c.drop_first(), x));
        assert(power_sum(c, x) == power_sum(c.drop_last(), x) + c.last() * pow(x, 0));
        assert(c.last() == c[0]);
    } else {
        let n = c.len();
        let tail = c.drop_first();
        lemma_nested_is_power_sum(tail, x);
        lemma_nested_is_power_sum(c.drop_last(), x);
        lemma_nested_is_power_sum(tail.drop_last(), x);
        assert(c.drop_last().drop_first() =~= tail.drop_last());
        assert(c.drop_last()[0] == c[0]);
        assert(tail.last() == c.last());
        assert(pow(x, (n - 1) as nat) == x * pow(x, (n - 2) as nat));
        let p = pow(x, (n - 2) as nat);
        assert(power_sum(tail, x) == power_sum(tail.drop_last(), x) + c.last() * p);
        assert(nested_sum(c.drop_last(), x) == c[0] + x * nested_sum(tail.drop_last(), x));
        assert(nested_sum(c, x) == c[0] + x * nested_sum(tail, x));
        assert(power_sum(c, x) == power_sum(c.drop_last(), x) + c.last() * (x * p));
        assert(x * (power_sum(tail.drop_last(), x) + c.last() * p) == x * power_sum(
            tail.drop_last(),
            x,
        ) + c.last() * (x * p)) by (nonlinear_arith);
        assert(power_sum(c.drop_last(), x) == c[0] + x * power_sum(tail.drop_last(), x));
        assert(nested_sum(c, x) == c[0] + x * (power_sum(tail.drop_last(), x) + c.last() * p));
    }
}

/// A polynomial `Σ c_i · X^i` given by its coefficients, constant term first.
/// Leading zero coefficients are kept as given.
#[derive(Debug)]
pub struct UnivariatePolynomial {
    coeffs: Vec<Scalar>,
}

impl UnivariatePolynomial {
    /// The coefficients as field values, constant term first.
    pub closed spec fn coefficients(&self) -> Seq<int> {
        self.coeffs@.map_values(|c: Scalar| c.value())
    }

    /// Takes the coefficients as they are.
    pub fn new(coeffs: Vec<Scalar>) -> (r: UnivariatePolynomial)
        ensures
            r.coefficients() == coeffs@.map_values(|c: Scalar| c.value()),
    {
        UnivariatePolynomial { coeffs }
    }

    /// The value at `at`, by Horner's method: from the highest coefficient
    /// down, `sum = sum · at + c`, starting from zero.
    pub fn evaluate(&self, at: u64) -> (r: Scalar)
        ensures
            r.value() == power_sum(self.coefficients(), at as int) % modulus(),
    {
        let value = Scalar::from_u64(at);
        let ghost c = self.coefficients();
        let ghost x = at as int;
        let n = self.coeffs.len();
        let mut sum = Scalar::zero();
        let mut i: usize = n;
        proof {
            lemma_modulus_bound();
            assert(c.subrange(n as int, n as int).len() == 0);
            assert(nested_sum(c.subrange(n as int, n as int), x) == 0);
            assert(0int % modulus() == 0) by (nonlinear_arith)
                requires
                    modulus() > 0,
            ;
        }
        while i > 0
            invariant
                i <= n,
                n == self.coeffs@.len(),
                c == self.coefficients(),
                c.len() == n,
                x == at as int,
                value.value() == x,
                modulus() > 0,
                sum.value() == nested_sum(c.subrange(i as int, n as int), x) % modulus(),
            decreases i,
        {
            i = i - 1;
            let coeff = self.coeffs[i];
            let next = sum.mul(value).add(coeff);
            proof {
                let m = modulus();
                let rest = nested_sum(c.subrange(i + 1, n as int), x);
                assert(c.subrange(i as int, n as int).drop_first() =~= c.subrange(i + 1, n as int));
                assert(c[i as int] == coeff.value());
                lemma_mul_mod_noop_left(rest, x, m);
                lemma_add_mod_noop(rest * x, coeff.value(), m);
                lemma_add_mod_noop((rest % m) * x % m, coeff.value(), m);
                vstd::arithmetic::div_mod::lemma_mod_twice(rest * x, m);
                assert(x * rest == rest * x) by (nonlinear_arith);
            }
            sum = next;
        }
        proof {
            assert(c.subrange(0, n as int) =~= c);
            lemma_nested_is_power_sum(c, x);
        }
        sum
    }
}

} // verus!
