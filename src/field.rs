//! Canonical elements of the BLS12-381 scalar field, with arithmetic carried
//! out by `jub_jub::Fr`.

use jub_jub::Fr;
use vstd::prelude::*;
use vstd::arithmetic::div_mod::lemma_small_mod;
use zkstd::common::{FftField, PrimeField};

verus! {

/// 2^64, the weight of one limb.
pub open spec fn limb_base() -> int {
    0x1_0000_0000_0000_0000
}

/// The integer that four little-endian 64-bit limbs stand for.
pub open spec fn limbs_value(l: [u64; 4]) -> int {
    l[0] as int + limb_base() * (l[1] as int + limb_base() * (l[2] as int + limb_base() * (l[3] as int)))
}

/// The prime order of the field.
pub open spec fn modulus() -> int {
    limbs_value([0xffffffff00000001, 0x53bda402fffe5bfe, 0x3339d80809a1d805, 0x73eda753299d7d48])
}

/// The prime exceeds every `u64`.
pub proof fn lemma_modulus_bound()
    ensures
        modulus() > limb_base(),
{
}

/// A value below the prime is its own remainder.
proof fn lemma_reduced(l: [u64; 4])
    requires
        limbs_value(l) < modulus(),
    ensures
        limbs_value(l) % modulus() == limbs_value(l),
{
    lemma_small_mod(limbs_value(l) as nat, modulus() as nat);
}

/// Relies on `Fr::to_mont_form`, `Add` for `Fr` and `FftField::reduce`:
/// the sum modulo the prime, read back in canonical form.
#[verifier::external_body]
fn fr_add(a: [u64; 4], b: [u64; 4]) -> (r: [u64; 4])
    requires
        limbs_value(a) < modulus(),
        limbs_value(b) < modulus(),
    ensures
        limbs_value(r) == (limbs_value(a) + limbs_value(b)) % modulus(),
{
    (Fr::to_mont_form(a) + Fr::to_mont_form(b)).reduce().inner()
}

/// Relies on `Fr::to_mont_form`, `Mul` for `Fr` and `FftField::reduce`:
/// the product modulo the prime, read back in canonical form.
#[verifier::external_body]
fn fr_mul(a: [u64; 4], b: [u64; 4]) -> (r: [u64; 4])
    requires
        limbs_value(a) < modulus(),
        limbs_value(b) < modulus(),
    ensures
        limbs_value(r) == (limbs_value(a) * limbs_value(b)) % modulus(),
{
    (Fr::to_mont_form(a) * Fr::to_mont_form(b)).reduce().inner()
}

/// Relies on `Fr::to_mont_form`, `PrimeField::double` and `FftField::reduce`:
/// twice the value modulo the prime, read back in canonical form.
#[verifier::external_body]
fn fr_double(a: [u64; 4]) -> (r: [u64; 4])
    requires
        limbs_value(a) < modulus(),
    ensures
        limbs_value(r) == (2 * limbs_value(a)) % modulus(),
{
    Fr::to_mont_form(a).double().reduce().inner()
}

/// An element of the field, held as its canonical representative.
#[derive(Clone, Copy, Debug, PartialEq, Eq)]
pub struct Scalar {
    limbs: [u64; 4],
}

impl Scalar {
    #[verifier::type_invariant]
    spec fn canonical(self) -> bool {
        limbs_value(self.limbs) < modulus()
    }

    /// The representative in `0 .. modulus()`.
    pub closed spec fn value(self) -> int {
        limbs_value(self.limbs) % modulus()
    }

    /// Every element is its least non-negative representative, so two
    /// elements with equal values modulo the prime have equal values.
    pub proof fn lemma_value_canonical(self)
        ensures
            0 <= self.value() < modulus(),
    {
        lemma_modulus_bound();
    }

    /// The additive identity.
    pub fn zero() -> (r: Scalar)
        ensures
            r.value() == 0,
    {
        let r = Scalar { limbs: [0, 0, 0, 0] };
        proof {
            lemma_modulus_bound();
            lemma_reduced(r.limbs);
        }
        r
    }

    /// The element that an unsigned integer stands for.
    pub fn from_u64(v: u64) -> (r: Scalar)
        ensures
            r.value() == v as int,
    {
        proof {
            lemma_modulus_bound();
        }
        let r = Scalar { limbs: [v, 0, 0, 0] };
        proof {
            lemma_reduced(r.limbs);
        }
        r
    }

    /// Field addition.
    pub fn add(self, other: Scalar) -> (r: Scalar)
        ensures
            r.value() == (self.value() + other.value()) % modulus(),
    {
        proof {
            use_type_invariant(self);
            use_type_invariant(other);
            lemma_reduced(self.limbs);
            lemma_reduced(other.limbs);
        }
        let r = Scalar { limbs: fr_add(self.limbs, other.limbs) };
        proof {
            lemma_reduced(r.limbs);
        }
        r
    }

    /// Field multiplication.
    pub fn mul(self, other: Scalar) -> (r: Scalar)
        ensures
            r.value() == (self.value() * other.value()) % modulus(),
    {
        proof {
            use_type_invariant(self);
            use_type_invariant(other);
            lemma_reduced(self.limbs);
            lemma_reduced(other.limbs);
        }
        let r = Scalar { limbs: fr_mul(self.limbs, other.limbs) };
        proof {
            lemma_reduced(r.limbs);
        }
        r
    }

    /// The element added to itself.
    pub fn double(self) -> (r: Scalar)
        ensures
            r.value() == (2 * self.value()) % modulus(),
    {
        proof {
            use_type_invariant(self);
            lemma_reduced(self.limbs);
        }
        let r = Scalar { limbs: fr_double(self.limbs) };
        proof {
            lemma_reduced(r.limbs);
        }
        r
    }

    /// The element multiplied by itself.
    pub fn square(self) -> (r: Scalar)
        ensures
            r.value() == (self.value() * self.value()) % modulus(),
    {
        self.mul(self)
    }
}

} // verus!
