use sumcheck::{Polynomial, Scalar, UnivariatePolynomial};

fn s(v: u64) -> Scalar {
    Scalar::from_u64(v)
}

// example value from
// https://people.cs.georgetown.edu/jthaler/ProofsArgsAndZK.pdf#page=37&zoom=100,100,250
#[test]
fn h_test() {
    let a = Polynomial::new(0, 0, 0).evaluate();
    let b = Polynomial::new(0, 1, 0).evaluate();
    let c = Polynomial::new(0, 0, 1).evaluate();
    let d = Polynomial::new(0, 1, 1).evaluate();
    let e = Polynomial::new(1, 0, 0).evaluate();
    let f = Polynomial::new(1, 1, 0).evaluate();
    let g = Polynomial::new(1, 0, 1).evaluate();
    let h = Polynomial::new(1, 1, 1).evaluate();

    let sum = a.add(b).add(c).add(d).add(e).add(f).add(g).add(h);
    assert_eq!(Scalar::from_u64(12), sum)
}

#[test]
fn s1_test() {
    let s1 = Polynomial::s1();
    let s10 = s1.evaluate(0);
    let s11 = s1.evaluate(1);

    assert_eq!(Scalar::from_u64(12), s10.add(s11))
}

#[test]
fn s2_test() {
    let r1 = 2;
    let s1 = Polynomial::s1();
    let s2 = Polynomial::s2(r1);
    let s20 = s2.evaluate(0);
    let s21 = s2.evaluate(1);

    assert_eq!(s20.add(s21), s1.evaluate(r1))
}

#[test]
fn s3_test() {
    let r1 = 2;
    let r2 = 3;
    let s2 = Polynomial::s2(r1);
    let s3 = Polynomial::s3(r1, r2);
    let s30 = s3.evaluate(0);
    let s31 = s3.evaluate(1);

    assert_eq!(s30.add(s31), s2.evaluate(r2))
}

#[test]
fn evaluate_matches_closed_form() {
    // 2·2³ + 2·5 + 3·5 = 41
    assert_eq!(Polynomial::new(2, 3, 5).evaluate(), s(41));
    assert_eq!(Polynomial::new(0, 0, 0).evaluate(), s(0));
    assert_eq!(Polynomial::new(1, 1, 1).evaluate(), s(4));
}

#[test]
fn first_round_coefficients() {
    // 1 + 2x + 8x³ is fixed by its values at four points
    let p = Polynomial::s1();
    assert_eq!(p.evaluate(0), s(1));
    assert_eq!(p.evaluate(1), s(11));
    assert_eq!(p.evaluate(2), s(69));
    assert_eq!(p.evaluate(3), s(223));
}

#[test]
fn second_round_coefficients() {
    // 4·2³ + 2 = 34 plus x
    let p = Polynomial::s2(2);
    assert_eq!(p.evaluate(0), s(34));
    assert_eq!(p.evaluate(1), s(35));
    assert_eq!(p.evaluate(3), s(37));
}

#[test]
fn third_round_coefficients() {
    // 2·2³ = 16 plus (2 + 3)·x
    let p = Polynomial::s3(2, 3);
    assert_eq!(p.evaluate(0), s(16));
    assert_eq!(p.evaluate(1), s(21));
    assert_eq!(p.evaluate(4), s(36));
}

#[test]
fn rounds_agree_for_other_challenges() {
    for r1 in [0u64, 1, 7, 1000] {
        let s2 = Polynomial::s2(r1);
        assert_eq!(s2.evaluate(0).add(s2.evaluate(1)), Polynomial::s1().evaluate(r1));
        for r2 in [0u64, 5, 99] {
            let s3 = Polynomial::s3(r1, r2);
            assert_eq!(s3.evaluate(0).add(s3.evaluate(1)), s2.evaluate(r2));
        }
    }
}

#[test]
fn horner_on_explicit_coefficients() {
    // 3 + 0·x + 5x² + 1x³ at 4: 3 + 80 + 64 = 147
    let p = UnivariatePolynomial::new(vec![s(3), s(0), s(5), s(1)]);
    assert_eq!(p.evaluate(4), s(147));
    // leading zeros are kept and change nothing
    let q = UnivariatePolynomial::new(vec![s(3), s(0), s(5), s(1), s(0), s(0)]);
    assert_eq!(q.evaluate(4), s(147));
}

#[test]
fn horner_on_empty_and_constant() {
    let empty = UnivariatePolynomial::new(vec![]);
    assert_eq!(empty.evaluate(0), Scalar::zero());
    assert_eq!(empty.evaluate(123), Scalar::zero());
    let constant = UnivariatePolynomial::new(vec![s(9)]);
    assert_eq!(constant.evaluate(u64::MAX), s(9));
}

#[test]
fn field_operations() {
    assert_eq!(s(2).add(s(3)), s(5));
    assert_eq!(s(3).mul(s(4)), s(12));
    assert_eq!(s(7).double(), s(14));
    assert_eq!(s(5).square(), s(25));
    assert_eq!(Scalar::zero().add(s(8)), s(8));
}

#[test]
fn field_reduces_large_values() {
    // (2^64 - 1)^8 exceeds the prime, so the products wrap; both ways agree
    let a = s(u64::MAX);
    let a2 = a.square();
    let a4 = a2.square();
    let a8 = a4.square();
    assert_eq!(a8, a4.mul(a4));
    assert_eq!(a8, a2.mul(a2).mul(a2).mul(a2));
    assert_eq!(a4.double(), a4.add(a4));
    assert_ne!(a8, a4);
}

#[test]
fn rounds_accept_the_largest_challenges() {
    let big = u64::MAX;
    let s1 = Polynomial::s1();
    let s2 = Polynomial::s2(big);
    assert_eq!(s2.evaluate(0).add(s2.evaluate(1)), s1.evaluate(big));
    let s3 = Polynomial::s3(big, big);
    assert_eq!(s3.evaluate(0).add(s3.evaluate(1)), s2.evaluate(big));
    // the third round is the polynomial itself with x1, x2 fixed
    assert_eq!(s3.evaluate(7), Polynomial::new(big, big, 7).evaluate());
}

#[test]
fn second_round_beyond_u64_coefficients() {
    // 4·r³ + r for r = 2^21 exceeds u64::MAX; the field value is still exact
    let r = 1u64 << 21;
    let x = s(r);
    let expected = x.square().mul(x).mul(s(4)).add(x);
    assert_eq!(Polynomial::s2(r).evaluate(0), expected);
}
