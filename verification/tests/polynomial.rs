use sp1_gpu_plonk::fields::Fr;
use sp1_gpu_plonk::polynomial::Polynomial;

#[test]
fn test_eval_constant() {
    let p = Polynomial::new(vec![Fr::from_u64(42)]);
    assert_eq!(p.eval(&Fr::from_u64(0)), Fr::from_u64(42));
    assert_eq!(p.eval(&Fr::from_u64(100)), Fr::from_u64(42));
}

#[test]
fn test_eval_linear() {
    // p(x) = 2 + 3x
    let p = Polynomial::new(vec![Fr::from_u64(2), Fr::from_u64(3)]);
    // p(0) = 2
    assert_eq!(p.eval(&Fr::zero()), Fr::from_u64(2));
    // p(1) = 5
    assert_eq!(p.eval(&Fr::one()), Fr::from_u64(5));
    // p(4) = 14
    assert_eq!(p.eval(&Fr::from_u64(4)), Fr::from_u64(14));
}

#[test]
fn test_eval_quadratic() {
    // p(x) = 1 + x + x²
    let p = Polynomial::new(vec![Fr::one(), Fr::one(), Fr::one()]);
    // p(2) = 1 + 2 + 4 = 7
    assert_eq!(p.eval(&Fr::from_u64(2)), Fr::from_u64(7));
    // p(3) = 1 + 3 + 9 = 13
    assert_eq!(p.eval(&Fr::from_u64(3)), Fr::from_u64(13));
}

#[test]
fn test_div_by_linear() {
    // p(x) = x² - 1 = (x-1)(x+1)
    // p(x) / (x-1) = (x+1) with remainder 0
    let p = Polynomial::new(vec![-Fr::one(), Fr::zero(), Fr::one()]);
    let (q, r) = p.div_by_linear(&Fr::one());
    assert_eq!(r, Fr::zero(), "Remainder should be 0");
    // q(x) = x + 1
    assert_eq!(q.coeffs.len(), 2);
    assert_eq!(q.coeffs[0], Fr::one());
    assert_eq!(q.coeffs[1], Fr::one());
}

#[test]
fn test_div_by_linear_with_remainder() {
    // p(x) = x² + 2x + 3, divide by (x - 2)
    // p(2) = 4 + 4 + 3 = 11
    let p = Polynomial::new(vec![Fr::from_u64(3), Fr::from_u64(2), Fr::one()]);
    let (q, r) = p.div_by_linear(&Fr::from_u64(2));
    assert_eq!(r, Fr::from_u64(11), "Remainder should be p(2) = 11");
    // Verify: p(x) = (x-2)*q(x) + 11
    let x = Fr::from_u64(5);
    let lhs = p.eval(&x);
    let rhs = q.eval(&x) * (x - Fr::from_u64(2)) + r;
    assert_eq!(lhs, rhs);
}

#[test]
fn test_poly_add() {
    let a = Polynomial::new(vec![Fr::from_u64(1), Fr::from_u64(2)]);
    let b = Polynomial::new(vec![Fr::from_u64(3), Fr::from_u64(4), Fr::from_u64(5)]);
    let c = a.add(&b);
    assert_eq!(c.coeffs[0], Fr::from_u64(4));
    assert_eq!(c.coeffs[1], Fr::from_u64(6));
    assert_eq!(c.coeffs[2], Fr::from_u64(5));
}

#[test]
fn test_poly_scale() {
    let p = Polynomial::new(vec![Fr::from_u64(2), Fr::from_u64(3)]);
    let scaled = p.scale(&Fr::from_u64(5));
    assert_eq!(scaled.coeffs[0], Fr::from_u64(10));
    assert_eq!(scaled.coeffs[1], Fr::from_u64(15));
}

#[test]
fn test_poly_fold() {
    let p0 = Polynomial::new(vec![Fr::from_u64(1)]);
    let p1 = Polynomial::new(vec![Fr::from_u64(2)]);
    let p2 = Polynomial::new(vec![Fr::from_u64(3)]);

    let gamma = Fr::from_u64(10);
    let folded = Polynomial::fold(&[&p0, &p1, &p2], &gamma);
    // 1 + 10*2 + 100*3 = 1 + 20 + 300 = 321
    assert_eq!(folded.eval(&Fr::zero()), Fr::from_u64(321));
}

#[test]
fn test_linear_combination() {
    let p0 = Polynomial::new(vec![Fr::from_u64(1), Fr::from_u64(0)]);
    let p1 = Polynomial::new(vec![Fr::from_u64(0), Fr::from_u64(1)]);
    let result =
        Polynomial::linear_combination(&[&p0, &p1], &[Fr::from_u64(3), Fr::from_u64(5)]);
    // 3*(1 + 0x) + 5*(0 + 1x) = 3 + 5x
    assert_eq!(result.eval(&Fr::from_u64(2)), Fr::from_u64(13));
}
