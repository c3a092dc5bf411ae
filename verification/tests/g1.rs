use sp1_gpu_plonk::fields::Fq;
use sp1_gpu_plonk::g1::{b_mont, cpu_msm, msm, G1Affine, G1Jacobian};

/// BN254 generator: G = (1, 2).
fn generator() -> G1Affine {
    G1Affine { x: Fq::from_u64(1), y: Fq::from_u64(2) }
}

/// Verify the generator is on the curve: y² = x³ + 3.
#[test]
fn test_generator_on_curve() {
    let g = generator();
    let y2 = g.y.square();
    let x3_plus_b = g.x.square() * g.x + b_mont();
    assert_eq!(y2, x3_plus_b);
}

#[test]
fn test_double_generator() {
    let g = generator().to_jacobian();
    let g2 = g.double();
    assert!(!g2.is_infinity());

    // Verify 2G is on the curve
    let g2a = g2.to_affine();
    let y2 = g2a.y.square();
    let x3_plus_b = g2a.x.square() * g2a.x + b_mont();
    assert_eq!(y2, x3_plus_b);
}

#[test]
fn test_add_equals_double() {
    let g = generator().to_jacobian();
    let g_plus_g = g.add(&g);
    let g_doubled = g.double();

    let a1 = g_plus_g.to_affine();
    let a2 = g_doubled.to_affine();
    assert_eq!(a1, a2);
}

#[test]
fn test_mixed_add() {
    let g_aff = generator();
    let g_jac = g_aff.to_jacobian();
    let g2_mixed = g_jac.add_affine(&g_aff);
    let g2_full = g_jac.add(&g_jac);

    assert_eq!(g2_mixed.to_affine(), g2_full.to_affine());
}

#[test]
fn test_add_infinity() {
    let g = generator().to_jacobian();
    let inf = G1Jacobian::infinity();

    let r1 = g.add(&inf);
    let r2 = inf.add(&g);
    assert_eq!(r1.to_affine(), generator());
    assert_eq!(r2.to_affine(), generator());
}

#[test]
fn test_point_negation() {
    let g = generator();
    let neg_g = G1Affine { x: g.x, y: -g.y };

    // Verify -G is on the curve: y² = x³ + 3
    let y2 = neg_g.y.square();
    let x3_plus_b = neg_g.x.square() * neg_g.x + b_mont();
    assert_eq!(y2, x3_plus_b);

    // P + (-P) = infinity via full Jacobian add
    let result = g.to_jacobian().add(&neg_g.to_jacobian());
    assert!(result.is_infinity());

    // P + (-P) = infinity via mixed add
    let result_mixed = g.to_jacobian().add_affine(&neg_g);
    assert!(result_mixed.is_infinity());
}

#[test]
fn test_g1_associativity() {
    let g = generator().to_jacobian();
    let g2 = g.double(); // 2G
    let g3 = g2.add(&g); // 3G

    // (G + 2G) + 3G  vs  G + (2G + 3G)
    let lhs = g.add(&g2).add(&g3);
    let rhs = g.add(&g2.add(&g3));
    assert_eq!(lhs.to_affine(), rhs.to_affine());
}

#[test]
fn test_scalar_mul_one() {
    let g = generator().to_jacobian();
    let result = g.scalar_mul(&[1, 0, 0, 0]);
    assert_eq!(result.to_affine(), generator());
}

#[test]
fn test_scalar_mul_two() {
    let g = generator().to_jacobian();
    let g2_scalar = g.scalar_mul(&[2, 0, 0, 0]);
    let g2_add = g.double();
    assert_eq!(g2_scalar.to_affine(), g2_add.to_affine());
}

#[test]
fn test_scalar_mul_three() {
    let g = generator().to_jacobian();
    let g3_scalar = g.scalar_mul(&[3, 0, 0, 0]);
    let g3_add = g.double().add(&g);
    assert_eq!(g3_scalar.to_affine(), g3_add.to_affine());
}

#[test]
fn test_scalar_mul_zero() {
    let g = generator().to_jacobian();
    let result = g.scalar_mul(&[0, 0, 0, 0]);
    assert!(result.is_infinity());
}

#[test]
fn test_cpu_msm_simple() {
    let g = generator();
    let points = vec![g, g, g];
    let scalars = vec![
        sp1_gpu_plonk::fields::Fr::from_u64(1),
        sp1_gpu_plonk::fields::Fr::from_u64(2),
        sp1_gpu_plonk::fields::Fr::from_u64(3),
    ];
    let result = cpu_msm(&points, &scalars);
    // 1*G + 2*G + 3*G = 6*G
    let expected = g.to_jacobian().scalar_mul(&[6, 0, 0, 0]);
    assert_eq!(result.to_affine(), expected.to_affine());
}

#[test]
fn test_msm_dispatcher() {
    // Test the msm() dispatcher (falls back to cpu_msm when cuda is not enabled)
    let g = generator();
    let points = vec![g, g, g];
    let scalars = vec![
        sp1_gpu_plonk::fields::Fr::from_u64(1),
        sp1_gpu_plonk::fields::Fr::from_u64(2),
        sp1_gpu_plonk::fields::Fr::from_u64(3),
    ];
    let result = msm(&points, &scalars);
    let expected = g.to_jacobian().scalar_mul(&[6, 0, 0, 0]);
    assert_eq!(result.to_affine(), expected.to_affine());
}

#[test]
fn test_msm_empty() {
    let result = msm(&[], &[]);
    assert!(result.is_infinity());
}

#[test]
fn test_msm_single_point() {
    let g = generator();
    let result = msm(&[g], &[sp1_gpu_plonk::fields::Fr::from_u64(5)]);
    let expected = g.to_jacobian().scalar_mul(&[5, 0, 0, 0]);
    assert_eq!(result.to_affine(), expected.to_affine());
}

#[test]
fn test_msm_matches_cpu_msm() {
    // Verify dispatcher produces same result as direct cpu_msm call
    let g = generator();
    let g2 = g.to_jacobian().double().to_affine();
    let g3 = g.to_jacobian().double().add(&g.to_jacobian()).to_affine();
    let points = vec![g, g2, g3];
    let scalars = vec![
        sp1_gpu_plonk::fields::Fr::from_u64(7),
        sp1_gpu_plonk::fields::Fr::from_u64(13),
        sp1_gpu_plonk::fields::Fr::from_u64(42),
    ];
    let msm_result = msm(&points, &scalars);
    let cpu_result = cpu_msm(&points, &scalars);
    assert_eq!(msm_result.to_affine(), cpu_result.to_affine());
}

#[test]
fn test_affine_jacobian_roundtrip() {
    let g = generator();
    let j = g.to_jacobian();
    let a = j.to_affine();
    assert_eq!(a, g);
}

#[test]
fn test_bn254_roundtrip() {
    let g = generator();
    let bn = g.to_bn254();
    let recovered = G1Affine::from_bn254(&bn);
    assert_eq!(recovered, g);
}
