use sp1_gpu_plonk::domain::{bit_reverse, root_of_unity, Domain};
use sp1_gpu_plonk::fields::Fr;

/// Create a domain of size N with a correct root of unity.
fn test_domain(log_n: u32) -> Domain {
    let omega = root_of_unity(log_n);
    Domain::new(1 << log_n, omega)
}

#[test]
fn test_omega_is_root_of_unity() {
    let domain = test_domain(3); // N = 8
    let omega_n = domain.omega.pow(&[domain.size as u64, 0, 0, 0]);
    assert_eq!(omega_n, Fr::one(), "ω^N must equal 1");
}

#[test]
fn test_omega_is_primitive() {
    let domain = test_domain(3);
    // ω^(N/2) should be -1 (not 1)
    let omega_half = domain.omega.pow(&[(domain.size / 2) as u64, 0, 0, 0]);
    assert_ne!(omega_half, Fr::one(), "ω^(N/2) must not equal 1 (primitive root)");
    // ω^(N/2) + 1 = 0 (it should be -1)
    assert_eq!(omega_half + Fr::one(), Fr::zero());
}

#[test]
fn test_fft_ifft_roundtrip() {
    let domain = test_domain(3);
    let coeffs: Vec<Fr> = (0..8).map(|i| Fr::from_u64(i + 1)).collect();

    let evals = domain.fft(&coeffs);
    let recovered = domain.ifft(&evals);

    for (a, b) in coeffs.iter().zip(recovered.iter()) {
        assert_eq!(*a, *b, "FFT/iFFT roundtrip must be identity");
    }
}

#[test]
fn test_fft_linearity() {
    let domain = test_domain(3);
    let a: Vec<Fr> = (0..8).map(Fr::from_u64).collect();
    let b: Vec<Fr> = (0..8).map(|i| Fr::from_u64(i * 2 + 1)).collect();
    let c: Vec<Fr> = a.iter().zip(b.iter()).map(|(x, y)| *x + *y).collect();

    let fa = domain.fft(&a);
    let fb = domain.fft(&b);
    let fc = domain.fft(&c);

    for i in 0..8 {
        assert_eq!(fa[i] + fb[i], fc[i], "FFT should be linear");
    }
}

#[test]
fn test_fft_evaluates_polynomial() {
    let domain = test_domain(3);
    // Polynomial p(x) = 1 + 2x + 3x²
    let mut coeffs = vec![Fr::zero(); 8];
    coeffs[0] = Fr::from_u64(1);
    coeffs[1] = Fr::from_u64(2);
    coeffs[2] = Fr::from_u64(3);

    let evals = domain.fft(&coeffs);
    let powers = domain.omega_powers();

    // Verify each evaluation using Horner's method
    for i in 0..8 {
        let x = powers[i];
        let expected = Fr::from_u64(1) + Fr::from_u64(2) * x + Fr::from_u64(3) * x.square();
        assert_eq!(evals[i], expected, "FFT eval mismatch at index {i}");
    }
}

#[test]
fn test_vanishing_poly() {
    let domain = test_domain(3);
    let powers = domain.omega_powers();

    // Z_H(ω^i) = 0 for all domain points
    for (i, w) in powers.iter().enumerate() {
        let v = domain.vanishing_eval(w);
        assert_eq!(v, Fr::zero(), "Vanishing poly must be 0 at ω^{i}");
    }

    // Z_H at random point should be non-zero
    let random = Fr::from_u64(12345);
    assert_ne!(domain.vanishing_eval(&random), Fr::zero());
}

#[test]
fn test_coset_fft_roundtrip() {
    let domain = test_domain(3);
    let shift = Fr::from_u64(5); // BN254 coset shift

    let coeffs: Vec<Fr> = (0..8).map(|i| Fr::from_u64(i + 1)).collect();
    let evals = domain.coset_fft(&coeffs, &shift);
    let recovered = domain.coset_ifft(&evals, &shift);

    for (a, b) in coeffs.iter().zip(recovered.iter()) {
        assert_eq!(*a, *b, "Coset FFT/iFFT roundtrip must be identity");
    }
}

#[test]
fn test_bit_reverse() {
    assert_eq!(bit_reverse(0b000, 3), 0b000);
    assert_eq!(bit_reverse(0b001, 3), 0b100);
    assert_eq!(bit_reverse(0b010, 3), 0b010);
    assert_eq!(bit_reverse(0b011, 3), 0b110);
    assert_eq!(bit_reverse(0b100, 3), 0b001);
}
