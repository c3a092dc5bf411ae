use sp1_gpu_plonk::fields::{batch_inv_fr, Fq, Fr, FQ_INV, FQ_MODULUS, FQ_R, FR_MODULUS};
use sp1_gpu_plonk::limbs::{gte, mont_pow, u64_to_u32};
use sp1_gpu_plonk::{BN254Fq, BN254Fr};

#[test]
fn test_fr_one_times_one() {
    let one = Fr::one();
    assert_eq!(one * one, one);
}

#[test]
fn test_fr_zero_plus_zero() {
    assert_eq!(Fr::zero() + Fr::zero(), Fr::zero());
}

#[test]
fn test_fr_one_plus_one() {
    let two = Fr::from_u64(2);
    assert_eq!(Fr::one() + Fr::one(), two);
}

#[test]
fn test_fr_small_mul() {
    let five = Fr::from_u64(5);
    let seven = Fr::from_u64(7);
    let thirtyfive = Fr::from_u64(35);
    assert_eq!(five * seven, thirtyfive);
}

#[test]
fn test_fr_small_add_sub() {
    let five = Fr::from_u64(5);
    let three = Fr::from_u64(3);
    let two = Fr::from_u64(2);
    let eight = Fr::from_u64(8);
    assert_eq!(five + three, eight);
    assert_eq!(five - three, two);
}

#[test]
fn test_fr_sub_underflow() {
    let three = Fr::from_u64(3);
    let five = Fr::from_u64(5);
    let result = three - five; // should be r - 2
    assert_eq!(result + five, three); // (r-2) + 5 = r + 3 ≡ 3
}

#[test]
fn test_fr_negation() {
    let five = Fr::from_u64(5);
    let neg_five = -five;
    assert_eq!(five + neg_five, Fr::zero());
    assert_eq!(-Fr::zero(), Fr::zero());
}

#[test]
fn test_fr_double() {
    let seven = Fr::from_u64(7);
    assert_eq!(seven.double(), Fr::from_u64(14));
}

#[test]
fn test_fr_square() {
    let five = Fr::from_u64(5);
    assert_eq!(five.square(), Fr::from_u64(25));
}

#[test]
fn test_fr_inversion() {
    let two = Fr::from_u64(2);
    let inv_two = two.inv();
    assert_eq!(two * inv_two, Fr::one());

    let seven = Fr::from_u64(7);
    let inv_seven = seven.inv();
    assert_eq!(seven * inv_seven, Fr::one());
}

#[test]
fn test_fr_inv_one() {
    assert_eq!(Fr::one().inv(), Fr::one());
}

#[test]
fn test_fr_pow() {
    let two = Fr::from_u64(2);
    let result = two.pow(&[10, 0, 0, 0]);
    assert_eq!(result, Fr::from_u64(1024));
}

#[test]
fn test_fr_canonical_roundtrip() {
    let five = Fr::from_u64(5);
    let canonical = five.to_canonical();
    assert_eq!(canonical, [5, 0, 0, 0]);
    let recovered = Fr::from_canonical(&canonical);
    assert_eq!(recovered, five);
}

#[test]
fn test_fr_bn254fr_roundtrip() {
    let fr = Fr::from_u64(42);
    let bn = fr.to_bn254fr();
    let recovered = Fr::from_bn254fr(&bn);
    assert_eq!(recovered, fr);
}

#[test]
fn test_fr_be_bytes_roundtrip() {
    let five = Fr::from_u64(5);
    let bytes = five.to_be_bytes();
    // 5 in BE: all zeros except last byte = 5
    assert_eq!(bytes[31], 5);
    for b in &bytes[..31] {
        assert_eq!(*b, 0);
    }
    let recovered = Fr::from_be_bytes_mod_order(&bytes);
    assert_eq!(recovered, five);
}

#[test]
fn test_fr_mul_by_zero() {
    let five = Fr::from_u64(5);
    assert_eq!(five * Fr::zero(), Fr::zero());
    assert_eq!(Fr::zero() * five, Fr::zero());
}

#[test]
fn test_fr_associativity() {
    let a = Fr::from_u64(123);
    let b = Fr::from_u64(456);
    let c = Fr::from_u64(789);
    assert_eq!((a * b) * c, a * (b * c));
    assert_eq!((a + b) + c, a + (b + c));
}

#[test]
fn test_fr_distributivity() {
    let a = Fr::from_u64(12);
    let b = Fr::from_u64(34);
    let c = Fr::from_u64(56);
    assert_eq!(a * (b + c), a * b + a * c);
}

#[test]
fn test_fr_fermat() {
    // a^(r-1) = 1 for any nonzero a (Fermat's little theorem)
    let r_minus_1: [u64; 4] =
        [0x43e1f593f0000000, 0x2833e84879b97091, 0xb85045b68181585d, 0x30644e72e131a029];
    for v in [2u64, 7, 13, 0xdeadbeef, 999999999999] {
        let a = Fr::from_u64(v);
        assert_eq!(a.pow(&r_minus_1), Fr::one(), "Fr Fermat failed for {v}");
    }
}

#[test]
fn test_fr_large_mul_roundtrip() {
    // Tests with 256-bit values that exercise all 4 limbs
    let a = Fr::from_canonical(&[
        0x1234567890abcdef,
        0xfedcba0987654321,
        0xa5a5a5a5a5a5a5a5,
        0x1a2b3c4d5e6f7081,
    ]);
    let b = Fr::from_canonical(&[
        0x0f0e0d0c0b0a0908,
        0x1716151413121110,
        0x1f1e1d1c1b1a1918,
        0x0807060504030201,
    ]);
    // a * b * b^{-1} = a
    let ab = a * b;
    let b_inv = b.inv();
    assert_eq!(ab * b_inv, a);
    // Canonical roundtrip
    assert_eq!(Fr::from_canonical(&a.to_canonical()), a, "Large canonical roundtrip failed");
}

#[test]
fn test_fr_from_be_bytes_needs_reduction() {
    // All-0xFF bytes = 2^256 - 1, requires modular reduction
    let max_bytes = [0xFFu8; 32];
    let result = Fr::from_be_bytes_mod_order(&max_bytes);
    // Verify it produces a valid field element
    let canonical = result.to_canonical();
    assert!(!gte(&canonical, &FR_MODULUS), "Result must be < modulus");
    // Roundtrip: encode then decode should give same value
    let bytes_out = result.to_be_bytes();
    assert_eq!(Fr::from_be_bytes_mod_order(&bytes_out), result);

    // Value exactly equal to modulus should reduce to zero
    let mut mod_bytes = [0u8; 32];
    for i in 0..4 {
        let b = FR_MODULUS[i].to_le_bytes();
        for j in 0..8 {
            mod_bytes[31 - i * 8 - j] = b[j];
        }
    }
    assert_eq!(
        Fr::from_be_bytes_mod_order(&mod_bytes),
        Fr::zero(),
        "Modulus should reduce to zero"
    );
}

#[test]
fn test_fq_one_times_one() {
    assert_eq!(Fq::one() * Fq::one(), Fq::one());
}

#[test]
fn test_fq_small_arithmetic() {
    let three = Fq::from_u64(3);
    let four = Fq::from_u64(4);
    let seven = Fq::from_u64(7);
    let twelve = Fq::from_u64(12);
    assert_eq!(three + four, seven);
    assert_eq!(three * four, twelve);
}

#[test]
fn test_fq_inversion() {
    let five = Fq::from_u64(5);
    let inv_five = five.inv();
    assert_eq!(five * inv_five, Fq::one());
}

#[test]
fn test_fq_sub() {
    let five = Fq::from_u64(5);
    let three = Fq::from_u64(3);
    assert_eq!(five - three, Fq::from_u64(2));
}

#[test]
fn test_fq_sub_underflow() {
    let three = Fq::from_u64(3);
    let five = Fq::from_u64(5);
    let result = three - five;
    assert_eq!(result + five, three);
}

#[test]
fn test_fq_neg() {
    let five = Fq::from_u64(5);
    assert_eq!(five + (-five), Fq::zero());
    assert_eq!(-Fq::zero(), Fq::zero());
}

#[test]
fn test_fq_double() {
    let seven = Fq::from_u64(7);
    assert_eq!(seven.double(), Fq::from_u64(14));
}

#[test]
fn test_fq_square() {
    let six = Fq::from_u64(6);
    assert_eq!(six.square(), Fq::from_u64(36));
}

#[test]
fn test_fq_canonical_roundtrip() {
    let v = Fq::from_u64(42);
    assert_eq!(Fq::from_canonical(&v.to_canonical()), v);
}

#[test]
fn test_fq_fermat() {
    // a^(P-1) = 1 for any nonzero a
    let p_minus_1: [u64; 4] =
        [0x3c208c16d87cfd46, 0x97816a916871ca8d, 0xb85045b68181585d, 0x30644e72e131a029];
    for v in [2u64, 7, 13] {
        let a = Fq::from_u64(v);
        let result = Fq(mont_pow(&a.0, &p_minus_1, &FQ_MODULUS, FQ_INV, &FQ_R));
        assert_eq!(result, Fq::one(), "Fq Fermat failed for {v}");
    }
}

#[test]
fn test_fq_large_mul_roundtrip() {
    let a = Fq::from_canonical(&[
        0x1234567890abcdef,
        0xfedcba0987654321,
        0xa5a5a5a5a5a5a5a5,
        0x1a2b3c4d5e6f7081,
    ]);
    let b = Fq::from_canonical(&[
        0x0f0e0d0c0b0a0908,
        0x1716151413121110,
        0x1f1e1d1c1b1a1918,
        0x0807060504030201,
    ]);
    let ab = a * b;
    let b_inv = b.inv();
    assert_eq!(ab * b_inv, a, "Fq large mul roundtrip failed");
}

#[test]
fn test_batch_inv() {
    let values: Vec<Fr> = (1..=10).map(Fr::from_u64).collect();
    let inverses = batch_inv_fr(&values);
    for (v, inv) in values.iter().zip(inverses.iter()) {
        assert_eq!(*v * *inv, Fr::one());
    }
}

#[test]
fn test_batch_inv_single() {
    let values = vec![Fr::from_u64(7)];
    let inverses = batch_inv_fr(&values);
    assert_eq!(values[0] * inverses[0], Fr::one());
}

#[test]
fn test_batch_inv_empty() {
    let inverses = batch_inv_fr(&[]);
    assert!(inverses.is_empty());
}

#[test]
fn test_fq_from_bn254fq_canonical() {
    // Simulate the gnark export path: canonical value stored in BN254Fq u32 limbs.
    // Value = 42 in canonical form.
    let canonical_42 = Fq::from_u64(42).to_canonical(); // [42, 0, 0, 0]
    let bn_fq = BN254Fq { limbs: u64_to_u32(&canonical_42) };

    // from_bn254fq_canonical should produce the same Fq as from_u64(42)
    let via_canonical = Fq::from_bn254fq_canonical(&bn_fq);
    assert_eq!(via_canonical, Fq::from_u64(42));

    // from_bn254fq_raw would be WRONG here (treats canonical as Montgomery)
    let via_raw = Fq::from_bn254fq_raw(&bn_fq);
    assert_ne!(
        via_raw,
        Fq::from_u64(42),
        "raw should differ from canonical for non-trivial values"
    );
}

#[test]
fn test_fq_canonical_vs_raw_for_bn254_generator() {
    // BN254 generator G1 = (1, 2). Canonical value of x-coordinate = 1.
    // In Montgomery form, 1 is represented as R mod P (= FQ_R).
    let canonical_one = [1u64, 0, 0, 0];
    let bn_fq = BN254Fq { limbs: u64_to_u32(&canonical_one) };

    // from_bn254fq_canonical: canonical 1 -> Montgomery R mod P
    let from_canonical = Fq::from_bn254fq_canonical(&bn_fq);
    assert_eq!(from_canonical, Fq::one(), "canonical 1 should become Montgomery ONE");

    // from_bn254fq_raw: interprets limbs as-is (Montgomery), so [1,0,0,0] != R mod P
    let from_raw = Fq::from_bn254fq_raw(&bn_fq);
    assert_ne!(from_raw, Fq::one(), "raw [1,0,0,0] is not Montgomery ONE");
}

#[test]
fn test_fq_from_bn254fq_canonical_large() {
    // Test with a large 256-bit canonical value that exercises all 4 limbs
    let canonical =
        [0x1234567890abcdefu64, 0xfedcba0987654321, 0xa5a5a5a5a5a5a5a5, 0x1a2b3c4d5e6f7081];
    let fq_from_u64 = Fq::from_canonical(&canonical);

    // Same value packed as u32 limbs (LE)
    let bn_fq = sp1_gpu_plonk::BN254Fq { limbs: u64_to_u32(&canonical) };
    let fq_from_bn254 = Fq::from_bn254fq_canonical(&bn_fq);

    assert_eq!(
        fq_from_u64, fq_from_bn254,
        "Large value: from_canonical and from_bn254fq_canonical must match"
    );

    // Verify roundtrip: canonical → Montgomery → canonical
    let roundtrip = fq_from_bn254.to_canonical();
    assert_eq!(roundtrip, canonical, "Fq canonical roundtrip failed for large value");
}

#[test]
fn test_fq_from_bn254fq_canonical_zero() {
    let bn_fq = sp1_gpu_plonk::BN254Fq { limbs: [0; 8] };
    let result = Fq::from_bn254fq_canonical(&bn_fq);
    assert_eq!(result, Fq::zero(), "Canonical zero must produce Montgomery ZERO");
}

#[test]
fn test_fq_from_bn254fq_canonical_near_modulus() {
    // Value P-1 (largest valid canonical element)
    let p_minus_1 = [
        0x3c208c16d87cfd46u64, // FQ_MODULUS[0] - 1
        0x97816a916871ca8d,
        0xb85045b68181585d,
        0x30644e72e131a029,
    ];
    let bn_fq = sp1_gpu_plonk::BN254Fq { limbs: u64_to_u32(&p_minus_1) };
    let result = Fq::from_bn254fq_canonical(&bn_fq);

    // P-1 in the field is -1, so result + ONE should be ZERO
    assert_eq!(result + Fq::one(), Fq::zero(), "P-1 + 1 must equal 0");

    // Roundtrip
    assert_eq!(result.to_canonical(), p_minus_1, "P-1 canonical roundtrip failed");
}
