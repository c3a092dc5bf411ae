use sp1_gpu_plonk::blinding::{derive_blindings, splice_blinding, zero_blindings};
use sp1_gpu_plonk::fields::Fr;

/// C1 — `test_blinding_poly_construction`
/// From a fixed seed, derive the 11 scalars; assert their layout sizes
/// (2/2/2/3/2) and that the same seed reproduces the same scalars.
#[test]
fn test_blinding_poly_construction() {
    let seed = [0x42u8; 32];
    let b1 = derive_blindings(&seed);
    let b2 = derive_blindings(&seed);
    assert_eq!(b1.bp_l, b2.bp_l);
    assert_eq!(b1.bp_r, b2.bp_r);
    assert_eq!(b1.bp_o, b2.bp_o);
    assert_eq!(b1.bp_z, b2.bp_z);
    assert_eq!(b1.q_shard, b2.q_shard);
    // Different seed → different scalars (overwhelming probability)
    let seed2 = [0x43u8; 32];
    let b3 = derive_blindings(&seed2);
    assert_ne!(b1.bp_l, b3.bp_l);
    assert_ne!(b1.bp_z, b3.bp_z);
    // Non-zero (overwhelming probability)
    assert!(!b1.bp_l[0].is_zero());
    assert!(!b1.bp_z[2].is_zero());
    // Independent within a single derivation (no accidental copies)
    assert_ne!(b1.bp_l[0], b1.bp_l[1]);
    assert_ne!(b1.bp_z[0], b1.bp_z[1]);
    assert_ne!(b1.bp_z[1], b1.bp_z[2]);
}

#[test]
fn test_zero_blindings_are_all_zero() {
    for x in zero_blindings().bp_l.iter() {
        assert!(x.is_zero());
    }
    for x in zero_blindings().bp_r.iter() {
        assert!(x.is_zero());
    }
    for x in zero_blindings().bp_o.iter() {
        assert!(x.is_zero());
    }
    for x in zero_blindings().bp_z.iter() {
        assert!(x.is_zero());
    }
    for x in zero_blindings().q_shard.iter() {
        assert!(x.is_zero());
    }
}

#[test]
fn test_splice_blinding_layout() {
    // p has length 8 (N=8), bp has length 2 (degree 1)
    let n = 8usize;
    let mut p: Vec<Fr> = (0..n).map(|i| Fr::from_u64(100 + i as u64)).collect();
    let bp = [Fr::from_u64(7), Fr::from_u64(11)];
    let p_orig = p.clone();
    splice_blinding(&mut p, &bp);
    assert_eq!(p.len(), n + 2);
    // Low coeffs subtracted by bp
    assert_eq!(p[0], p_orig[0].sub(&bp[0]));
    assert_eq!(p[1], p_orig[1].sub(&bp[1]));
    // Middle unchanged
    for i in 2..n {
        assert_eq!(p[i], p_orig[i]);
    }
    // High coeffs are bp
    assert_eq!(p[n], bp[0]);
    assert_eq!(p[n + 1], bp[1]);
}

/// C2 — `test_blinded_canonical_l_at_canonical_root`
/// For random `bp`, splice into a small poly L(X), then assert that
/// `L_blinded(ω^i) == L(ω^i)` for every i in [0, n). The blinding term
/// `bp(X)·(X^n − 1)` vanishes at every n-th root of unity by
/// construction, so this MUST hold.
#[test]
fn test_blinded_canonical_l_at_canonical_root() {
    // Build L as small canonical poly, length n=8. We'll evaluate at the
    // 8th roots of unity; we use the project's `root_of_unity` helper to
    // fetch ω, then assert horner matches at every ω^i.
    let lg_n = 3u32;
    let n = 1usize << lg_n;
    let omega = sp1_gpu_plonk::domain::root_of_unity(lg_n);
    // Random L coefficients (deterministic for the test).
    let l: Vec<Fr> = (0..n).map(|i| Fr::from_u64(13 * (i as u64) + 7)).collect();
    let mut l_blinded = l.clone();
    let bp = [Fr::from_u64(0xdead_beef), Fr::from_u64(0xfeed_face)];
    splice_blinding(&mut l_blinded, &bp);
    assert_eq!(l_blinded.len(), n + 2);

    let mut wi = Fr::one();
    for _ in 0..n {
        let raw = horner(&l, &wi);
        let bld = horner(&l_blinded, &wi);
        assert_eq!(raw, bld, "L_blinded must agree with L at every ω^i");
        wi = wi.mul(&omega);
    }
}

/// C3 — `test_blinded_canonical_l_at_random_off_canonical`
/// Pick x not on the canonical domain (in particular, a coset point);
/// assert that the difference equals exactly bp(x)·(x^n − 1).
#[test]
fn test_blinded_canonical_l_at_off_domain() {
    let lg_n = 3u32;
    let n = 1usize << lg_n;
    let l: Vec<Fr> = (0..n).map(|i| Fr::from_u64(2 * (i as u64) + 1)).collect();
    let mut l_blinded = l.clone();
    let bp = [Fr::from_u64(123_456), Fr::from_u64(789)];
    splice_blinding(&mut l_blinded, &bp);

    // Off-domain evaluation point: simply a random non-domain Fr.
    let x = Fr::from_u64(0x1234_5678_9abc_def0);
    let raw = horner(&l, &x);
    let bld = horner(&l_blinded, &x);
    // Compute bp(x) · (x^n − 1) directly.
    let bpx = bp[0].add(&bp[1].mul(&x));
    let xn = pow_u64(&x, n as u64);
    let zh = xn.sub(&Fr::one());
    let expected_diff = bpx.mul(&zh);
    let diff = bld.sub(&raw);
    assert_eq!(diff, expected_diff, "off-domain difference must be bp(x) · (x^n − 1)");
    assert_ne!(diff, Fr::zero(), "off-domain must actually change the value");
}

fn horner(coeffs: &[Fr], x: &Fr) -> Fr {
    let mut acc = Fr::zero();
    for &c in coeffs.iter().rev() {
        acc = acc.mul(x).add(&c);
    }
    acc
}

fn pow_u64(x: &Fr, e: u64) -> Fr {
    let mut acc = Fr::one();
    let mut base = *x;
    let mut e = e;
    while e > 0 {
        if e & 1 == 1 {
            acc = acc.mul(&base);
        }
        base = base.mul(&base);
        e >>= 1;
    }
    acc
}

/// Sanity: SHA-256-CTR expansion produces 11 distinct chunks for a fixed
/// seed (no off-by-one in the index).
#[test]
fn test_blinding_chunks_are_distinct() {
    let seed = [0x55u8; 32];
    let b = derive_blindings(&seed);
    let all = [
        b.bp_l[0],
        b.bp_l[1],
        b.bp_r[0],
        b.bp_r[1],
        b.bp_o[0],
        b.bp_o[1],
        b.bp_z[0],
        b.bp_z[1],
        b.bp_z[2],
        b.q_shard[0],
        b.q_shard[1],
    ];
    for i in 0..all.len() {
        for j in (i + 1)..all.len() {
            assert_ne!(all[i], all[j], "scalars {} and {} collide", i, j);
        }
    }
}
