use sp1_gpu_plonk::domain::{root_of_unity, Domain};
use sp1_gpu_plonk::fields::{Fq, Fr};
use sp1_gpu_plonk::g1::G1Affine;
use sp1_gpu_plonk::hash_to_field::hash_to_field_bsb22;
use sp1_gpu_plonk::linearization::{fold_and_subtract, OpeningValues};
use sp1_gpu_plonk::polynomial::Polynomial;
use sp1_gpu_plonk::prover::PlonkProver;
use sp1_gpu_plonk::quotient::split_quotient;
use sp1_gpu_plonk::types::PlonkProvingData;
use sp1_gpu_plonk::{BN254Fr, BN254G1Affine};

fn create_test_data(n: usize) -> PlonkProvingData {
    let log_n = n.trailing_zeros();

    let omega = root_of_unity(log_n);

    let g = G1Affine {
        x: Fq::from_u64(1),
        y: Fq::from_u64(2),
    };

    let srs_lagrange: Vec<BN254G1Affine> = (1..=n as u64)
        .map(|i| {
            let p = g.to_jacobian().scalar_mul(&[i, 0, 0, 0]).to_affine();
            p.to_bn254()
        })
        .collect();

    let srs_canonical: Vec<BN254G1Affine> = (1..=(n + 3) as u64)
        .map(|i| {
            let p = g.to_jacobian().scalar_mul(&[i, 0, 0, 0]).to_affine();
            p.to_bn254()
        })
        .collect();

    let coset_shift = Fr::from_u64(5);
    let k1 = coset_shift;
    let k2 = k1 * k1;

    let omega_powers = {
        let mut powers = Vec::with_capacity(n);
        let mut current = Fr::one();
        for _ in 0..n {
            powers.push(current);
            current.mul_assign(omega);
        }
        powers
    };

    let s1: Vec<BN254Fr> = omega_powers.iter().map(|w| w.to_bn254fr()).collect();
    let s2: Vec<BN254Fr> = omega_powers.iter().map(|w| (*w * k1).to_bn254fr()).collect();
    let s3: Vec<BN254Fr> = omega_powers.iter().map(|w| (*w * k2).to_bn254fr()).collect();

    let zero_poly = vec![BN254Fr::zero(); n];

    PlonkProvingData {
        domain_size: n,
        lg_domain_size: log_n,
        omega: omega.to_bn254fr(),
        nb_public_variables: 1,
        coset_shift: coset_shift.to_bn254fr(),
        srs_lagrange,
        srs_canonical,
        ql: zero_poly.clone(),
        qr: zero_poly.clone(),
        qm: zero_poly.clone(),
        qo: zero_poly.clone(),
        qk: zero_poly.clone(),
        qcp: vec![zero_poly.clone()],
        commitment_constraint_indexes: vec![0],
        s1,
        s2,
        s3,
        vk_selector_commits: None,
    }
}

#[test]
fn test_prover_trivial_circuit() {
    let n = 8;
    let data = create_test_data(n);
    let prover = PlonkProver::new(data);

    let l = vec![BN254Fr::zero(); n];
    let r = vec![BN254Fr::zero(); n];
    let o = vec![BN254Fr::zero(); n];
    let public_inputs = vec![BN254Fr::zero(); 1];

    let proof = prover.prove(&l, &r, &o, &public_inputs, &[], &[], None).unwrap();

    assert_eq!(proof.lro.len(), 3);
    assert_eq!(proof.h.len(), 3);
    assert_eq!(proof.bsb22_commitments.len(), 1);
    assert!(proof.batched_proof.claimed_values.len() >= 7);
}

#[test]
fn test_grand_product_identity_permutation() {
    let n = 8;
    let data = create_test_data(n);
    let prover = PlonkProver::new(data);

    let omega = Fr::from_bn254fr(&prover.data.omega);
    let domain = Domain::new(n, omega);
    let coset_shift = Fr::from_bn254fr(&prover.data.coset_shift);

    let l = vec![Fr::zero(); n];
    let r = vec![Fr::zero(); n];
    let o = vec![Fr::zero(); n];

    let s1: Vec<Fr> = prover.cached.s1.to_vec();
    let s2: Vec<Fr> = prover.cached.s2.to_vec();
    let s3: Vec<Fr> = prover.cached.s3.to_vec();

    let beta = Fr::from_u64(7);
    let gamma = Fr::from_u64(13);

    let z = prover
        .compute_grand_product(&l, &r, &o, &s1, &s2, &s3, &beta, &gamma, &domain, &coset_shift)
        .unwrap();

    for (i, val) in z.iter().enumerate() {
        assert_eq!(*val, Fr::one(), "Z[{i}] should be 1 for identity permutation");
    }
}

#[test]
fn test_split_quotient() {
    let n = 4;
    let stride = n + 2;
    let total = 3 * stride;

    let h: Vec<Fr> = (0..total as u64).map(Fr::from_u64).collect();
    let (h0, h1, h2) = split_quotient(&h, n);

    assert_eq!(h0.len(), stride);
    assert_eq!(h1.len(), stride);
    assert_eq!(h2.len(), stride);

    for i in 0..stride {
        assert_eq!(h0[i], Fr::from_u64(i as u64));
        assert_eq!(h1[i], Fr::from_u64((i + stride) as u64));
        assert_eq!(h2[i], Fr::from_u64((i + 2 * stride) as u64));
    }
}

#[test]
fn test_fold_and_subtract() {
    let p0 = Polynomial::new(vec![Fr::from_u64(1), Fr::from_u64(2)]);
    let p1 = Polynomial::new(vec![Fr::from_u64(3), Fr::from_u64(4)]);
    let gamma = Fr::from_u64(10);

    let folded = fold_and_subtract(
        &[&p0.coeffs, &p1.coeffs],
        &[Fr::from_u64(5), Fr::from_u64(11)],
        &gamma,
    );

    let at_zero = folded.eval(&Fr::zero());
    let expected = Fr::from_u64(84).neg();
    assert_eq!(at_zero, expected);
}

#[test]
fn test_prover_deterministic() {
    let n = 8;
    let data1 = create_test_data(n);
    let data2 = create_test_data(n);
    let prover1 = PlonkProver::new(data1);
    let prover2 = PlonkProver::new(data2);

    let l = vec![BN254Fr::zero(); n];
    let r = vec![BN254Fr::zero(); n];
    let o = vec![BN254Fr::zero(); n];
    let pi = vec![BN254Fr::zero(); 1];

    let proof1 = prover1.prove(&l, &r, &o, &pi, &[], &[], None).unwrap();
    let proof2 = prover2.prove(&l, &r, &o, &pi, &[], &[], None).unwrap();

    assert_eq!(proof1.to_bytes(), proof2.to_bytes());
}

#[test]
fn test_prover_addition_gate() {
    let n: usize = 8;
    let log_n = n.trailing_zeros();
    let omega = root_of_unity(log_n);

    let g = G1Affine {
        x: Fq::from_u64(1),
        y: Fq::from_u64(2),
    };
    let srs_lagrange: Vec<BN254G1Affine> = (1..=n as u64)
        .map(|i| g.to_jacobian().scalar_mul(&[i, 0, 0, 0]).to_affine().to_bn254())
        .collect();
    let srs_canonical: Vec<BN254G1Affine> = (1..=(n + 3) as u64)
        .map(|i| g.to_jacobian().scalar_mul(&[i, 0, 0, 0]).to_affine().to_bn254())
        .collect();

    let coset_shift = Fr::from_u64(5);
    let k1 = coset_shift;
    let k2 = k1 * k1;
    let omega_powers = {
        let mut powers = Vec::with_capacity(n);
        let mut current = Fr::one();
        for _ in 0..n {
            powers.push(current);
            current.mul_assign(omega);
        }
        powers
    };

    let s1: Vec<BN254Fr> = omega_powers.iter().map(|w| w.to_bn254fr()).collect();
    let s2: Vec<BN254Fr> = omega_powers.iter().map(|w| (*w * k1).to_bn254fr()).collect();
    let s3: Vec<BN254Fr> = omega_powers.iter().map(|w| (*w * k2).to_bn254fr()).collect();

    let one_poly: Vec<BN254Fr> = vec![Fr::one().to_bn254fr(); n];
    let neg_one_poly: Vec<BN254Fr> = vec![(-Fr::one()).to_bn254fr(); n];
    let zero_poly = vec![BN254Fr::zero(); n];

    let data = PlonkProvingData {
        domain_size: n,
        lg_domain_size: log_n,
        omega: omega.to_bn254fr(),
        nb_public_variables: 1,
        coset_shift: coset_shift.to_bn254fr(),
        srs_lagrange,
        srs_canonical,
        ql: one_poly.clone(),
        qr: one_poly,
        qm: zero_poly.clone(),
        qo: neg_one_poly,
        qk: zero_poly.clone(),
        qcp: vec![zero_poly],
        commitment_constraint_indexes: vec![0],
        s1,
        s2,
        s3,
        vk_selector_commits: None,
    };

    let prover = PlonkProver::new(data);

    let l: Vec<BN254Fr> = (1..=n as u64).map(|i| Fr::from_u64(i).to_bn254fr()).collect();
    let r: Vec<BN254Fr> = (10..10 + n as u64).map(|i| Fr::from_u64(i).to_bn254fr()).collect();
    let o: Vec<BN254Fr> = l
        .iter()
        .zip(r.iter())
        .map(|(a, b)| (Fr::from_bn254fr(a) + Fr::from_bn254fr(b)).to_bn254fr())
        .collect();
    let pi = vec![Fr::from_u64(1).to_bn254fr()];

    let proof = prover.prove(&l, &r, &o, &pi, &[], &[], None).unwrap();
    assert_eq!(proof.lro.len(), 3);
    assert!(proof.batched_proof.claimed_values.len() >= 7);
}

#[test]
fn test_constraint_satisfaction_comprehensive() {
    let n: usize = 8;
    let log_n = n.trailing_zeros();
    let omega = root_of_unity(log_n);

    let g = G1Affine {
        x: Fq::from_u64(1),
        y: Fq::from_u64(2),
    };
    let srs_lagrange: Vec<BN254G1Affine> = (1..=n as u64)
        .map(|i| g.to_jacobian().scalar_mul(&[i, 0, 0, 0]).to_affine().to_bn254())
        .collect();
    let srs_canonical: Vec<BN254G1Affine> = (1..=(n + 3) as u64)
        .map(|i| g.to_jacobian().scalar_mul(&[i, 0, 0, 0]).to_affine().to_bn254())
        .collect();

    let coset_shift = Fr::from_u64(5);
    let k1 = coset_shift;
    let k2 = k1 * k1;
    let omega_powers = {
        let mut powers = Vec::with_capacity(n);
        let mut current = Fr::one();
        for _ in 0..n {
            powers.push(current);
            current.mul_assign(omega);
        }
        powers
    };

    let s1: Vec<BN254Fr> = omega_powers.iter().map(|w| w.to_bn254fr()).collect();
    let s2: Vec<BN254Fr> = omega_powers.iter().map(|w| (*w * k1).to_bn254fr()).collect();
    let s3: Vec<BN254Fr> = omega_powers.iter().map(|w| (*w * k2).to_bn254fr()).collect();

    let mut ql_evals = vec![Fr::one(); n];
    ql_evals[0] = Fr::from_u64(2);
    let ql_bn: Vec<BN254Fr> = ql_evals.iter().map(|v| v.to_bn254fr()).collect();
    let qr_bn: Vec<BN254Fr> = vec![Fr::one().to_bn254fr(); n];
    let neg_one_poly: Vec<BN254Fr> = vec![(-Fr::one()).to_bn254fr(); n];
    let zero_poly = vec![BN254Fr::zero(); n];

    let qcp_poly: Vec<BN254Fr> = vec![Fr::from_u64(3).to_bn254fr(); n];

    let bsb22_pi: Vec<BN254Fr> =
        (0..n as u64).map(|i| Fr::from_u64(i + 1).to_bn254fr()).collect();

    let nb_pub = 1usize;
    let public_input_val = Fr::from_u64(42);
    let pi = vec![public_input_val.to_bn254fr()];

    let bsb22_commit = g.to_jacobian().scalar_mul(&[7, 0, 0, 0]).to_affine().to_bn254();
    let bsb22_hash =
        hash_to_field_bsb22(&bsb22_commit.to_transcript_bytes());

    let commitment_constraint_index = 0usize;
    let mut pi_evals = vec![Fr::zero(); n];
    pi_evals[0] = public_input_val;
    pi_evals[nb_pub + commitment_constraint_index].add_assign(bsb22_hash);

    let l_fr: Vec<Fr> = (1..=n as u64).map(Fr::from_u64).collect();
    let r_fr: Vec<Fr> = (10..10 + n as u64).map(Fr::from_u64).collect();
    let bsb22_pi_fr: Vec<Fr> = bsb22_pi.iter().map(Fr::from_bn254fr).collect();
    let o_fr: Vec<Fr> = (0..n)
        .map(|i| {
            ql_evals[i] * l_fr[i] + r_fr[i] + pi_evals[i] + Fr::from_u64(3) * bsb22_pi_fr[i]
        })
        .collect();

    let l: Vec<BN254Fr> = l_fr.iter().map(|v| v.to_bn254fr()).collect();
    let r: Vec<BN254Fr> = r_fr.iter().map(|v| v.to_bn254fr()).collect();
    let o: Vec<BN254Fr> = o_fr.iter().map(|v| v.to_bn254fr()).collect();

    let data = PlonkProvingData {
        domain_size: n,
        lg_domain_size: log_n,
        omega: omega.to_bn254fr(),
        nb_public_variables: nb_pub,
        coset_shift: coset_shift.to_bn254fr(),
        srs_lagrange,
        srs_canonical,
        ql: ql_bn,
        qr: qr_bn,
        qm: zero_poly.clone(),
        qo: neg_one_poly,
        qk: zero_poly,
        qcp: vec![qcp_poly],
        commitment_constraint_indexes: vec![commitment_constraint_index],
        s1,
        s2,
        s3,
        vk_selector_commits: None,
    };

    let prover = PlonkProver::new(data);
    let domain = Domain::new(n, omega);

    let ql: Vec<Fr> = domain.fft(&prover.cached.ql_coeffs);
    let qr: Vec<Fr> = domain.fft(&prover.cached.qr_coeffs);
    let qm: Vec<Fr> = domain.fft(&prover.cached.qm_coeffs);
    let qo: Vec<Fr> = domain.fft(&prover.cached.qo_coeffs);
    let qk: Vec<Fr> = domain.fft(&prover.cached.qk_coeffs);
    let s1_fr: Vec<Fr> = prover.cached.s1.to_vec();
    let s2_fr: Vec<Fr> = prover.cached.s2.to_vec();
    let s3_fr: Vec<Fr> = prover.cached.s3.to_vec();
    let qcp_fr: Vec<Vec<Fr>> = prover.cached.qcp_coeffs.iter().map(|q| domain.fft(q)).collect();

    for i in 0..n {
        let gate = ql[i] * l_fr[i]
            + qr[i] * r_fr[i]
            + qm[i] * l_fr[i] * r_fr[i]
            + qo[i] * o_fr[i]
            + qk[i]
            + pi_evals[i]
            + qcp_fr[0][i] * bsb22_pi_fr[i];
        assert_eq!(gate, Fr::zero(), "Gate constraint violated at position {i}");
    }

    let beta = Fr::from_u64(7);
    let gamma = Fr::from_u64(13);
    let alpha = Fr::from_u64(17);

    let z_lagrange = prover
        .compute_grand_product(
            &l_fr,
            &r_fr,
            &o_fr,
            &s1_fr,
            &s2_fr,
            &s3_fr,
            &beta,
            &gamma,
            &domain,
            &coset_shift,
        )
        .unwrap();
    assert_eq!(z_lagrange[0], Fr::one(), "Z[0] must be 1");

    for (i, val) in z_lagrange.iter().enumerate() {
        assert_eq!(*val, Fr::one(), "Z[{i}] should be 1 for identity permutation");
    }

    let l_coeffs = domain.ifft(&l_fr);
    let r_coeffs = domain.ifft(&r_fr);
    let o_coeffs = domain.ifft(&o_fr);
    let z_coeffs = domain.ifft(&z_lagrange);
    let ql_coeffs = domain.ifft(&ql);
    let qr_coeffs = domain.ifft(&qr);
    let qm_coeffs = domain.ifft(&qm);
    let qo_coeffs = domain.ifft(&qo);
    let qk_coeffs = domain.ifft(&qk);
    let s1_coeffs = domain.ifft(&s1_fr);
    let s2_coeffs = domain.ifft(&s2_fr);
    let s3_coeffs = domain.ifft(&s3_fr);
    let qcp_coeffs: Vec<Vec<Fr>> = qcp_fr.iter().map(|q| domain.ifft(q)).collect();
    let bsb22_coeffs: Vec<Vec<Fr>> = vec![domain.ifft(&bsb22_pi_fr)];

    let bsb22_commitments_bn = vec![bsb22_commit];
    let h_coeffs = prover.compute_quotient(
            &l_coeffs,
            &r_coeffs,
            &o_coeffs,
            &z_coeffs,
            &bsb22_coeffs,
            &alpha,
            &beta,
            &gamma,
            &[public_input_val],
            &bsb22_commitments_bn,
        );

    let h_poly = Polynomial::new(h_coeffs.clone());
    let h_is_zero = h_coeffs.iter().all(|c| c.is_zero());
    assert!(
        !h_is_zero,
        "Quotient polynomial h must be non-trivial. \
         Non-constant selectors should produce a non-zero quotient."
    );

    let l_poly = Polynomial::new(l_coeffs.clone());
    let r_poly = Polynomial::new(r_coeffs.clone());
    let o_poly = Polynomial::new(o_coeffs.clone());
    let z_poly = Polynomial::new(z_coeffs.clone());
    let s1_poly = Polynomial::new(s1_coeffs.clone());
    let s2_poly = Polynomial::new(s2_coeffs.clone());
    let s3_poly = Polynomial::new(s3_coeffs.clone());

    let pi_poly_coeffs =
        prover.compute_pi_polynomial(&[public_input_val], &bsb22_commitments_bn, &domain);
    let pi_poly = Polynomial::new(pi_poly_coeffs);
    let n_fr = Fr::from_u64(n as u64);

    let compute_numerator = |x: &Fr| -> Fr {
        let l_x = l_poly.eval(x);
        let r_x = r_poly.eval(x);
        let o_x = o_poly.eval(x);
        let z_x = z_poly.eval(x);
        let z_shifted_x = z_poly.eval(&(*x * omega));
        let s1_x = s1_poly.eval(x);
        let s2_x = s2_poly.eval(x);
        let s3_x = s3_poly.eval(x);
        let pi_x = pi_poly.eval(x);
        let zh_x = domain.vanishing_eval(x);

        let ql_x = Polynomial::new(ql_coeffs.clone()).eval(x);
        let qr_x = Polynomial::new(qr_coeffs.clone()).eval(x);
        let qm_x = Polynomial::new(qm_coeffs.clone()).eval(x);
        let qo_x = Polynomial::new(qo_coeffs.clone()).eval(x);
        let qk_x = Polynomial::new(qk_coeffs.clone()).eval(x);
        let qcp0_x = Polynomial::new(qcp_coeffs[0].clone()).eval(x);
        let bsb22_0_x = Polynomial::new(bsb22_coeffs[0].clone()).eval(x);

        let gate = ql_x * l_x
            + qr_x * r_x
            + qm_x * l_x * r_x
            + qo_x * o_x
            + qk_x
            + pi_x
            + qcp0_x * bsb22_0_x;

        let bx = beta * *x;
        let perm_num =
            z_x * (l_x + bx + gamma) * (r_x + bx * k1 + gamma) * (o_x + bx * k2 + gamma);
        let perm_den = z_shifted_x
            * (l_x + beta * s1_x + gamma)
            * (r_x + beta * s2_x + gamma)
            * (o_x + beta * s3_x + gamma);
        let perm = alpha * (perm_den - perm_num);

        let l1_x = zh_x * ((*x - Fr::one()) * n_fr).inv();
        let boundary = alpha.square() * (z_x - Fr::one()) * l1_x;

        gate + perm + boundary
    };

    for test_x in [Fr::from_u64(123456789), Fr::from_u64(999999937)] {
        let h_at_x = h_poly.eval(&test_x);
        let zh_at_x = domain.vanishing_eval(&test_x);
        let lhs = h_at_x * zh_at_x;
        let rhs = compute_numerator(&test_x);

        assert_eq!(
            lhs, rhs,
            "CRITICAL: h(x)*Z_H(x) != numerator(x)\n\
             Possible causes: coset FFT bug, PI sign error, Qcp*Pi missing.\n\
             h(x)*Z_H(x)  = {:?}\n\
             numerator(x) = {:?}",
            lhs, rhs,
        );
    }

    let zeta = Fr::from_u64(987654321);

    let l_zeta = l_poly.eval(&zeta);
    let r_zeta = r_poly.eval(&zeta);
    let o_zeta = o_poly.eval(&zeta);
    let s1_zeta = s1_poly.eval(&zeta);
    let s2_zeta = s2_poly.eval(&zeta);
    let z_shifted_zeta = z_poly.eval(&(zeta * omega));

    let qcp_zeta: Vec<Fr> =
        qcp_coeffs.iter().map(|q| Polynomial::new(q.clone()).eval(&zeta)).collect();

    let (h0_coeffs, h1_coeffs, h2_coeffs) = split_quotient(&h_coeffs, n);

    let lin_poly = prover.compute_linearization(
            &zeta,
            &alpha,
            &beta,
            &gamma,
            &OpeningValues { l: l_zeta, r: r_zeta, o: o_zeta, s1: s1_zeta, s2: s2_zeta, z_shifted: z_shifted_zeta },
            &z_coeffs,
            &ql_coeffs,
            &qr_coeffs,
            &qm_coeffs,
            &qo_coeffs,
            &qk_coeffs,
            &s3_coeffs,
            &qcp_zeta,
            &bsb22_coeffs,
            h0_coeffs,
            h1_coeffs,
            h2_coeffs,
            &domain,
            &coset_shift,
        );

    let const_lin = lin_poly.eval(&zeta);

    let zh_zeta = domain.vanishing_eval(&zeta);
    let numerator_zeta = compute_numerator(&zeta);
    let h_zeta = h_poly.eval(&zeta);
    assert_eq!(
        h_zeta * zh_zeta,
        numerator_zeta,
        "h(zeta)*Z_H(zeta) != numerator(zeta) at the linearization point"
    );

    let l1_zeta = zh_zeta * ((zeta - Fr::one()) * n_fr).inv();

    let h0_poly = Polynomial::new(h0_coeffs.to_vec());
    let h1_poly = Polynomial::new(h1_coeffs.to_vec());
    let h2_poly = Polynomial::new(h2_coeffs.to_vec());

    let gate_lin = l_zeta * Polynomial::new(ql_coeffs.clone()).eval(&zeta)
        + r_zeta * Polynomial::new(qr_coeffs.clone()).eval(&zeta)
        + (l_zeta * r_zeta) * Polynomial::new(qm_coeffs.clone()).eval(&zeta)
        + o_zeta * Polynomial::new(qo_coeffs.clone()).eval(&zeta)
        + Polynomial::new(qk_coeffs.clone()).eval(&zeta);

    let bsb22_lin = qcp_zeta[0] * Polynomial::new(bsb22_coeffs[0].clone()).eval(&zeta);

    let s3_scalar = alpha
        * z_shifted_zeta
        * (l_zeta + beta * s1_zeta + gamma)
        * (r_zeta + beta * s2_zeta + gamma)
        * beta;
    let s3_lin = s3_scalar * Polynomial::new(s3_coeffs.clone()).eval(&zeta);

    let perm_num_product = alpha
        * (l_zeta + beta * zeta + gamma)
        * (r_zeta + beta * k1 * zeta + gamma)
        * (o_zeta + beta * k2 * zeta + gamma);
    let z_scalar = alpha.square() * l1_zeta - perm_num_product;
    let z_lin = z_scalar * z_poly.eval(&zeta);

    let neg_zh = -zh_zeta;
    let zeta_n_plus_2 = zeta.pow(&[(n + 2) as u64, 0, 0, 0]);
    let zeta_2n_plus_4 = zeta_n_plus_2 * zeta_n_plus_2;
    let h_lin = neg_zh * h0_poly.eval(&zeta)
        + neg_zh * zeta_n_plus_2 * h1_poly.eval(&zeta)
        + neg_zh * zeta_2n_plus_4 * h2_poly.eval(&zeta);

    let expected_const_lin = gate_lin + bsb22_lin + s3_lin + z_lin + h_lin;

    assert_eq!(
        const_lin, expected_const_lin,
        "CRITICAL: lin(ζ) != independently-computed const_lin!\n\
         lin(ζ) = {:?}\n\
         expected = {:?}\n\
         diff components: gate={:?}, bsb22={:?}, s3={:?}, z={:?}, h={:?}",
        const_lin, expected_const_lin, gate_lin, bsb22_lin, s3_lin, z_lin, h_lin,
    );

    assert!(!const_lin.is_zero(), "const_lin should not be zero with non-trivial inputs");

    let proof = prover
        .prove(
            &l,
            &r,
            &o,
            &pi,
            &[bsb22_commit],
            std::slice::from_ref(&bsb22_pi),
            None,
        )
        .unwrap();
    assert_eq!(proof.lro.len(), 3);
    assert_eq!(proof.h.len(), 3);
    assert_eq!(proof.bsb22_commitments.len(), 1);
    assert!(proof.batched_proof.claimed_values.len() >= 7);
}

#[test]
fn test_batch_opening_remainders_are_zero() {
    let n: usize = 8;
    let log_n = n.trailing_zeros();
    let omega = root_of_unity(log_n);
    let domain = Domain::new(n, omega);

    let coset_shift = Fr::from_u64(5);
    let k1 = coset_shift;
    let k2 = k1 * k1;
    let omega_powers = {
        let mut powers = Vec::with_capacity(n);
        let mut current = Fr::one();
        for _ in 0..n {
            powers.push(current);
            current.mul_assign(omega);
        }
        powers
    };

    let s1: Vec<Fr> = omega_powers.clone();
    let s2: Vec<Fr> = omega_powers.iter().map(|w| *w * k1).collect();
    let s3: Vec<Fr> = omega_powers.iter().map(|w| *w * k2).collect();

    let ql = vec![Fr::one(); n];
    let qr = vec![Fr::one(); n];
    let qm = vec![Fr::zero(); n];
    let qo = vec![-Fr::one(); n];
    let qk = vec![Fr::zero(); n];

    let l_fr: Vec<Fr> = (1..=n as u64).map(Fr::from_u64).collect();
    let r_fr: Vec<Fr> = (10..10 + n as u64).map(Fr::from_u64).collect();
    let pi_val = Fr::from_u64(0);
    let mut pi_evals = vec![Fr::zero(); n];
    pi_evals[0] = -pi_val;
    let o_fr: Vec<Fr> = (0..n).map(|i| l_fr[i] + r_fr[i] + pi_evals[i]).collect();

    let alpha = Fr::from_u64(17);
    let beta = Fr::from_u64(7);
    let gamma = Fr::from_u64(13);
    let zeta = Fr::from_u64(987654321);
    let gamma_fold = Fr::from_u64(31);

    let l_coeffs = domain.ifft(&l_fr);
    let r_coeffs = domain.ifft(&r_fr);
    let o_coeffs = domain.ifft(&o_fr);
    let ql_coeffs = domain.ifft(&ql);
    let qr_coeffs = domain.ifft(&qr);
    let qm_coeffs = domain.ifft(&qm);
    let qo_coeffs = domain.ifft(&qo);
    let qk_coeffs = domain.ifft(&qk);
    let s1_coeffs = domain.ifft(&s1);
    let s2_coeffs = domain.ifft(&s2);
    let s3_coeffs = domain.ifft(&s3);

    let z_lagrange = vec![Fr::one(); n];
    let z_coeffs = domain.ifft(&z_lagrange);

    let data = create_test_data(n);
    let prover = PlonkProver::new(data);
    let h_coeffs = prover.compute_quotient(
            &l_coeffs,
            &r_coeffs,
            &o_coeffs,
            &z_coeffs,
            &[],
            &alpha,
            &beta,
            &gamma,
            &[pi_val],
            &[],
        );

    let (h0_coeffs, h1_coeffs, h2_coeffs) = split_quotient(&h_coeffs, n);

    let l_poly = Polynomial::new(l_coeffs.clone());
    let r_poly = Polynomial::new(r_coeffs.clone());
    let o_poly = Polynomial::new(o_coeffs.clone());
    let z_poly = Polynomial::new(z_coeffs.clone());
    let s1_poly = Polynomial::new(s1_coeffs.clone());
    let s2_poly = Polynomial::new(s2_coeffs.clone());

    let l_zeta = l_poly.eval(&zeta);
    let r_zeta = r_poly.eval(&zeta);
    let o_zeta = o_poly.eval(&zeta);
    let s1_zeta = s1_poly.eval(&zeta);
    let s2_zeta = s2_poly.eval(&zeta);
    let z_shifted_zeta = z_poly.eval(&(zeta * omega));

    let lin_poly = prover.compute_linearization(
            &zeta,
            &alpha,
            &beta,
            &gamma,
            &OpeningValues { l: l_zeta, r: r_zeta, o: o_zeta, s1: s1_zeta, s2: s2_zeta, z_shifted: z_shifted_zeta },
            &z_coeffs,
            &ql_coeffs,
            &qr_coeffs,
            &qm_coeffs,
            &qo_coeffs,
            &qk_coeffs,
            &s3_coeffs,
            &[],
            &[],
            h0_coeffs,
            h1_coeffs,
            h2_coeffs,
            &domain,
            &coset_shift,
        );

    let const_lin = lin_poly.eval(&zeta);

    let all_poly_slices: Vec<&[Fr]> = vec![
        &lin_poly.coeffs,
        &l_poly.coeffs,
        &r_poly.coeffs,
        &o_poly.coeffs,
        &s1_coeffs,
        &s2_coeffs,
    ];
    let claimed_values = vec![const_lin, l_zeta, r_zeta, o_zeta, s1_zeta, s2_zeta];

    let folded = fold_and_subtract(&all_poly_slices, &claimed_values, &gamma_fold);

    let folded_at_zeta = folded.eval(&zeta);
    assert!(
        folded_at_zeta.is_zero(),
        "folded(ζ) must be zero by construction, got {:?}",
        folded_at_zeta,
    );

    let (batch_quotient, batch_remainder) = folded.div_by_linear(&zeta);
    assert!(
        batch_remainder.is_zero(),
        "Batch KZG opening remainder must be zero, got {:?}",
        batch_remainder,
    );

    let test_point = Fr::from_u64(1234567890);
    let lhs = folded.eval(&test_point);
    let rhs = batch_quotient.eval(&test_point) * (test_point - zeta);
    assert_eq!(lhs, rhs, "Quotient reconstruction failed");

    let zeta_omega = zeta * omega;
    let z_minus_eval = Polynomial::new(z_coeffs).sub(&Polynomial::new(vec![z_shifted_zeta]));

    let z_minus_at_zeta_omega = z_minus_eval.eval(&zeta_omega);
    assert!(
        z_minus_at_zeta_omega.is_zero(),
        "z_minus_eval(ζω) must be zero by construction, got {:?}",
        z_minus_at_zeta_omega,
    );

    let (z_shifted_quotient, z_shifted_remainder) = z_minus_eval.div_by_linear(&zeta_omega);
    assert!(
        z_shifted_remainder.is_zero(),
        "Z-shifted opening remainder must be zero, got {:?}",
        z_shifted_remainder,
    );

    let lhs = z_minus_eval.eval(&test_point);
    let rhs = z_shifted_quotient.eval(&test_point) * (test_point - zeta_omega);
    assert_eq!(lhs, rhs, "Z-shifted quotient reconstruction failed");
}

#[test]
fn test_grand_product_nontrivial_permutation() {
    let n = 8;
    let data = create_test_data(n);
    let prover = PlonkProver::new(data);

    let omega = Fr::from_bn254fr(&prover.data.omega);
    let domain = Domain::new(n, omega);
    let coset_shift = Fr::from_bn254fr(&prover.data.coset_shift);

    let mut l = vec![Fr::zero(); n];
    l[0] = Fr::from_u64(42);
    l[1] = Fr::from_u64(42);
    let r = vec![Fr::zero(); n];
    let o = vec![Fr::zero(); n];

    let omega_powers = domain.omega_powers();
    let k1 = coset_shift;
    let k2 = k1 * k1;

    let mut s1: Vec<Fr> = omega_powers.clone();
    s1.swap(0, 1);
    let s2: Vec<Fr> = omega_powers.iter().map(|w| *w * k1).collect();
    let s3: Vec<Fr> = omega_powers.iter().map(|w| *w * k2).collect();

    let beta = Fr::from_u64(7);
    let gamma = Fr::from_u64(13);

    let z = prover
        .compute_grand_product(&l, &r, &o, &s1, &s2, &s3, &beta, &gamma, &domain, &coset_shift)
        .unwrap();

    assert_eq!(z[0], Fr::one());
    assert_ne!(z[1], Fr::one(), "Z should not be all ones with non-identity permutation");
    let omega_0 = omega_powers[n - 1];
    let beta_w = beta * omega_0;
    let num = (l[n - 1] + beta_w + gamma)
        * (r[n - 1] + beta_w * k1 + gamma)
        * (o[n - 1] + beta_w * k2 + gamma);
    let den = (l[n - 1] + beta * s1[n - 1] + gamma)
        * (r[n - 1] + beta * s2[n - 1] + gamma)
        * (o[n - 1] + beta * s3[n - 1] + gamma);
    let final_product = z[n - 1] * num * den.inv();
    assert_eq!(final_product, Fr::one(), "Grand product identity must hold");
}

#[test]
fn test_pi_sign_convention_positive_matches_gnark() {
    let n: usize = 8;
    let log_n = n.trailing_zeros();
    let omega = root_of_unity(log_n);
    let domain = Domain::new(n, omega);

    let g = G1Affine {
        x: Fq::from_u64(1),
        y: Fq::from_u64(2),
    };
    let srs_lagrange: Vec<BN254G1Affine> = (1..=n as u64)
        .map(|i| g.to_jacobian().scalar_mul(&[i, 0, 0, 0]).to_affine().to_bn254())
        .collect();
    let srs_canonical: Vec<BN254G1Affine> = (1..=(n + 3) as u64)
        .map(|i| g.to_jacobian().scalar_mul(&[i, 0, 0, 0]).to_affine().to_bn254())
        .collect();

    let coset_shift = Fr::from_u64(5);
    let k1 = coset_shift;
    let k2 = k1 * k1;
    let omega_powers = domain.omega_powers();

    let s1: Vec<BN254Fr> = omega_powers.iter().map(|w| w.to_bn254fr()).collect();
    let s2: Vec<BN254Fr> = omega_powers.iter().map(|w| (*w * k1).to_bn254fr()).collect();
    let s3: Vec<BN254Fr> = omega_powers.iter().map(|w| (*w * k2).to_bn254fr()).collect();

    let mut ql_evals = vec![Fr::zero(); n];
    ql_evals[0] = -Fr::one();
    let ql_bn: Vec<BN254Fr> = ql_evals.iter().map(|v| v.to_bn254fr()).collect();
    let zero_poly = vec![BN254Fr::zero(); n];

    let nb_pub = 1usize;
    let data = PlonkProvingData {
        domain_size: n,
        lg_domain_size: log_n,
        omega: omega.to_bn254fr(),
        nb_public_variables: nb_pub,
        coset_shift: coset_shift.to_bn254fr(),
        srs_lagrange,
        srs_canonical,
        ql: ql_bn,
        qr: zero_poly.clone(),
        qm: zero_poly.clone(),
        qo: zero_poly.clone(),
        qk: zero_poly.clone(),
        qcp: vec![],
        commitment_constraint_indexes: vec![],
        s1,
        s2,
        s3,
        vk_selector_commits: None,
    };

    let prover = PlonkProver::new(data);

    let v = Fr::from_u64(42);

    let pi_coeffs = prover.compute_pi_polynomial(&[v], &[], &domain);
    let pi_poly = Polynomial::new(pi_coeffs);

    let pi_at_roots: Vec<Fr> = omega_powers.iter().map(|w| pi_poly.eval(w)).collect();

    assert_eq!(
        pi_at_roots[0], v,
        "CRITICAL: PI[0] must equal +v (positive, gnark convention).\n\
         PI[0] = {:?}, expected +v = {:?}\n\
         If PI[0] = -v, the sign convention is wrong.",
        pi_at_roots[0], v,
    );

    for (i, pi_val) in pi_at_roots.iter().enumerate().skip(nb_pub) {
        assert_eq!(*pi_val, Fr::zero(), "PI[{i}] must be zero (no public input at row {i})");
    }

    let l_val = v;

    let gate_positive = ql_evals[0] * l_val + pi_at_roots[0];
    assert_eq!(
        gate_positive,
        Fr::zero(),
        "Gate constraint MUST be satisfied with positive PI convention.\n\
         Ql[0]*L[0] + PI[0] = ({:?})*({:?}) + ({:?}) = {:?}\n\
         Expected: (-1)*v + v = 0",
        ql_evals[0],
        l_val,
        pi_at_roots[0],
        gate_positive,
    );

    let pi_negative = -v;
    let gate_negative = ql_evals[0] * l_val + pi_negative;
    let expected_wrong = Fr::from_u64(2) * (-v);
    assert_eq!(gate_negative, expected_wrong, "With negative PI, gate should equal -2v");
    assert_ne!(
        gate_negative,
        Fr::zero(),
        "REGRESSION: If this passes with negative PI, the sign convention is broken!\n\
         Gate = Ql[0]*L[0] + (-v) = (-1)*v + (-v) = -2v = {:?}",
        gate_negative,
    );

    let mut l_fr = vec![Fr::zero(); n];
    l_fr[0] = v;

    for i in 0..n {
        let gate = ql_evals[i] * l_fr[i] + pi_at_roots[i];
        assert_eq!(gate, Fr::zero(), "Gate constraint violated at row {i}");
    }

    let ql_coeffs = domain.ifft(&ql_evals);
    let l_coeffs = domain.ifft(&l_fr);
    let ql_poly = Polynomial::new(ql_coeffs);
    let l_poly = Polynomial::new(l_coeffs);

    for (i, w) in omega_powers.iter().enumerate() {
        let num = ql_poly.eval(w) * l_poly.eval(w) + pi_poly.eval(w);
        assert_eq!(num, Fr::zero(), "Gate numerator must vanish at omega^{i} = {:?}", w);
    }

    let random_x = Fr::from_u64(999999937);
    let num_random = ql_poly.eval(&random_x) * l_poly.eval(&random_x) + pi_poly.eval(&random_x);
    assert_ne!(
        num_random,
        Fr::zero(),
        "Gate numerator should be non-zero at a random point (non-trivial test)"
    );
}

#[test]
fn test_bsb22_hash_sign_convention_positive() {
    let n: usize = 8;
    let log_n = n.trailing_zeros();
    let omega = root_of_unity(log_n);
    let domain = Domain::new(n, omega);

    let g = G1Affine {
        x: Fq::from_u64(1),
        y: Fq::from_u64(2),
    };
    let srs_lagrange: Vec<BN254G1Affine> = (1..=n as u64)
        .map(|i| g.to_jacobian().scalar_mul(&[i, 0, 0, 0]).to_affine().to_bn254())
        .collect();
    let srs_canonical: Vec<BN254G1Affine> = (1..=(n + 3) as u64)
        .map(|i| g.to_jacobian().scalar_mul(&[i, 0, 0, 0]).to_affine().to_bn254())
        .collect();

    let coset_shift = Fr::from_u64(5);
    let k1 = coset_shift;
    let k2 = k1 * k1;
    let omega_powers = domain.omega_powers();

    let s1: Vec<BN254Fr> = omega_powers.iter().map(|w| w.to_bn254fr()).collect();
    let s2: Vec<BN254Fr> = omega_powers.iter().map(|w| (*w * k1).to_bn254fr()).collect();
    let s3: Vec<BN254Fr> = omega_powers.iter().map(|w| (*w * k2).to_bn254fr()).collect();

    let nb_pub = 1usize;
    let commitment_constraint_index = 0usize;
    let bsb22_row = nb_pub + commitment_constraint_index;

    let mut ql_evals = vec![Fr::zero(); n];
    ql_evals[0] = -Fr::one();
    ql_evals[bsb22_row] = -Fr::one();
    let ql_bn: Vec<BN254Fr> = ql_evals.iter().map(|v| v.to_bn254fr()).collect();
    let zero_poly = vec![BN254Fr::zero(); n];

    let data = PlonkProvingData {
        domain_size: n,
        lg_domain_size: log_n,
        omega: omega.to_bn254fr(),
        nb_public_variables: nb_pub,
        coset_shift: coset_shift.to_bn254fr(),
        srs_lagrange,
        srs_canonical,
        ql: ql_bn,
        qr: zero_poly.clone(),
        qm: zero_poly.clone(),
        qo: zero_poly.clone(),
        qk: zero_poly.clone(),
        qcp: vec![],
        commitment_constraint_indexes: vec![commitment_constraint_index],
        s1,
        s2,
        s3,
        vk_selector_commits: None,
    };

    let prover = PlonkProver::new(data);

    let bsb22_commit = g.to_jacobian().scalar_mul(&[7, 0, 0, 0]).to_affine().to_bn254();
    let hash = hash_to_field_bsb22(&bsb22_commit.to_transcript_bytes());
    assert!(!hash.is_zero(), "BSB22 hash must be non-zero for a meaningful test");

    let public_input_val = Fr::from_u64(42);
    let pi_coeffs = prover.compute_pi_polynomial(&[public_input_val], &[bsb22_commit], &domain);
    let pi_poly = Polynomial::new(pi_coeffs);

    let pi_at_roots: Vec<Fr> = omega_powers.iter().map(|w| pi_poly.eval(w)).collect();

    assert_eq!(
        pi_at_roots[0], public_input_val,
        "PI[0] must equal +publicInput (positive, gnark convention)"
    );

    assert_eq!(
        pi_at_roots[bsb22_row], hash,
        "CRITICAL: PI[{bsb22_row}] must equal +hash (positive, gnark convention).\n\
         PI[{bsb22_row}] = {:?}\n\
         expected +hash = {:?}\n\
         If this fails, the BSB22 hash sign is wrong.",
        pi_at_roots[bsb22_row], hash,
    );

    for (i, pi_val) in pi_at_roots.iter().enumerate() {
        if i == 0 || i == bsb22_row {
            continue;
        }
        assert_eq!(*pi_val, Fr::zero(), "PI[{i}] must be zero");
    }

    let l_bsb22 = hash;
    let gate_positive = ql_evals[bsb22_row] * l_bsb22 + pi_at_roots[bsb22_row];
    assert_eq!(
        gate_positive,
        Fr::zero(),
        "Gate constraint MUST be satisfied with positive BSB22 hash.\n\
         Ql*L + PI = ({:?})*({:?}) + ({:?}) = {:?}",
        ql_evals[bsb22_row],
        l_bsb22,
        pi_at_roots[bsb22_row],
        gate_positive,
    );

    let gate_negative = ql_evals[bsb22_row] * l_bsb22 + (-hash);
    assert_ne!(
        gate_negative,
        Fr::zero(),
        "REGRESSION: negative BSB22 hash must NOT satisfy the arithmetic gate.\n\
         Gate = (-1)*hash + (-hash) = -2*hash = {:?}",
        gate_negative,
    );
    let expected_wrong = Fr::from_u64(2) * (-hash);
    assert_eq!(gate_negative, expected_wrong, "With negative hash, gate should equal -2*hash");

    let mut l_fr = vec![Fr::zero(); n];
    l_fr[0] = public_input_val;
    l_fr[bsb22_row] = hash;

    let ql_coeffs = domain.ifft(&ql_evals);
    let l_coeffs = domain.ifft(&l_fr);
    let ql_poly = Polynomial::new(ql_coeffs);
    let l_poly = Polynomial::new(l_coeffs);

    for (i, w) in omega_powers.iter().enumerate() {
        let num = ql_poly.eval(w) * l_poly.eval(w) + pi_poly.eval(w);
        assert_eq!(num, Fr::zero(), "Gate numerator must vanish at omega^{i}");
    }

    let random_x = Fr::from_u64(123456789);
    let num_random = ql_poly.eval(&random_x) * l_poly.eval(&random_x) + pi_poly.eval(&random_x);
    assert_ne!(
        num_random,
        Fr::zero(),
        "Gate numerator should be non-zero at a random point (test is non-trivial)"
    );
}

#[test]
fn test_quotient_sign_with_nonidentity_permutation() {
    let n: usize = 8;
    let log_n = n.trailing_zeros();
    let omega = root_of_unity(log_n);
    let domain = Domain::new(n, omega);

    let g = G1Affine {
        x: Fq::from_u64(1),
        y: Fq::from_u64(2),
    };
    let srs_lagrange: Vec<BN254G1Affine> = (1..=n as u64)
        .map(|i| g.to_jacobian().scalar_mul(&[i, 0, 0, 0]).to_affine().to_bn254())
        .collect();
    let srs_canonical: Vec<BN254G1Affine> = (1..=(n + 3) as u64)
        .map(|i| g.to_jacobian().scalar_mul(&[i, 0, 0, 0]).to_affine().to_bn254())
        .collect();

    let coset_shift = Fr::from_u64(5);
    let k1 = coset_shift;
    let k2 = k1 * k1;
    let omega_powers = domain.omega_powers();

    let mut s1_fr: Vec<Fr> = omega_powers.clone();
    s1_fr.swap(0, 1);
    let s2_fr: Vec<Fr> = omega_powers.iter().map(|w| *w * k1).collect();
    let s3_fr: Vec<Fr> = omega_powers.iter().map(|w| *w * k2).collect();

    let s1: Vec<BN254Fr> = s1_fr.iter().map(|v| v.to_bn254fr()).collect();
    let s2: Vec<BN254Fr> = s2_fr.iter().map(|v| v.to_bn254fr()).collect();
    let s3: Vec<BN254Fr> = s3_fr.iter().map(|v| v.to_bn254fr()).collect();

    let mut ql_evals = vec![Fr::one(); n];
    ql_evals[0] = Fr::from_u64(2);
    let ql_bn: Vec<BN254Fr> = ql_evals.iter().map(|v| v.to_bn254fr()).collect();
    let qr_bn: Vec<BN254Fr> = vec![Fr::one().to_bn254fr(); n];
    let neg_one_poly: Vec<BN254Fr> = vec![(-Fr::one()).to_bn254fr(); n];
    let zero_poly = vec![BN254Fr::zero(); n];

    let nb_pub = 0usize;
    let mut l_fr: Vec<Fr> = (1..=n as u64).map(Fr::from_u64).collect();
    l_fr[0] = Fr::from_u64(42);
    l_fr[1] = Fr::from_u64(42);
    let r_fr: Vec<Fr> = (10..10 + n as u64).map(Fr::from_u64).collect();
    let o_fr: Vec<Fr> = (0..n).map(|i| ql_evals[i] * l_fr[i] + r_fr[i]).collect();

    let data = PlonkProvingData {
        domain_size: n,
        lg_domain_size: log_n,
        omega: omega.to_bn254fr(),
        nb_public_variables: nb_pub,
        coset_shift: coset_shift.to_bn254fr(),
        srs_lagrange,
        srs_canonical,
        ql: ql_bn,
        qr: qr_bn,
        qm: zero_poly.clone(),
        qo: neg_one_poly,
        qk: zero_poly,
        qcp: vec![],
        commitment_constraint_indexes: vec![],
        s1,
        s2,
        s3,
        vk_selector_commits: None,
    };

    let prover = PlonkProver::new(data);

    for i in 0..n {
        let gate = ql_evals[i] * l_fr[i] + r_fr[i] - o_fr[i];
        assert_eq!(gate, Fr::zero(), "Gate constraint violated at position {i}");
    }

    let beta = Fr::from_u64(7);
    let gamma = Fr::from_u64(13);
    let alpha = Fr::from_u64(17);

    let z_lagrange = prover
        .compute_grand_product(
            &l_fr,
            &r_fr,
            &o_fr,
            &s1_fr,
            &s2_fr,
            &s3_fr,
            &beta,
            &gamma,
            &domain,
            &coset_shift,
        )
        .unwrap();
    assert_eq!(z_lagrange[0], Fr::one(), "Z[0] must be 1");

    assert_ne!(
        z_lagrange[1],
        Fr::one(),
        "Z[1] must differ from 1 with non-identity permutation. \
         If Z is all ones, this test is equivalent to the identity-permutation test \
         and cannot detect a sign error in the permutation term."
    );

    let l_coeffs = domain.ifft(&l_fr);
    let r_coeffs = domain.ifft(&r_fr);
    let o_coeffs = domain.ifft(&o_fr);
    let z_coeffs = domain.ifft(&z_lagrange);
    let ql_coeffs = domain.ifft(&ql_evals);
    let qr_evals = vec![Fr::one(); n];
    let qr_coeffs = domain.ifft(&qr_evals);
    let qm_evals = vec![Fr::zero(); n];
    let qm_coeffs = domain.ifft(&qm_evals);
    let qo_evals = vec![-Fr::one(); n];
    let qo_coeffs = domain.ifft(&qo_evals);
    let qk_evals = vec![Fr::zero(); n];
    let qk_coeffs = domain.ifft(&qk_evals);
    let s1_coeffs = domain.ifft(&s1_fr);
    let s2_coeffs = domain.ifft(&s2_fr);
    let s3_coeffs = domain.ifft(&s3_fr);

    let h_coeffs = prover.compute_quotient(
            &l_coeffs,
            &r_coeffs,
            &o_coeffs,
            &z_coeffs,
            &[],
            &alpha,
            &beta,
            &gamma,
            &[],
            &[],
        );

    let h_poly = Polynomial::new(h_coeffs.clone());
    let h_is_zero = h_coeffs.iter().all(|c| c.is_zero());
    assert!(
        !h_is_zero,
        "Quotient polynomial h must be non-trivial with non-identity permutation."
    );

    let l_poly = Polynomial::new(l_coeffs.clone());
    let r_poly = Polynomial::new(r_coeffs.clone());
    let o_poly = Polynomial::new(o_coeffs.clone());
    let z_poly = Polynomial::new(z_coeffs.clone());
    let s1_poly = Polynomial::new(s1_coeffs.clone());
    let s2_poly = Polynomial::new(s2_coeffs.clone());
    let s3_poly = Polynomial::new(s3_coeffs.clone());
    let n_fr = Fr::from_u64(n as u64);

    let compute_numerator = |x: &Fr| -> Fr {
        let l_x = l_poly.eval(x);
        let r_x = r_poly.eval(x);
        let o_x = o_poly.eval(x);
        let z_x = z_poly.eval(x);
        let z_shifted_x = z_poly.eval(&(*x * omega));
        let s1_x = s1_poly.eval(x);
        let s2_x = s2_poly.eval(x);
        let s3_x = s3_poly.eval(x);
        let zh_x = domain.vanishing_eval(x);

        let ql_x = Polynomial::new(ql_coeffs.clone()).eval(x);
        let qr_x = Polynomial::new(qr_coeffs.clone()).eval(x);
        let qm_x = Polynomial::new(qm_coeffs.clone()).eval(x);
        let qo_x = Polynomial::new(qo_coeffs.clone()).eval(x);
        let qk_x = Polynomial::new(qk_coeffs.clone()).eval(x);

        let gate = ql_x * l_x + qr_x * r_x + qm_x * l_x * r_x + qo_x * o_x + qk_x;

        let bx = beta * *x;
        let perm_num =
            z_x * (l_x + bx + gamma) * (r_x + bx * k1 + gamma) * (o_x + bx * k2 + gamma);
        let perm_den = z_shifted_x
            * (l_x + beta * s1_x + gamma)
            * (r_x + beta * s2_x + gamma)
            * (o_x + beta * s3_x + gamma);
        let perm = alpha * (perm_den - perm_num);

        let l1_x = zh_x * ((*x - Fr::one()) * n_fr).inv();
        let boundary = alpha.square() * (z_x - Fr::one()) * l1_x;

        gate + perm + boundary
    };

    let compute_numerator_wrong_sign = |x: &Fr| -> Fr {
        let l_x = l_poly.eval(x);
        let r_x = r_poly.eval(x);
        let o_x = o_poly.eval(x);
        let z_x = z_poly.eval(x);
        let z_shifted_x = z_poly.eval(&(*x * omega));
        let s1_x = s1_poly.eval(x);
        let s2_x = s2_poly.eval(x);
        let s3_x = s3_poly.eval(x);
        let zh_x = domain.vanishing_eval(x);

        let ql_x = Polynomial::new(ql_coeffs.clone()).eval(x);
        let qr_x = Polynomial::new(qr_coeffs.clone()).eval(x);
        let qm_x = Polynomial::new(qm_coeffs.clone()).eval(x);
        let qo_x = Polynomial::new(qo_coeffs.clone()).eval(x);
        let qk_x = Polynomial::new(qk_coeffs.clone()).eval(x);

        let gate = ql_x * l_x + qr_x * r_x + qm_x * l_x * r_x + qo_x * o_x + qk_x;

        let bx = beta * *x;
        let perm_num =
            z_x * (l_x + bx + gamma) * (r_x + bx * k1 + gamma) * (o_x + bx * k2 + gamma);
        let perm_den = z_shifted_x
            * (l_x + beta * s1_x + gamma)
            * (r_x + beta * s2_x + gamma)
            * (o_x + beta * s3_x + gamma);
        let perm = alpha * (perm_num - perm_den);

        let l1_x = zh_x * ((*x - Fr::one()) * n_fr).inv();
        let boundary = alpha.square() * (z_x - Fr::one()) * l1_x;

        gate + perm + boundary
    };

    for test_x in [Fr::from_u64(123456789), Fr::from_u64(999999937)] {
        let h_at_x = h_poly.eval(&test_x);
        let zh_at_x = domain.vanishing_eval(&test_x);
        let lhs = h_at_x * zh_at_x;
        let rhs_correct = compute_numerator(&test_x);
        let rhs_wrong = compute_numerator_wrong_sign(&test_x);

        assert_eq!(
            lhs, rhs_correct,
            "h(x)*Z_H(x) != numerator(x) with (perm_den - perm_num) sign.\n\
             This means the quotient computation or the sign convention is wrong.\n\
             h(x)*Z_H(x)  = {:?}\n\
             numerator(x) = {:?}",
            lhs, rhs_correct,
        );

        assert_ne!(
            lhs, rhs_wrong,
            "h(x)*Z_H(x) matches with WRONG sign (perm_num - perm_den)!\n\
             This can only happen if the permutation contribution is zero,\n\
             meaning the test is not exercising the sign. Z[1] = {:?}",
            z_lagrange[1],
        );
    }
}

#[test]
fn test_lin_poly_matches_verifier_formula() {
    let n: usize = 8;
    let log_n = n.trailing_zeros();
    let omega = root_of_unity(log_n);
    let domain = Domain::new(n, omega);

    let g = G1Affine {
        x: Fq::from_u64(1),
        y: Fq::from_u64(2),
    };
    let srs_lagrange: Vec<BN254G1Affine> = (1..=n as u64)
        .map(|i| g.to_jacobian().scalar_mul(&[i, 0, 0, 0]).to_affine().to_bn254())
        .collect();
    let srs_canonical: Vec<BN254G1Affine> = (1..=(n + 3) as u64)
        .map(|i| g.to_jacobian().scalar_mul(&[i, 0, 0, 0]).to_affine().to_bn254())
        .collect();

    let coset_shift = Fr::from_u64(5);
    let k1 = coset_shift;
    let k2 = k1 * k1;
    let omega_powers = domain.omega_powers();

    let s1_fr: Vec<Fr> = omega_powers.clone();
    let s2_fr: Vec<Fr> = omega_powers.iter().map(|w| *w * k1).collect();
    let s3_fr: Vec<Fr> = omega_powers.iter().map(|w| *w * k2).collect();
    let s1: Vec<BN254Fr> = s1_fr.iter().map(|v| v.to_bn254fr()).collect();
    let s2: Vec<BN254Fr> = s2_fr.iter().map(|v| v.to_bn254fr()).collect();
    let s3: Vec<BN254Fr> = s3_fr.iter().map(|v| v.to_bn254fr()).collect();

    let nb_pub = 1usize;
    let public_input_val = Fr::from_u64(42);

    let mut ql_evals = vec![Fr::one(); n];
    ql_evals[0] = -Fr::one();
    let qr_evals: Vec<Fr> = {
        let mut v = vec![Fr::one(); n];
        v[0] = Fr::zero();
        v
    };
    let qm_evals = vec![Fr::zero(); n];
    let qo_evals: Vec<Fr> = {
        let mut v = vec![-Fr::one(); n];
        v[0] = Fr::zero();
        v
    };
    let qk_evals = vec![Fr::zero(); n];

    let ql_bn: Vec<BN254Fr> = ql_evals.iter().map(|v| v.to_bn254fr()).collect();
    let qr_bn: Vec<BN254Fr> = qr_evals.iter().map(|v| v.to_bn254fr()).collect();
    let qm_bn: Vec<BN254Fr> = qm_evals.iter().map(|v| v.to_bn254fr()).collect();
    let qo_bn: Vec<BN254Fr> = qo_evals.iter().map(|v| v.to_bn254fr()).collect();
    let qk_bn: Vec<BN254Fr> = qk_evals.iter().map(|v| v.to_bn254fr()).collect();

    let mut l_fr: Vec<Fr> = (1..=n as u64).map(Fr::from_u64).collect();
    l_fr[0] = public_input_val;
    let mut r_fr: Vec<Fr> = (10..10 + n as u64).map(Fr::from_u64).collect();
    r_fr[0] = Fr::zero();
    let mut o_fr: Vec<Fr> = (0..n).map(|i| l_fr[i] + r_fr[i]).collect();
    o_fr[0] = Fr::zero();

    let mut pi_evals = vec![Fr::zero(); n];
    pi_evals[0] = public_input_val;

    for i in 0..n {
        let gate = ql_evals[i] * l_fr[i]
            + qr_evals[i] * r_fr[i]
            + qm_evals[i] * l_fr[i] * r_fr[i]
            + qo_evals[i] * o_fr[i]
            + qk_evals[i]
            + pi_evals[i];
        assert_eq!(gate, Fr::zero(), "Gate constraint violated at row {i}");
    }

    let data = PlonkProvingData {
        domain_size: n,
        lg_domain_size: log_n,
        omega: omega.to_bn254fr(),
        nb_public_variables: nb_pub,
        coset_shift: coset_shift.to_bn254fr(),
        srs_lagrange,
        srs_canonical,
        ql: ql_bn,
        qr: qr_bn,
        qm: qm_bn,
        qo: qo_bn,
        qk: qk_bn,
        qcp: vec![],
        commitment_constraint_indexes: vec![],
        s1,
        s2,
        s3,
        vk_selector_commits: None,
    };
    let prover = PlonkProver::new(data);

    let beta = Fr::from_u64(7);
    let gamma = Fr::from_u64(13);
    let alpha = Fr::from_u64(17);
    let zeta = Fr::from_u64(987_654_321);

    let z_lagrange = prover
        .compute_grand_product(
            &l_fr,
            &r_fr,
            &o_fr,
            &s1_fr,
            &s2_fr,
            &s3_fr,
            &beta,
            &gamma,
            &domain,
            &coset_shift,
        )
        .unwrap();
    assert_eq!(z_lagrange[0], Fr::one());

    let l_coeffs = domain.ifft(&l_fr);
    let r_coeffs = domain.ifft(&r_fr);
    let o_coeffs = domain.ifft(&o_fr);
    let z_coeffs = domain.ifft(&z_lagrange);
    let ql_coeffs = domain.ifft(&ql_evals);
    let qr_coeffs = domain.ifft(&qr_evals);
    let qm_coeffs = domain.ifft(&qm_evals);
    let qo_coeffs = domain.ifft(&qo_evals);
    let qk_coeffs = domain.ifft(&qk_evals);
    let s1_coeffs = domain.ifft(&s1_fr);
    let s2_coeffs = domain.ifft(&s2_fr);
    let s3_coeffs = domain.ifft(&s3_fr);

    let h_coeffs = prover.compute_quotient(
            &l_coeffs,
            &r_coeffs,
            &o_coeffs,
            &z_coeffs,
            &[],
            &alpha,
            &beta,
            &gamma,
            &[public_input_val],
            &[],
        );
    let (h0_coeffs, h1_coeffs, h2_coeffs) = split_quotient(&h_coeffs, n);

    let l_poly = Polynomial::new(l_coeffs.clone());
    let r_poly = Polynomial::new(r_coeffs.clone());
    let o_poly = Polynomial::new(o_coeffs.clone());
    let z_poly = Polynomial::new(z_coeffs.clone());
    let s1_poly = Polynomial::new(s1_coeffs.clone());
    let s2_poly = Polynomial::new(s2_coeffs.clone());

    let l_zeta = l_poly.eval(&zeta);
    let r_zeta = r_poly.eval(&zeta);
    let o_zeta = o_poly.eval(&zeta);
    let s1_zeta = s1_poly.eval(&zeta);
    let s2_zeta = s2_poly.eval(&zeta);
    let z_shifted_zeta = z_poly.eval(&(zeta * omega));

    let lin_poly = prover.compute_linearization(
            &zeta,
            &alpha,
            &beta,
            &gamma,
            &OpeningValues { l: l_zeta, r: r_zeta, o: o_zeta, s1: s1_zeta, s2: s2_zeta, z_shifted: z_shifted_zeta },
            &z_coeffs,
            &ql_coeffs,
            &qr_coeffs,
            &qm_coeffs,
            &qo_coeffs,
            &qk_coeffs,
            &s3_coeffs,
            &[],
            &[],
            h0_coeffs,
            h1_coeffs,
            h2_coeffs,
            &domain,
            &coset_shift,
        );
    let const_lin_prover = lin_poly.eval(&zeta);

    let zh_zeta = domain.vanishing_eval(&zeta);
    let pi_zeta_verifier: Fr = {
        let size_inv = domain.size_inv;
        let mut accw = Fr::one();
        let mut pi_acc = Fr::zero();
        for ev in pi_evals.iter() {
            if !ev.is_zero() {
                let den = zeta - accw;
                assert!(!den.is_zero(), "ζ coincided with a root of unity");
                let mut term = zh_zeta;
                term.mul_assign(den.inv());
                term.mul_assign(size_inv);
                term.mul_assign(accw);
                term.mul_assign(*ev);
                pi_acc.add_assign(term);
            }
            accw.mul_assign(domain.omega);
        }
        pi_acc
    };

    let l1_zeta = {
        let mut li = (zeta - Fr::one()).inv();
        li.mul_assign(zh_zeta);
        li.mul_assign(domain.size_inv);
        li
    };
    let alpha_sq_l1 = alpha.square() * l1_zeta;

    let perm_summand = {
        let t1 = l_zeta + beta * s1_zeta + gamma;
        let t2 = r_zeta + beta * s2_zeta + gamma;
        let t3 = o_zeta + gamma;
        alpha * t1 * t2 * t3 * z_shifted_zeta
    };

    let const_lin_verifier = -(pi_zeta_verifier - alpha_sq_l1 + perm_summand);

    if const_lin_prover != const_lin_verifier {
        println!("--- const_lin divergence ---");
        println!("nb_pub               = {}", nb_pub);
        println!("public_input_val     = {:?}", public_input_val);
        println!("pi_evals             = {:?}", pi_evals);
        println!("zeta                 = {:?}", zeta);
        println!("alpha                = {:?}", alpha);
        println!("beta                 = {:?}", beta);
        println!("gamma                = {:?}", gamma);
        println!("l_zeta               = {:?}", l_zeta);
        println!("r_zeta               = {:?}", r_zeta);
        println!("o_zeta               = {:?}", o_zeta);
        println!("s1_zeta              = {:?}", s1_zeta);
        println!("s2_zeta              = {:?}", s2_zeta);
        println!("z_shifted_zeta       = {:?}", z_shifted_zeta);
        println!("zh_zeta              = {:?}", zh_zeta);
        println!("L1(zeta)             = {:?}", l1_zeta);
        println!("PI(zeta) [verifier]  = {:?}", pi_zeta_verifier);
        println!("alpha^2 * L1(zeta)   = {:?}", alpha_sq_l1);
        println!("perm_summand         = {:?}", perm_summand);
        println!("const_lin_prover     = {:?}", const_lin_prover);
        println!("const_lin_verifier   = {:?}", const_lin_verifier);
        println!("diff (prover-verif)  = {:?}", const_lin_prover - const_lin_verifier);

        println!(
            "diff + PI(zeta)      = {:?}  (zero means prover is MISSING +PI(ζ))",
            const_lin_prover - const_lin_verifier + pi_zeta_verifier,
        );
        println!(
            "diff - PI(zeta)      = {:?}  (zero means prover is MISSING -PI(ζ))",
            const_lin_prover - const_lin_verifier - pi_zeta_verifier,
        );
        println!(
            "diff + 2*PI(zeta)    = {:?}  (zero means sign of PI(ζ) is FLIPPED)",
            const_lin_prover - const_lin_verifier + pi_zeta_verifier + pi_zeta_verifier,
        );
    }
    assert_eq!(
        const_lin_prover, const_lin_verifier,
        "const_lin_prover != const_lin_verifier (see stderr diagnostics above)",
    );
}

#[test]
fn test_lin_poly_matches_verifier_formula_with_bsb22() {
    let n: usize = 8;
    let log_n = n.trailing_zeros();
    let omega = root_of_unity(log_n);
    let domain = Domain::new(n, omega);

    let g = G1Affine {
        x: Fq::from_u64(1),
        y: Fq::from_u64(2),
    };
    let srs_lagrange: Vec<BN254G1Affine> = (1..=n as u64)
        .map(|i| g.to_jacobian().scalar_mul(&[i, 0, 0, 0]).to_affine().to_bn254())
        .collect();
    let srs_canonical: Vec<BN254G1Affine> = (1..=(n + 3) as u64)
        .map(|i| g.to_jacobian().scalar_mul(&[i, 0, 0, 0]).to_affine().to_bn254())
        .collect();

    let coset_shift = Fr::from_u64(5);
    let k1 = coset_shift;
    let k2 = k1 * k1;
    let omega_powers = domain.omega_powers();

    let s1_fr: Vec<Fr> = omega_powers.clone();
    let s2_fr: Vec<Fr> = omega_powers.iter().map(|w| *w * k1).collect();
    let s3_fr: Vec<Fr> = omega_powers.iter().map(|w| *w * k2).collect();
    let s1: Vec<BN254Fr> = s1_fr.iter().map(|v| v.to_bn254fr()).collect();
    let s2: Vec<BN254Fr> = s2_fr.iter().map(|v| v.to_bn254fr()).collect();
    let s3: Vec<BN254Fr> = s3_fr.iter().map(|v| v.to_bn254fr()).collect();

    let nb_pub = 2usize;
    let pi_values = [Fr::from_u64(42), Fr::from_u64(99)];
    let commitment_constraint_index = 0usize;
    let bsb22_row = nb_pub + commitment_constraint_index;

    let mut ql_evals = vec![Fr::one(); n];
    ql_evals[0] = -Fr::one();
    ql_evals[1] = -Fr::one();
    ql_evals[2] = -Fr::one();
    let mut qr_evals = vec![Fr::one(); n];
    qr_evals[0] = Fr::zero();
    qr_evals[1] = Fr::zero();
    qr_evals[2] = Fr::zero();
    let qm_evals = vec![Fr::zero(); n];
    let mut qo_evals: Vec<Fr> = vec![-Fr::one(); n];
    qo_evals[0] = Fr::zero();
    qo_evals[1] = Fr::zero();
    qo_evals[2] = Fr::zero();
    let qk_evals = vec![Fr::zero(); n];

    let mut qcp_evals = vec![Fr::zero(); n];
    qcp_evals[3] = Fr::from_u64(2);

    let ql_bn: Vec<BN254Fr> = ql_evals.iter().map(|v| v.to_bn254fr()).collect();
    let qr_bn: Vec<BN254Fr> = qr_evals.iter().map(|v| v.to_bn254fr()).collect();
    let qm_bn: Vec<BN254Fr> = qm_evals.iter().map(|v| v.to_bn254fr()).collect();
    let qo_bn: Vec<BN254Fr> = qo_evals.iter().map(|v| v.to_bn254fr()).collect();
    let qk_bn: Vec<BN254Fr> = qk_evals.iter().map(|v| v.to_bn254fr()).collect();
    let qcp_bn: Vec<BN254Fr> = qcp_evals.iter().map(|v| v.to_bn254fr()).collect();

    let bsb22_commit = g.to_jacobian().scalar_mul(&[7, 0, 0, 0]).to_affine().to_bn254();
    let bsb22_hash =
        hash_to_field_bsb22(&bsb22_commit.to_transcript_bytes());
    assert!(!bsb22_hash.is_zero(), "BSB22 hash must be non-zero for meaningful test");

    let bsb22_poly_fr: Vec<Fr> = (0..n as u64).map(|i| Fr::from_u64(i + 1)).collect();

    let mut pi_evals = vec![Fr::zero(); n];
    pi_evals[0] = pi_values[0];
    pi_evals[1] = pi_values[1];
    pi_evals[bsb22_row] = bsb22_hash;

    let mut l_fr: Vec<Fr> = (1..=n as u64).map(Fr::from_u64).collect();
    l_fr[0] = pi_values[0];
    l_fr[1] = pi_values[1];
    l_fr[2] = bsb22_hash;

    let mut r_fr: Vec<Fr> = (10..10 + n as u64).map(Fr::from_u64).collect();
    r_fr[0] = Fr::zero();
    r_fr[1] = Fr::zero();
    r_fr[2] = Fr::zero();

    let mut o_fr = vec![Fr::zero(); n];
    for (i, entry) in o_fr.iter_mut().enumerate().take(n).skip(3) {
        *entry = ql_evals[i] * l_fr[i]
            + qr_evals[i] * r_fr[i]
            + qcp_evals[i] * bsb22_poly_fr[i]
            + pi_evals[i];
    }

    for i in 0..n {
        let gate = ql_evals[i] * l_fr[i]
            + qr_evals[i] * r_fr[i]
            + qm_evals[i] * l_fr[i] * r_fr[i]
            + qo_evals[i] * o_fr[i]
            + qk_evals[i]
            + pi_evals[i]
            + qcp_evals[i] * bsb22_poly_fr[i];
        assert_eq!(gate, Fr::zero(), "Gate constraint violated at row {i}");
    }

    let data = PlonkProvingData {
        domain_size: n,
        lg_domain_size: log_n,
        omega: omega.to_bn254fr(),
        nb_public_variables: nb_pub,
        coset_shift: coset_shift.to_bn254fr(),
        srs_lagrange,
        srs_canonical,
        ql: ql_bn,
        qr: qr_bn,
        qm: qm_bn,
        qo: qo_bn,
        qk: qk_bn,
        qcp: vec![qcp_bn],
        commitment_constraint_indexes: vec![commitment_constraint_index],
        s1,
        s2,
        s3,
        vk_selector_commits: None,
    };
    let prover = PlonkProver::new(data);

    let beta = Fr::from_u64(7);
    let gamma = Fr::from_u64(13);
    let alpha = Fr::from_u64(17);
    let zeta = Fr::from_u64(987_654_321);

    let z_lagrange = prover
        .compute_grand_product(
            &l_fr,
            &r_fr,
            &o_fr,
            &s1_fr,
            &s2_fr,
            &s3_fr,
            &beta,
            &gamma,
            &domain,
            &coset_shift,
        )
        .unwrap();
    assert_eq!(z_lagrange[0], Fr::one());

    let l_coeffs = domain.ifft(&l_fr);
    let r_coeffs = domain.ifft(&r_fr);
    let o_coeffs = domain.ifft(&o_fr);
    let z_coeffs = domain.ifft(&z_lagrange);
    let ql_coeffs = domain.ifft(&ql_evals);
    let qr_coeffs = domain.ifft(&qr_evals);
    let qm_coeffs = domain.ifft(&qm_evals);
    let qo_coeffs = domain.ifft(&qo_evals);
    let qk_coeffs = domain.ifft(&qk_evals);
    let s1_coeffs = domain.ifft(&s1_fr);
    let s2_coeffs = domain.ifft(&s2_fr);
    let s3_coeffs = domain.ifft(&s3_fr);
    let qcp_coeffs_list: Vec<Vec<Fr>> = prover.cached.qcp_coeffs.clone();
    let bsb22_coeffs_list: Vec<Vec<Fr>> = vec![domain.ifft(&bsb22_poly_fr)];

    let bsb22_commitments_bn = vec![bsb22_commit];
    let h_coeffs = prover.compute_quotient(
            &l_coeffs,
            &r_coeffs,
            &o_coeffs,
            &z_coeffs,
            &bsb22_coeffs_list,
            &alpha,
            &beta,
            &gamma,
            &pi_values,
            &bsb22_commitments_bn,
        );
    let (h0_coeffs, h1_coeffs, h2_coeffs) = split_quotient(&h_coeffs, n);

    let l_poly = Polynomial::new(l_coeffs.clone());
    let r_poly = Polynomial::new(r_coeffs.clone());
    let o_poly = Polynomial::new(o_coeffs.clone());
    let z_poly = Polynomial::new(z_coeffs.clone());
    let s1_poly = Polynomial::new(s1_coeffs.clone());
    let s2_poly = Polynomial::new(s2_coeffs.clone());

    let l_zeta = l_poly.eval(&zeta);
    let r_zeta = r_poly.eval(&zeta);
    let o_zeta = o_poly.eval(&zeta);
    let s1_zeta = s1_poly.eval(&zeta);
    let s2_zeta = s2_poly.eval(&zeta);
    let z_shifted_zeta = z_poly.eval(&(zeta * omega));
    let qcp_zeta: Vec<Fr> =
        qcp_coeffs_list.iter().map(|q| Polynomial::new(q.clone()).eval(&zeta)).collect();

    let lin_poly = prover.compute_linearization(
            &zeta,
            &alpha,
            &beta,
            &gamma,
            &OpeningValues { l: l_zeta, r: r_zeta, o: o_zeta, s1: s1_zeta, s2: s2_zeta, z_shifted: z_shifted_zeta },
            &z_coeffs,
            &ql_coeffs,
            &qr_coeffs,
            &qm_coeffs,
            &qo_coeffs,
            &qk_coeffs,
            &s3_coeffs,
            &qcp_zeta,
            &bsb22_coeffs_list,
            h0_coeffs,
            h1_coeffs,
            h2_coeffs,
            &domain,
            &coset_shift,
        );
    let const_lin_prover = lin_poly.eval(&zeta);

    let zh_zeta = domain.vanishing_eval(&zeta);
    let size_inv = domain.size_inv;

    let mut pi_zeta_pi_part = Fr::zero();
    {
        let mut accw = Fr::one();
        for ev in pi_values.iter() {
            if !ev.is_zero() {
                let den = zeta - accw;
                assert!(!den.is_zero(), "ζ coincided with a root of unity");
                let mut term = zh_zeta;
                term.mul_assign(den.inv());
                term.mul_assign(size_inv);
                term.mul_assign(accw);
                term.mul_assign(*ev);
                pi_zeta_pi_part.add_assign(term);
            }
            accw.mul_assign(domain.omega);
        }
    }
    let mut pi_zeta_bsb22_part = Fr::zero();
    {
        let row = nb_pub + commitment_constraint_index;
        let w_pow = domain.omega.pow(&[row as u64, 0, 0, 0]);
        let den = zeta - w_pow;
        assert!(!den.is_zero(), "ζ coincided with BSB22 row's ωᵏ");
        let mut term = zh_zeta;
        term.mul_assign(w_pow);
        term.mul_assign(den.inv());
        term.mul_assign(size_inv);
        term.mul_assign(bsb22_hash);
        pi_zeta_bsb22_part.add_assign(term);
    }
    let pi_zeta_verifier = pi_zeta_pi_part + pi_zeta_bsb22_part;

    let l1_zeta = {
        let mut li = (zeta - Fr::one()).inv();
        li.mul_assign(zh_zeta);
        li.mul_assign(domain.size_inv);
        li
    };
    let alpha_sq_l1 = alpha.square() * l1_zeta;

    let perm_summand = {
        let t1 = l_zeta + beta * s1_zeta + gamma;
        let t2 = r_zeta + beta * s2_zeta + gamma;
        let t3 = o_zeta + gamma;
        alpha * t1 * t2 * t3 * z_shifted_zeta
    };

    let const_lin_verifier = -(pi_zeta_verifier - alpha_sq_l1 + perm_summand);

    if const_lin_prover != const_lin_verifier {
        println!("--- const_lin divergence (BSB22 + multi-PI) ---");
        println!("nb_pub                  = {}", nb_pub);
        println!("pi_values               = {:?}", pi_values);
        println!("commitment_cst_idx      = {}", commitment_constraint_index);
        println!("bsb22_row               = {}", bsb22_row);
        println!("bsb22_hash              = {:?}", bsb22_hash);
        println!("pi_evals (vk+bsb22)     = {:?}", pi_evals);
        println!("zeta                    = {:?}", zeta);
        println!("alpha                   = {:?}", alpha);
        println!("beta                    = {:?}", beta);
        println!("gamma                   = {:?}", gamma);
        println!("l_zeta                  = {:?}", l_zeta);
        println!("r_zeta                  = {:?}", r_zeta);
        println!("o_zeta                  = {:?}", o_zeta);
        println!("s1_zeta                 = {:?}", s1_zeta);
        println!("s2_zeta                 = {:?}", s2_zeta);
        println!("z_shifted_zeta          = {:?}", z_shifted_zeta);
        println!("qcp_zeta                = {:?}", qcp_zeta);
        println!("zh_zeta                 = {:?}", zh_zeta);
        println!("L1(zeta)                = {:?}", l1_zeta);
        println!("PI(ζ) pi part           = {:?}", pi_zeta_pi_part);
        println!("PI(ζ) bsb22 part        = {:?}", pi_zeta_bsb22_part);
        println!("PI(ζ) verifier (total)  = {:?}", pi_zeta_verifier);
        println!("alpha^2 * L1(ζ)         = {:?}", alpha_sq_l1);
        println!("perm_summand            = {:?}", perm_summand);
        println!("const_lin_prover        = {:?}", const_lin_prover);
        println!("const_lin_verifier      = {:?}", const_lin_verifier);
        println!("diff (prover-verifier)  = {:?}", const_lin_prover - const_lin_verifier);

        println!(
            "diff + PI(ζ) pi part    = {:?}   (zero => prover missing +PI_pi)",
            (const_lin_prover - const_lin_verifier) + pi_zeta_pi_part,
        );
        println!(
            "diff - PI(ζ) pi part    = {:?}   (zero => prover missing -PI_pi)",
            (const_lin_prover - const_lin_verifier) - pi_zeta_pi_part,
        );
        println!(
            "diff + PI(ζ) bsb22 part = {:?}   (zero => prover missing +PI_bsb22)",
            (const_lin_prover - const_lin_verifier) + pi_zeta_bsb22_part,
        );
        println!(
            "diff - PI(ζ) bsb22 part = {:?}   (zero => prover missing -PI_bsb22)",
            (const_lin_prover - const_lin_verifier) - pi_zeta_bsb22_part,
        );
        println!(
            "diff + 2*PI(ζ) bsb22    = {:?}   (zero => sign of PI_bsb22 is flipped)",
            (const_lin_prover - const_lin_verifier) + pi_zeta_bsb22_part + pi_zeta_bsb22_part,
        );
        println!(
            "diff + 2*PI(ζ) pi part  = {:?}   (zero => sign of PI_pi is flipped)",
            (const_lin_prover - const_lin_verifier) + pi_zeta_pi_part + pi_zeta_pi_part,
        );
    }
    assert_eq!(
        const_lin_prover, const_lin_verifier,
        "const_lin_prover != const_lin_verifier with BSB22 + multi-PI \
         (see stderr diagnostics above)",
    );
}

#[test]
fn the_limbs_of_a_trivial_proof() {
    let n = 8;
    let prover = PlonkProver::new(create_test_data(n));
    let rows = vec![BN254Fr::zero(); n];
    let public_inputs = vec![BN254Fr::zero(); 1];
    let proof = prover.prove(&rows, &rows, &rows, &public_inputs, &[], &[], None).unwrap();
    let zero = BN254G1Affine::zero();
    let g = G1Affine { x: Fq::from_u64(1), y: Fq::from_u64(2) };
    let sum = g.to_jacobian().scalar_mul(&[36, 0, 0, 0]).to_affine().to_bn254();
    assert!(proof.lro == [zero; 3]);
    assert!(proof.bsb22_commitments == vec![zero]);
    assert!(proof.z == sum);
    assert_eq!(proof.batched_proof.claimed_values.len(), 7);
    assert_eq!(proof.to_bytes().len(), 864);
}

#[test]
fn a_prover_keeps_what_it_does_not_cache() {
    let n = 8;
    let data = create_test_data(n);
    let (omega, shift) = (data.omega, data.coset_shift);
    let prover = PlonkProver::new(data);
    assert_eq!(prover.data.domain_size, n);
    assert_eq!(prover.data.lg_domain_size, 3);
    assert_eq!(prover.data.nb_public_variables, 1);
    assert_eq!(prover.data.commitment_constraint_indexes, vec![0]);
    assert!(prover.data.omega == omega && prover.data.coset_shift == shift);
    assert!(prover.data.vk_selector_commits.is_none());
    let d = &prover.data;
    for column in [&d.ql, &d.qr, &d.qm, &d.qo, &d.qk, &d.s1, &d.s2, &d.s3] {
        assert!(column.is_empty());
    }
    assert!(d.qcp.is_empty() && d.srs_lagrange.is_empty() && d.srs_canonical.is_empty());
}

#[test]
fn zero_selectors_are_not_worth_keeping() {
    let mut data = create_test_data(8);
    data.ql[3] = Fr::from_u64(7).to_bn254fr();
    let lens = PlonkProver::new(data).cached.canonical_lens();
    assert_eq!(lens, [Some(8), None, None, None, Some(8), Some(8), Some(8), None]);
}
