use sp1_gpu_plonk::commit::{find_hot_values, zero_out};
use sp1_gpu_plonk::diagnostics::{same_sample, sweep_indices, CosetSample, Rows};
use sp1_gpu_plonk::domain::{root_of_unity, Domain};
use sp1_gpu_plonk::fields::{Fq, Fr};
use sp1_gpu_plonk::g1::{msm, G1Affine, G1Jacobian};
use sp1_gpu_plonk::grand_product::ProveError;
use sp1_gpu_plonk::hash_to_field::hash_to_field_bsb22;
use sp1_gpu_plonk::linearization::{combine, OpeningValues};
use sp1_gpu_plonk::plonk_proof::PlonkProof;
use sp1_gpu_plonk::polynomial::eval_poly_at;
use sp1_gpu_plonk::prover::{PlonkProver, ProofInputs, WitnessPolys};
use sp1_gpu_plonk::quotient::{count_quotient_tail, fuse_qk_pi, split_quotient};
use sp1_gpu_plonk::staged::StartedProof;
use sp1_gpu_plonk::transcript::Transcript;
use sp1_gpu_plonk::types::{PlonkProvingData, VkSelectorCommits};
use sp1_gpu_plonk::validity::{jacobian_reduced, point_reduced, scalars_reduced};
use sp1_gpu_plonk::{BN254Fr, BN254G1Affine};

const N: usize = 8;
const TAU: u64 = 987_654_321_987;

fn generator() -> G1Affine {
    G1Affine { x: Fq::from_u64(1), y: Fq::from_u64(2) }
}

fn times_generator(k: &Fr) -> G1Affine {
    generator().to_jacobian().scalar_mul(&k.to_canonical()).to_affine()
}

fn omega_power(i: usize) -> Fr {
    root_of_unity(3).pow(&[i as u64, 0, 0, 0])
}

/// The value of the Lagrange polynomial of row `i` at `x`.
fn lagrange(i: usize, x: &Fr) -> Fr {
    let w = omega_power(i);
    let zh = *x * *x * *x * *x * *x * *x * *x * *x - Fr::one();
    zh * w * ((*x - w) * Fr::from_u64(N as u64)).inv()
}

fn to_bn(v: &[Fr]) -> Vec<BN254Fr> {
    v.iter().map(|x| x.to_bn254fr()).collect()
}

struct Setup {
    prover: PlonkProver,
    l: Vec<Fr>,
    r: Vec<Fr>,
    o: Vec<Fr>,
    pi: Vec<Fr>,
    bsb22: Vec<Fr>,
    commitment: BN254G1Affine,
}

/// A circuit with one public input, additions, a multiplication, one BSB22
/// commitment, and two copied wires.
fn setup() -> Setup {
    let tau = Fr::from_u64(TAU);
    let k1 = Fr::from_u64(5);
    let k2 = k1 * k1;
    let mut power = Fr::one();
    let mut srs_canonical = Vec::new();
    for _ in 0..N + 3 {
        srs_canonical.push(times_generator(&power).to_bn254());
        power.mul_assign(tau);
    }
    let srs_lagrange: Vec<BN254G1Affine> =
        (0..N).map(|i| times_generator(&lagrange(i, &tau)).to_bn254()).collect();

    let bsb22: Vec<Fr> = (0..N as u64).map(|i| Fr::from_u64(100 + i)).collect();
    let commitment = {
        let v = (0..N).fold(Fr::zero(), |acc, i| acc + bsb22[i] * lagrange(i, &tau));
        times_generator(&v).to_bn254()
    };
    let hash = hash_to_field_bsb22(&commitment.to_transcript_bytes());

    let pi = vec![Fr::from_u64(42)];
    let one = Fr::one();
    let zero = Fr::zero();
    let mut ql = vec![one; N];
    let mut qr = vec![one; N];
    let mut qm = vec![zero; N];
    let qo = vec![one.neg(); N];
    let mut qk = vec![zero; N];
    let mut qcp = vec![zero; N];
    // Row 0 is that of the public input, row 1 that of the hash.
    ql[0] = one.neg();
    qr[0] = zero;
    ql[1] = one.neg();
    qr[1] = zero;
    // Row 2 multiplies, row 3 adds a constant, row 4 reads the BSB22 polynomial.
    ql[2] = zero;
    qr[2] = zero;
    qm[2] = one;
    qk[3] = Fr::from_u64(9);
    qcp[4] = Fr::from_u64(3);

    let mut l: Vec<Fr> = (0..N as u64).map(|i| Fr::from_u64(10 + i)).collect();
    let mut r: Vec<Fr> = (0..N as u64).map(|i| Fr::from_u64(1000 + i)).collect();
    let mut o = vec![zero; N];
    l[0] = pi[0];
    r[0] = zero;
    l[1] = hash;
    r[1] = zero;
    l[5] = Fr::from_u64(77);
    r[6] = Fr::from_u64(77);
    o[2] = l[2] * r[2];
    o[3] = l[3] + r[3] + qk[3];
    o[4] = l[4] + r[4] + qcp[4] * bsb22[4];
    for i in 5..N {
        o[i] = l[i] + r[i];
    }

    // The places of l[5] and r[6] are exchanged.
    let mut s1: Vec<Fr> = (0..N).map(omega_power).collect();
    let mut s2: Vec<Fr> = s1.iter().map(|w| *w * k1).collect();
    let s3: Vec<Fr> = s1.iter().map(|w| *w * k2).collect();
    let place = s1[5];
    s1[5] = s2[6];
    s2[6] = place;

    let data = PlonkProvingData {
        domain_size: N,
        lg_domain_size: 3,
        omega: root_of_unity(3).to_bn254fr(),
        nb_public_variables: 1,
        coset_shift: k1.to_bn254fr(),
        srs_lagrange,
        srs_canonical,
        ql: to_bn(&ql),
        qr: to_bn(&qr),
        qm: to_bn(&qm),
        qo: to_bn(&qo),
        qk: to_bn(&qk),
        qcp: vec![to_bn(&qcp)],
        commitment_constraint_indexes: vec![0],
        s1: to_bn(&s1),
        s2: to_bn(&s2),
        s3: to_bn(&s3),
        vk_selector_commits: None,
    };
    Setup { prover: PlonkProver::new(data), l, r, o, pi, bsb22, commitment }
}

fn prove(s: &Setup, seed: Option<[u8; 32]>) -> Result<PlonkProof, ProveError> {
    s.prover.prove(
        &to_bn(&s.l),
        &to_bn(&s.r),
        &to_bn(&s.o),
        &to_bn(&s.pi),
        &[s.commitment],
        &[to_bn(&s.bsb22)],
        seed,
    )
}

struct Derived {
    gamma: Fr,
    beta: Fr,
    alpha: Fr,
    zeta: Fr,
    fold: Fr,
    lin: G1Affine,
}

fn challenge(t: &mut Transcript, id: &str) -> Fr {
    Fr::from_be_bytes_mod_order(&t.compute_challenge(id))
}

fn pi_rows(s: &Setup) -> Vec<Fr> {
    let mut rows = vec![Fr::zero(); N];
    rows[0] = s.pi[0];
    rows[1] = hash_to_field_bsb22(&s.commitment.to_transcript_bytes());
    rows
}

/// What a verifier derives from a proof.
fn derive(s: &Setup, proof: &PlonkProof) -> Derived {
    let vk = &s.prover.vk_commits;
    let names = ["gamma", "beta", "alpha", "zeta", "u"];
    let mut t = Transcript::new(names.iter().map(|x| x.to_string()).collect());
    for p in [vk.s1, vk.s2, vk.s3, vk.ql, vk.qr, vk.qm, vk.qo, vk.qk, vk.qcp[0]] {
        t.bind("gamma", &p.to_transcript_bytes());
    }
    t.bind("gamma", &s.pi[0].to_be_bytes());
    for p in proof.lro {
        t.bind("gamma", &p.to_transcript_bytes());
    }
    let gamma = challenge(&mut t, "gamma");
    let beta = challenge(&mut t, "beta");
    t.bind("alpha", &proof.bsb22_commitments[0].to_transcript_bytes());
    t.bind("alpha", &proof.z.to_transcript_bytes());
    let alpha = challenge(&mut t, "alpha");
    for p in proof.h {
        t.bind("zeta", &p.to_transcript_bytes());
    }
    let zeta = challenge(&mut t, "zeta");

    let v: Vec<Fr> = proof.batched_proof.claimed_values.iter().map(Fr::from_bn254fr).collect();
    let zw = Fr::from_bn254fr(&proof.z_shifted_opening.claimed_value);
    let k1 = Fr::from_u64(5);
    let zh = zeta.pow(&[N as u64, 0, 0, 0]) - Fr::one();
    let l1 = zh * ((zeta - Fr::one()) * Fr::from_u64(N as u64)).inv();
    let s3 = alpha * zw * (v[1] + beta * v[4] + gamma) * (v[2] + beta * v[5] + gamma) * beta;
    let num = (v[1] + beta * zeta + gamma)
        * (v[2] + beta * k1 * zeta + gamma)
        * (v[3] + beta * k1 * k1 * zeta + gamma);
    let z = alpha * alpha * l1 - alpha * num;
    let stride = zeta.pow(&[N as u64 + 2, 0, 0, 0]);
    let terms = [
        (vk.ql, v[1]),
        (vk.qr, v[2]),
        (vk.qm, v[1] * v[2]),
        (vk.qo, v[3]),
        (vk.qk, Fr::one()),
        (vk.s3, s3),
        (proof.z, z),
        (proof.h[0], zh.neg()),
        (proof.h[1], zh.neg() * stride),
        (proof.h[2], zh.neg() * stride * stride),
        (proof.bsb22_commitments[0], v[6]),
    ];
    let mut acc = G1Jacobian::infinity();
    for (p, k) in terms {
        let q = G1Affine::from_bn254(&p).to_jacobian().scalar_mul(&k.to_canonical());
        acc = acc.add(&q);
    }
    let lin = acc.to_affine();

    let mut f = Transcript::new(vec!["gamma".to_string()]);
    f.bind("gamma", &zeta.to_be_bytes());
    for p in [lin.to_bn254(), proof.lro[0], proof.lro[1], proof.lro[2], vk.s1, vk.s2, vk.qcp[0]] {
        f.bind("gamma", &p.to_transcript_bytes());
    }
    for x in &v {
        f.bind("gamma", &x.to_be_bytes());
    }
    f.bind("gamma", &zw.to_be_bytes());
    let fold = challenge(&mut f, "gamma");
    Derived { gamma, beta, alpha, zeta, fold, lin }
}

fn openings(proof: &PlonkProof) -> OpeningValues {
    let v: Vec<Fr> = proof.batched_proof.claimed_values.iter().map(Fr::from_bn254fr).collect();
    OpeningValues {
        l: v[1],
        r: v[2],
        o: v[3],
        s1: v[4],
        s2: v[5],
        z_shifted: Fr::from_bn254fr(&proof.z_shifted_opening.claimed_value),
    }
}

/// Whether a quotient commitment opens a commitment at a point, with the secret of the
/// reference string in place of a pairing.
fn opens(commitment: G1Jacobian, value: &Fr, at: &Fr, h: &BN254G1Affine) -> bool {
    let left = G1Affine::from_bn254(h)
        .to_jacobian()
        .scalar_mul(&(Fr::from_u64(TAU) - *at).to_canonical());
    let right = commitment.add(&times_generator(&value.neg()).to_jacobian());
    left.to_affine() == right.to_affine()
}

fn accepts(s: &Setup, proof: &PlonkProof) -> bool {
    let d = derive(s, proof);
    let v: Vec<Fr> = proof.batched_proof.claimed_values.iter().map(Fr::from_bn254fr).collect();
    let e = openings(proof);
    let expected =
        s.prover.const_lin_check(&d.zeta, &d.alpha, &d.beta, &d.gamma, &pi_rows(s), &e);
    let vk = &s.prover.vk_commits;
    let digests = [
        d.lin,
        G1Affine::from_bn254(&proof.lro[0]),
        G1Affine::from_bn254(&proof.lro[1]),
        G1Affine::from_bn254(&proof.lro[2]),
        G1Affine::from_bn254(&vk.s1),
        G1Affine::from_bn254(&vk.s2),
        G1Affine::from_bn254(&vk.qcp[0]),
    ];
    let mut power = Fr::one();
    let mut digest = G1Jacobian::infinity();
    let mut value = Fr::zero();
    for (p, x) in digests.iter().zip(v.iter()) {
        digest = digest.add(&p.to_jacobian().scalar_mul(&power.to_canonical()));
        value.add_assign(power * *x);
        power.mul_assign(d.fold);
    }
    let z = G1Affine::from_bn254(&proof.z).to_jacobian();
    let next = d.zeta * root_of_unity(3);
    v[0] == expected
        && opens(digest, &value, &d.zeta, &proof.batched_proof.h)
        && opens(z, &e.z_shifted, &next, &proof.z_shifted_opening.h)
}

#[test]
fn a_proof_is_accepted() {
    let s = setup();
    let proof = prove(&s, None).unwrap();
    assert!(accepts(&s, &proof));
    assert_eq!(proof.batched_proof.claimed_values.len(), 7);
    assert_eq!(proof.bsb22_commitments.len(), 1);
}

#[test]
fn a_blinded_proof_is_accepted() {
    let s = setup();
    let proof = prove(&s, Some([7; 32])).unwrap();
    assert!(accepts(&s, &proof));
    let plain = prove(&s, None).unwrap();
    assert_ne!(proof.to_bytes(), plain.to_bytes());
    let again = prove(&s, Some([7; 32])).unwrap();
    assert_eq!(proof.to_bytes(), again.to_bytes());
    let other = prove(&s, Some([8; 32])).unwrap();
    assert_ne!(proof.to_bytes(), other.to_bytes());
}

#[test]
fn a_changed_proof_is_not_accepted() {
    let s = setup();
    let mut proof = prove(&s, None).unwrap();
    proof.batched_proof.claimed_values[1] = Fr::from_u64(1).to_bn254fr();
    assert!(!accepts(&s, &proof));
    let mut proof = prove(&s, None).unwrap();
    proof.z = proof.lro[0];
    assert!(!accepts(&s, &proof));
}

#[test]
fn a_broken_gate_is_not_accepted() {
    let mut s = setup();
    s.o[7] = s.o[7] + Fr::one();
    let proof = prove(&s, None).unwrap();
    assert!(!accepts(&s, &proof));
}

#[test]
fn a_broken_copy_is_refused() {
    let mut s = setup();
    s.l[5] = Fr::from_u64(78);
    s.o[5] = s.l[5] + s.r[5];
    let error = prove(&s, None).err().unwrap();
    assert_eq!(error, ProveError::GrandProduct);
    assert_eq!(
        error.message(),
        "Grand product check failed: Z[N] \u{2260} 1. Wire assignments violate copy constraints."
    );
}

#[test]
fn the_checked_prover_makes_the_same_proof() {
    let s = setup();
    let checked = s
        .prover
        .prove_checked(
            &to_bn(&s.l),
            &to_bn(&s.r),
            &to_bn(&s.o),
            &to_bn(&s.pi),
            &[s.commitment],
            &[to_bn(&s.bsb22)],
            Some([7; 32]),
        )
        .unwrap()
        .unwrap();
    assert_eq!(checked.to_bytes(), prove(&s, Some([7; 32])).unwrap().to_bytes());
}

#[test]
fn the_last_challenge_binds_the_openings() {
    let s = setup();
    let (proof, u) = s
        .prover
        .prove_with_challenge(
            &to_bn(&s.l),
            &to_bn(&s.r),
            &to_bn(&s.o),
            &to_bn(&s.pi),
            &[s.commitment],
            &[to_bn(&s.bsb22)],
            None,
        )
        .unwrap();
    assert_eq!(proof.to_bytes(), prove(&s, None).unwrap().to_bytes());
    assert!(!u.is_zero());
    assert_ne!(u, derive(&s, &proof).zeta);
}

fn rows(s: &Setup, d: &Derived) -> Rows {
    let z = s
        .prover
        .compute_grand_product(
            &s.l,
            &s.r,
            &s.o,
            &s.prover.cached.s1,
            &s.prover.cached.s2,
            &s.prover.cached.s3,
            &d.beta,
            &d.gamma,
            &s.prover.cached.domain,
            &s.prover.cached.coset_shift,
        )
        .unwrap();
    Rows {
        l: s.l.clone(),
        r: s.r.clone(),
        o: s.o.clone(),
        z,
        pi: pi_rows(s),
        bsb22: vec![s.bsb22.clone()],
    }
}

#[test]
fn every_row_holds() {
    let mut s = setup();
    let d = derive(&s, &prove(&s, None).unwrap());
    let good = rows(&s, &d);
    assert_ne!(good.z[6], Fr::one());
    for j in 0..N {
        let report = s.prover.row_report(&good, j, &d.alpha, &d.beta, &d.gamma);
        assert!(report.gate.is_zero());
        assert!(report.perm.is_zero());
        assert!(report.boundary.is_zero());
        assert!(report.total.is_zero());
    }
    s.o[7] = s.o[7] + Fr::one();
    let mut bad = rows(&s, &d);
    bad.z[0] = Fr::from_u64(2);
    let report = s.prover.row_report(&bad, 7, &d.alpha, &d.beta, &d.gamma);
    assert_eq!(report.gate, Fr::one().neg());
    let report = s.prover.row_report(&bad, 0, &d.alpha, &d.beta, &d.gamma);
    assert_eq!(report.boundary, d.alpha * d.alpha);
    assert!(!report.perm.is_zero());
    assert_eq!(s.prover.rows_to_report(), vec![0, 1, 1, 1, 6, 7]);
}

fn witness(s: &Setup, d: &Derived) -> WitnessPolys {
    let domain = &s.prover.cached.domain;
    let r = rows(s, d);
    WitnessPolys {
        l: domain.ifft(&r.l),
        r: domain.ifft(&r.r),
        o: domain.ifft(&r.o),
        z: domain.ifft(&r.z),
        bsb22: vec![domain.ifft(&s.bsb22)],
        pi: domain.ifft(&r.pi),
    }
}

#[test]
fn the_quotient_divides_and_fits() {
    let s = setup();
    let d = derive(&s, &prove(&s, None).unwrap());
    let w = witness(&s, &d);
    let h = s.prover.cached.compute_quotient(
        &w.l, &w.r, &w.o, &w.z, &w.bsb22, &w.pi, &d.alpha, &d.beta, &d.gamma,
    );
    assert_eq!(h.len(), 4 * N);
    assert_eq!(count_quotient_tail(&h, N), 0);
    let x = Fr::from_u64(31337);
    let (h0, h1, h2) = split_quotient(&h, N);
    let t = x.pow(&[N as u64 + 2, 0, 0, 0]);
    let parts = eval_poly_at(h0, &x) + t * eval_poly_at(h1, &x) + t * t * eval_poly_at(h2, &x);
    assert_eq!(parts, eval_poly_at(&h, &x));
    assert!(!parts.is_zero());

    let mut broken = setup();
    broken.o[7] = broken.o[7] + Fr::one();
    let w = witness(&broken, &d);
    let h = broken.prover.cached.compute_quotient(
        &w.l, &w.r, &w.o, &w.z, &w.bsb22, &w.pi, &d.alpha, &d.beta, &d.gamma,
    );
    assert!(count_quotient_tail(&h, N) > 0);
}

/// A circuit of addition gates with no copied wires, large enough for the coset tables.
fn large_prover(n: usize, bits: u32) -> PlonkProver {
    let one = Fr::one();
    let g = generator().to_bn254();
    let w = root_of_unity(bits);
    let k1 = Fr::from_u64(5);
    let mut power = one;
    let mut s1 = Vec::new();
    for _ in 0..n {
        s1.push(power);
        power.mul_assign(w);
    }
    let s2: Vec<Fr> = s1.iter().map(|x| *x * k1).collect();
    let s3: Vec<Fr> = s2.iter().map(|x| *x * k1).collect();
    PlonkProver::new(PlonkProvingData {
        domain_size: n,
        lg_domain_size: bits,
        omega: w.to_bn254fr(),
        nb_public_variables: 0,
        coset_shift: k1.to_bn254fr(),
        srs_lagrange: vec![g; n],
        srs_canonical: vec![g; n + 3],
        ql: to_bn(&vec![one; n]),
        qr: to_bn(&vec![one; n]),
        qm: to_bn(&vec![Fr::zero(); n]),
        qo: to_bn(&vec![one.neg(); n]),
        qk: to_bn(&vec![Fr::zero(); n]),
        qcp: Vec::new(),
        commitment_constraint_indexes: Vec::new(),
        s1: to_bn(&s1),
        s2: to_bn(&s2),
        s3: to_bn(&s3),
        vk_selector_commits: Some(VkSelectorCommits {
            ql: g,
            qr: g,
            qm: g,
            qo: g,
            qk: g,
            qcp: Vec::new(),
            s_perm: [g; 3],
        }),
    })
}

#[test]
fn the_streamed_quotient_is_the_same() {
    let n = 4096;
    let prover = large_prover(n, 12);
    let c = &prover.cached;
    let l: Vec<Fr> = (0..n as u64).map(|i| Fr::from_u64(3 * i + 1)).collect();
    let r: Vec<Fr> = (0..n as u64).map(|i| Fr::from_u64(i * i)).collect();
    let o: Vec<Fr> = (0..n).map(|i| l[i] + r[i]).collect();
    let (l, r, o) = (c.domain.ifft(&l), c.domain.ifft(&r), c.domain.ifft(&o));
    let mut z = vec![Fr::zero(); n];
    z[0] = Fr::one();
    let pi = vec![Fr::zero(); n];
    let (alpha, beta, gamma) = (Fr::from_u64(31), Fr::from_u64(37), Fr::from_u64(41));
    let b = sp1_gpu_plonk::blinding::derive_blindings(&[9; 32]);
    let spliced = |p: &[Fr], bp: &[Fr]| {
        let mut q = p.to_vec();
        sp1_gpu_plonk::blinding::splice_blinding(&mut q, bp);
        q
    };
    let none: Vec<Vec<Fr>> = Vec::new();
    let fused = fuse_qk_pi(&c.on_coset(&pi), &c.qk_coset_evals, &c.qcp_coset_evals, &none);
    for blinded in [false, true] {
        let (ls, rs, os, zs) = if blinded {
            (spliced(&l, &b.bp_l), spliced(&r, &b.bp_r), spliced(&o, &b.bp_o), spliced(&z, &b.bp_z))
        } else {
            (l.clone(), r.clone(), o.clone(), z.clone())
        };
        let direct = c.compute_quotient(&ls, &rs, &os, &zs, &none, &pi, &alpha, &beta, &gamma);
        let streamed = c.compute_quotient_streamed(
            &fused,
            c.on_coset(&l),
            c.on_coset(&r),
            c.on_coset(&o),
            c.on_coset(&z),
            &alpha,
            &beta,
            &gamma,
            if blinded { Some(&b) } else { None },
        );
        assert_eq!(direct, streamed);
        assert_eq!(count_quotient_tail(&direct, n), 0);
        assert_eq!(direct.iter().all(|x| x.is_zero()), !blinded);
    }
}

#[test]
fn samples_match_the_coset() {
    let s = setup();
    let d = derive(&s, &prove(&s, None).unwrap());
    let w = witness(&s, &d);
    let c = &s.prover.cached;
    let (l, r, o, z) = (c.on_coset(&w.l), c.on_coset(&w.r), c.on_coset(&w.o), c.on_coset(&w.z));
    let fused = fuse_qk_pi(
        &c.on_coset(&w.pi),
        &c.qk_coset_evals,
        &c.qcp_coset_evals,
        &vec![c.on_coset(&w.bsb22[0])],
    );
    let points = sweep_indices(N);
    assert_eq!(points, vec![0, 1, 2, 3, 4, 5, 8, 16, 8, 9, 16, 24, 31, 30, 16, 8]);
    for i in points {
        let device = CosetSample { l: l[i], r: r[i], o: o[i], z: z[i], qk_plus_pi: fused[i] };
        assert!(same_sample(&s.prover.coset_sample(&w, i), &device));
        let wrong = CosetSample { l: r[i], ..device };
        assert!(!same_sample(&s.prover.coset_sample(&w, i), &wrong));
    }
}

#[test]
fn a_device_product_is_compared() {
    let s = setup();
    let run = |z: &[Fr]| {
        s.prover
            .debug_grand_product_checked(
                &to_bn(&s.l),
                &to_bn(&s.r),
                &to_bn(&s.o),
                &to_bn(&s.pi),
                z,
            )
            .unwrap()
            .unwrap()
    };
    // Rows of ones differ where the copied wires are between their two places.
    let c = run(&vec![Fr::one(); N]);
    assert_eq!(c.first_mismatch, Some(6));
    assert_eq!(c.mismatch_count, 1);
    let c = run(&vec![Fr::from_u64(2); N]);
    assert_eq!(c.first_mismatch, Some(0));
    assert_eq!(c.mismatch_count, N);
}

#[test]
fn interpolation_by_lagrange_polynomials() {
    let domain = Domain::new(N, root_of_unity(3));
    let rows: Vec<Fr> = (0..N as u64).map(|i| Fr::from_u64(i * i + 3)).collect();
    let x = Fr::from_u64(4711);
    let sum = (0..N).fold(Fr::zero(), |acc, i| acc + rows[i] * lagrange(i, &x));
    assert_eq!(sum, eval_poly_at(&domain.ifft(&rows), &x));
}

#[test]
fn roots_of_unity_nest() {
    for k in 0..=26 {
        assert_eq!(root_of_unity(k + 2).pow(&[4, 0, 0, 0]), root_of_unity(k));
    }
}

#[test]
fn commitments_are_values_at_the_secret() {
    let s = setup();
    let d = derive(&s, &prove(&s, None).unwrap());
    let w = witness(&s, &d);
    let proof = prove(&s, None).unwrap();
    let tau = Fr::from_u64(TAU);
    let at = |p: &[Fr]| times_generator(&eval_poly_at(p, &tau)).to_bn254().to_transcript_bytes();
    assert_eq!(proof.lro[0].to_transcript_bytes(), at(&w.l));
    assert_eq!(proof.lro[1].to_transcript_bytes(), at(&w.r));
    assert_eq!(proof.lro[2].to_transcript_bytes(), at(&w.o));
    assert_eq!(proof.z.to_transcript_bytes(), at(&w.z));
    assert_eq!(s.prover.vk_commits.s3.to_transcript_bytes(), at(&s.prover.cached.s3_coeffs));
}

fn begin(s: &Setup, seed: Option<[u8; 32]>) -> StartedProof {
    s.prover
        .begin(
            &to_bn(&s.l),
            &to_bn(&s.r),
            &to_bn(&s.o),
            &to_bn(&s.pi),
            &[s.commitment],
            &[to_bn(&s.bsb22)],
            seed,
        )
        .unwrap()
        .unwrap()
}

#[test]
fn a_proof_in_stages_is_the_same() {
    let s = setup();
    for seed in [None, Some([7u8; 32])] {
        let whole = prove(&s, seed).unwrap();
        let started = begin(&s, seed);
        let h = s.prover.quotient_on_host(&started);
        assert_eq!(h.len(), 4 * N);
        let opened = s.prover.continue_with_quotient(started, h[..3 * (N + 2)].to_vec());
        let (polys, scalars) = s.prover.terms_to_combine(&opened);
        let p = combine(&polys, &scalars);
        assert_eq!(p, s.prover.combination_on_host(&opened));
        let divided = s.prover.divide_with_combination(opened, p);
        let staged = s.prover.finish_on_host(divided);
        assert_eq!(staged.to_bytes(), whole.to_bytes());
        assert!(accepts(&s, &staged));
    }
}

#[test]
fn a_device_that_is_wrong_makes_no_proof() {
    let s = setup();
    let started = begin(&s, None);
    let mut h = s.prover.quotient_on_host(&started);
    h[3] = h[3] + Fr::one();
    let opened = s.prover.continue_with_quotient(started, h);
    let p = s.prover.combination_on_host(&opened);
    let divided = s.prover.divide_with_combination(opened, p);
    assert!(!accepts(&s, &s.prover.finish_on_host(divided)));

    let started = begin(&s, None);
    let h = s.prover.quotient_on_host(&started);
    let opened = s.prover.continue_with_quotient(started, h);
    let mut p = s.prover.combination_on_host(&opened);
    p[1] = p[1] + Fr::one();
    let divided = s.prover.divide_with_combination(opened, p);
    assert!(!accepts(&s, &s.prover.finish_on_host(divided)));
}

#[test]
fn a_broken_copy_stops_a_proof_in_stages() {
    let mut s = setup();
    s.l[5] = Fr::from_u64(78);
    let begun = s.prover.begin(
        &to_bn(&s.l),
        &to_bn(&s.r),
        &to_bn(&s.o),
        &to_bn(&s.pi),
        &[s.commitment],
        &[to_bn(&s.bsb22)],
        None,
    );
    assert!(matches!(begun, Some(Err(ProveError::GrandProduct))));
}

fn read(s: &Setup, seed: Option<[u8; 32]>) -> ProofInputs {
    s.prover.read_inputs(
        &to_bn(&s.l),
        &to_bn(&s.r),
        &to_bn(&s.o),
        &to_bn(&s.pi),
        &[s.commitment],
        &[to_bn(&s.bsb22)],
        seed,
    )
}

fn multiply(points: &[G1Affine], scalars: &[Fr]) -> G1Jacobian {
    msm(&points[..scalars.len()], scalars)
}

fn product_rows(s: &Setup, beta: &Fr, gamma: &Fr) -> Result<Vec<Fr>, ProveError> {
    let c = &s.prover.cached;
    s.prover.compute_grand_product(
        &s.l,
        &s.r,
        &s.o,
        &c.s1,
        &c.s2,
        &c.s3,
        beta,
        gamma,
        &c.domain,
        &c.coset_shift,
    )
}

fn prove_by_device(s: &Setup, seed: Option<[u8; 32]>, z_rows: Option<Vec<Fr>>) -> PlonkProof {
    let p = &s.prover;
    let inp = read(s, seed);
    let lagrange = &p.cached.srs_lagrange;
    let canonical = &p.cached.srs_canonical;
    let b = inp.blinding.as_ref();
    let wire = |rows: &[Fr], bp: Option<&[Fr]>| {
        let hot = find_hot_values(rows, 100, 100);
        let sum = multiply(lagrange, &zero_out(rows, &hot));
        p.complete_commitment(sum, rows, &hot, bp)
    };
    let wires = [
        wire(&inp.l, b.map(|b| &b.bp_l[..])),
        wire(&inp.r, b.map(|b| &b.bp_r[..])),
        wire(&inp.o, b.map(|b| &b.bp_o[..])),
    ];
    let wired = p.begin_with_wires(inp, wires);
    let rows = match z_rows {
        Some(rows) => rows,
        None => product_rows(s, &wired.beta, &wired.gamma).unwrap(),
    };
    let bp_z = wired.inp.blinding.as_ref().map(|b| &b.bp_z[..]);
    let z = p.complete_commitment(multiply(lagrange, &rows), &rows, &[], bp_z);
    let started = p.continue_with_product(wired, rows, z);
    let h = p.quotient_on_host(&started);
    let (h0, h1, h2) = split_quotient(&h, N);
    let parts = [h0, h1, h2].map(|part| multiply(canonical, part).to_affine().to_bn254());
    let opened = p.continue_with_parts(started, h, parts);
    let c = p.combination_on_host(&opened);
    let divided = p.divide_with_combination(opened, c);
    let openings = [
        multiply(canonical, &divided.quotients.0).to_affine().to_bn254(),
        multiply(canonical, &divided.quotients.1).to_affine().to_bn254(),
    ];
    p.finish_with_openings(divided, openings)
}

#[test]
fn a_proof_by_a_device_is_the_same() {
    let s = setup();
    for seed in [None, Some([9u8; 32])] {
        let staged = prove_by_device(&s, seed, None);
        assert_eq!(staged.to_bytes(), prove(&s, seed).unwrap().to_bytes());
        assert!(accepts(&s, &staged));
    }
}

#[test]
fn a_device_does_not_look_at_the_copies() {
    let mut s = setup();
    s.l[5] = Fr::from_u64(78);
    s.o[5] = s.l[5] + s.r[5];
    assert!(matches!(prove(&s, None), Err(ProveError::GrandProduct)));
    let proof = prove_by_device(&s, None, Some(vec![Fr::one(); N]));
    assert!(!accepts(&s, &proof));
}

#[test]
fn the_quotient_divides_on_small_domains() {
    for bits in [1u32, 2] {
        let n = 1usize << bits;
        let w = root_of_unity(bits);
        let k1 = Fr::from_u64(5);
        let g = generator().to_bn254();
        let one = vec![Fr::one(); n];
        let s1: Vec<Fr> = (0..n as u64).map(|i| w.pow(&[i, 0, 0, 0])).collect();
        let s2: Vec<Fr> = s1.iter().map(|x| *x * k1).collect();
        let s3: Vec<Fr> = s2.iter().map(|x| *x * k1).collect();
        let zero = vec![Fr::zero(); n];
        let data = PlonkProvingData {
            domain_size: n,
            lg_domain_size: bits,
            omega: w.to_bn254fr(),
            nb_public_variables: 0,
            coset_shift: k1.to_bn254fr(),
            srs_lagrange: vec![g; n],
            srs_canonical: vec![g; n + 3],
            ql: to_bn(&zero),
            qr: to_bn(&zero),
            qm: to_bn(&one),
            qo: to_bn(&one.iter().map(|x| x.neg()).collect::<Vec<Fr>>()),
            qk: to_bn(&zero),
            qcp: Vec::new(),
            commitment_constraint_indexes: Vec::new(),
            s1: to_bn(&s1),
            s2: to_bn(&s2),
            s3: to_bn(&s3),
            vk_selector_commits: None,
        };
        assert!(data.is_valid() && data.has_vk());
        let prover = PlonkProver::new(data);
        let c = &prover.cached;
        let l: Vec<Fr> = (0..n as u64).map(|i| Fr::from_u64(3 + i)).collect();
        let r: Vec<Fr> = (0..n as u64).map(|i| Fr::from_u64(50 + i)).collect();
        let o: Vec<Fr> = (0..n).map(|i| l[i] * r[i]).collect();
        let (alpha, beta, gamma) = (Fr::from_u64(2), Fr::from_u64(31), Fr::from_u64(77));
        let (l, r, o) = (c.domain.ifft(&l), c.domain.ifft(&r), c.domain.ifft(&o));
        let h = c.compute_quotient(
            &l,
            &r,
            &o,
            &c.domain.ifft(&one),
            &Vec::new(),
            &zero,
            &alpha,
            &beta,
            &gamma,
        );
        // The rows multiply and the permutation is the identity.
        let x = Fr::from_u64(4711);
        let at = |p: &[Fr]| eval_poly_at(p, &x);
        let zh = x.pow(&[n as u64, 0, 0, 0]) - Fr::one();
        assert!(!at(&h).is_zero());
        assert_eq!(at(&h) * zh, at(&l) * at(&r) - at(&o));
        assert!(prover.rows_to_report().len() == 6);
    }
}

#[test]
fn rows_without_commitments() {
    let mut s = setup();
    s.prover.data.commitment_constraint_indexes.clear();
    s.prover.data.nb_public_variables = 2;
    assert_eq!(s.prover.rows_to_report(), vec![0, 1, 2, 2, 6, 7]);
}

#[test]
fn data_that_is_not_valid() {
    let s = setup();
    let good = to_bn(&s.l);
    assert!(s.prover.is_able(true) && s.prover.is_able(false));
    let takes = |l: &[BN254Fr], c: &[BN254G1Affine]| {
        s.prover.takes_inputs(l, &good, &good, &to_bn(&s.pi), c, &[])
    };
    assert!(takes(&good, &[]));
    assert!(!takes(&good[1..], &[]));
    let mut point = s.commitment;
    assert!(point_reduced(&point));
    point.x.limbs = [u32::MAX; 8];
    assert!(!point_reduced(&point));
    assert!(!takes(&good, &[point]));
    assert!(scalars_reduced(&s.l));
    assert!(!scalars_reduced(&[Fr([u64::MAX; 4])]));
    assert!(jacobian_reduced(&G1Jacobian::infinity()));
}
