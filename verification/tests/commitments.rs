use sp1_gpu_plonk::commit::{
    add_blinding_to_commit, commit_bucketed, commit_canonical, commit_lagrange,
    commit_lagrange_depad, commit_lagrange_depad_persistent, commit_mostly_zero, commit_sparse,
    count_nonzero, find_hot_values,
};
use sp1_gpu_plonk::fields::{Fq, Fr};
use sp1_gpu_plonk::g1::{G1Affine, G1Jacobian};
use sp1_gpu_plonk::kzg::commit_blinding_factor;

/// Points of which every hundred are different.
fn srs(n: u64) -> Vec<G1Affine> {
    let g = G1Affine { x: Fq::from_u64(1), y: Fq::from_u64(2) };
    let some: Vec<G1Affine> = (1..=100u64)
        .map(|i| g.to_jacobian().scalar_mul(&[i * i + 1, 0, 0, 0]).to_affine())
        .collect();
    (0..n as usize).map(|i| some[i % 100]).collect()
}

/// Half of them nines, most others sevens.
fn padded_values(n: u64) -> Vec<Fr> {
    (0..n)
        .map(|i| {
            if i % 2 == 0 {
                Fr::from_u64(9)
            } else if i % 17 == 1 {
                Fr::from_u64(1000 + i)
            } else {
                Fr::from_u64(7)
            }
        })
        .collect()
}

/// Sevens but for every hundredth value.
fn mostly_sevens(n: u64) -> Vec<Fr> {
    (0..n).map(|i| Fr::from_u64(if i % 100 == 5 { 1000 + i } else { 7 })).collect()
}

#[test]
fn leaving_hot_values_out_changes_nothing() {
    let n = 10_200;
    let points = srs(n);
    let values = mostly_sevens(n);
    assert_eq!(commit_lagrange_depad(&points, &values), commit_lagrange(&points, &values));
}

#[test]
fn leaving_hot_values_out_changes_nothing_with_a_persistent_context() {
    let n = 10_200;
    let points = srs(n);
    let values = mostly_sevens(n);
    assert_eq!(
        commit_lagrange_depad_persistent(&points, &values),
        commit_lagrange(&points, &values)
    );
}

#[test]
fn without_hot_values_nothing_is_left_out() {
    let points = srs(200);
    let values: Vec<Fr> = (0..200).map(|i| Fr::from_u64(3 * i + 5)).collect();
    let plain = commit_lagrange(&points, &values);
    assert_eq!(commit_lagrange_depad(&points, &values), plain);
    assert_eq!(commit_lagrange_depad_persistent(&points, &values), plain);
}

#[test]
fn hot_values_are_found() {
    let values = padded_values(24_000);
    let hot = find_hot_values(&values, 10, 20);
    assert!(hot.contains(&Fr::from_u64(7)));
    assert!(hot.contains(&Fr::from_u64(9)));
    assert_eq!(hot.len(), 2);
    assert!(find_hot_values(&padded_values(600), 10, 20).is_empty());
}

#[test]
fn buckets_give_the_same_commitment() {
    let n = 64;
    let points = srs(n);
    let values = padded_values(n);
    let bn: Vec<_> = values.iter().map(|v| v.to_bn254fr()).collect();
    assert_eq!(commit_bucketed(&bn, &points), commit_lagrange(&points, &values));
}

#[test]
fn sparse_commitments() {
    let points = srs(40);
    let mut c = vec![Fr::zero(); 40];
    assert_eq!(commit_mostly_zero(&points, &c), G1Affine::infinity());
    c[3] = Fr::from_u64(5);
    c[39] = Fr::from_u64(8);
    assert_eq!(count_nonzero(&c), 2);
    assert_eq!(commit_sparse(&points, &c), commit_canonical(&points, &c));
    assert_eq!(commit_mostly_zero(&points, &c), commit_canonical(&points, &c));
    assert_eq!(commit_canonical(&points, &[]), G1Affine::infinity());
}

#[test]
fn blinding_a_commitment() {
    let points = srs(20);
    let c = commit_canonical(&points, &[Fr::from_u64(3), Fr::from_u64(4)]);
    let zeros = [Fr::zero(), Fr::zero()];
    assert_eq!(add_blinding_to_commit(&points, &zeros, 8, c), c);
    let bp = [Fr::from_u64(6), Fr::from_u64(11)];
    let blinded = add_blinding_to_commit(&points, &bp, 8, c);
    let mut spliced = vec![Fr::zero(); 10];
    spliced[0] = Fr::from_u64(3) - bp[0];
    spliced[1] = Fr::from_u64(4) - bp[1];
    spliced[8] = bp[0];
    spliced[9] = bp[1];
    assert_eq!(blinded, commit_canonical(&points, &spliced));
    let factor = commit_blinding_factor(&points, &bp, 8);
    assert_eq!(c.to_jacobian().add(&factor.to_jacobian()).to_affine(), blinded);
}

#[test]
fn a_point_and_its_negative_cancel() {
    let p = srs(3)[2].to_jacobian();
    assert!(p.add(&p.neg()).is_infinity());
    assert_eq!(p.add(&G1Jacobian::infinity()).to_affine(), p.to_affine());
}

#[test]
fn points_add_in_any_order() {
    let s = srs(6);
    let (p, q, r) = (s[1].to_jacobian(), s[2].to_jacobian(), s[4].to_jacobian());
    let same = |a: &G1Jacobian, b: &G1Jacobian| a.to_affine() == b.to_affine();
    for (p, q, r) in [(p, q, r), (p, p, r), (p, q, q), (p, q, p), (p, p, p), (p, q, p.neg())] {
        assert!(same(&p.add(&q).add(&r), &p.add(&q.add(&r))));
        assert!(same(&p.add(&q), &q.add(&p)));
        assert!(same(&p.add(&q).add(&p.neg()), &q));
    }
    let sum = p.add(&q).neg();
    assert!(p.add(&q).add(&sum).is_infinity());
    assert!(p.add(&q.add(&sum)).is_infinity());
}

#[test]
fn a_multiple_is_repeated_addition() {
    let p = srs(1)[0].to_jacobian();
    let mut sum = G1Jacobian::infinity();
    for k in 0..20u64 {
        assert_eq!(p.scalar_mul(&[k, 0, 0, 0]).to_affine(), sum.to_affine());
        sum = sum.add(&p);
    }
    let order = sp1_gpu_plonk::fields::FR_MODULUS;
    assert!(p.scalar_mul(&order).is_infinity());
}

#[test]
fn commitments_are_linear() {
    let points = srs(12);
    let a: Vec<Fr> = (0..12).map(|i| Fr::from_u64(i * i + 1)).collect();
    let b: Vec<Fr> = (0..12).map(|i| Fr::from_u64(7 * i).neg()).collect();
    let sum: Vec<Fr> = a.iter().zip(&b).map(|(x, y)| *x + *y).collect();
    let k = Fr::from_u64(12345).neg();
    let multiple: Vec<Fr> = a.iter().map(|x| k * *x).collect();
    let (ca, cb) = (commit_canonical(&points, &a), commit_canonical(&points, &b));
    assert_eq!(
        commit_canonical(&points, &sum),
        ca.to_jacobian().add(&cb.to_jacobian()).to_affine()
    );
    assert_eq!(
        commit_canonical(&points, &multiple),
        ca.to_jacobian().scalar_mul(&k.to_canonical()).to_affine()
    );
}
