use sp1_gpu_plonk::blinding::{
    blinding_enabled, fresh_seed, parse_seed, seed_from_env_or_fresh, SeedError,
};
use sp1_gpu_plonk::fields::{batch_inv_fr_inplace, batch_inv_fr_parallel, Fq, Fr};
use sp1_gpu_plonk::g1::G1Affine;
use sp1_gpu_plonk::kzg::{BatchOpeningProof, OpeningProof};
use sp1_gpu_plonk::plonk_proof::PlonkProof;
use sp1_gpu_plonk::text::{parse_usize, same_text, HexError};
use sp1_gpu_plonk::transcript::{fr_to_transcript_bytes, g1_to_transcript_bytes, Transcript};
use sp1_gpu_plonk::{BN254Fr, BN254G1Affine};
use sha2::{Digest, Sha256};

fn point(k: u64) -> BN254G1Affine {
    let g = G1Affine { x: Fq::from_u64(1), y: Fq::from_u64(2) };
    g.to_jacobian().scalar_mul(&[k, 0, 0, 0]).to_affine().to_bn254()
}

fn scalar(k: u64) -> BN254Fr {
    Fr::from_u64(k).to_bn254fr()
}

fn sample_proof() -> PlonkProof {
    PlonkProof {
        lro: [point(1), point(2), point(3)],
        h: [point(4), point(5), point(6)],
        z: point(7),
        bsb22_commitments: vec![point(8)],
        batched_proof: BatchOpeningProof {
            h: point(9),
            claimed_values: (10..17).map(scalar).collect(),
        },
        z_shifted_opening: OpeningProof { h: point(17), claimed_value: scalar(18) },
    }
}

#[test]
fn proof_bytes_for_solidity() {
    let proof = sample_proof();
    let b = proof.to_bytes();
    assert_eq!(b.len(), 768 + 96);
    assert_eq!(b[..64], point(1).to_transcript_bytes());
    assert_eq!(b[192..256], point(4).to_transcript_bytes());
    assert_eq!(b[384..416], scalar(11).to_be_bytes());
    assert_eq!(b[b.len() - 64..], point(8).to_transcript_bytes());
    assert_eq!(b[b.len() - 96..b.len() - 64], scalar(16).to_be_bytes());
}

#[test]
fn proof_bytes_with_lengths() {
    let proof = sample_proof();
    let b = proof.to_write_raw_bytes();
    assert_eq!(b.len(), 616 + 32 * 7 + 64);
    assert_eq!(b[..64], point(1).to_transcript_bytes());
}

#[test]
fn a_challenge_hashes_what_was_bound() {
    let mut t = Transcript::new(vec!["gamma".to_string(), "beta".to_string()]);
    t.bind("gamma", b"one");
    t.bind("gamma", b"two");
    let gamma = t.compute_challenge("gamma");
    assert_eq!(gamma[..], Sha256::digest(b"gammaonetwo")[..]);
    t.bind("beta", b"three");
    let mut expected = Sha256::new();
    expected.update(b"beta");
    expected.update(gamma);
    expected.update(b"three");
    assert_eq!(t.compute_challenge("beta")[..], expected.finalize()[..]);
}

#[test]
fn bindings_are_joined() {
    let mut a = Transcript::new(vec!["gamma".to_string()]);
    a.bind("gamma", &[1, 2]);
    a.bind("gamma", &[3]);
    let mut b = Transcript::new(vec!["gamma".to_string()]);
    b.bind("gamma", &[1, 2, 3]);
    assert_eq!(a.compute_challenge("gamma"), b.compute_challenge("gamma"));
}

#[test]
fn transcript_bytes_are_big_endian() {
    let mut le = [0u8; 32];
    le[0] = 7;
    let be = fr_to_transcript_bytes(&le);
    assert_eq!(be[31], 7);
    assert_eq!(be[0], 0);
    let mut y = [0u8; 32];
    y[31] = 9;
    let p = g1_to_transcript_bytes(&le, &y);
    assert_eq!(p[31], 7);
    assert_eq!(p[32], 9);
    assert_eq!(p[63], 0);
}

#[test]
fn seeds_from_text() {
    let digits = "00112233445566778899aabbccddeeff00112233445566778899AABBCCDDEEFF";
    let seed = parse_seed(digits).unwrap();
    assert_eq!(seed[1], 0x11);
    assert_eq!(seed[31], 0xff);
    assert_eq!(parse_seed(&format!(" \t{digits}\n")), Ok(seed));
    assert_eq!(parse_seed("abc"), Err(SeedError::Hex(HexError::OddLength)));
    assert_eq!(
        parse_seed("0g"),
        Err(SeedError::Hex(HexError::InvalidHexCharacter { c: 'g', index: 1 }))
    );
    assert_eq!(parse_seed("abcd"), Err(SeedError::Length(2)));
    assert_eq!(seed_from_env_or_fresh(Some(digits)), Ok(seed));
    assert_eq!(seed_from_env_or_fresh(Some("zz")), parse_seed("zz"));
    assert_eq!(seed_from_env_or_fresh(Some(" abcd ")), Err(SeedError::Length(2)));
    assert_ne!(seed_from_env_or_fresh(None), seed_from_env_or_fresh(None));
    assert_ne!(fresh_seed(), [0; 32]);
}

#[test]
fn blinding_is_asked_for() {
    assert!(blinding_enabled(Some("1")));
    assert!(!blinding_enabled(Some("0")));
    assert!(!blinding_enabled(Some("true")));
    assert!(!blinding_enabled(None));
}

#[test]
fn numbers_from_text() {
    assert_eq!(parse_usize("0"), Some(0));
    assert_eq!(parse_usize("+12"), Some(12));
    assert_eq!(parse_usize("007"), Some(7));
    assert_eq!(parse_usize(""), None);
    assert_eq!(parse_usize("+"), None);
    assert_eq!(parse_usize("-1"), None);
    assert_eq!(parse_usize(" 1"), None);
    assert_eq!(parse_usize("99999999999999999999999"), None);
    assert!(same_text("gamma", "gamma"));
    assert!(!same_text("gamma", "gamm"));
}

#[test]
fn an_element_as_text() {
    assert_eq!(
        Fr::from_u64(0xabc).to_text(),
        "0x0000000000000000000000000000000000000000000000000000000000000abc"
    );
    assert_eq!(
        Fr::one().neg().to_text(),
        "0x30644e72e131a029b85045b68181585d2833e84879b9709143e1f593f0000000"
    );
}

#[test]
fn elements_change_in_place() {
    let mut x = Fr::from_u64(10);
    x.add_assign(Fr::from_u64(5));
    x.mul_assign(Fr::from_u64(4));
    x.sub_assign(Fr::from_u64(3));
    assert_eq!(x, Fr::from_u64(57));
}

#[test]
fn inverses_in_chunks() {
    let values: Vec<Fr> = (1..100u64).map(Fr::from_u64).collect();
    for threads in [1, 3, 7, 200] {
        let inverses = batch_inv_fr_parallel(&values, threads);
        for (v, i) in values.iter().zip(inverses.iter()) {
            assert_eq!(*v * *i, Fr::one());
        }
    }
}

#[test]
fn inverses_in_place() {
    for n in [0, 1, 10, 70_000u64] {
        let values: Vec<Fr> = (1..=n).map(Fr::from_u64).collect();
        let mut inverses = values.clone();
        batch_inv_fr_inplace(&mut inverses);
        assert_eq!(inverses.len(), values.len());
        for (v, i) in values.iter().zip(inverses.iter()) {
            assert_eq!(*v * *i, Fr::one());
        }
    }
}
