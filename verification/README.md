# sp1_gpu_plonk

A PLONK prover over BN254 with KZG commitments, public inputs, BSB22 commitments and
optional zero-knowledge blinding, written in Verus. Proofs are laid out for gnark's
verifier, in the format of its Solidity contract and in its raw binary format.

* `src/` is the verified library.
  * Arithmetic: `modular`, `primes`, `limbs`, `fields`, `sums`, `polynomial`,
    `poly_ring`, `domain`, `dft`.
  * The curve: `g1`, `group_law`, `commit`, `commit_laws`, `kzg`, `tally`.
  * Transcript and bytes: `bytes`, `sha256`, `transcript`, `hash_to_field`, `text`,
    `plonk_proof`, `blinding`.
  * The proof: `types`, `circuit`, `grand_product`, `quotient`, `linearization`, `rounds`
    (the proof as a function of circuit and witness), `prover`, `proving`, `steps`, `staged`
    (a proof that stops where a device may compute), `validity` (tests of what the prover
    asks of its data).
  * What holds of it: `completeness`, `openings`, `acceptance`, `copy_constraints` and
    `verifying`, which ends in the law that a verifier who sees the verifying key, the
    public inputs and the proof accepts the proof of a witness.
  * The device: `gpu_plan`, `gpu_kernels`, `quotient_plan`, `ntt_buffer`,
    `static_cache`, `solver`, `diagnostics`.
* `tests/` runs the library, among others against a verifier that knows the secret of
  the reference string.
* `app/` reads the environment and drives a device.

What is not proved stands behind functions marked `external_body`: the SHA-256 of
`sha2`, the decoding of `hex`, the random bytes of `rand`, the parallel iterators of
`rayon`, and the trimming and formatting of text of the standard library.
