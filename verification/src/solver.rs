//! The witness solver on a device.
//!
//! A solve has two stages on the device with one commitment between them. The device
//! runs them; what is asked of the inputs, when a stage has failed, and what becomes
//! of the outputs is decided here.

use crate::bytes;
use crate::fields;
use crate::fields::Fq;
use crate::g1;
use crate::g1::G1Affine;
use crate::limbs;
use crate::types::PlonkWitnessData;
use crate::{BN254Fr, BN254G1Affine};
use vstd::prelude::*;

verus! {

/// Why there is no witness.
#[derive(Clone, Copy, Debug, PartialEq, Eq, Structural)]
pub enum SolveError {
    /// The device made no solver.
    NotCreated,
    /// The wires are not of the size that the circuit asks for.
    WiresLength { got: usize, want: usize },
    /// The reference string is too short for the BSB22 polynomial.
    TooFewPoints { got: usize, need: u64 },
    /// The first stage returned a code that is not zero.
    FirstStage { code: i32 },
    /// The first stage returned no polynomial.
    NoPolynomial,
    /// The second stage returned a code that is not zero.
    SecondStage { code: i32 },
}

/// The sizes of a circuit that a device solves.
#[derive(Clone, Copy, Debug)]
pub struct PlonkScsSolver {
    n_wires: u64,
    n_lro: u64,
    bsb22_n_committed: u64,
    bsb22_domain_size: u64,
}

/// What the second stage leaves behind. The coordinates of the commitment are in
/// canonical form.
pub struct SolveOutputs {
    pub l: Vec<BN254Fr>,
    pub r: Vec<BN254Fr>,
    pub o: Vec<BN254Fr>,
    pub bsb22_poly: Vec<BN254Fr>,
    pub bsb22_commit: BN254G1Affine,
}

/// The point whose coordinates are given in canonical form.
pub open spec fn canonical_point(p: BN254G1Affine) -> g1::Point {
    g1::affine_point(
        limbs::value32(p.x.limbs) % fields::fq_modulus(),
        limbs::value32(p.y.limbs) % fields::fq_modulus(),
    )
}

impl PlonkScsSolver {
    /// The number of wires.
    pub closed spec fn wires(self) -> u64 {
        self.n_wires
    }

    /// The number of rows.
    pub closed spec fn rows(self) -> u64 {
        self.n_lro
    }

    /// The number of terms behind the BSB22 commitment.
    pub closed spec fn committed(self) -> u64 {
        self.bsb22_n_committed
    }

    /// The number of rows of the BSB22 polynomial.
    pub closed spec fn bsb22_rows(self) -> u64 {
        self.bsb22_domain_size
    }

    /// A solver with the sizes that the device reports, if it made one.
    pub fn new(
        created: bool,
        n_wires: u64,
        n_lro: u64,
        bsb22_n_committed: u64,
        bsb22_domain_size: u64,
    ) -> (r: Result<Self, SolveError>)
        ensures
            match r {
                Ok(s) => {
                    &&& created
                    &&& s.wires() == n_wires
                    &&& s.rows() == n_lro
                    &&& s.committed() == bsb22_n_committed
                    &&& s.bsb22_rows() == bsb22_domain_size
                },
                Err(e) => !created && e == SolveError::NotCreated,
            },
    {
        if !created {
            return Err(SolveError::NotCreated);
        }
        Ok(PlonkScsSolver { n_wires, n_lro, bsb22_n_committed, bsb22_domain_size })
    }

    /// The number of wires.
    pub fn n_wires(&self) -> (r: u64)
        ensures
            r == self.wires(),
    {
        self.n_wires
    }

    /// The number of rows, which is the length of L, R and O.
    pub fn n_lro(&self) -> (r: u64)
        ensures
            r == self.rows(),
    {
        self.n_lro
    }

    /// The number of terms behind the BSB22 commitment.
    pub fn bsb22_n_committed(&self) -> (r: u64)
        ensures
            r == self.committed(),
    {
        self.bsb22_n_committed
    }

    /// The number of rows of the BSB22 polynomial.
    pub fn bsb22_domain_size(&self) -> (r: u64)
        ensures
            r == self.bsb22_rows(),
    {
        self.bsb22_domain_size
    }

    /// The two blinding scalars in the 64 bytes that the device derives from a seed.
    /// Each is 32 little-endian bytes.
    pub fn derive_blindings(derived: &[u8; 64]) -> (r: [BN254Fr; 2])
        ensures
            r@.len() == 2,
            r[0]@ == bytes::le_value(derived@.subrange(0, 32)),
            r[1]@ == bytes::le_value(derived@.subrange(32, 64)),
    {
        let mut first: [u8; 32] = [0; 32];
        let mut second: [u8; 32] = [0; 32];
        for i in 0..32usize
            invariant
                forall|j: int| 0 <= j < i ==> #[trigger] first@[j] == derived@[j],
                forall|j: int| 0 <= j < i ==> #[trigger] second@[j] == derived@[32 + j],
        {
            first[i] = derived[i];
            second[i] = derived[32 + i];
        }
        assert(first@ =~= derived@.subrange(0, 32));
        assert(second@ =~= derived@.subrange(32, 64));
        [BN254Fr::from_le_bytes(&first), BN254Fr::from_le_bytes(&second)]
    }

    /// Why the inputs of a solve are refused, if they are: the wires take 32 bytes
    /// each, and the reference string has to cover the BSB22 polynomial.
    pub open spec fn refused(self, wires_len: usize, npoints: usize) -> Option<SolveError> {
        if wires_len != self.wires() * 32 {
            Some(
                SolveError::WiresLength { got: wires_len, want: (self.wires() * 32) as usize },
            )
        } else if npoints < self.bsb22_rows() {
            Some(SolveError::TooFewPoints { got: npoints, need: self.bsb22_rows() })
        } else {
            None
        }
    }

    /// Check the inputs of a solve.
    pub fn check_inputs(&self, wires_len: usize, npoints: usize) -> (r: Result<(), SolveError>)
        requires
            self.wires() * 32 <= usize::MAX,
        ensures
            match r {
                Ok(_) => self.refused(wires_len, npoints) is None,
                Err(e) => self.refused(wires_len, npoints) == Some(e),
            },
            r is Ok <==> wires_len == 32 * self.wires() && npoints >= self.bsb22_rows(),
            r matches Err(e) ==> if wires_len != 32 * self.wires() {
                e is WiresLength && e->WiresLength_got == wires_len && e->WiresLength_want == 32
                    * self.wires()
            } else {
                e is TooFewPoints && e->TooFewPoints_got == npoints && e->need
                    == self.bsb22_rows()
            },
    {
        let want: usize = self.n_wires as usize * 32;
        if wires_len != want {
            return Err(SolveError::WiresLength { got: wires_len, want });
        }
        if (npoints as u64) < self.bsb22_domain_size {
            return Err(SolveError::TooFewPoints { got: npoints, need: self.bsb22_domain_size });
        }
        Ok(())
    }

    /// The address of the BSB22 polynomial that the first stage left on the device.
    pub fn accept_first_stage(code: i32, address: u64) -> (r: Result<u64, SolveError>)
        ensures
            r == (if code != 0 {
                Err(SolveError::FirstStage { code })
            } else if address == 0 {
                Err(SolveError::NoPolynomial)
            } else {
                Ok(address)
            }),
    {
        if code != 0 {
            return Err(SolveError::FirstStage { code });
        }
        if address == 0 {
            return Err(SolveError::NoPolynomial);
        }
        Ok(address)
    }

    /// The witness from the inputs and from what both stages returned. The
    /// commitment is brought into Montgomery form.
    pub fn solve(
        &self,
        wires_len: usize,
        npoints: usize,
        first_code: i32,
        address: u64,
        second_code: i32,
        outputs: SolveOutputs,
    ) -> (r: Result<PlonkWitnessData, SolveError>)
        requires
            self.wires() * 32 <= usize::MAX,
        ensures
            match r {
                Ok(w) => {
                    &&& self.refused(wires_len, npoints) is None
                    &&& wires_len == 32 * self.wires()
                    &&& npoints >= self.bsb22_rows()
                    &&& first_code == 0
                    &&& address != 0
                    &&& second_code == 0
                    &&& w.l == outputs.l
                    &&& w.r == outputs.r
                    &&& w.o == outputs.o
                    &&& w.bsb22_polys@ == seq![outputs.bsb22_poly]
                    &&& w.bsb22_commitments@.len() == 1
                    &&& w.bsb22_commitments@[0].wf()
                    &&& w.bsb22_commitments@[0]@ == canonical_point(outputs.bsb22_commit)
                    &&& w.bsb22_commitments@[0].x@ == limbs::value32(
                        outputs.bsb22_commit.x.limbs,
                    ) % fields::fq_modulus()
                    &&& w.bsb22_commitments@[0].y@ == limbs::value32(
                        outputs.bsb22_commit.y.limbs,
                    ) % fields::fq_modulus()
                },
                Err(e) => match self.refused(wires_len, npoints) {
                    Some(reason) => e == reason,
                    None => if first_code != 0 {
                        e == (SolveError::FirstStage { code: first_code })
                    } else if address == 0 {
                        e == SolveError::NoPolynomial
                    } else {
                        second_code != 0 && e == (SolveError::SecondStage { code: second_code })
                    },
                },
            },
    {
        match self.check_inputs(wires_len, npoints) {
            Ok(_) => {},
            Err(e) => {
                return Err(e);
            },
        }
        match Self::accept_first_stage(first_code, address) {
            Ok(_) => {},
            Err(e) => {
                return Err(e);
            },
        }
        if second_code != 0 {
            return Err(SolveError::SecondStage { code: second_code });
        }
        let commit = G1Affine {
            x: Fq::from_bn254fq_canonical(&outputs.bsb22_commit.x),
            y: Fq::from_bn254fq_canonical(&outputs.bsb22_commit.y),
        };
        let mut bsb22_polys: Vec<Vec<BN254Fr>> = Vec::new();
        bsb22_polys.push(outputs.bsb22_poly);
        let mut bsb22_commitments: Vec<BN254G1Affine> = Vec::new();
        bsb22_commitments.push(commit.to_bn254());
        assert(bsb22_polys@ =~= seq![outputs.bsb22_poly]);
        Ok(
            PlonkWitnessData {
                l: outputs.l,
                r: outputs.r,
                o: outputs.o,
                bsb22_polys,
                bsb22_commitments,
            },
        )
    }
}

} // verus!
