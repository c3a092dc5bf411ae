//! What the kernels of the device are given, and what is fetched from them.
use crate::fields;
use crate::fields::Fr;
use crate::polynomial;
use vstd::prelude::*;

verus! {

/// The scalars that the quotient kernel takes.
#[derive(Clone, Copy, Debug)]
pub struct KernelScalars {
    pub alpha: Fr,
    pub beta: Fr,
    pub gamma: Fr,
    /// `beta` times the shift of the second and of the third wire.
    pub beta_k1: Fr,
    pub beta_k2: Fr,
    pub alpha_sq: Fr,
    pub one: Fr,
    pub coset_shift: Fr,
}

/// The scalars of the quotient kernel from the challenges and the shift.
pub fn kernel_scalars(alpha: &Fr, beta: &Fr, gamma: &Fr, coset_shift: &Fr) -> (r: KernelScalars)
    requires
        alpha.wf(),
        beta.wf(),
        gamma.wf(),
        coset_shift.wf(),
    ensures
        r.alpha == *alpha,
        r.beta == *beta,
        r.gamma == *gamma,
        r.coset_shift == *coset_shift,
        r.beta_k1.wf(),
        r.beta_k1@ == fields::fmul(beta@, coset_shift@),
        r.beta_k2.wf(),
        r.beta_k2@ == fields::fmul(beta@, fields::fmul(coset_shift@, coset_shift@)),
        r.alpha_sq.wf(),
        r.alpha_sq@ == fields::fmul(alpha@, alpha@),
        r.one.wf(),
        r.one@ == 1,
{
    let k2 = coset_shift.mul(coset_shift);
    KernelScalars {
        alpha: *alpha,
        beta: *beta,
        gamma: *gamma,
        beta_k1: beta.mul(coset_shift),
        beta_k2: beta.mul(&k2),
        alpha_sq: alpha.square(),
        one: Fr::one(),
        coset_shift: *coset_shift,
    }
}

/// A blinding polynomial as the fix-up kernel takes it: three coefficients and the
/// degree.
#[derive(Clone, Copy, Debug)]
pub struct FixupOperands {
    pub degree: i32,
    pub a: Fr,
    pub b: Fr,
    pub c: Fr,
}

/// All coefficients are zero.
pub open spec fn is_zero_poly(bp: Seq<Fr>) -> bool {
    forall|i: int| 0 <= i < bp.len() ==> (#[trigger] bp[i])@ == 0
}

/// The operands of the fix-up kernel for a blinding polynomial of two or three
/// coefficients, or nothing where it is zero and no kernel runs.
pub fn fixup_operands(bp: &[Fr]) -> (r: Option<FixupOperands>)
    requires
        fields::all_wf(bp@),
        is_zero_poly(bp@) || bp@.len() == 2 || bp@.len() == 3,
    ensures
        r is None <==> is_zero_poly(bp@),
        r matches Some(f) ==> {
            &&& f.degree == bp@.len() - 1
            &&& f.a == bp@[0]
            &&& f.b == bp@[1]
            &&& f.c.wf()
            &&& f.c@ == (if bp@.len() == 3 {
                bp@[2]@
            } else {
                0
            })
        },
{
    let mut nonzero = false;
    for i in 0..bp.len()
        invariant
            fields::all_wf(bp@),
            nonzero <==> exists|j: int| 0 <= j < i && (#[trigger] bp@[j])@ != 0,
    {
        assert(bp@[i as int].wf());
        if !bp[i].is_zero() {
            nonzero = true;
        }
    }
    if !nonzero {
        return None;
    }
    if bp.len() == 3 {
        assert(bp@[2].wf());
        return Some(FixupOperands { degree: 2, a: bp[0], b: bp[1], c: bp[2] });
    }
    Some(FixupOperands { degree: 1, a: bp[0], b: bp[1], c: Fr::zero() })
}

/// The fix-up kernel's coefficients are those of the blinding polynomial.
pub proof fn law_fixup_operands(bp: Seq<int>, c: int, x: int)
    requires
        bp.len() == 2 || bp.len() == 3,
        c == (if bp.len() == 3 {
            bp[2]
        } else {
            0
        }),
    ensures
        polynomial::feval(seq![bp[0], bp[1], c], x) == polynomial::feval(bp, x),
{
    if bp.len() == 3 {
        assert(seq![bp[0], bp[1], c] =~= bp);
    } else {
        let padded = seq![bp[0], bp[1], c];
        reveal_with_fuel(polynomial::peval, 4);
        assert(padded.skip(1).skip(1) =~= seq![0]);
        assert(padded.skip(1)[0] == bp[1]);
        assert(bp.skip(1)[0] == bp[1]);
        assert(seq![0int].skip(1) =~= Seq::<int>::empty());
        assert(bp.skip(1).skip(1) =~= Seq::<int>::empty());
        assert(x * 0 == 0);
    }
}

/// How many coefficients of the quotient are fetched from the device: its three
/// parts, or all of them where they are to be looked at.
pub fn quotient_download_len(n: usize, whole: bool) -> (r: usize)
    requires
        1 <= n,
        4 * n + 6 <= usize::MAX,
    ensures
        r == (if whole {
            4 * n
        } else {
            3 * (n + 2)
        }),
{
    if whole {
        4 * n
    } else {
        3 * (n + 2)
    }
}

/// The first and the last point of the coset at which the kernel's output is
/// compared with the quotient, and the step between them.
pub const FIRST_CHECKED: usize = 133_577_400;

pub const LAST_CHECKED: usize = 133_578_500;

pub const CHECK_STEP: usize = 8;

/// The points of the coset at which the kernel's output is compared.
pub fn kernel_check_indices(n: usize) -> (r: Vec<usize>)
    requires
        4 * n <= usize::MAX,
    ensures
        forall|k: int|
            0 <= k < r@.len() ==> #[trigger] r@[k] == FIRST_CHECKED + CHECK_STEP * k && r@[k]
                <= LAST_CHECKED && r@[k] < 4 * n,
        ({
            let next = FIRST_CHECKED + CHECK_STEP * r@.len();
            next > LAST_CHECKED || next >= 4 * n
        }),
        forall|k: int|
            0 <= k < r@.len() ==> #[trigger] r@[k] == 133_577_400 + 8 * k && r@[k] <= 133_578_500,
{
    let mut r: Vec<usize> = Vec::new();
    let mut i: usize = FIRST_CHECKED;
    while i <= LAST_CHECKED && i < 4 * n
        invariant
            4 * n <= usize::MAX,
            i == FIRST_CHECKED + CHECK_STEP * r@.len(),
            i <= LAST_CHECKED + CHECK_STEP,
            forall|k: int|
                0 <= k < r@.len() ==> #[trigger] r@[k] == FIRST_CHECKED + CHECK_STEP * k && r@[k]
                    <= LAST_CHECKED && r@[k] < 4 * n,
        decreases LAST_CHECKED + CHECK_STEP - i,
    {
        r.push(i);
        i = i + CHECK_STEP;
    }
    r
}

} // verus!
