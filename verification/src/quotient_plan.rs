//! The steps by which a device computes the quotient.
use crate::gpu_kernels;
use vstd::prelude::*;

verus! {

/// Where the values of a proof on the coset are on the device. The output replaces the
/// left wire.
#[derive(Clone, Copy, Debug)]
pub struct CosetAddresses {
    pub l: u64,
    pub r: u64,
    pub o: u64,
    pub z: u64,
    /// What the gates add to the wires, where it is on the device too.
    pub qk_plus_pi: Option<u64>,
}

/// A step of the device.
#[derive(Clone, Copy, Debug, PartialEq, Eq, Structural)]
pub enum QuotientStep {
    FreeTransformBuffer,
    ClearTwiddles,
    /// Fill the cache of what stays on the device, if it is to be filled.
    FillCache,
    /// Run the kernel, which writes over the left wire.
    RunKernel { output: u64 },
    Synchronize,
    Free { address: u64 },
    /// Start to upload the points of the next commitments, if they are not on the device:
    /// that goes on while the coefficients are fetched.
    UploadPoints,
    /// Go back from values on the coset to coefficients, in place.
    CosetInverse { address: u64 },
    Download { address: u64, len: usize },
}

/// The steps: room is made, the kernel runs, what only the kernel needs is freed, and
/// the coefficients are computed and fetched. Where everything was on the device, the room
/// that was freed is taken up again, and only the coefficients that a proof needs are
/// fetched, unless all are to be looked at. Where something comes from the host, what stays
/// on the device is uploaded first.
pub open spec fn quotient_steps(a: CosetAddresses, n: int, whole: bool) -> Seq<QuotientStep> {
    seq![QuotientStep::FreeTransformBuffer, QuotientStep::ClearTwiddles] + (match a.qk_plus_pi {
        Some(f) => seq![
            QuotientStep::RunKernel { output: a.l },
            QuotientStep::Free { address: a.r },
            QuotientStep::Free { address: a.o },
            QuotientStep::Free { address: a.z },
            QuotientStep::Free { address: f },
            QuotientStep::UploadPoints,
            QuotientStep::Synchronize,
            QuotientStep::ClearTwiddles,
            QuotientStep::FreeTransformBuffer,
        ],
        None => seq![
            QuotientStep::FillCache,
            QuotientStep::RunKernel { output: a.l },
            QuotientStep::Synchronize,
            QuotientStep::Free { address: a.r },
            QuotientStep::Free { address: a.o },
            QuotientStep::Free { address: a.z },
        ],
    }) + seq![
        QuotientStep::CosetInverse { address: a.l },
        QuotientStep::Synchronize,
        QuotientStep::Download { address: a.l, len: fetched(a, n, whole) as usize },
    ]
}

/// How many coefficients are fetched.
pub open spec fn fetched(a: CosetAddresses, n: int, whole: bool) -> int {
    if a.qk_plus_pi is Some && !whole {
        3 * (n + 2)
    } else {
        4 * n
    }
}

/// The steps by which the quotient is computed from values on the device.
pub fn plan_quotient(a: &CosetAddresses, n: usize, whole: bool) -> (r: Vec<QuotientStep>)
    requires
        1 <= n,
        4 * n + 6 <= usize::MAX,
    ensures
        r@ == quotient_steps(*a, n as int, whole),
{
    let mut steps: Vec<QuotientStep> = Vec::new();
    steps.push(QuotientStep::FreeTransformBuffer);
    steps.push(QuotientStep::ClearTwiddles);
    let len = match a.qk_plus_pi {
        Some(f) => {
            steps.push(QuotientStep::RunKernel { output: a.l });
            steps.push(QuotientStep::Free { address: a.r });
            steps.push(QuotientStep::Free { address: a.o });
            steps.push(QuotientStep::Free { address: a.z });
            steps.push(QuotientStep::Free { address: f });
            steps.push(QuotientStep::UploadPoints);
            steps.push(QuotientStep::Synchronize);
            steps.push(QuotientStep::ClearTwiddles);
            steps.push(QuotientStep::FreeTransformBuffer);
            gpu_kernels::quotient_download_len(n, whole)
        },
        None => {
            steps.push(QuotientStep::FillCache);
            steps.push(QuotientStep::RunKernel { output: a.l });
            steps.push(QuotientStep::Synchronize);
            steps.push(QuotientStep::Free { address: a.r });
            steps.push(QuotientStep::Free { address: a.o });
            steps.push(QuotientStep::Free { address: a.z });
            4 * n
        },
    };
    steps.push(QuotientStep::CosetInverse { address: a.l });
    steps.push(QuotientStep::Synchronize);
    steps.push(QuotientStep::Download { address: a.l, len });
    assert(steps@ =~= quotient_steps(*a, n as int, whole));
    steps
}

/// The addresses are different.
pub open spec fn distinct_addresses(a: CosetAddresses) -> bool {
    &&& a.l != a.r && a.l != a.o && a.l != a.z
    &&& a.r != a.o && a.r != a.z && a.o != a.z
    &&& a.qk_plus_pi matches Some(f) ==> f != a.l && f != a.r && f != a.o && f != a.z
}

/// Every buffer but the output is freed once, before the transform, and the output is
/// not freed.
pub proof fn law_buffers_are_freed_once(a: CosetAddresses, n: int, whole: bool)
    requires
        distinct_addresses(a),
    ensures
        ({
            let steps = quotient_steps(a, n, whole);
            let k = steps.len() - 3;
            &&& steps[k] == (QuotientStep::CosetInverse { address: a.l })
            &&& steps.take(k).contains(QuotientStep::Free { address: a.r })
            &&& steps.take(k).contains(QuotientStep::Free { address: a.o })
            &&& steps.take(k).contains(QuotientStep::Free { address: a.z })
            &&& a.qk_plus_pi matches Some(f) ==> steps.take(k).contains(
                QuotientStep::Free { address: f },
            )
            &&& !steps.contains(QuotientStep::Free { address: a.l })
            &&& forall|i: int, j: int|
                0 <= i < steps.len() && 0 <= j < steps.len() && steps[i] is Free && steps[i]
                    == steps[j] ==> i == j
        }),
{
    let steps = quotient_steps(a, n, whole);
    let k = steps.len() - 3;
    match a.qk_plus_pi {
        Some(f) => {
            assert(steps.take(k)[3] == (QuotientStep::Free { address: a.r }));
            assert(steps.take(k)[4] == (QuotientStep::Free { address: a.o }));
            assert(steps.take(k)[5] == (QuotientStep::Free { address: a.z }));
            assert(steps.take(k)[6] == (QuotientStep::Free { address: f }));
        },
        None => {
            assert(steps.take(k)[5] == (QuotientStep::Free { address: a.r }));
            assert(steps.take(k)[6] == (QuotientStep::Free { address: a.o }));
            assert(steps.take(k)[7] == (QuotientStep::Free { address: a.z }));
        },
    }
}

/// The kernel runs once, with the left wire as its output, before anything is freed; the
/// transform and the fetch of the same buffer come last, with the device brought to rest in
/// between. Where everything was on the device only the three parts of the quotient are
/// fetched, unless all of it is to be looked at.
pub proof fn law_quotient_order(a: CosetAddresses, n: int, whole: bool)
    ensures
        ({
            let steps = quotient_steps(a, n, whole);
            let m = steps.len() as int;
            let run = if a.qk_plus_pi is Some {
                2int
            } else {
                3
            };
            &&& m >= 6
            &&& forall|i: int|
                0 <= i < m ==> (#[trigger] steps[i] is RunKernel <==> i == run)
            &&& steps[run] == (QuotientStep::RunKernel { output: a.l })
            &&& forall|i: int| 0 <= i < m && #[trigger] steps[i] is Free ==> run < i < m - 3
            &&& forall|i: int|
                0 <= i < m ==> (#[trigger] steps[i] is CosetInverse <==> i == m - 3)
            &&& steps[m - 3] == (QuotientStep::CosetInverse { address: a.l })
            &&& steps[m - 2] == QuotientStep::Synchronize
            &&& steps[m - 1] == (QuotientStep::Download {
                address: a.l,
                len: (if a.qk_plus_pi is Some && !whole {
                    3 * (n + 2)
                } else {
                    4 * n
                }) as usize,
            })
            &&& steps.contains(QuotientStep::UploadPoints) <==> a.qk_plus_pi is Some
            &&& steps.contains(QuotientStep::FillCache) <==> a.qk_plus_pi is None
            &&& a.qk_plus_pi is None ==> steps[2] == QuotientStep::FillCache && steps[4]
                == QuotientStep::Synchronize
            &&& steps[0] == QuotientStep::FreeTransformBuffer
            &&& steps[1] == QuotientStep::ClearTwiddles
            &&& a.qk_plus_pi is Some ==> steps[m - 6] == QuotientStep::Synchronize && steps[m - 5]
                == QuotientStep::ClearTwiddles && steps[m - 4] == QuotientStep::FreeTransformBuffer
        }),
{
    let steps = quotient_steps(a, n, whole);
    if a.qk_plus_pi is Some {
        assert(steps[7] == QuotientStep::UploadPoints);
    } else {
        assert(steps[2] == QuotientStep::FillCache);
    }
}

} // verus!
