//! Which parts of a proof run on a device, and on what.

use crate::static_cache;
use crate::static_cache::{CanonicalSlot, PlonkCanonicalCache};
use crate::text;
use vstd::prelude::*;

verus! {

/// The device memory from which the quotient is computed on the device as a whole:
/// 20 GiB.
pub const FUSED_QUOTIENT_BYTES: u64 = 0x5_0000_0000;

/// Whether the quotient is computed on the device as a whole: not where the setting
/// of `SP1_PLONK_FORCE_STREAMED` is `1`, not on HIP, and only with enough memory.
pub fn use_gpu_quotient(force_streamed: Option<&str>, hip: bool, total_bytes: u64) -> (r: bool)
    ensures
        r == (!(force_streamed matches Some(s) && s@ == "1"@) && !hip && total_bytes
            >= 20 * 1024 * 1024 * 1024),
{
    if text::is_text(force_streamed, "1") {
        false
    } else if hip {
        false
    } else {
        total_bytes >= FUSED_QUOTIENT_BYTES
    }
}

/// Whether the values of L, R, O and Z on the coset stay on the device: by the
/// setting of `SP1_PLONK_KEEP_LROZ_DEVICE`, anything but `0`, or else on HIP.
pub fn keep_lroz_device(setting: Option<&str>, hip: bool) -> (r: bool)
    ensures
        r == (match setting {
            Some(s) => s@ != "0"@,
            None => hip,
        }),
{
    match setting {
        Some(s) => !text::same_text(s, "0"),
        None => hip,
    }
}

/// How the blinding gets into the values on the coset.
#[derive(Clone, Copy, Debug, PartialEq, Eq, Structural)]
pub enum FixupMode {
    /// The values are computed again from the blinded polynomials.
    Recompute,
    /// The quotient adds the blinding as it goes.
    Fold,
    /// The blinding is added to the values.
    Fixup,
}

/// The mode that the setting of `SP1_PLONK_BLINDING_FIXUP` asks for.
pub fn fixup_mode(setting: Option<&str>) -> (r: FixupMode)
    ensures
        r == (match setting {
            Some(s) => if s@ == "recompute"@ {
                FixupMode::Recompute
            } else if s@ == "fold"@ {
                FixupMode::Fold
            } else {
                FixupMode::Fixup
            },
            None => FixupMode::Fold,
        }),
{
    match setting {
        Some(s) => if text::same_text(s, "recompute") {
            FixupMode::Recompute
        } else if text::same_text(s, "fold") {
            FixupMode::Fold
        } else {
            FixupMode::Fixup
        },
        None => FixupMode::Fold,
    }
}

/// How the values of a polynomial on the coset are made.
#[derive(Clone, Copy, Debug, PartialEq, Eq, Structural)]
pub enum CosetStep {
    /// From the rows.
    Plain,
    /// From the coefficients of the blinded polynomial.
    Recompute,
    /// From the rows, with the blinding added to the values.
    FixUp,
    /// From the rows: the quotient adds the blinding as it goes.
    Fold,
}

/// How the values of a polynomial on the coset are made, given whether it is blinded and
/// whether they stay on the device. The quotient adds the blinding only to what comes from
/// the host.
pub fn coset_step(mode: FixupMode, blinded: bool, on_device: bool) -> (r: CosetStep)
    ensures
        r == (if !blinded {
            CosetStep::Plain
        } else {
            match mode {
                FixupMode::Recompute => CosetStep::Recompute,
                FixupMode::Fixup => CosetStep::FixUp,
                FixupMode::Fold => if on_device {
                    CosetStep::FixUp
                } else {
                    CosetStep::Fold
                },
            }
        }),
{
    if !blinded {
        return CosetStep::Plain;
    }
    match mode {
        FixupMode::Recompute => CosetStep::Recompute,
        FixupMode::Fixup => CosetStep::FixUp,
        FixupMode::Fold => if on_device {
            CosetStep::FixUp
        } else {
            CosetStep::Fold
        },
    }
}

/// Whether a setting is `1`. That of `SP1_PLONK_R5_GPU` puts the fold of the last
/// round on the device; that of `SP1_PLONK_DEBUG_CONST_LIN` and that of
/// `SP1_PLONK_DEBUG_CHALLENGES` ask for diagnostics.
pub fn switched_on(setting: Option<&str>) -> (r: bool)
    ensures
        r == (setting matches Some(s) && s@ == "1"@),
{
    text::is_text(setting, "1")
}

/// Where the quotient is computed.
#[derive(Clone, Copy, Debug, PartialEq, Eq, Structural)]
pub enum QuotientPath {
    /// On the device as a whole.
    Device,
    /// On the device from wires that are there, with the rest from the host.
    DeviceWires,
    /// From the host.
    Streamed,
}

/// Where the quotient is computed, given whether the wires and the grand product are
/// on the device.
pub fn quotient_path(gpu_quotient: bool, l: bool, r: bool, o: bool, z: bool) -> (res: QuotientPath)
    ensures
        res == (if gpu_quotient {
            QuotientPath::Device
        } else if l && r && o && z {
            QuotientPath::DeviceWires
        } else {
            QuotientPath::Streamed
        }),
{
    if gpu_quotient {
        QuotientPath::Device
    } else if l && r && o && z {
        QuotientPath::DeviceWires
    } else {
        QuotientPath::Streamed
    }
}

/// Where a polynomial of the fold is.
#[derive(Clone, Copy, Debug, PartialEq, Eq, Structural)]
pub enum PolyInput {
    /// On the device.
    Device { address: u64, len: usize },
    /// On the host.
    Host,
}

/// Where a polynomial of the circuit is.
pub open spec fn input_of(cache: PlonkCanonicalCache, slot: CanonicalSlot) -> PolyInput {
    match static_cache::entry_of(cache.entries@, slot) {
        Some((address, len)) => PolyInput::Device { address, len },
        None => PolyInput::Host,
    }
}

/// Where a part of the quotient is, if the quotient is on the device.
pub open spec fn part_of(h: Option<u64>, n: usize, k: int) -> PolyInput {
    match h {
        Some(base) => PolyInput::Device {
            address: (base + k * ((n + 2) * 32)) as u64,
            len: (n + 2) as usize,
        },
        None => PolyInput::Host,
    }
}

/// Where the polynomials of the fold are, in their order: `ql`, `qr`, `qm`, `qo`,
/// `qk`, `s3`, `z`, the parts of the quotient, the BSB22 polynomials, `l`, `r`, `o`,
/// `s1`, `s2` and the selectors of the BSB22 commitments.
pub open spec fn fold_inputs(
    cache: PlonkCanonicalCache,
    n: usize,
    h: Option<u64>,
    bsb22: nat,
    qcp: nat,
) -> Seq<PolyInput> {
    seq![
        input_of(cache, CanonicalSlot::Ql),
        input_of(cache, CanonicalSlot::Qr),
        input_of(cache, CanonicalSlot::Qm),
        input_of(cache, CanonicalSlot::Qo),
        input_of(cache, CanonicalSlot::Qk),
        input_of(cache, CanonicalSlot::S3),
        PolyInput::Host,
        part_of(h, n, 0),
        part_of(h, n, 1),
        part_of(h, n, 2),
    ] + Seq::new(bsb22, |i: int| PolyInput::Host) + seq![
        PolyInput::Host,
        PolyInput::Host,
        PolyInput::Host,
        input_of(cache, CanonicalSlot::S1),
        input_of(cache, CanonicalSlot::S2),
    ] + Seq::new(qcp, |i: int| input_of(cache, CanonicalSlot::Qcp(i as u32)))
}

fn locate(cache: &PlonkCanonicalCache, slot: CanonicalSlot) -> (r: PolyInput)
    ensures
        r == input_of(*cache, slot),
{
    match cache.get(slot) {
        Some((address, len)) => PolyInput::Device { address, len },
        None => PolyInput::Host,
    }
}

fn locate_part(h: Option<u64>, n: usize, k: u64) -> (r: PolyInput)
    requires
        n + 2 <= usize::MAX,
        h matches Some(base) ==> base + 2 * ((n + 2) * 32) <= u64::MAX,
        k <= 2,
    ensures
        r == part_of(h, n, k as int),
{
    match h {
        Some(base) => {
            proof {
                assert(0 <= k * ((n + 2) * 32) <= 2 * ((n + 2) * 32)) by (nonlinear_arith)
                    requires
                        0 <= k <= 2,
                        0 <= n,
                ;
            }
            let stride: u64 = (n as u64 + 2) * 32;
            PolyInput::Device { address: base + k * stride, len: n + 2 }
        },
        None => PolyInput::Host,
    }
}

/// Where each polynomial of the fold is found: those of the circuit under their own slots,
/// the parts of the quotient one behind the other, and all others on the host.
pub proof fn law_fold_inputs(
    cache: PlonkCanonicalCache,
    n: usize,
    h: Option<u64>,
    bsb22: nat,
    qcp: nat,
)
    ensures
        ({
            let r = fold_inputs(cache, n, h, bsb22, qcp);
            &&& r.len() == 15 + bsb22 + qcp
            &&& r[0] == input_of(cache, CanonicalSlot::Ql)
            &&& r[1] == input_of(cache, CanonicalSlot::Qr)
            &&& r[2] == input_of(cache, CanonicalSlot::Qm)
            &&& r[3] == input_of(cache, CanonicalSlot::Qo)
            &&& r[4] == input_of(cache, CanonicalSlot::Qk)
            &&& r[5] == input_of(cache, CanonicalSlot::S3)
            &&& r[6] == PolyInput::Host
            &&& forall|k: int|
                0 <= k < 3 ==> #[trigger] r[7 + k] == (match h {
                    Some(base) => PolyInput::Device {
                        address: (base + 32 * (k * (n + 2))) as u64,
                        len: (n + 2) as usize,
                    },
                    None => PolyInput::Host,
                })
            &&& forall|k: int| 10 <= k < 13 + bsb22 ==> #[trigger] r[k] == PolyInput::Host
            &&& r[13 + bsb22 as int] == input_of(cache, CanonicalSlot::S1)
            &&& r[14 + bsb22 as int] == input_of(cache, CanonicalSlot::S2)
            &&& forall|k: int|
                0 <= k < qcp ==> #[trigger] r[15 + bsb22 as int + k] == input_of(
                    cache,
                    CanonicalSlot::Qcp(k as u32),
                )
        }),
{
    let r = fold_inputs(cache, n, h, bsb22, qcp);
    assert forall|k: int| 0 <= k < 3 implies #[trigger] r[7 + k] == (match h {
        Some(base) => PolyInput::Device {
            address: (base + 32 * (k * (n + 2))) as u64,
            len: (n + 2) as usize,
        },
        None => PolyInput::Host,
    }) by {
        assert(r[7 + k] == part_of(h, n, k));
        assert(k * ((n + 2) * 32) == 32 * (k * (n + 2))) by (nonlinear_arith);
    }
}

/// Where the polynomials of the fold are, one after the other.
#[verifier::rlimit(40)]
fn list_fold(
    cache: &PlonkCanonicalCache,
    n: usize,
    h: Option<u64>,
    bsb22: usize,
    qcp: usize,
) -> (r: Vec<PolyInput>)
    requires
        n + 2 <= usize::MAX,
        h matches Some(base) ==> base + 2 * ((n + 2) * 32) <= u64::MAX,
        qcp <= u32::MAX,
    ensures
        r@ == fold_inputs(*cache, n, h, bsb22 as nat, qcp as nat),
{
    let mut r: Vec<PolyInput> = Vec::new();
    r.push(locate(cache, CanonicalSlot::Ql));
    r.push(locate(cache, CanonicalSlot::Qr));
    r.push(locate(cache, CanonicalSlot::Qm));
    r.push(locate(cache, CanonicalSlot::Qo));
    r.push(locate(cache, CanonicalSlot::Qk));
    r.push(locate(cache, CanonicalSlot::S3));
    r.push(PolyInput::Host);
    r.push(locate_part(h, n, 0));
    r.push(locate_part(h, n, 1));
    r.push(locate_part(h, n, 2));
    let ghost first = r@;
    for i in 0..bsb22
        invariant
            r@ == first + Seq::new(i as nat, |j: int| PolyInput::Host),
    {
        r.push(PolyInput::Host);
        assert(r@ =~= first + Seq::new((i + 1) as nat, |j: int| PolyInput::Host));
    }
    r.push(PolyInput::Host);
    r.push(PolyInput::Host);
    r.push(PolyInput::Host);
    r.push(locate(cache, CanonicalSlot::S1));
    r.push(locate(cache, CanonicalSlot::S2));
    let ghost second = r@;
    for i in 0..qcp
        invariant
            qcp <= u32::MAX,
            r@ == second + Seq::new(
                i as nat,
                |j: int| input_of(*cache, CanonicalSlot::Qcp(j as u32)),
            ),
    {
        r.push(locate(cache, CanonicalSlot::Qcp(i as u32)));
        assert(r@ =~= second + Seq::new(
            (i + 1) as nat,
            |j: int| input_of(*cache, CanonicalSlot::Qcp(j as u32)),
        ));
    }
    assert(r@ =~= fold_inputs(*cache, n, h, bsb22 as nat, qcp as nat));
    r
}

/// Find where the polynomials of the fold are.
pub fn plan_fold(
    cache: &PlonkCanonicalCache,
    n: usize,
    h: Option<u64>,
    bsb22: usize,
    qcp: usize,
) -> (r: Vec<PolyInput>)
    requires
        n + 2 <= usize::MAX,
        h matches Some(base) ==> base + 2 * ((n + 2) * 32) <= u64::MAX,
        qcp <= u32::MAX,
    ensures
        r@ == fold_inputs(*cache, n, h, bsb22 as nat, qcp as nat),
        r@.len() == 15 + bsb22 + qcp,
        r@[0] == input_of(*cache, CanonicalSlot::Ql),
        r@[1] == input_of(*cache, CanonicalSlot::Qr),
        r@[2] == input_of(*cache, CanonicalSlot::Qm),
        r@[3] == input_of(*cache, CanonicalSlot::Qo),
        r@[4] == input_of(*cache, CanonicalSlot::Qk),
        r@[5] == input_of(*cache, CanonicalSlot::S3),
        r@[6] == PolyInput::Host,
        forall|k: int|
            0 <= k < 3 ==> #[trigger] r@[7 + k] == (match h {
                Some(base) => PolyInput::Device {
                    address: (base + 32 * (k * (n + 2))) as u64,
                    len: (n + 2) as usize,
                },
                None => PolyInput::Host,
            }),
        forall|k: int| 10 <= k < 13 + bsb22 ==> #[trigger] r@[k] == PolyInput::Host,
        r@[13 + bsb22 as int] == input_of(*cache, CanonicalSlot::S1),
        r@[14 + bsb22 as int] == input_of(*cache, CanonicalSlot::S2),
        forall|k: int|
            0 <= k < qcp ==> #[trigger] r@[15 + bsb22 as int + k] == input_of(
                *cache,
                CanonicalSlot::Qcp(k as u32),
            ),
{
    proof {
        law_fold_inputs(*cache, n, h, bsb22 as nat, qcp as nat);
    }
    list_fold(cache, n, h, bsb22, qcp)
}

/// How many of the first inputs are on the host.
pub open spec fn host_count(inputs: Seq<PolyInput>, k: int) -> nat
    decreases k,
{
    if k <= 0 {
        0
    } else {
        host_count(inputs, k - 1) + if inputs[k - 1] == PolyInput::Host {
            1nat
        } else {
            0nat
        }
    }
}

/// Where the kernel of a linear combination finds a polynomial: at its own place on
/// the device, or where it was uploaded.
pub open spec fn fold_place(
    inputs: Seq<PolyInput>,
    lens: Seq<usize>,
    uploaded: Seq<u64>,
    i: int,
) -> (u64, usize) {
    match inputs[i] {
        PolyInput::Device { address, len } => (address, len),
        PolyInput::Host => (uploaded[host_count(inputs, i) as int], lens[i]),
    }
}

/// The polynomials of a linear combination that have to be uploaded, in order.
pub fn fold_uploads(inputs: &[PolyInput]) -> (r: Vec<usize>)
    ensures
        r@.len() == host_count(inputs@, inputs@.len() as int),
        forall|i: int|
            0 <= i < inputs@.len() && inputs@[i] == PolyInput::Host ==> host_count(inputs@, i)
                < r@.len() && r@[host_count(inputs@, i) as int] == i,
        forall|k: int|
            0 <= k < r@.len() ==> #[trigger] r@[k] < inputs@.len() && inputs@[r@[k] as int]
                == PolyInput::Host,
        forall|j: int, k: int| 0 <= j < k < r@.len() ==> #[trigger] r@[j] < #[trigger] r@[k],
{
    let mut r: Vec<usize> = Vec::new();
    for k in 0..inputs.len()
        invariant
            r@.len() == host_count(inputs@, k as int),
            forall|i: int|
                0 <= i < k && inputs@[i] == PolyInput::Host ==> host_count(inputs@, i)
                    < r@.len() && r@[host_count(inputs@, i) as int] == i,
            forall|j: int|
                0 <= j < r@.len() ==> #[trigger] r@[j] < k && inputs@[r@[j] as int]
                    == PolyInput::Host,
            forall|i: int, j: int|
                0 <= i < j < r@.len() ==> #[trigger] r@[i] < #[trigger] r@[j],
    {
        match inputs[k] {
            PolyInput::Host => {
                r.push(k);
            },
            PolyInput::Device { address, len } => {},
        }
    }
    r
}

/// Where the kernel of a linear combination finds each polynomial, given where those
/// of the host were uploaded.
pub fn fold_places(inputs: &[PolyInput], lens: &[usize], uploaded: &[u64]) -> (r: Vec<
    (u64, usize),
>)
    requires
        lens@.len() == inputs@.len(),
        uploaded@.len() == host_count(inputs@, inputs@.len() as int),
    ensures
        r@.len() == inputs@.len(),
        forall|i: int|
            0 <= i < r@.len() ==> #[trigger] r@[i] == fold_place(
                inputs@,
                lens@,
                uploaded@,
                i,
            ),
{
    let mut r: Vec<(u64, usize)> = Vec::new();
    let mut next: usize = 0;
    for k in 0..inputs.len()
        invariant
            lens@.len() == inputs@.len(),
            uploaded@.len() == host_count(inputs@, inputs@.len() as int),
            next == host_count(inputs@, k as int),
            next <= uploaded@.len(),
            r@.len() == k,
            forall|i: int|
                0 <= i < k ==> #[trigger] r@[i] == fold_place(inputs@, lens@, uploaded@, i),
    {
        proof {
            lemma_host_count(inputs@, k + 1, inputs@.len() as int);
        }
        match inputs[k] {
            PolyInput::Device { address, len } => {
                r.push((address, len));
            },
            PolyInput::Host => {
                r.push((uploaded[next], lens[k]));
                next = next + 1;
            },
        }
    }
    r
}

proof fn lemma_host_count(inputs: Seq<PolyInput>, j: int, k: int)
    requires
        0 <= j <= k,
    ensures
        host_count(inputs, j) <= host_count(inputs, k),
    decreases k - j,
{
    if j < k {
        lemma_host_count(inputs, j, k - 1);
    }
}

/// A polynomial that is uploaded is found where it was uploaded, with its own length, and
/// one that is on the device is found at its own place.
pub proof fn law_fold_places(
    inputs: Seq<PolyInput>,
    lens: Seq<usize>,
    uploads: Seq<usize>,
    uploaded: Seq<u64>,
)
    requires
        lens.len() == inputs.len(),
        uploaded.len() == uploads.len(),
        forall|k: int|
            0 <= k < uploads.len() ==> #[trigger] uploads[k] < inputs.len()
                && inputs[uploads[k] as int] == PolyInput::Host,
        forall|j: int, k: int|
            0 <= j < k < uploads.len() ==> #[trigger] uploads[j] < #[trigger] uploads[k],
        forall|i: int|
            0 <= i < inputs.len() && #[trigger] inputs[i] == PolyInput::Host ==> exists|k: int|
                0 <= k < uploads.len() && #[trigger] uploads[k] == i,
    ensures
        forall|k: int|
            0 <= k < uploads.len() ==> fold_place(
                inputs,
                lens,
                uploaded,
                #[trigger] uploads[k] as int,
            ) == (uploaded[k], lens[uploads[k] as int]),
        forall|i: int|
            0 <= i < inputs.len() ==> (#[trigger] inputs[i] matches PolyInput::Device {
                address,
                len,
            } ==> fold_place(inputs, lens, uploaded, i) == (address, len)),
{
    assert forall|k: int| 0 <= k < uploads.len() implies fold_place(
        inputs,
        lens,
        uploaded,
        #[trigger] uploads[k] as int,
    ) == (uploaded[k], lens[uploads[k] as int]) by {
        lemma_host_rank(inputs, uploads, uploads[k] as int, k);
    }
}

/// As many inputs before a place are on the host as are uploaded before it.
proof fn lemma_host_rank(inputs: Seq<PolyInput>, uploads: Seq<usize>, i: int, k: int)
    requires
        0 <= i <= inputs.len(),
        0 <= k <= uploads.len(),
        forall|j: int|
            0 <= j < uploads.len() ==> #[trigger] uploads[j] < inputs.len()
                && inputs[uploads[j] as int] == PolyInput::Host,
        forall|j: int, m: int|
            0 <= j < m < uploads.len() ==> #[trigger] uploads[j] < #[trigger] uploads[m],
        forall|j: int|
            0 <= j < inputs.len() && #[trigger] inputs[j] == PolyInput::Host ==> exists|m: int|
                0 <= m < uploads.len() && #[trigger] uploads[m] == j,
        forall|j: int| 0 <= j < uploads.len() ==> (j < k <==> #[trigger] uploads[j] < i),
    ensures
        host_count(inputs, i) == k,
    decreases i,
{
    if i > 0 {
        if inputs[i - 1] == PolyInput::Host {
            let m = choose|m: int| 0 <= m < uploads.len() && #[trigger] uploads[m] == i - 1;
            assert(m < k);
            if m < k - 1 {
                assert(uploads[m] < uploads[k - 1]);
                assert(uploads[k - 1] < i);
            }
            assert forall|j: int| 0 <= j < uploads.len() implies (j < k - 1
                <==> #[trigger] uploads[j] < i - 1) by {
                if j < m {
                    assert(uploads[j] < uploads[m]);
                } else if m < j {
                    assert(uploads[m] < uploads[j]);
                }
            }
            lemma_host_rank(inputs, uploads, i - 1, k - 1);
        } else {
            assert forall|j: int| 0 <= j < uploads.len() implies (j < k <==> #[trigger] uploads[j]
                < i - 1) by {
                assert(inputs[uploads[j] as int] == PolyInput::Host);
            }
            lemma_host_rank(inputs, uploads, i - 1, k);
        }
    } else {
        if k > 0 {
            assert(uploads[0] < i);
        }
    }
}

} // verus!
