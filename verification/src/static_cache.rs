//! What is kept on a device between proofs.
//!
//! The arrays of a circuit are the same in each proof, so that those which fit can
//! stay on the device. What is uploaded is decided here; a device only reports how
//! much memory is free and whether an upload went well. A buffer on a device is known
//! by its address.

use crate::text;
use vstd::prelude::*;

verus! {

/// The number of bytes of a field element.
pub const ELEMENT_BYTES: usize = 32;

/// The number of bytes of a gibibyte.
pub const GIB: usize = 0x4000_0000;

/// How many arrays to keep on the device.
#[derive(Debug, Clone, Copy, PartialEq, Eq, Structural)]
pub struct StaticCachePlan {
    /// The number of arrays.
    pub max_arrays: usize,
    /// The memory that has to stay free behind an upload.
    pub safety_margin_bytes: usize,
}

/// The number of arrays that a setting asks for.
pub open spec fn requested_arrays(setting: Seq<char>) -> Option<usize> {
    if setting == ""@ || setting == "0"@ || setting == "off"@ || setting == "OFF"@ || setting
        == "false"@ || setting == "FALSE"@ {
        None
    } else if setting == "1"@ || setting == "on"@ || setting == "ON"@ || setting == "true"@
        || setting == "TRUE"@ {
        Some(1)
    } else {
        match text::parsed_usize(text::utf8(setting)) {
            Some(n) => if n == 0 {
                None
            } else {
                Some(n)
            },
            None => None,
        }
    }
}

/// The margin in gibibytes that a setting asks for.
pub open spec fn margin_gib(setting: Option<&str>) -> usize {
    match setting {
        Some(s) => match text::parsed_usize(text::utf8(s@)) {
            Some(n) => n,
            None => 2,
        },
        None => 2,
    }
}

impl Default for StaticCachePlan {
    /// No arrays and no margin.
    fn default() -> (r: Self)
        ensures
            r == (StaticCachePlan { max_arrays: 0, safety_margin_bytes: 0 }),
    {
        StaticCachePlan { max_arrays: 0, safety_margin_bytes: 0 }
    }
}

impl StaticCachePlan {
    /// The plan from the settings of `SP1_HIP_PLONK_STATIC_CACHE`, the number of
    /// arrays, and `SP1_HIP_PLONK_STATIC_CACHE_MARGIN_GIB`. Nothing is kept unless
    /// the first one asks for it.
    pub fn from_env(setting: Option<&str>, margin: Option<&str>) -> (r: Option<Self>)
        requires
            setting matches Some(s) ==> (requested_arrays(s@) is Some ==> margin_gib(margin) * GIB
                <= usize::MAX),
        ensures
            r == (match setting {
                Some(s) => match requested_arrays(s@) {
                    Some(n) => Some(
                        StaticCachePlan {
                            max_arrays: n,
                            safety_margin_bytes: (margin_gib(margin) * GIB) as usize,
                        },
                    ),
                    None => None,
                },
                None => None,
            }),
            setting is None ==> r is None,
            setting matches Some(s) ==> {
                let off = s@ == ""@ || s@ == "0"@ || s@ == "off"@ || s@ == "OFF"@ || s@
                    == "false"@ || s@ == "FALSE"@;
                let on = s@ == "1"@ || s@ == "on"@ || s@ == "ON"@ || s@ == "true"@ || s@
                    == "TRUE"@;
                &&& off ==> r is None
                &&& on && !off ==> r is Some && r->0.max_arrays == 1
                &&& !on && !off ==> match text::parsed_usize(text::utf8(s@)) {
                    Some(n) => if n == 0 {
                        r is None
                    } else {
                        r is Some && r->0.max_arrays == n
                    },
                    None => r is None,
                }
            },
            r matches Some(p) ==> p.safety_margin_bytes == 1024 * 1024 * 1024 * (match margin {
                Some(m) => match text::parsed_usize(text::utf8(m@)) {
                    Some(n) => n as int,
                    None => 2,
                },
                None => 2,
            }),
    {
        let s = match setting {
            Some(s) => s,
            None => {
                return None;
            },
        };
        let max_arrays: usize = if text::same_text(s, "") || text::same_text(s, "0")
            || text::same_text(s, "off") || text::same_text(s, "OFF") || text::same_text(s, "false")
            || text::same_text(s, "FALSE") {
            return None;
        } else if text::same_text(s, "1") || text::same_text(s, "on") || text::same_text(s, "ON")
            || text::same_text(s, "true") || text::same_text(s, "TRUE") {
            1
        } else {
            match text::parse_usize(s) {
                Some(n) => n,
                None => {
                    return None;
                },
            }
        };
        if max_arrays == 0 {
            return None;
        }
        let gib: usize = match margin {
            Some(m) => match text::parse_usize(m) {
                Some(n) => n,
                None => 2,
            },
            None => 2,
        };
        assert(gib * GIB == 1024 * 1024 * 1024 * gib) by (nonlinear_arith)
            requires
                GIB == 0x4000_0000,
        ;
        Some(StaticCachePlan { max_arrays, safety_margin_bytes: gib * GIB })
    }
}

// ---------------------------------------------------------------------------
// Arrays on the coset
// ---------------------------------------------------------------------------

/// The number of slots of the quotient kernel.
pub const SLOTS: usize = 9;

/// The slot of what changes with each proof, which is never kept.
pub const PER_PROOF_SLOT: usize = 4;

/// The slots in the order in which they are filled: `ql`, `qr`, `qo`, `s1`, `s2`,
/// `s3`, the inverses of `(x - 1) n`, and `qm` where it is not zero.
pub open spec fn static_order(has_qm: bool) -> Seq<usize> {
    let first = seq![0usize, 1, 3, 5, 6, 7, 8];
    if has_qm {
        first.push(2)
    } else {
        first
    }
}

/// The arrays on the coset that are kept on the device.
pub struct PlonkStaticCache {
    /// Whether the cache was filled, or an attempt was made.
    pub initialized: bool,
    /// The address of each slot that is kept.
    pub slots: Vec<Option<u64>>,
}

impl PlonkStaticCache {
    /// There is a place for each slot, and that of the proof is empty.
    pub open spec fn wf(self) -> bool {
        &&& self.slots@.len() == SLOTS
        &&& self.slots@[PER_PROOF_SLOT as int] is None
        &&& !self.initialized ==> forall|i: int|
            0 <= i < SLOTS ==> (#[trigger] self.slots@[i]) is None
    }

    /// An empty cache.
    pub fn new() -> (r: Self)
        ensures
            r.wf(),
            !r.initialized,
            forall|i: int| 0 <= i < SLOTS ==> (#[trigger] r.slots@[i]) is None,
    {
        let slots: Vec<Option<u64>> = vec![None; 9];
        PlonkStaticCache { initialized: false, slots }
    }

    /// Start to fill the cache with arrays of `len` elements. A cache is filled once
    /// only.
    pub fn ensure_populated(&mut self, plan: StaticCachePlan, len: usize, has_qm: bool) -> (r: Option<
        StaticFill,
    >)
        requires
            old(self).wf(),
            len * ELEMENT_BYTES + plan.safety_margin_bytes <= usize::MAX,
        ensures
            final(self).wf(),
            final(self).initialized,
            final(self).slots == old(self).slots,
            match r {
                Some(f) => {
                    &&& !old(self).initialized
                    &&& f.tracks(*final(self))
                    &&& f.next == 0
                    &&& f.order@ == static_order(has_qm).take(
                        if plan.max_arrays < static_order(has_qm).len() {
                            plan.max_arrays as int
                        } else {
                            static_order(has_qm).len() as int
                        },
                    )
                    &&& f.needed == len * ELEMENT_BYTES + plan.safety_margin_bytes
                    &&& f.needed == 32 * len + plan.safety_margin_bytes
                    &&& !f.stopped
                    &&& f.order@.len() <= plan.max_arrays
                    &&& forall|k: int|
                        0 <= k < f.order@.len() ==> #[trigger] f.order@[k] == (if k < 2 {
                            k
                        } else if k == 2 {
                            3
                        } else if k < 7 {
                            k + 2
                        } else {
                            2
                        })
                    &&& f.order@.len() == plan.max_arrays || f.order@.len() == (if has_qm {
                        8int
                    } else {
                        7
                    })
                },
                None => old(self).initialized,
            },
    {
        if self.initialized {
            return None;
        }
        self.initialized = true;
        let mut all: Vec<usize> = vec![0, 1, 3, 5, 6, 7, 8];
        if has_qm {
            all.push(2);
        }
        assert(all@ =~= static_order(has_qm));
        let mut order: Vec<usize> = Vec::new();
        let m: usize = if plan.max_arrays < all.len() {
            plan.max_arrays
        } else {
            all.len()
        };
        for i in 0..m
            invariant
                m <= all@.len(),
                order@ == all@.take(i as int),
        {
            order.push(all[i]);
            assert(order@ =~= all@.take(i + 1));
        }
        Some(
            StaticFill {
                order,
                next: 0,
                needed: len * ELEMENT_BYTES + plan.safety_margin_bytes,
                stopped: false,
            },
        )
    }

    /// The address of a slot, where it is kept.
    pub fn slot_ptr(&self, slot: usize) -> (r: Option<u64>)
        requires
            self.wf(),
        ensures
            r == (if slot >= SLOTS || slot == PER_PROOF_SLOT {
                None
            } else {
                self.slots@[slot as int]
            }),
            slot == 4 || slot >= 9 ==> r is None,
            slot < 9 && slot != 4 ==> r == self.slots@[slot as int],
    {
        if slot >= SLOTS || slot == PER_PROOF_SLOT {
            return None;
        }
        self.slots[slot]
    }
}

/// A cache while it is filled.
pub struct StaticFill {
    /// The slots to fill.
    pub order: Vec<usize>,
    /// How many of them are filled.
    pub next: usize,
    /// The free memory that an upload takes, with the margin.
    pub needed: usize,
    /// Whether an upload was refused or went wrong.
    pub stopped: bool,
}

impl StaticFill {
    /// The slots are different ones that can be kept.
    pub open spec fn wf(self) -> bool {
        &&& self.next <= self.order@.len()
        &&& self.order@.len() <= SLOTS
        &&& forall|j: int|
            0 <= j < self.order@.len() ==> #[trigger] self.order@[j] < SLOTS && self.order@[j]
                != PER_PROOF_SLOT
        &&& self.order@.no_duplicates()
    }

    /// What the cache holds are the first slots of the order, and nothing else.
    pub open spec fn tracks(self, cache: PlonkStaticCache) -> bool {
        &&& self.wf()
        &&& cache.wf()
        &&& cache.initialized
        &&& forall|i: int|
            0 <= i < SLOTS ==> ((#[trigger] cache.slots@[i]) is Some <==> self.order@.take(
                self.next as int,
            ).contains(i as usize))
    }

    /// The slot to upload next, given how much memory is free; the cache is full when
    /// there is none.
    pub fn decide(&mut self, free: usize) -> (r: Option<usize>)
        requires
            old(self).wf(),
        ensures
            final(self).order == old(self).order,
            final(self).next == old(self).next,
            final(self).needed == old(self).needed,
            match r {
                Some(slot) => {
                    &&& !old(self).stopped
                    &&& old(self).next < old(self).order@.len()
                    &&& free >= old(self).needed
                    &&& slot == old(self).order@[old(self).next as int]
                    &&& !final(self).stopped
                },
                None => {
                    &&& old(self).stopped || old(self).next == old(self).order@.len() || free
                        < old(self).needed
                    &&& final(self).stopped
                },
            },
    {
        if self.stopped || self.next == self.order.len() || free < self.needed {
            self.stopped = true;
            return None;
        }
        Some(self.order[self.next])
    }

    /// Take note of an upload: its address, or that it went wrong. After an upload
    /// that went wrong there is no other.
    pub fn record(&mut self, cache: &mut PlonkStaticCache, address: Option<u64>)
        requires
            old(self).tracks(*old(cache)),
            !old(self).stopped,
            old(self).next < old(self).order@.len(),
        ensures
            final(self).tracks(*final(cache)),
            final(self).order == old(self).order,
            final(self).needed == old(self).needed,
            match address {
                Some(a) => {
                    &&& final(self).next == old(self).next + 1
                    &&& !final(self).stopped
                    &&& final(cache).slots@ == old(cache).slots@.update(
                        old(self).order@[old(self).next as int] as int,
                        Some(a),
                    )
                },
                None => {
                    &&& final(self).next == old(self).next
                    &&& final(self).stopped
                    &&& *final(cache) == *old(cache)
                },
            },
    {
        match address {
            Some(a) => {
                let slot = self.order[self.next];
                let ghost before = self.order@.take(self.next as int);
                let ghost was = cache.slots@;
                let ghost k = self.next as int;
                cache.slots.set(slot, Some(a));
                self.next = self.next + 1;
                proof {
                    let after = self.order@.take(self.next as int);
                    assert(after =~= before.push(slot));
                    assert forall|i: int| 0 <= i < SLOTS implies ((
                    #[trigger] cache.slots@[i]) is Some <==> after.contains(i as usize)) by {
                        if i == slot {
                            assert(after[k] == i as usize);
                        } else {
                            assert(was[i] is Some <==> before.contains(i as usize));
                            if before.contains(i as usize) {
                                let j = choose|j: int| 0 <= j < before.len() && before[j] == i as usize;
                                assert(after[j] == i as usize);
                            }
                            if after.contains(i as usize) {
                                let j = choose|j: int| 0 <= j < after.len() && after[j] == i as usize;
                                assert(before[j] == i as usize);
                            }
                        }
                    }
                }
            },
            None => {
                self.stopped = true;
            },
        }
    }
}

// ---------------------------------------------------------------------------
// Polynomials
// ---------------------------------------------------------------------------

/// A polynomial of the circuit.
#[derive(Copy, Clone, Debug, PartialEq, Eq, Hash, Structural)]
pub enum CanonicalSlot {
    Ql,
    Qr,
    Qm,
    Qo,
    Qk,
    S1,
    S2,
    S3,
    /// The selector of a BSB22 commitment.
    Qcp(u32),
}

/// A polynomial that is kept on the device.
#[derive(Copy, Clone, Debug, PartialEq, Eq, Structural)]
pub struct CanonicalEntry {
    pub slot: CanonicalSlot,
    /// Its address.
    pub address: u64,
    /// The number of its coefficients.
    pub len: usize,
}

/// The polynomials of the circuit that are kept on the device.
pub struct PlonkCanonicalCache {
    /// Whether the cache was filled, or an attempt was made.
    pub initialized: bool,
    pub entries: Vec<CanonicalEntry>,
}

/// The slots in the order in which their polynomials are uploaded, before the selectors of
/// the BSB22 commitments.
pub open spec fn upload_slots() -> Seq<CanonicalSlot> {
    seq![
        CanonicalSlot::Ql,
        CanonicalSlot::Qr,
        CanonicalSlot::Qo,
        CanonicalSlot::Qk,
        CanonicalSlot::S1,
        CanonicalSlot::S2,
        CanonicalSlot::S3,
        CanonicalSlot::Qm,
    ]
}

/// Of the first slots those that have a length.
pub open spec fn present(lens: Seq<Option<usize>>, k: nat) -> Seq<(CanonicalSlot, usize)>
    decreases k,
{
    if k == 0 {
        seq![]
    } else {
        let rest = present(lens, (k - 1) as nat);
        match lens[k - 1] {
            Some(len) => rest.push((upload_slots()[k - 1], len)),
            None => rest,
        }
    }
}

/// The slots and lengths of the polynomials in the order in which they are uploaded:
/// `ql`, `qr`, `qo`, `qk`, `s1`, `s2`, `s3` and `qm`, without those that are zero, and the
/// selectors of the BSB22 commitments.
pub open spec fn canonical_order(lens: Seq<Option<usize>>, qcp: Seq<usize>) -> Seq<
    (CanonicalSlot, usize),
> {
    present(lens, 8) + Seq::new(qcp.len(), |i: int| (CanonicalSlot::Qcp(i as u32), qcp[i]))
}

/// The entry of a slot.
pub open spec fn entry_of(entries: Seq<CanonicalEntry>, slot: CanonicalSlot) -> Option<(u64, usize)>
    decreases entries.len(),
{
    if entries.len() == 0 {
        None
    } else if entries.last().slot == slot {
        Some((entries.last().address, entries.last().len))
    } else {
        entry_of(entries.drop_last(), slot)
    }
}

impl PlonkCanonicalCache {
    /// A cache that was not filled is empty.
    pub open spec fn wf(self) -> bool {
        !self.initialized ==> self.entries@.len() == 0
    }

    /// An empty cache.
    pub fn new() -> (r: Self)
        ensures
            r.wf(),
            !r.initialized,
            r.entries@ == Seq::<CanonicalEntry>::empty(),
    {
        PlonkCanonicalCache { initialized: false, entries: Vec::new() }
    }

    /// Start to fill the cache, given the lengths of `ql`, `qr`, `qo`, `qk`, `s1`, `s2`,
    /// `s3` and `qm`, each unless its polynomial is zero, and of the selectors of the BSB22
    /// commitments. A cache is filled once only.
    pub fn ensure_populated(
        &mut self,
        safety_margin_bytes: usize,
        lens: [Option<usize>; 8],
        qcp: &[usize],
    ) -> (r: Option<CanonicalFill>)
        requires
            old(self).wf(),
            qcp@.len() <= u32::MAX,
        ensures
            final(self).wf(),
            final(self).initialized,
            final(self).entries == old(self).entries,
            match r {
                Some(f) => {
                    &&& !old(self).initialized
                    &&& f.sources@ == canonical_order(lens@, qcp@)
                    &&& f.next == 0
                    &&& f.margin == safety_margin_bytes
                },
                None => old(self).initialized,
            },
    {
        if self.initialized {
            return None;
        }
        self.initialized = true;
        let slots: [CanonicalSlot; 8] = [
            CanonicalSlot::Ql,
            CanonicalSlot::Qr,
            CanonicalSlot::Qo,
            CanonicalSlot::Qk,
            CanonicalSlot::S1,
            CanonicalSlot::S2,
            CanonicalSlot::S3,
            CanonicalSlot::Qm,
        ];
        assert(slots@ =~= upload_slots());
        let mut sources: Vec<(CanonicalSlot, usize)> = Vec::new();
        for k in 0..8usize
            invariant
                slots@ == upload_slots(),
                sources@ == present(lens@, k as nat),
        {
            if let Some(len) = lens[k] {
                sources.push((slots[k], len));
            }
        }
        let ghost first = sources@;
        for i in 0..qcp.len()
            invariant
                qcp@.len() <= u32::MAX,
                sources@ == first + Seq::new(
                    i as nat,
                    |j: int| (CanonicalSlot::Qcp(j as u32), qcp@[j]),
                ),
        {
            sources.push((CanonicalSlot::Qcp(i as u32), qcp[i]));
            assert(sources@ =~= first + Seq::new(
                (i + 1) as nat,
                |j: int| (CanonicalSlot::Qcp(j as u32), qcp@[j]),
            ));
        }
        assert(sources@ =~= canonical_order(lens@, qcp@));
        Some(CanonicalFill { sources, next: 0, margin: safety_margin_bytes })
    }

    /// The address and length of a polynomial, where it is kept.
    pub fn get(&self, slot: CanonicalSlot) -> (r: Option<(u64, usize)>)
        ensures
            r == entry_of(self.entries@, slot),
    {
        let mut r: Option<(u64, usize)> = None;
        let n = self.entries.len();
        for i in 0..n
            invariant
                n == self.entries@.len(),
                r == entry_of(self.entries@.take(i as int), slot),
        {
            proof {
                assert(self.entries@.take(i + 1).drop_last() =~= self.entries@.take(i as int));
            }
            if self.entries[i].slot == slot {
                r = Some((self.entries[i].address, self.entries[i].len));
            }
        }
        assert(self.entries@.take(n as int) =~= self.entries@);
        r
    }
}

/// A cache while it is filled.
pub struct CanonicalFill {
    /// The slots and lengths of the polynomials.
    pub sources: Vec<(CanonicalSlot, usize)>,
    /// How many of them were tried.
    pub next: usize,
    /// The memory that has to stay free behind an upload.
    pub margin: usize,
}

impl CanonicalFill {
    /// The polynomial to try next.
    pub fn current(&self) -> (r: Option<(CanonicalSlot, usize)>)
        ensures
            r == (if self.next < self.sources@.len() {
                Some(self.sources@[self.next as int])
            } else {
                None
            }),
    {
        if self.next < self.sources.len() {
            Some(self.sources[self.next])
        } else {
            None
        }
    }

    /// Whether the polynomial to try next is uploaded, given how much memory is free.
    pub fn fits(&self, free: usize) -> (r: bool)
        requires
            self.next < self.sources@.len(),
            self.sources@[self.next as int].1 * ELEMENT_BYTES + self.margin <= usize::MAX,
        ensures
            r == (free >= self.sources@[self.next as int].1 * ELEMENT_BYTES + self.margin),
            r == (free >= 32 * self.sources@[self.next as int].1 + self.margin),
    {
        free >= self.sources[self.next].1 * ELEMENT_BYTES + self.margin
    }

    /// Go on to the next polynomial: with the address of this one, or without where
    /// it was left out or its upload went wrong.
    pub fn record(&mut self, cache: &mut PlonkCanonicalCache, address: Option<u64>)
        requires
            old(self).next < old(self).sources@.len(),
            old(cache).wf(),
            old(cache).initialized,
        ensures
            final(cache).wf(),
            final(cache).initialized,
            final(self).sources == old(self).sources,
            final(self).margin == old(self).margin,
            final(self).next == old(self).next + 1,
            final(cache).entries@ == (match address {
                Some(a) => old(cache).entries@.push(
                    CanonicalEntry {
                        slot: old(self).sources@[old(self).next as int].0,
                        address: a,
                        len: old(self).sources@[old(self).next as int].1,
                    },
                ),
                None => old(cache).entries@,
            }),
    {
        let (slot, len) = self.sources[self.next];
        assert(self.next < self.sources.len());
        if let Some(a) = address {
            cache.entries.push(CanonicalEntry { slot, address: a, len });
        }
        self.next = self.next + 1;
    }
}

/// The entries of a cache after so many polynomials were tried, each with the address that
/// it got.
pub open spec fn kept(
    sources: Seq<(CanonicalSlot, usize)>,
    addresses: Seq<Option<u64>>,
) -> Seq<CanonicalEntry>
    decreases addresses.len(),
{
    if addresses.len() == 0 {
        seq![]
    } else {
        let rest = kept(sources, addresses.drop_last());
        let (slot, len) = sources[addresses.len() - 1];
        match addresses.last() {
            Some(address) => rest.push(CanonicalEntry { slot, address, len }),
            None => rest,
        }
    }
}

/// No slot occurs twice.
pub open spec fn distinct_slots(sources: Seq<(CanonicalSlot, usize)>) -> bool {
    forall|i: int, j: int|
        0 <= i < j < sources.len() ==> (#[trigger] sources[i]).0 != (#[trigger] sources[j]).0
}

/// A slot that was not tried is not found.
pub proof fn law_untried_is_not_found(
    sources: Seq<(CanonicalSlot, usize)>,
    addresses: Seq<Option<u64>>,
    slot: CanonicalSlot,
)
    requires
        addresses.len() <= sources.len(),
        forall|i: int| 0 <= i < addresses.len() ==> (#[trigger] sources[i]).0 != slot,
    ensures
        entry_of(kept(sources, addresses), slot) is None,
    decreases addresses.len(),
{
    if addresses.len() > 0 {
        let rest = kept(sources, addresses.drop_last());
        law_untried_is_not_found(sources, addresses.drop_last(), slot);
        let (s, len) = sources[addresses.len() - 1];
        if let Some(address) = addresses.last() {
            law_upload_is_found(rest, CanonicalEntry { slot: s, address, len }, slot);
        }
    }
}

/// A polynomial that was tried is found again with the address that it got, and not where
/// it got none.
pub proof fn law_kept_is_found(
    sources: Seq<(CanonicalSlot, usize)>,
    addresses: Seq<Option<u64>>,
    i: int,
)
    requires
        distinct_slots(sources),
        0 <= i < addresses.len() <= sources.len(),
    ensures
        entry_of(kept(sources, addresses), sources[i].0) == (match addresses[i] {
            Some(address) => Some((address, sources[i].1)),
            None => None,
        }),
    decreases addresses.len(),
{
    let k = addresses.len() - 1;
    let rest = kept(sources, addresses.drop_last());
    let (s, len) = sources[k];
    if i < k {
        law_kept_is_found(sources, addresses.drop_last(), i);
        assert(sources[i].0 != sources[k].0);
    } else {
        law_untried_is_not_found(sources, addresses.drop_last(), sources[i].0);
    }
    if let Some(address) = addresses.last() {
        law_upload_is_found(rest, CanonicalEntry { slot: s, address, len }, sources[i].0);
    }
}

/// The slots that have a length are different, and come out of the first ones.
proof fn lemma_present(lens: Seq<Option<usize>>, k: nat)
    requires
        lens.len() == 8,
        k <= 8,
    ensures
        distinct_slots(present(lens, k)),
        forall|i: int|
            0 <= i < present(lens, k).len() ==> exists|j: int|
                0 <= j < k && (#[trigger] present(lens, k)[i]).0 == #[trigger] upload_slots()[j],
        forall|j: int|
            0 <= j < k ==> match #[trigger] lens[j] {
                Some(len) => present(lens, k).contains((upload_slots()[j], len)),
                None => forall|i: int|
                    0 <= i < present(lens, k).len() ==> (#[trigger] present(lens, k)[i]).0
                        != upload_slots()[j],
            },
    decreases k,
{
    if k > 0 {
        lemma_present(lens, (k - 1) as nat);
        let rest = present(lens, (k - 1) as nat);
        let all = present(lens, k);
        assert(forall|a: int, b: int|
            0 <= a < b < 8 ==> #[trigger] upload_slots()[a] != #[trigger] upload_slots()[b]);
        assert forall|j: int| 0 <= j < k implies match #[trigger] lens[j] {
            Some(len) => all.contains((upload_slots()[j], len)),
            None => forall|i: int|
                0 <= i < all.len() ==> (#[trigger] all[i]).0 != upload_slots()[j],
        } by {
            match lens[j] {
                Some(len) => {
                    let e = (upload_slots()[j], len);
                    if j == k - 1 {
                        assert(all.last() == e);
                    } else {
                        let i = choose|i: int| 0 <= i < rest.len() && rest[i] == e;
                        assert(all[i] == e);
                    }
                },
                None => {
                    assert forall|i: int| 0 <= i < all.len() implies (#[trigger] all[i]).0
                        != upload_slots()[j] by {
                        if i < rest.len() {
                            assert(all[i] == rest[i]);
                        }
                    }
                },
            }
        }
        assert forall|i: int| 0 <= i < all.len() implies exists|j: int|
            0 <= j < k && (#[trigger] all[i]).0 == #[trigger] upload_slots()[j] by {
            if i < rest.len() {
                assert(all[i] == rest[i]);
            } else {
                assert(all[i].0 == upload_slots()[k - 1]);
            }
        }
    }
}

/// What is uploaded: no slot twice, of the first eight polynomials those that are not zero,
/// and the selectors of all BSB22 commitments.
pub proof fn law_zero_is_left_out(lens: Seq<Option<usize>>, qcp: Seq<usize>)
    requires
        lens.len() == 8,
        qcp.len() <= u32::MAX,
    ensures
        distinct_slots(canonical_order(lens, qcp)),
        forall|j: int|
            0 <= j < 8 ==> match #[trigger] lens[j] {
                Some(len) => canonical_order(lens, qcp).contains((upload_slots()[j], len)),
                None => forall|i: int|
                    0 <= i < canonical_order(lens, qcp).len() ==> (
                    #[trigger] canonical_order(lens, qcp)[i]).0 != upload_slots()[j],
            },
        forall|j: int|
            0 <= j < qcp.len() ==> canonical_order(lens, qcp).contains(
                (CanonicalSlot::Qcp(j as u32), #[trigger] qcp[j]),
            ),
{
    lemma_present(lens, 8);
    let first = present(lens, 8);
    let order = canonical_order(lens, qcp);
    let k = first.len();
    assert forall|i: int, j: int| 0 <= i < j < order.len() implies (#[trigger] order[i]).0 != (
    #[trigger] order[j]).0 by {
        if i < k {
            assert(order[i] == first[i]);
            if j < k {
                assert(order[j] == first[j]);
            }
        }
    }
    assert forall|j: int| 0 <= j < 8 implies match #[trigger] lens[j] {
        Some(len) => order.contains((upload_slots()[j], len)),
        None => forall|i: int|
            0 <= i < order.len() ==> (#[trigger] order[i]).0 != upload_slots()[j],
    } by {
        match lens[j] {
            Some(len) => {
                let e = (upload_slots()[j], len);
                let i = choose|i: int| 0 <= i < first.len() && first[i] == e;
                assert(order[i] == e);
            },
            None => {
                assert forall|i: int| 0 <= i < order.len() implies (#[trigger] order[i]).0
                    != upload_slots()[j] by {
                    if i < k {
                        assert(order[i] == first[i]);
                    }
                }
            },
        }
    }
    assert forall|j: int| 0 <= j < qcp.len() implies order.contains(
        (CanonicalSlot::Qcp(j as u32), #[trigger] qcp[j]),
    ) by {
        assert(order[k + j] == (CanonicalSlot::Qcp(j as u32), qcp[j]));
    }
}

/// The length of the polynomial of a slot, where it is kept.
pub open spec fn held_len(entries: Seq<CanonicalEntry>, slot: CanonicalSlot) -> Option<usize> {
    match entry_of(entries, slot) {
        Some((_, len)) => Some(len),
        None => None,
    }
}

/// Where every upload goes well, the cache holds the polynomials that are not zero and all
/// selectors of BSB22 commitments, each with its length, and none that is zero.
pub proof fn law_filled_cache(
    lens: Seq<Option<usize>>,
    qcp: Seq<usize>,
    addresses: Seq<Option<u64>>,
)
    requires
        lens.len() == 8,
        qcp.len() <= u32::MAX,
        addresses.len() == canonical_order(lens, qcp).len(),
        forall|i: int| 0 <= i < addresses.len() ==> (#[trigger] addresses[i]) is Some,
    ensures
        forall|j: int|
            0 <= j < 8 ==> held_len(
                kept(canonical_order(lens, qcp), addresses),
                #[trigger] upload_slots()[j],
            ) == lens[j],
        forall|j: int|
            0 <= j < qcp.len() ==> held_len(
                kept(canonical_order(lens, qcp), addresses),
                CanonicalSlot::Qcp(j as u32),
            ) == Some(#[trigger] qcp[j]),
{
    let order = canonical_order(lens, qcp);
    let entries = kept(order, addresses);
    law_zero_is_left_out(lens, qcp);
    assert forall|j: int| 0 <= j < 8 implies held_len(entries, #[trigger] upload_slots()[j])
        == lens[j] by {
        match lens[j] {
            Some(len) => {
                let e = (upload_slots()[j], len);
                let i = choose|i: int| 0 <= i < order.len() && order[i] == e;
                law_kept_is_found(order, addresses, i);
                assert(addresses[i] is Some);
            },
            None => {
                law_untried_is_not_found(order, addresses, upload_slots()[j]);
            },
        }
    }
    assert forall|j: int| 0 <= j < qcp.len() implies held_len(
        entries,
        CanonicalSlot::Qcp(j as u32),
    ) == Some(#[trigger] qcp[j]) by {
        let e = (CanonicalSlot::Qcp(j as u32), qcp[j]);
        let i = choose|i: int| 0 <= i < order.len() && order[i] == e;
        law_kept_is_found(order, addresses, i);
        assert(addresses[i] is Some);
    }
}

/// An upload is found again under its slot, and changes what no other slot gives.
pub proof fn law_upload_is_found(
    entries: Seq<CanonicalEntry>,
    e: CanonicalEntry,
    slot: CanonicalSlot,
)
    ensures
        entry_of(entries.push(e), e.slot) == Some((e.address, e.len)),
        slot != e.slot ==> entry_of(entries.push(e), slot) == entry_of(entries, slot),
{
    assert(entries.push(e).drop_last() =~= entries);
}

/// Each polynomial that is kept has the length that was given for the polynomial of its
/// name: `ql`, `qr`, `qo`, `qk`, `s1`, `s2`, `s3` and `qm`, in this order.
pub proof fn law_slots_by_name(
    lens: Seq<Option<usize>>,
    qcp: Seq<usize>,
    addresses: Seq<Option<u64>>,
)
    requires
        lens.len() == 8,
        qcp.len() <= u32::MAX,
        addresses.len() == canonical_order(lens, qcp).len(),
        forall|i: int| 0 <= i < addresses.len() ==> (#[trigger] addresses[i]) is Some,
    ensures
        ({
            let entries = kept(canonical_order(lens, qcp), addresses);
            &&& held_len(entries, CanonicalSlot::Ql) == lens[0]
            &&& held_len(entries, CanonicalSlot::Qr) == lens[1]
            &&& held_len(entries, CanonicalSlot::Qo) == lens[2]
            &&& held_len(entries, CanonicalSlot::Qk) == lens[3]
            &&& held_len(entries, CanonicalSlot::S1) == lens[4]
            &&& held_len(entries, CanonicalSlot::S2) == lens[5]
            &&& held_len(entries, CanonicalSlot::S3) == lens[6]
            &&& held_len(entries, CanonicalSlot::Qm) == lens[7]
        }),
{
    law_filled_cache(lens, qcp, addresses);
    let s = upload_slots();
    assert(s[0] == CanonicalSlot::Ql && s[1] == CanonicalSlot::Qr && s[2] == CanonicalSlot::Qo);
    assert(s[3] == CanonicalSlot::Qk && s[4] == CanonicalSlot::S1 && s[5] == CanonicalSlot::S2);
    assert(s[6] == CanonicalSlot::S3 && s[7] == CanonicalSlot::Qm);
}

} // verus!
