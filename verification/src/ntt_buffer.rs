//! The device buffer that the transforms share, and the packing of several
//! polynomials into it.
use crate::fields::Fr;
use vstd::arithmetic::mul::lemma_mul_inequality;
use vstd::arithmetic::mul::lemma_mul_is_distributive_add_other_way;
use vstd::prelude::*;

verus! {

/// Allocations are multiples of 256 MiB.
pub const GRANULARITY: usize = 268_435_456;

/// The smallest multiple of the granularity that holds so many bytes.
pub open spec fn rounded_up(bytes: int) -> int {
    (bytes + GRANULARITY - 1) / (GRANULARITY as int) * GRANULARITY
}

/// The buffer that stays allocated between transforms. It grows where more is
/// needed, and never shrinks.
pub struct NttBuffer {
    pub address: Option<u64>,
    pub capacity: usize,
}

impl NttBuffer {
    /// Only an allocated buffer has a capacity.
    pub open spec fn wf(self) -> bool {
        self.address is None ==> self.capacity == 0
    }

    /// No buffer.
    pub fn new() -> (r: Self)
        ensures
            r.wf(),
            r.address is None,
            r.capacity == 0,
    {
        NttBuffer { address: None, capacity: 0 }
    }

    /// The number of bytes to allocate anew for a transform of so many bytes, or
    /// nothing where the buffer is large enough.
    pub fn request(&self, needed: usize) -> (r: Option<usize>)
        requires
            needed + GRANULARITY <= usize::MAX,
        ensures
            r == (if needed > self.capacity {
                Some(rounded_up(needed as int) as usize)
            } else {
                None
            }),
            r matches Some(bytes) ==> needed <= bytes < needed + GRANULARITY && bytes
                == rounded_up(needed as int),
            r is Some <==> needed > self.capacity,
            r matches Some(bytes) ==> bytes % 268_435_456 == 0 && needed <= bytes < needed
                + 268_435_456,
    {
        if needed <= self.capacity {
            return None;
        }
        let units: usize = (needed + (GRANULARITY - 1)) / GRANULARITY;
        assert(units * GRANULARITY == rounded_up(needed as int));
        Some(units * GRANULARITY)
    }

    /// Hold a new allocation. The address of the old one is handed back, to be freed.
    pub fn record(&mut self, address: u64, bytes: usize) -> (r: Option<u64>)
        ensures
            final(self).wf(),
            final(self).address == Some(address),
            final(self).capacity == bytes,
            r == old(self).address,
    {
        let previous = self.address;
        self.address = Some(address);
        self.capacity = bytes;
        previous
    }

    /// Give the allocation up to the caller, who keeps what a transform left in it.
    pub fn release(&mut self) -> (r: Option<u64>)
        ensures
            final(self).wf(),
            final(self).address is None,
            final(self).capacity == 0,
            r == old(self).address,
    {
        let previous = self.address;
        self.address = None;
        self.capacity = 0;
        previous
    }

    /// Drop the allocation: the address to free, and the number of bytes that this
    /// frees.
    pub fn free_ntt_buffer(&mut self) -> (r: (Option<u64>, usize))
        requires
            old(self).wf(),
        ensures
            final(self).wf(),
            final(self).address is None,
            final(self).capacity == 0,
            r == (old(self).address, old(self).capacity),
            old(self).address is None ==> r.1 == 0,
    {
        let bytes = self.capacity;
        let address = self.release();
        (address, bytes)
    }

    /// The number of bytes of the buffer.
    pub fn ntt_buffer_size(&self) -> (r: usize)
        ensures
            r == self.capacity,
    {
        self.capacity
    }
}

/// A buffer with room for a transform asks for nothing, and a buffer that has grown
/// as it was asked has room.
pub proof fn law_grown_buffer_has_room(needed: int)
    requires
        0 <= needed,
    ensures
        needed <= rounded_up(needed) < needed + GRANULARITY,
        rounded_up(needed) % (GRANULARITY as int) == 0,
        rounded_up(rounded_up(needed)) == rounded_up(needed),
{
}

/// Polynomials behind one another, each with zeros up to the target length.
pub open spec fn packed(polys: Seq<Seq<Fr>>, target: int, zero: Fr) -> Seq<Fr>
    decreases polys.len(),
{
    if polys.len() == 0 {
        Seq::empty()
    } else {
        packed(polys.drop_last(), target, zero) + polys.last() + Seq::new(
            (target - polys.last().len()) as nat,
            |j: int| zero,
        )
    }
}

/// The polynomials of a list.
pub open spec fn rows_of(polys: Seq<Vec<Fr>>) -> Seq<Seq<Fr>> {
    polys.map_values(|p: Vec<Fr>| p@)
}

proof fn lemma_packed_len(polys: Seq<Seq<Fr>>, target: int, zero: Fr)
    requires
        forall|i: int| 0 <= i < polys.len() ==> (#[trigger] polys[i]).len() <= target,
    ensures
        packed(polys, target, zero).len() == polys.len() * target,
    decreases polys.len(),
{
    if polys.len() > 0 {
        lemma_packed_len(polys.drop_last(), target, zero);
        assert(polys.last() == polys[polys.len() - 1]);
        lemma_mul_is_distributive_add_other_way(target, polys.len() - 1, 1);
    } else {
        assert(0 * target == 0);
    }
}

/// The part of a packed sequence at the place of a polynomial is that polynomial
/// with zeros behind it.
pub proof fn law_packed_part(polys: Seq<Seq<Fr>>, target: int, zero: Fr, i: int)
    requires
        0 <= i < polys.len(),
        forall|k: int| 0 <= k < polys.len() ==> (#[trigger] polys[k]).len() <= target,
    ensures
        0 <= i * target,
        (i + 1) * target <= packed(polys, target, zero).len() == polys.len() * target,
        packed(polys, target, zero).subrange(i * target, (i + 1) * target) == polys[i] + Seq::new(
            (target - polys[i].len()) as nat,
            |j: int| zero,
        ),
    decreases polys.len(),
{
    lemma_packed_len(polys, target, zero);
    let front = polys.drop_last();
    lemma_packed_len(front, target, zero);
    assert(polys[i].len() <= target);
    lemma_mul_inequality(0, i, target);
    assert(0 * target == 0);
    lemma_mul_inequality(i + 1, polys.len() as int, target);
    lemma_mul_is_distributive_add_other_way(target, i, 1);
    let all = packed(polys, target, zero);
    let part = all.subrange(i * target, (i + 1) * target);
    if i == polys.len() - 1 {
        assert(part =~= polys[i] + Seq::new((target - polys[i].len()) as nat, |j: int| zero));
    } else {
        law_packed_part(front, target, zero, i);
        assert(front[i] == polys[i]);
        assert(part =~= packed(front, target, zero).subrange(i * target, (i + 1) * target));
    }
}

/// Pack polynomials into one sequence, each with zeros up to the target length.
pub fn pack_padded(polys: &Vec<Vec<Fr>>, target: usize) -> (r: Vec<Fr>)
    requires
        forall|i: int| 0 <= i < polys@.len() ==> (#[trigger] polys@[i])@.len() <= target,
        polys@.len() * target <= usize::MAX,
    ensures
        exists|zero: Fr|
            zero.wf() && zero@ == 0 && r@ == packed(rows_of(polys@), target as int, zero),
{
    let zero = Fr::zero();
    let mut r: Vec<Fr> = Vec::new();
    let ghost rows = rows_of(polys@);
    for i in 0..polys.len()
        invariant
            forall|k: int| 0 <= k < polys@.len() ==> (#[trigger] polys@[k])@.len() <= target,
            rows == rows_of(polys@),
            r@ == packed(rows.take(i as int), target as int, zero),
    {
        let ghost start = r@;
        let len = polys[i].len();
        assert(polys@[i as int]@.len() <= target);
        for j in 0..len
            invariant
                i < polys@.len(),
                len == polys@[i as int]@.len(),
                r@ == start + polys@[i as int]@.take(j as int),
        {
            r.push(polys[i][j]);
            assert(polys@[i as int]@.take(j + 1) =~= polys@[i as int]@.take(j as int).push(
                polys@[i as int]@[j as int],
            ));
        }
        for j in len..target
            invariant
                len <= target,
                r@ == start + polys@[i as int]@ + Seq::new((j - len) as nat, |k: int| zero),
                len == polys@[i as int]@.len(),
        {
            r.push(zero);
            assert(r@ =~= start + polys@[i as int]@ + Seq::new((j + 1 - len) as nat, |k: int| zero));
        }
        proof {
            let taken = rows.take(i + 1);
            assert(taken.drop_last() =~= rows.take(i as int));
            assert(taken.last() == polys@[i as int]@);
        }
    }
    assert(rows.take(polys@.len() as int) =~= rows);
    r
}

/// The parts of equal length of a packed sequence.
pub fn split_packed(all: &[Fr], n: usize, count: usize) -> (r: Vec<Vec<Fr>>)
    requires
        all@.len() == n * count,
    ensures
        r@.len() == count,
        forall|i: int|
            0 <= i < count ==> (#[trigger] r@[i])@ == all@.subrange(i * n, (i + 1) * n),
{
    let total = all.len();
    let mut r: Vec<Vec<Fr>> = Vec::new();
    let mut at: usize = 0;
    proof {
        assert(0 * n == 0);
    }
    for i in 0..count
        invariant
            total == all@.len() == n * count,
            at == i * n,
            r@.len() == i,
            forall|k: int|
                0 <= k < i ==> (#[trigger] r@[k])@ == all@.subrange(k * n, (k + 1) * n),
    {
        proof {
            lemma_mul_is_distributive_add_other_way(n as int, i as int, 1);
            lemma_mul_inequality(i + 1, count as int, n as int);
            assert(count * n == n * count) by (nonlinear_arith);
        }
        let mut part: Vec<Fr> = Vec::new();
        for j in 0..n
            invariant
                at + n <= total == all@.len(),
                part@ == all@.subrange(at as int, at + j),
        {
            part.push(all[at + j]);
            assert(part@ =~= all@.subrange(at as int, at + j + 1));
        }
        r.push(part);
        at = at + n;
    }
    r
}

/// Splitting what was packed gives the polynomials back, where none needs zeros.
pub proof fn law_split_of_packed(polys: Seq<Seq<Fr>>, n: int, zero: Fr, i: int)
    requires
        0 <= i < polys.len(),
        forall|k: int| 0 <= k < polys.len() ==> (#[trigger] polys[k]).len() == n,
    ensures
        packed(polys, n, zero).subrange(i * n, (i + 1) * n) == polys[i],
{
    law_packed_part(polys, n, zero, i);
    assert(polys[i].len() == n);
    assert(polys[i] + Seq::new((n - polys[i].len()) as nat, |j: int| zero) =~= polys[i]);
}

} // verus!
