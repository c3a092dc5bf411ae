//! Counting of equal scalars.

use crate::fields::Fr;
use crate::sums;
use std::collections::HashMap;
use vstd::prelude::*;

verus! {

/// How often a value occurs.
pub open spec fn occurrences(s: Seq<Fr>, v: Fr) -> nat
    decreases s.len(),
{
    if s.len() == 0 {
        0
    } else {
        occurrences(s.drop_last(), v) + if s.last() == v {
            1nat
        } else {
            0nat
        }
    }
}

/// The values that occur, each once, in the order in which they first occur.
pub open spec fn distinct(s: Seq<Fr>) -> Seq<Fr>
    decreases s.len(),
{
    if s.len() == 0 {
        seq![]
    } else if distinct(s.drop_last()).contains(s.last()) {
        distinct(s.drop_last())
    } else {
        distinct(s.drop_last()).push(s.last())
    }
}

/// The values that pass a test, in order.
pub open spec fn chosen(s: Seq<Fr>, test: spec_fn(Fr) -> bool) -> Seq<Fr>
    decreases s.len(),
{
    if s.len() == 0 {
        seq![]
    } else if test(s.last()) {
        chosen(s.drop_last(), test).push(s.last())
    } else {
        chosen(s.drop_last(), test)
    }
}

/// Every place at which a value stands is counted once.
pub proof fn law_occurrences(s: Seq<Fr>, v: Fr)
    ensures
        occurrences(s, v) == sums::sum(
            |i: int|
                if s[i] == v {
                    1int
                } else {
                    0
                },
            s.len(),
        ),
    decreases s.len(),
{
    let f = |i: int|
        if s[i] == v {
            1int
        } else {
            0
        };
    if s.len() > 0 {
        let t = s.drop_last();
        law_occurrences(t, v);
        let g = |i: int|
            if t[i] == v {
                1int
            } else {
                0
            };
        assert forall|i: int| 0 <= i < t.len() implies #[trigger] g(i) == f(i) by {
            assert(t[i] == s[i]);
        }
        sums::lemma_sum_eq(g, f, t.len());
        assert(sums::sum(f, s.len()) == sums::sum(f, t.len()) + f(t.len() as int));
    }
}

/// A value occurs at most as often as there are places.
pub proof fn lemma_occurrences_bound(s: Seq<Fr>, v: Fr)
    ensures
        occurrences(s, v) <= s.len(),
    decreases s.len(),
{
    if s.len() > 0 {
        lemma_occurrences_bound(s.drop_last(), v);
    }
}

/// Nothing occurs of a value that is not among the distinct ones.
pub proof fn lemma_occurrences_absent(s: Seq<Fr>, v: Fr)
    requires
        !distinct(s).contains(v),
    ensures
        occurrences(s, v) == 0,
    decreases s.len(),
{
    if s.len() > 0 {
        let d = distinct(s.drop_last());
        if d.contains(v) {
            let j = choose|j: int| 0 <= j < d.len() && d[j] == v;
            assert(distinct(s)[j] == v);
        }
        lemma_occurrences_absent(s.drop_last(), v);
        if s.last() == v {
            if !d.contains(v) {
                assert(distinct(s)[d.len() as int] == v);
            }
        }
    }
}

/// The distinct values occur only once among themselves.
pub proof fn lemma_distinct(s: Seq<Fr>)
    ensures
        distinct(s).no_duplicates(),
        forall|j: int| 0 <= j < s.len() ==> distinct(s).contains(#[trigger] s[j]),
        forall|v: Fr| distinct(s).contains(v) ==> #[trigger] s.contains(v),
    decreases s.len(),
{
    if s.len() > 0 {
        let d = distinct(s.drop_last());
        lemma_distinct(s.drop_last());
        assert forall|j: int| 0 <= j < s.len() implies distinct(s).contains(#[trigger] s[j]) by {
            if j < s.len() - 1 {
                assert(s.drop_last()[j] == s[j]);
                let k = choose|k: int| 0 <= k < d.len() && d[k] == s[j];
                assert(distinct(s)[k] == s[j]);
            } else if !d.contains(s.last()) {
                assert(distinct(s)[d.len() as int] == s.last());
            }
        }
        assert forall|v: Fr| distinct(s).contains(v) implies #[trigger] s.contains(v) by {
            let k = choose|k: int| 0 <= k < distinct(s).len() && distinct(s)[k] == v;
            if k < d.len() {
                assert(d[k] == v);
                assert(s.drop_last().contains(v));
                let i = choose|i: int| 0 <= i < s.drop_last().len() && s.drop_last()[i] == v;
                assert(s[i] == v);
            } else {
                assert(s[s.len() - 1] == v);
            }
        }
    }
}

/// The distinct values of a sequence and how often each occurs. Values with the
/// same lowest limb are chained from the newest to the oldest.
pub struct Tally {
    values: Vec<Fr>,
    counts: Vec<usize>,
    older: Vec<Option<usize>>,
    newest: HashMap<u64, usize>,
}

impl Tally {
    /// The distinct values that were counted.
    pub closed spec fn values(self) -> Seq<Fr> {
        self.values@
    }

    /// How often each of them was counted.
    pub closed spec fn counts(self) -> Seq<usize> {
        self.counts@
    }

    spec fn chained(self) -> bool {
        &&& self.older@.len() == self.values@.len()
        &&& forall|j: int|
            0 <= j < self.values@.len() ==> {
                &&& self.newest@.contains_key((#[trigger] self.values@[j]).0[0])
                &&& self.newest@[self.values@[j].0[0]] >= j
            }
        &&& forall|k: u64| #[trigger]
            self.newest@.contains_key(k) ==> {
                &&& self.newest@[k] < self.values@.len()
                &&& self.values@[self.newest@[k] as int].0[0] == k
            }
        &&& forall|j: int|
            0 <= j < self.older@.len() ==> match #[trigger] self.older@[j] {
                Some(p) => {
                    &&& p < j
                    &&& self.values@[p as int].0[0] == self.values@[j].0[0]
                    &&& forall|i: int|
                        p < i < j ==> (#[trigger] self.values@[i]).0[0] != self.values@[j].0[0]
                },
                None => forall|i: int|
                    0 <= i < j ==> (#[trigger] self.values@[i]).0[0] != self.values@[j].0[0],
            }
    }

    /// The tally is that of the sequence.
    pub closed spec fn counts_of(self, s: Seq<Fr>) -> bool {
        &&& self.values@ == distinct(s)
        &&& self.counts@.len() == self.values@.len()
        &&& self.chained()
        &&& forall|j: int|
            0 <= j < self.counts@.len() ==> (#[trigger] self.counts@[j]) == occurrences(
                s,
                self.values@[j],
            )
    }

    /// What the tally of a sequence holds.
    pub proof fn lemma_counts_of(self, s: Seq<Fr>)
        requires
            self.counts_of(s),
        ensures
            self.values() == distinct(s),
            self.counts().len() == distinct(s).len(),
            forall|j: int|
                0 <= j < self.counts().len() ==> (#[trigger] self.counts()[j]) == occurrences(
                    s,
                    distinct(s)[j],
                ),
    {
    }

    /// A tally of nothing.
    pub fn new() -> (r: Self)
        ensures
            r.counts_of(Seq::empty()),
    {
        Tally { values: Vec::new(), counts: Vec::new(), older: Vec::new(), newest: HashMap::new() }
    }

    /// The number of distinct values.
    pub fn len(&self) -> (r: usize)
        ensures
            r == self.values().len(),
    {
        self.values.len()
    }

    /// A distinct value.
    pub fn value(&self, j: usize) -> (r: Fr)
        requires
            j < self.values().len(),
        ensures
            r == self.values()[j as int],
    {
        self.values[j]
    }

    /// How often a distinct value was counted.
    pub fn count(&self, j: usize) -> (r: usize)
        requires
            j < self.counts().len(),
        ensures
            r == self.counts()[j as int],
    {
        self.counts[j]
    }

    /// Where a value stands among the distinct ones.
    pub fn find(&self, v: &Fr, Ghost(s): Ghost<Seq<Fr>>) -> (r: Option<usize>)
        requires
            self.counts_of(s),
        ensures
            match r {
                Some(j) => j < self.values().len() && self.values()[j as int] == v,
                None => !self.values().contains(*v),
            },
    {
        broadcast use vstd::std_specs::hash::group_hash_axioms;

        let key = v.0[0];
        let mut at: Option<usize> = match self.newest.get(&key) {
            Some(j) => Some(*j),
            None => None,
        };
        loop
            invariant
                self.chained(),
                key == v.0[0],
                match at {
                    Some(j) => {
                        &&& j < self.values@.len()
                        &&& self.values@[j as int].0[0] == key
                        &&& forall|i: int|
                            j < i < self.values@.len() ==> #[trigger] self.values@[i] != v
                    },
                    None => !self.values@.contains(*v),
                },
            decreases
                    (match at {
                        Some(j) => j + 1,
                        None => 0,
                    }),
        {
            match at {
                Some(j) => {
                    if self.values[j] == *v {
                        return Some(j);
                    }
                    at = self.older[j];
                },
                None => {
                    return None;
                },
            }
        }
    }

    /// Count one more value.
    pub fn add(&mut self, v: Fr, Ghost(s): Ghost<Seq<Fr>>)
        requires
            old(self).counts_of(s),
            s.len() < usize::MAX,
        ensures
            final(self).counts_of(s.push(v)),
    {
        broadcast use vstd::std_specs::hash::group_hash_axioms;

        let ghost t = s.push(v);
        let ghost before = *self;
        proof {
            assert(t.drop_last() =~= s);
        }
        match self.find(&v, Ghost(s)) {
            Some(j) => {
                proof {
                    lemma_occurrences_bound(s, v);
                    lemma_distinct(s);
                    assert(distinct(s)[j as int] == v);
                }
                let c: usize = self.counts[j];
                self.counts.set(j, c + 1);
            },
            None => {
                let n = self.values.len();
                let head: Option<usize> = match self.newest.get(&v.0[0]) {
                    Some(j) => Some(*j),
                    None => None,
                };
                proof {
                    lemma_occurrences_absent(s, v);
                }
                self.values.push(v);
                self.counts.push(1);
                self.older.push(head);
                self.newest.insert(v.0[0], n);
            },
        }
    }
}

/// Count all values of a slice.
pub fn count_all(s: &[Fr]) -> (r: Tally)
    ensures
        r.counts_of(s@),
{
    let mut t = Tally::new();
    assert(s@.take(0) =~= Seq::<Fr>::empty());
    for i in 0..s.len()
        invariant
            t.counts_of(s@.take(i as int)),
    {
        assert(s@.take(i as int).push(s@[i as int]) =~= s@.take(i + 1));
        t.add(s[i], Ghost(s@.take(i as int)));
    }
    assert(s@.take(s@.len() as int) =~= s@);
    t
}

} // verus!
