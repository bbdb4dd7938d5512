//! The caller-supplied input to a clustering session: a mapping from byte
//! sequences to positive occurrence counts.
//!
//! Keys are unique and non-empty; the alphabet is unconstrained by this
//! layer. Iteration order is irrelevant to correctness downstream — the
//! encoded file order is simply the insertion order here, and nothing may
//! depend on it matching any other order.

use vstd::prelude::*;

verus! {

/// Well-formedness of a sequence-to-weight entry list: keys unique and
/// non-empty, weights positive.
pub open spec fn wf_entries(es: Seq<(Vec<u8>, usize)>) -> bool {
    &&& forall|i: int, j: int| 0 <= i < j < es.len() ==> es[i].0@ != es[j].0@
    &&& forall|i: int| 0 <= i < es.len() ==> (#[trigger] es[i]).0@.len() > 0 && es[i].1 >= 1
}

/// Whether the entry list holds the key `k`.
pub open spec fn entries_contain_key(es: Seq<(Vec<u8>, usize)>, k: Seq<u8>) -> bool {
    exists|i: int| 0 <= i < es.len() && (#[trigger] es[i]).0@ == k
}

/// Compares two byte strings for equality.
fn bytes_eq(a: &[u8], b: &[u8]) -> (r: bool)
    ensures
        r <==> a@ == b@,
{
    if a.len() != b.len() {
        return false;
    }
    let mut i: usize = 0;
    while i < a.len()
        invariant
            a@.len() == b@.len(),
            i <= a@.len(),
            forall|k: int| 0 <= k < i ==> a@[k] == b@[k],
        decreases a@.len() - i,
    {
        if a[i] != b[i] {
            return false;
        }
        i = i + 1;
    }
    proof {
        assert(a@ =~= b@);
    }
    true
}

/// A mapping from byte sequences (non-empty) to positive integer weights,
/// with unique keys. Caller-owned and read-only to the clustering session.
pub struct WeightedSequenceSet {
    entries: Vec<(Vec<u8>, usize)>,
}

impl WeightedSequenceSet {
    /// The entries in insertion order.
    pub closed spec fn entries_seq(self) -> Seq<(Vec<u8>, usize)> {
        self.entries@
    }

    /// Keys unique and non-empty, weights positive.
    pub open spec fn well_formed(self) -> bool {
        wf_entries(self.entries_seq())
    }

    /// Whether `k` is one of the stored keys.
    pub open spec fn spec_contains_key(self, k: Seq<u8>) -> bool {
        entries_contain_key(self.entries_seq(), k)
    }

    /// Creates an empty set.
    pub fn new() -> (r: Self)
        ensures
            r.entries_seq() == Seq::<(Vec<u8>, usize)>::empty(),
            r.well_formed(),
    {
        WeightedSequenceSet { entries: Vec::new() }
    }

    /// The number of distinct sequences stored.
    pub fn len(&self) -> (r: usize)
        ensures
            r == self.entries_seq().len(),
    {
        self.entries.len()
    }

    /// Whether `key` is one of the stored keys.
    pub fn contains_key(&self, key: &[u8]) -> (r: bool)
        ensures
            r == self.spec_contains_key(key@),
    {
        let mut i: usize = 0;
        while i < self.entries.len()
            invariant
                i <= self.entries@.len(),
                forall|k: int| 0 <= k < i ==> (#[trigger] self.entries@[k]).0@ != key@,
            decreases self.entries@.len() - i,
        {
            if bytes_eq(self.entries[i].0.as_slice(), key) {
                return true;
            }
            i = i + 1;
        }
        false
    }

    /// The `i`-th entry in insertion order: the sequence and its weight.
    pub fn entry_at(&self, i: usize) -> (r: (&Vec<u8>, usize))
        requires
            i < self.entries_seq().len(),
        ensures
            *r.0 == self.entries_seq()[i as int].0,
            r.1 == self.entries_seq()[i as int].1,
    {
        (&self.entries[i].0, self.entries[i].1)
    }

    /// Adds one weighted sequence. Keys are unique, so the key must not be
    /// present yet; callers replace a weight by rebuilding the set.
    pub fn insert(&mut self, key: Vec<u8>, weight: usize)
        requires
            old(self).well_formed(),
            !old(self).spec_contains_key(key@),
            key@.len() > 0,
            weight >= 1,
        ensures
            final(self).entries_seq() == old(self).entries_seq().push((key, weight)),
            final(self).well_formed(),
    {
        self.entries.push((key, weight));
    }
}

} // verus!
