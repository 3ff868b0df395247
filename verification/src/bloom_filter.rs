use std::collections::hash_map::DefaultHasher;
use std::hash::{Hash, Hasher};
use vstd::prelude::*;

verus! {

/// The number of bits of a filter, sized for about four million elements at a two percent
/// false-positive rate.
pub const M: u64 = 34151547;

/// The number of bits set for each element.
pub const K: u64 = 5;

/// What `DefaultHasher::new()` gives for a text fed to it with `Hash`, then `finish`.
pub uninterp spec fn default_hash(s: Seq<char>) -> u64;

/// `DefaultHasher::new()`, the text hashed into it, `finish()`. Its result is named: a
/// hasher made by `new` is the same in every use within a build, and is not seeded.
#[verifier::external_body]
fn hash_text(element: &str) -> (h: u64)
    ensures
        h == default_hash(element@),
{
    let mut hasher = DefaultHasher::new();
    element.hash(&mut hasher);
    hasher.finish()
}

/// The bit the `i`-th probe of a hash falls on.
pub open spec fn probe(h: u64, i: int) -> int {
    h as int % (M as int + i)
}

/// Every probe of a hash falls inside the filter.
pub open spec fn probes_fit(h: u64) -> bool {
    forall|i: int| 0 <= i < K ==> #[trigger] probe(h, i) < M
}

/// Whether a bit is one of the probes of a hash.
pub open spec fn is_probe(h: u64, j: int) -> bool {
    exists|i: int| 0 <= i < K && #[trigger] probe(h, i) == j
}

/// A filter of bits for probable membership.
pub struct BloomFilter {
    pub bit_array: Vec<bool>,
}

impl BloomFilter {
    /// The filter holds its full number of bits.
    pub open spec fn wf(&self) -> bool {
        self.bit_array@.len() == M
    }

    /// Whether every probe of a hash falls on a set bit.
    pub open spec fn holds_hash(&self, h: u64) -> bool {
        forall|i: int| 0 <= i < K ==> self.bit_array@[#[trigger] probe(h, i)]
    }

    /// An empty filter: all bits clear.
    pub fn new() -> (r: BloomFilter)
        ensures
            r.wf(),
            forall|j: int| 0 <= j < M ==> !r.bit_array@[j],
    {
        let mut bits: Vec<bool> = Vec::new();
        let mut n: u64 = 0;
        while n < M
            invariant
                n <= M,
                bits@.len() == n,
                forall|j: int| 0 <= j < n ==> !bits@[j],
            decreases M - n,
        {
            bits.push(false);
            n += 1;
        }
        BloomFilter { bit_array: bits }
    }

    /// Sets the bits of every probe of a hash.
    pub fn insert_hash(&mut self, h: u64)
        requires
            old(self).wf(),
            probes_fit(h),
        ensures
            final(self).wf(),
            forall|j: int|
                0 <= j < M ==> #[trigger] final(self).bit_array@[j] == (old(self).bit_array@[j] || is_probe(
                    h,
                    j,
                )),
    {
        let mut i: u64 = 0;
        while i < K
            invariant
                i <= K,
                self.wf(),
                probes_fit(h),
                forall|j: int|
                    0 <= j < M ==> self.bit_array@[j] == (old(self).bit_array@[j] || exists|
                        k: int,
                    | 0 <= k < i && #[trigger] probe(h, k) == j),
            decreases K - i,
        {
            assert(probe(h, i as int) < M);
            let idx = (h % (M + i)) as usize;
            assert(idx as int == probe(h, i as int));
            self.bit_array.set(idx, true);
            assert forall|j: int| 0 <= j < M implies self.bit_array@[j] == (old(self).bit_array@[j]
                || exists|k: int| 0 <= k < i + 1 && #[trigger] probe(h, k) == j) by {
                if j == idx as int {
                    assert(probe(h, i as int) == j);
                } else {
                    if exists|k: int| 0 <= k < i + 1 && #[trigger] probe(h, k) == j {
                        let k = choose|k: int| 0 <= k < i + 1 && #[trigger] probe(h, k) == j;
                        assert(k != i);
                    }
                }
            }
            i += 1;
        }
    }

    /// Whether every probe of a hash falls on a set bit.
    pub fn contains_hash(&self, h: u64) -> (b: bool)
        requires
            self.wf(),
            probes_fit(h),
        ensures
            b == self.holds_hash(h),
    {
        let mut i: u64 = 0;
        while i < K
            invariant
                i <= K,
                self.wf(),
                probes_fit(h),
                forall|k: int| 0 <= k < i ==> self.bit_array@[#[trigger] probe(h, k)],
            decreases K - i,
        {
            assert(probe(h, i as int) < M);
            let idx = (h % (M + i)) as usize;
            assert(idx as int == probe(h, i as int));
            if !self.bit_array[idx] {
                return false;
            }
            i += 1;
        }
        true
    }

    /// Inserts an element: sets the bits of every probe of its hash.
    pub fn insert(&mut self, element: &str)
        requires
            old(self).wf(),
            probes_fit(default_hash(element@)),
        ensures
            final(self).wf(),
            forall|j: int|
                0 <= j < M ==> #[trigger] final(self).bit_array@[j] == (old(self).bit_array@[j] || is_probe(
                    default_hash(element@),
                    j,
                )),
    {
        let h = hash_text(element);
        self.insert_hash(h)
    }

    /// Whether an element may have been inserted: every probe of its hash falls on a set
    /// bit.
    pub fn contains(&self, element: &str) -> (b: bool)
        requires
            self.wf(),
            probes_fit(default_hash(element@)),
        ensures
            b == self.holds_hash(default_hash(element@)),
    {
        let h = hash_text(element);
        self.contains_hash(h)
    }

    /// Inserts an element when every probe of its hash falls inside the filter (a probe past
    /// the end would index out of bounds); tells whether it did.
    pub fn try_insert(&mut self, element: &str) -> (done: bool)
        requires
            old(self).wf(),
        ensures
            final(self).wf(),
            done == probes_fit(default_hash(element@)),
            done ==> forall|j: int|
                0 <= j < M ==> #[trigger] final(self).bit_array@[j] == (old(self).bit_array@[j] || is_probe(
                    default_hash(element@),
                    j,
                )),
            !done ==> final(self).bit_array@ == old(self).bit_array@,
    {
        if !Self::fits(hash_text(element)) {
            return false;
        }
        self.insert(element);
        true
    }

    /// Whether an element may have been inserted, when every probe of its hash falls inside
    /// the filter; `None` otherwise.
    pub fn try_contains(&self, element: &str) -> (r: Option<bool>)
        requires
            self.wf(),
        ensures
            match r {
                Some(b) => probes_fit(default_hash(element@)) && b == self.holds_hash(
                    default_hash(element@),
                ),
                None => !probes_fit(default_hash(element@)),
            },
    {
        if !Self::fits(hash_text(element)) {
            return None;
        }
        Some(self.contains(element))
    }

    /// Whether every probe of a hash falls inside the filter.
    pub fn fits(h: u64) -> (b: bool)
        ensures
            b == probes_fit(h),
    {
        let mut i: u64 = 0;
        while i < K
            invariant
                i <= K,
                forall|k: int| 0 <= k < i ==> #[trigger] probe(h, k) < M,
            decreases K - i,
        {
            if h % (M + i) >= M {
                assert(probe(h, i as int) >= M);
                return false;
            }
            i += 1;
        }
        true
    }

    /// The bits.
    pub fn get_array(&self) -> (r: &Vec<bool>)
        ensures
            r@ == self.bit_array@,
    {
        &self.bit_array
    }
}

/// An element inserted is found: after inserting a hash, every probe of it falls on a set
/// bit.
pub proof fn lemma_insert_then_contains(before: BloomFilter, after: BloomFilter, h: u64)
    requires
        before.wf(),
        after.wf(),
        probes_fit(h),
        forall|j: int|
            0 <= j < M ==> #[trigger] after.bit_array@[j] == (before.bit_array@[j] || is_probe(h, j)),
    ensures
        after.holds_hash(h),
{
    assert forall|i: int| 0 <= i < K implies after.bit_array@[#[trigger] probe(h, i)] by {
        assert(is_probe(h, probe(h, i)));
    }
}

/// Inserting keeps what was found: a hash held before an insertion is held after it.
pub proof fn lemma_insert_keeps(before: BloomFilter, after: BloomFilter, h: u64, g: u64)
    requires
        before.wf(),
        after.wf(),
        probes_fit(g),
        before.holds_hash(g),
        forall|j: int|
            0 <= j < M ==> #[trigger] after.bit_array@[j] == (before.bit_array@[j] || is_probe(h, j)),
    ensures
        after.holds_hash(g),
{
    assert forall|i: int| 0 <= i < K implies after.bit_array@[#[trigger] probe(g, i)] by {
        assert(probe(g, i) < M);
        assert(before.bit_array@[probe(g, i)]);
        assert(after.bit_array@[probe(g, i)] == (before.bit_array@[probe(g, i)] || is_probe(
            h,
            probe(g, i),
        )));
    }
}

} // verus!
