//! Remembered set: values written into the old generation that may refer
//! into the young generation. They serve as extra roots.
//!
//! A chained hash table keyed by the value's raw word: each bucket lists the
//! positions of its values in the sequence of values in insertion order. The
//! table doubles its buckets and rehashes when it holds more than twice as
//! many values as buckets.
use vstd::prelude::*;
use crate::value::Value;

verus! {

/// Number of buckets of a new set.
pub const INITIAL_TABLE_LENGTH: usize = 1024;

pub struct RememberedSet {
    entries: Vec<Value>,
    buckets: Vec<Vec<usize>>,
}

/// The bucket of a value among `n` buckets.
pub open spec fn bucket_of(v: Value, n: int) -> int {
    v.raw as int % n
}

/// Buckets that index `entries` by hash: every position is in the bucket
/// of its value, and every bucket lists positions of its values only.
pub open spec fn buckets_index(entries: Seq<Value>, buckets: Seq<Seq<usize>>, upto: int) -> bool {
    &&& forall|b: int, j: int| 0 <= b < buckets.len() && 0 <= j < buckets[b].len() ==> {
        &&& (#[trigger] buckets[b][j]) < upto
        &&& bucket_of(entries[buckets[b][j] as int], buckets.len() as int) == b
    }
    &&& forall|i: int| 0 <= i < upto ==> #[trigger] lists(buckets[bucket_of(entries[i], buckets.len() as int)], i)
}

/// The bucket lists the position `i`.
pub open spec fn lists(bucket: Seq<usize>, i: int) -> bool {
    exists|j: int| 0 <= j < bucket.len() && bucket[j] as int == i
}

/// The contents of the buckets.
pub open spec fn bucket_contents(buckets: Seq<Vec<usize>>) -> Seq<Seq<usize>> {
    Seq::new(buckets.len(), |b: int| buckets[b]@)
}

/// A value's bucket is one of the buckets.
pub proof fn lemma_bucket_in_range(v: Value, n: int)
    requires
        n > 0,
    ensures
        0 <= bucket_of(v, n) < n,
{
    vstd::arithmetic::div_mod::lemma_mod_pos_bound(v.raw as int, n);
}

impl RememberedSet {
    /// The values in the set.
    pub closed spec fn view(&self) -> Set<Value> {
        self.entries@.to_set()
    }

    /// The values in the order in which they were first inserted.
    pub closed spec fn values(&self) -> Seq<Value> {
        self.entries@
    }

    spec fn bucket_views(&self) -> Seq<Seq<usize>> {
        bucket_contents(self.buckets@)
    }

    pub closed spec fn wf(&self) -> bool {
        &&& self.entries@.no_duplicates()
        &&& self.buckets@.len() > 0
        &&& self.buckets@.len() <= usize::MAX / 4
        &&& buckets_index(self.entries@, self.bucket_views(), self.entries@.len() as int)
    }

    fn empty_buckets(n: usize) -> (r: Vec<Vec<usize>>)
        ensures
            r@.len() == n,
            forall|b: int| 0 <= b < n ==> (#[trigger] r@[b])@.len() == 0,
    {
        let mut buckets: Vec<Vec<usize>> = Vec::new();
        let mut i: usize = 0;
        while i < n
            invariant
                i <= n,
                buckets@.len() == i,
                forall|b: int| 0 <= b < i ==> (#[trigger] buckets@[b])@.len() == 0,
            decreases n - i,
        {
            buckets.push(Vec::new());
            i = i + 1;
        }
        buckets
    }

    pub fn new() -> (r: RememberedSet)
        ensures
            r.wf(),
            r@ == Set::<Value>::empty(),
            r.values() == Seq::<Value>::empty(),
    {
        let r = RememberedSet { entries: Vec::new(), buckets: Self::empty_buckets(INITIAL_TABLE_LENGTH) };
        proof {
            assert(r@ =~= Set::<Value>::empty());
        }
        r
    }

    pub fn contains(&self, value: Value) -> (r: bool)
        requires
            self.wf(),
        ensures
            r == self@.contains(value),
    {
        let b = value.raw % self.buckets.len();
        let ghost bv = self.bucket_views();
        let mut j: usize = 0;
        while j < self.buckets[b].len()
            invariant
                self.wf(),
                b < self.buckets@.len(),
                bv == self.bucket_views(),
                b == bucket_of(value, self.buckets@.len() as int),
                j <= self.buckets@[b as int]@.len(),
                forall|m: int| 0 <= m < j ==> self.entries@[self.buckets@[b as int]@[m] as int] != value,
            decreases self.buckets@[b as int]@.len() - j,
        {
            let index = self.buckets[b][j];
            proof {
                assert(bv[b as int][j as int] == index);
            }
            if self.entries[index] == value {
                proof {
                    assert(self.entries@[index as int] == value);
                }
                return true;
            }
            j = j + 1;
        }
        proof {
            if self.entries@.contains(value) {
                let i = choose|i: int| 0 <= i < self.entries@.len() && self.entries@[i] == value;
                lemma_bucket_in_range(value, bv.len() as int);
                assert(bv.len() == self.buckets@.len());
                assert(bucket_of(self.entries@[i], bv.len() as int) == b);
                assert(lists(bv[b as int], i));
                assert(bv[b as int] == self.buckets@[b as int]@);
                let m = choose|m: int| 0 <= m < bv[b as int].len() && bv[b as int][m] as int == i;
                assert(self.buckets@[b as int]@[m] as int == i);
                assert(self.entries@[self.buckets@[b as int]@[m] as int] == value);
            }
        }
        false
    }

    /// Spread the values over `n` new buckets.
    fn rehash(&mut self, n: usize)
        requires
            old(self).wf(),
            0 < n <= usize::MAX / 4,
        ensures
            final(self).wf(),
            final(self).entries == old(self).entries,
            final(self).buckets@.len() == n,
    {
        let mut buckets = Self::empty_buckets(n);
        let mut i: usize = 0;
        while i < self.entries.len()
            invariant
                self.wf(),
                self.entries == old(self).entries,
                0 < n <= usize::MAX / 4,
                buckets@.len() == n,
                i <= self.entries@.len(),
                buckets_index(self.entries@, bucket_contents(buckets@), i as int),
            decreases self.entries@.len() - i,
        {
            let b = self.entries[i].raw % n;
            let ghost before = bucket_contents(buckets@);
            let ghost old_buckets = buckets@;
            buckets[b].push(i);
            proof {
                let after = bucket_contents(buckets@);
                assert forall|c: int| 0 <= c < after.len() implies #[trigger] after[c] == if c == b as int {
                    before[c].push(i)
                } else {
                    before[c]
                } by {
                    if c != b as int {
                        assert(buckets@[c] == old_buckets[c]);
                    }
                }
                assert forall|c: int, j: int| 0 <= c < after.len() && 0 <= j < after[c].len() implies {
                    &&& (#[trigger] after[c][j]) < i + 1
                    &&& bucket_of(self.entries@[after[c][j] as int], after.len() as int) == c
                } by {
                    if c != b as int || j < before[c].len() {
                        assert(after[c][j] == before[c][j]);
                    }
                }
                assert forall|k: int| 0 <= k < i + 1 implies #[trigger] lists(after[bucket_of(self.entries@[k], after.len() as int)], k) by {
                    let c = bucket_of(self.entries@[k], after.len() as int);
                    lemma_bucket_in_range(self.entries@[k], after.len() as int);
                    if k < i {
                        assert(before.len() == after.len());
                        assert(lists(before[bucket_of(self.entries@[k], before.len() as int)], k));
                        let j = choose|j: int| 0 <= j < before[c].len() && before[c][j] as int == k;
                        assert(after[c][j] as int == k);
                    } else {
                        assert(after[c][after[c].len() - 1] as int == k);
                    }
                }
            }
            i = i + 1;
        }
        self.buckets = buckets;
    }

    /// Insert a value; inserting a value that is present changes nothing.
    pub fn insert(&mut self, value: Value)
        requires
            old(self).wf(),
        ensures
            final(self).wf(),
            final(self)@ == old(self)@.insert(value),
            old(self)@.contains(value) ==> final(self).values() == old(self).values(),
            !old(self)@.contains(value) ==> final(self).values() == old(self).values().push(value),
    {
        if !self.contains(value) {
            let index = self.entries.len();
            let b = value.raw % self.buckets.len();
            let ghost before = self.bucket_views();
            let ghost old_buckets = self.buckets@;
            self.entries.push(value);
            self.buckets[b].push(index);
            proof {
                let after = self.bucket_views();
                assert forall|c: int| 0 <= c < after.len() implies #[trigger] after[c] == if c == b as int {
                    before[c].push(index)
                } else {
                    before[c]
                } by {
                    if c != b as int {
                        assert(self.buckets@[c] == old_buckets[c]);
                    }
                }
                let e = self.entries@;
                assert(e == old(self).entries@.push(value));
                assert forall|c: int, j: int| 0 <= c < after.len() && 0 <= j < after[c].len() implies {
                    &&& (#[trigger] after[c][j]) < e.len()
                    &&& bucket_of(e[after[c][j] as int], after.len() as int) == c
                } by {
                    if c != b as int || j < before[c].len() {
                        assert(after[c][j] == before[c][j]);
                        assert(e[after[c][j] as int] == old(self).entries@[before[c][j] as int]);
                    }
                }
                assert forall|k: int| 0 <= k < e.len() implies #[trigger] lists(after[bucket_of(e[k], after.len() as int)], k) by {
                    let c = bucket_of(e[k], after.len() as int);
                    lemma_bucket_in_range(e[k], after.len() as int);
                    if k < index {
                        assert(e[k] == old(self).entries@[k]);
                        assert(before.len() == after.len());
                        assert(old(self).wf());
                        assert(lists(before[bucket_of(old(self).entries@[k], before.len() as int)], k));
                        let j = choose|j: int| 0 <= j < before[c].len() && before[c][j] as int == k;
                        assert(after[c][j] as int == k);
                    } else {
                        assert(after[c][after[c].len() - 1] as int == k);
                    }
                }
                assert forall|x: int, y: int| 0 <= x < e.len() && 0 <= y < e.len() && x != y implies e[x] != e[y] by {
                    if x == index as int {
                        assert(old(self).entries@.contains(e[y]) || y == x);
                    }
                    if y == index as int {
                        assert(old(self).entries@.contains(e[x]) || y == x);
                    }
                }
                old(self).entries@.lemma_push_to_set_commute(value);
            }
            if self.entries.len() / 2 > self.buckets.len() && self.buckets.len() <= usize::MAX / 8 {
                let n = 2 * self.buckets.len();
                self.rehash(n);
            }
        }
        proof {
            if old(self)@.contains(value) {
                assert(self@ =~= old(self)@.insert(value));
            }
        }
    }

    /// Number of values in the set.
    pub fn len(&self) -> (r: usize)
        ensures
            r == self.values().len(),
    {
        self.entries.len()
    }

    /// The value at `index` in insertion order.
    pub fn get(&self, index: usize) -> (r: Value)
        requires
            index < self.values().len(),
        ensures
            r == self.values()[index as int],
    {
        self.entries[index]
    }
}

} // verus!
