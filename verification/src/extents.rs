//! A set of byte ranges, for the questions "does this range touch the
//! image's metadata" and "does it touch a grain table".

use vstd::prelude::*;

verus! {

/// A set of byte ranges, kept sorted and merged so an overlap query is a
/// binary search: a grain directory can name tens of thousands of
/// tables, and the read path asks once per grain.
#[derive(Debug)]
pub struct Extents(pub Vec<(u64, u64)>);

/// Whether one of `ranges[from..to]` holds byte `b`.
spec fn covered(ranges: Seq<(u64, u64)>, from: int, to: int, b: int) -> bool {
    exists|k: int| from <= k < to && (#[trigger] ranges[k]).0 <= b < ranges[k].1
}

impl Default for Extents {
    fn default() -> (r: Self)
        ensures
            r.wf(),
            r.0@.len() == 0,
            forall|b: int| !r.contains(b),
    {
        Extents(Vec::new())
    }
}

impl Extents {
    /// Every range holds a byte, and each ends before the next begins.
    pub open spec fn wf(&self) -> bool {
        &&& forall|i: int| 0 <= i < self.0@.len() ==> (#[trigger] self.0@[i]).0 < self.0@[i].1
        &&& forall|i: int, j: int|
            0 <= i < j < self.0@.len() ==> (#[trigger] self.0@[i]).1 < (#[trigger] self.0@[j]).0
    }

    /// Whether byte `b` is in the set.
    pub open spec fn contains(&self, b: int) -> bool {
        exists|i: int| 0 <= i < self.0@.len() && (#[trigger] self.0@[i]).0 <= b < self.0@[i].1
    }

    /// Whether some range of the set starts before `end` and ends after
    /// `start`.
    pub open spec fn meets(&self, start: int, end: int) -> bool {
        exists|i: int|
            0 <= i < self.0@.len() && (#[trigger] self.0@[i]).0 < end && start < self.0@[i].1
    }

    /// For a range that is not empty, meeting the set is sharing a byte
    /// with it.
    pub proof fn law_meets_is_a_shared_byte(&self, start: int, end: int)
        requires
            self.wf(),
            start < end,
        ensures
            self.meets(start, end) <==> exists|b: int|
                start <= b < end && #[trigger] self.contains(b),
    {
        if self.meets(start, end) {
            let i = choose|i: int|
                0 <= i < self.0@.len() && (#[trigger] self.0@[i]).0 < end && start < self.0@[i].1;
            let b = if self.0@[i].0 > start {
                self.0@[i].0 as int
            } else {
                start
            };
            assert(self.contains(b));
        }
        if exists|b: int| start <= b < end && #[trigger] self.contains(b) {
            let b = choose|b: int| start <= b < end && #[trigger] self.contains(b);
            let i = choose|i: int|
                0 <= i < self.0@.len() && (#[trigger] self.0@[i]).0 <= b < self.0@[i].1;
            assert(self.0@[i].0 < end && start < self.0@[i].1);
        }
    }

    /// The index of the first range that ends at `start` or later, or past
    /// it when `strictly` is set.
    fn first_reaching(&self, start: u64, strictly: bool) -> (i: usize)
        requires
            self.wf(),
        ensures
            i <= self.0@.len(),
            forall|k: int|
                0 <= k < i ==> (#[trigger] self.0@[k]).1 < start || strictly && self.0@[k].1
                    == start,
            forall|k: int|
                i <= k < self.0@.len() ==> (#[trigger] self.0@[k]).1 > start || !strictly
                    && self.0@[k].1 == start,
    {
        let mut lo: usize = 0;
        let mut hi: usize = self.0.len();
        while lo < hi
            invariant
                self.wf(),
                0 <= lo <= hi <= self.0@.len(),
                forall|k: int|
                    0 <= k < lo ==> (#[trigger] self.0@[k]).1 < start || strictly && self.0@[k].1
                        == start,
                forall|k: int|
                    hi <= k < self.0@.len() ==> (#[trigger] self.0@[k]).1 > start || !strictly
                        && self.0@[k].1 == start,
            decreases hi - lo,
        {
            let mid: usize = lo + (hi - lo) / 2;
            let reach: u64 = self.0[mid].1;
            if reach < start || strictly && reach == start {
                assert forall|k: int| 0 <= k <= mid implies (#[trigger] self.0@[k]).1 < start
                    || strictly && self.0@[k].1 == start by {
                    if k < mid {
                        assert(self.0@[k].1 < self.0@[mid as int].0);
                    }
                }
                lo = mid + 1;
            } else {
                assert forall|k: int| mid <= k < self.0@.len() implies (#[trigger] self.0@[k]).1
                    > start || !strictly && self.0@[k].1 == start by {
                    if k > mid {
                        assert(self.0@[mid as int].1 < self.0@[k].0);
                    }
                }
                hi = mid;
            }
        }
        lo
    }

    /// Add `[start, end)`, merging it with anything it touches.
    #[verifier::spinoff_prover]
    #[verifier::rlimit(40)]
    pub fn insert(&mut self, start: u64, end: u64)
        requires
            old(self).wf(),
        ensures
            final(self).wf(),
            forall|b: int|
                #[trigger] final(self).contains(b) <==> old(self).contains(b) || start <= b < end,
            start >= end ==> final(self).0@ == old(self).0@,
    {
        if start >= end {
            return;
        }
        let ghost before = *self;
        let first: usize = self.first_reaching(start, false);
        let len: usize = self.0.len();
        let mut kept: Vec<(u64, u64)> = Vec::new();
        let mut i: usize = 0;
        while i < first
            invariant
                0 <= i <= first <= len,
                len == self.0@.len(),
                kept@ == self.0@.subrange(0, i as int),
            decreases first - i,
        {
            kept.push(self.0[i]);
            i += 1;
        }
        let mut s: u64 = start;
        let mut e: u64 = end;
        let mut j: usize = first;
        while j < len && self.0[j].0 <= e
            invariant
                *self == before,
                self.wf(),
                len == self.0@.len(),
                first <= j <= len,
                s <= start < end <= e,
                forall|k: int| first <= k < len ==> (#[trigger] self.0@[k]).1 >= start,
                forall|k: int| first <= k < j ==> s <= (#[trigger] self.0@[k]).0 && self.0@[k].1 <= e,
                s == start || first < j && s == self.0@[first as int].0,
                e == end || first < j && e == self.0@[j - 1].1,
                forall|b: int|
                    s <= b < e ==> start <= b < end || #[trigger] covered(
                        self.0@,
                        first as int,
                        j as int,
                        b,
                    ),
            decreases len - j,
        {
            let ghost s0 = s;
            let ghost e0 = e;
            let range: (u64, u64) = self.0[j];
            if range.0 < s {
                s = range.0;
            }
            if range.1 > e {
                e = range.1;
            }
            proof {
                if first < j {
                    assert(self.0@[first as int].1 < self.0@[j as int].0);
                    assert(self.0@[j - 1].1 < self.0@[j as int].0);
                }
                assert forall|b: int| s <= b < e implies start <= b < end || #[trigger] covered(
                    self.0@,
                    first as int,
                    j + 1,
                    b,
                ) by {
                    if s0 <= b < e0 {
                        if !(start <= b < end) {
                            assert(covered(self.0@, first as int, j as int, b));
                            let k = choose|k: int|
                                first <= k < j && (#[trigger] self.0@[k]).0 <= b < self.0@[k].1;
                            assert(self.0@[k].0 <= b < self.0@[k].1);
                        }
                    } else {
                        assert(self.0@[j as int].0 <= b < self.0@[j as int].1);
                    }
                }
            }
            j += 1;
        }
        kept.push((s, e));
        let ghost merged = kept@;
        let mut m: usize = j;
        while m < len
            invariant
                j <= m <= len,
                len == self.0@.len(),
                merged.len() == first + 1,
                kept@ == merged + self.0@.subrange(j as int, m as int),
            decreases len - m,
        {
            kept.push(self.0[m]);
            m += 1;
        }
        assert(kept@ == merged + before.0@.subrange(j as int, len as int));
        self.0 = kept;
        proof {
            let n = self.0@;
            assert(n.len() == first + 1 + (len - j));
            assert forall|k: int| 0 <= k < n.len() implies #[trigger] n[k] == (if k < first {
                before.0@[k]
            } else if k == first {
                (s, e)
            } else {
                before.0@[k - first - 1 + j]
            }) by {}
            assert forall|a: int, b: int| 0 <= a < b < n.len() implies (#[trigger] n[a]).1 < (
            #[trigger] n[b]).0 by {
                if b < first {
                    assert(before.0@[a].1 < before.0@[b].0);
                } else if b == first {
                    assert(before.0@[a].1 < start);
                    if first < j {
                        assert(before.0@[a].1 < before.0@[first as int].0);
                    }
                } else {
                    let q = b - first - 1 + j;
                    assert(before.0@[q].0 > e || q > j);
                    if q > j {
                        assert(before.0@[j as int].1 < before.0@[q].0);
                        assert(before.0@[j as int].0 < before.0@[j as int].1);
                    }
                    if a < first {
                        assert(before.0@[a].1 < before.0@[q].0);
                    } else if a > first {
                        assert(before.0@[a - first - 1 + j].1 < before.0@[q].0);
                    }
                }
            }
            assert(self.wf());
            assert forall|b: int| #[trigger] self.contains(b) <==> before.contains(b) || start <= b
                < end by {
                if self.contains(b) {
                    let k = choose|k: int| 0 <= k < n.len() && (#[trigger] n[k]).0 <= b < n[k].1;
                    if k < first {
                        assert(before.0@[k].0 <= b < before.0@[k].1);
                    } else if k > first {
                        let q = k - first - 1 + j;
                        assert(before.0@[q].0 <= b < before.0@[q].1);
                    } else if !(start <= b < end) {
                        assert(covered(before.0@, first as int, j as int, b));
                        let q = choose|q: int|
                            first <= q < j && (#[trigger] before.0@[q]).0 <= b < before.0@[q].1;
                        assert(before.0@[q].0 <= b < before.0@[q].1);
                    }
                }
                if before.contains(b) {
                    let k = choose|k: int|
                        0 <= k < before.0@.len() && (#[trigger] before.0@[k]).0 <= b
                            < before.0@[k].1;
                    if k < first {
                        assert(n[k] == before.0@[k]);
                    } else if k < j {
                        assert(n[first as int] == (s, e));
                    } else {
                        assert(n[k - j + first + 1] == before.0@[k]);
                    }
                }
                if start <= b < end {
                    assert(n[first as int] == (s, e));
                }
            }
        }
    }

    /// Whether `[start, end)` shares a byte with the set.
    pub fn overlaps(&self, start: u64, end: u64) -> (r: bool)
        requires
            self.wf(),
        ensures
            r <==> exists|b: int| start <= b < end && #[trigger] self.contains(b),
            start < end ==> r == self.meets(start as int, end as int),
    {
        // An empty range shares no byte with anything.
        if start >= end {
            return false;
        }
        let i: usize = self.first_reaching(start, true);
        let r: bool = i < self.0.len() && self.0[i].0 < end;
        proof {
            if r {
                assert(self.0@[i as int].0 < end && start < self.0@[i as int].1);
            }
            if self.meets(start as int, end as int) {
                let k = choose|k: int|
                    0 <= k < self.0@.len() && (#[trigger] self.0@[k]).0 < end && start
                        < self.0@[k].1;
                assert(i <= k);
                if i < k {
                    assert(self.0@[i as int].1 < self.0@[k].0);
                    assert(self.0@[i as int].0 < self.0@[i as int].1);
                }
            }
            self.law_meets_is_a_shared_byte(start as int, end as int);
        }
        r
    }
}

} // verus!
