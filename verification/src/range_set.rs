//! A set of bytes of one backing, kept as sorted, disjoint, coalesced ranges.

use vstd::prelude::*;
use crate::access::ByteRange;

verus! {

/// A sorted, disjoint, coalesced set of half-open byte ranges.
///
/// Two ranges that touch are one range, so equality is structural.
#[derive(Debug, PartialEq, Eq)]
pub struct RangeSet {
    ranges: Vec<ByteRange>,
}

/// Some range of `s` names byte `b`.
pub open spec fn covered(s: Seq<ByteRange>, b: int) -> bool {
    exists|i: int| 0 <= i < s.len() && (#[trigger] s[i]).has(b)
}

/// The range names at least one byte, and none past the address space.
pub open spec fn proper(r: ByteRange) -> bool {
    0 < r.length && r.offset + r.length <= u64::MAX
}

/// Proper ranges in ascending order, with a gap before each next one.
pub open spec fn separated(s: Seq<ByteRange>) -> bool {
    &&& forall|i: int| 0 <= i < s.len() ==> proper(#[trigger] s[i])
    &&& forall|i: int, j: int|
        0 <= i < j < s.len() ==> (#[trigger] s[i]).end() < (#[trigger] s[j]).offset
}

/// The bytes a sequence of ranges names.
pub open spec fn bytes_of(s: Seq<ByteRange>) -> Set<int> {
    Set::new(|b: int| covered(s, b))
}

/// The lengths of the ranges, added up.
pub open spec fn total_length(s: Seq<ByteRange>) -> int
    decreases s.len(),
{
    if s.len() == 0 {
        0
    } else {
        total_length(s.drop_last()) + s.last().length
    }
}

impl View for RangeSet {
    type V = Set<int>;

    /// The bytes in the set.
    open spec fn view(&self) -> Set<int> {
        bytes_of(self.list())
    }
}

impl RangeSet {
    /// The ranges, in order.
    pub closed spec fn list(&self) -> Seq<ByteRange> {
        self.ranges@
    }

    /// The representation invariant, which every `RangeSet` has.
    #[verifier::type_invariant]
    pub open spec fn wf(&self) -> bool {
        separated(self.list())
    }

    #[must_use]
    pub fn new() -> (s: Self)
        ensures
            s.wf(),
            s.list() == Seq::<ByteRange>::empty(),
            s@ == Set::<int>::empty(),
    {
        let s = RangeSet { ranges: Vec::new() };
        assert(s@ =~= Set::<int>::empty());
        s
    }

    #[must_use]
    pub fn from_range(range: ByteRange) -> (s: Self)
        ensures
            s.wf(),
            s@ == range.bytes(),
    {
        let mut s = Self::new();
        s.insert(range);
        assert(s@ =~= range.bytes());
        s
    }

    #[must_use]
    pub fn is_empty(&self) -> (empty: bool)
        ensures
            empty == (self@ == Set::<int>::empty()),
            empty == (self.list().len() == 0),
    {
        proof {
            use_type_invariant(self);
            if self.ranges@.len() > 0 {
                let r = self.ranges@[0];
                assert(r.has(r.offset as int));
                assert(self@.contains(r.offset as int));
            } else {
                assert(self@ =~= Set::<int>::empty());
            }
        }
        self.ranges.is_empty()
    }

    /// The ranges, in order.
    #[must_use]
    pub fn ranges(&self) -> (ranges: &[ByteRange])
        ensures
            self.wf(),
            ranges@ == self.list(),
    {
        proof {
            use_type_invariant(self);
        }
        self.ranges.as_slice()
    }

    /// Total bytes covered.
    #[must_use]
    pub fn len(&self) -> (n: u64)
        ensures
            self@.finite(),
            n == self@.len(),
            n == total_length(self.list()),
    {
        proof {
            use_type_invariant(self);
            lemma_total_length(self.ranges@);
        }
        let mut n: u64 = 0;
        let mut i: usize = 0;
        while i < self.ranges.len()
            invariant
                separated(self.ranges@),
                i <= self.ranges@.len(),
                n == total_length(self.ranges@.take(i as int)),
                i == 0 ==> n == 0,
                i > 0 ==> n <= self.ranges@[i - 1].end(),
            decreases self.ranges.len() - i,
        {
            proof {
                assert(self.ranges@.take(i + 1).drop_last() =~= self.ranges@.take(i as int));
                assert(proper(self.ranges@[i as int]));
            }
            n = n + self.ranges[i].length;
            i = i + 1;
        }
        assert(self.ranges@.take(i as int) =~= self.ranges@);
        n
    }

    /// Add a range, coalescing with anything it touches.
    ///
    /// A range that names no byte of the address space adds nothing.
    pub fn insert(&mut self, range: ByteRange)
        ensures
            final(self).wf(),
            final(self)@ == old(self)@.union(range.bytes()),
    {
        proof {
            use_type_invariant(&*self);
        }
        let ghost before = self.ranges@;
        let range_end: u64 = range.end_of();
        if range_end <= range.offset {
            assert(self@.union(range.bytes()) =~= self@);
            return;
        }
        let mut offset: u64 = range.offset;
        let mut end: u64 = range_end;
        let mut out: Vec<ByteRange> = Vec::new();
        let mut placed = false;
        let mut i: usize = 0;
        while i < self.ranges.len()
            invariant
                self.ranges@ == before,
                separated(before),
                i <= before.len(),
                offset < end,
                separated(out@),
                forall|k: int, j: int|
                    0 <= k < out@.len() && i <= j < before.len() ==> (#[trigger] out@[k]).end()
                        < (#[trigger] before[j]).offset,
                !placed ==> forall|k: int|
                    0 <= k < out@.len() ==> (#[trigger] out@[k]).end() < offset,
                placed ==> forall|j: int| i <= j < before.len() ==> end < (#[trigger] before[j]).offset,
                accounts_for(out@, !placed, offset, end, before.take(i as int), range),
            decreases self.ranges.len() - i,
        {
            let r = self.ranges[i];
            let r_end: u64 = r.end_of();
            let ghost taken = before.take(i as int);
            let ghost prev = out@;
            let ghost mut mid = out@;
            let ghost held = (offset, end, placed);
            let merged = ByteRange { offset, length: end - offset };
            assert(proper(before[i as int]));
            if r_end < offset {
                out.push(r);
            } else if end < r.offset {
                if !placed {
                    out.push(merged);
                    placed = true;
                }
                proof {
                    mid = out@;
                }
                out.push(r);
            } else {
                if r.offset < offset {
                    offset = r.offset;
                }
                if r_end > end {
                    end = r_end;
                }
            }
            i = i + 1;
            proof {
                assert(before.take(i as int) =~= taken.push(r));
                assert forall|b: int|
                    (#[trigger] covered(out@, b) || (!placed && offset <= b < end)) == (covered(
                        taken.push(r),
                        b,
                    ) || range.has(b)) by {
                    lemma_covered_push(taken, r, b);
                    lemma_covered_push(prev, r, b);
                    lemma_covered_push(prev, merged, b);
                    lemma_covered_push(mid, r, b);
                    assert((covered(prev, b) || (!held.2 && held.0 <= b < held.1)) == (covered(taken, b)
                        || range.has(b)));
                }
            }
        }
        assert(before.take(i as int) =~= before);
        if !placed {
            let ghost prev = out@;
            let merged = ByteRange { offset, length: end - offset };
            out.push(merged);
            assert forall|b: int| #[trigger]
                covered(out@, b) == (covered(before, b) || range.has(b)) by {
                lemma_covered_push(prev, merged, b);
                assert((covered(prev, b) || offset <= b < end) == (covered(before, b) || range.has(b)));
            }
        }
        self.ranges = out;
        assert(self@ =~= bytes_of(before).union(range.bytes()));
    }

    /// Remove a range.
    pub fn remove(&mut self, range: ByteRange)
        ensures
            final(self).wf(),
            final(self)@ == old(self)@.difference(range.bytes()),
    {
        proof {
            use_type_invariant(&*self);
        }
        let ghost before = self.ranges@;
        let cut_start: u64 = range.offset;
        let cut_end: u64 = range.end_of();
        if cut_end <= cut_start {
            assert(self@.difference(range.bytes()) =~= self@);
            return;
        }
        let mut out: Vec<ByteRange> = Vec::new();
        let mut i: usize = 0;
        while i < self.ranges.len()
            invariant
                self.ranges@ == before,
                separated(before),
                i <= before.len(),
                cut_start == range.offset,
                cut_end == range.end(),
                cut_start < cut_end,
                separated(out@),
                forall|k: int, j: int|
                    0 <= k < out@.len() && i <= j < before.len() ==> (#[trigger] out@[k]).end()
                        < (#[trigger] before[j]).offset,
                forall|b: int| #[trigger]
                    covered(out@, b) == (covered(before.take(i as int), b) && !range.has(b)),
            decreases self.ranges.len() - i,
        {
            let r = self.ranges[i];
            let r_end: u64 = r.end_of();
            let ghost taken = before.take(i as int);
            let ghost prev = out@;
            let ghost mut mid = out@;
            let ghost mut left = r;
            let ghost mut right = r;
            assert(proper(before[i as int]));
            if r_end <= cut_start || cut_end <= r.offset {
                out.push(r);
            } else {
                if r.offset < cut_start {
                    let head = ByteRange { offset: r.offset, length: cut_start - r.offset };
                    out.push(head);
                    proof {
                        left = head;
                    }
                }
                proof {
                    mid = out@;
                }
                if cut_end < r_end {
                    let tail = ByteRange { offset: cut_end, length: r_end - cut_end };
                    out.push(tail);
                    proof {
                        right = tail;
                    }
                }
            }
            proof {
                assert(before.take(i + 1) =~= taken.push(r));
                assert forall|b: int| #[trigger]
                    covered(out@, b) == (covered(before.take(i + 1), b) && !range.has(b)) by {
                    lemma_covered_push(taken, r, b);
                    lemma_covered_push(prev, r, b);
                    lemma_covered_push(prev, left, b);
                    lemma_covered_push(mid, right, b);
                    assert(covered(prev, b) == (covered(taken, b) && !range.has(b)));
                }
            }
            i = i + 1;
        }
        assert(before.take(i as int) =~= before);
        self.ranges = out;
        assert(self@ =~= bytes_of(before).difference(range.bytes()));
    }

    /// Whether every byte of `range` is covered.
    ///
    /// A range that names no byte is always covered.
    #[must_use]
    pub fn covers(&self, range: ByteRange) -> (all: bool)
        ensures
            all == range.bytes().subset_of(self@),
    {
        proof {
            use_type_invariant(self);
        }
        let end: u64 = range.end_of();
        if end <= range.offset {
            assert(range.bytes() =~= Set::<int>::empty());
            return true;
        }
        let mut i: usize = 0;
        while i < self.ranges.len()
            invariant
                separated(self.ranges@),
                i <= self.ranges@.len(),
                end == range.end(),
                forall|j: int|
                    0 <= j < i ==> !((#[trigger] self.ranges@[j]).offset <= range.offset && end
                        <= self.ranges@[j].end()),
            decreases self.ranges.len() - i,
        {
            let r = self.ranges[i];
            if r.offset <= range.offset && end <= r.end_of() {
                proof {
                    assert forall|b: int| range.has(b) implies self@.contains(b) by {
                        assert(self.ranges@[i as int].has(b));
                    }
                }
                return true;
            }
            i = i + 1;
        }
        proof {
            if range.bytes().subset_of(self@) {
                lemma_block_in_one_range(self.ranges@, range);
            }
        }
        false
    }

    /// The parts of `range` this set does not cover.
    ///
    /// Given what a replica is fresh for, these are the bytes of a read it
    /// still owes.
    #[must_use]
    pub fn missing_from(&self, range: ByteRange) -> (missing: RangeSet)
        ensures
            missing.wf(),
            missing@ == range.bytes().difference(self@),
    {
        proof {
            use_type_invariant(self);
        }
        let mut want = RangeSet::from_range(range);
        let mut i: usize = 0;
        while i < self.ranges.len()
            invariant
                i <= self.ranges@.len(),
                want@ == range.bytes().difference(bytes_of(self.ranges@.take(i as int))),
            decreases self.ranges.len() - i,
        {
            let r = self.ranges[i];
            want.remove(r);
            proof {
                let taken = self.ranges@.take(i as int);
                assert(self.ranges@.take(i + 1) =~= taken.push(r));
                assert forall|b: int| covered(taken.push(r), b) == (covered(taken, b) || r.has(b)) by {
                    lemma_covered_push(taken, r, b);
                }
                assert(want@ =~= range.bytes().difference(bytes_of(self.ranges@.take(i + 1))));
            }
            i = i + 1;
        }
        proof {
            use_type_invariant(&want);
        }
        assert(self.ranges@.take(i as int) =~= self.ranges@);
        want
    }

    /// Everything in `other` as well as everything here.
    pub fn union_with(&mut self, other: &RangeSet)
        ensures
            final(self).wf(),
            final(self)@ == old(self)@.union(other@),
    {
        let ghost before = self@;
        let mut i: usize = 0;
        while i < other.ranges.len()
            invariant
                i <= other.ranges@.len(),
                self@ == before.union(bytes_of(other.ranges@.take(i as int))),
            decreases other.ranges.len() - i,
        {
            let r = other.ranges[i];
            self.insert(r);
            proof {
                let taken = other.ranges@.take(i as int);
                assert(other.ranges@.take(i + 1) =~= taken.push(r));
                assert forall|b: int| covered(taken.push(r), b) == (covered(taken, b) || r.has(b)) by {
                    lemma_covered_push(taken, r, b);
                }
                assert(self@ =~= before.union(bytes_of(other.ranges@.take(i + 1))));
            }
            i = i + 1;
        }
        proof {
            use_type_invariant(&*self);
        }
        assert(other.ranges@.take(i as int) =~= other.ranges@);
    }

    /// The bytes both sets hold.
    #[must_use]
    pub fn intersection(&self, other: &RangeSet) -> (both: RangeSet)
        ensures
            both.wf(),
            both@ == self@.intersect(other@),
    {
        let mut both = RangeSet::new();
        let mut i: usize = 0;
        while i < self.ranges.len()
            invariant
                i <= self.ranges@.len(),
                both@ == bytes_of(self.ranges@.take(i as int)).intersect(other@),
            decreases self.ranges.len() - i,
        {
            let r = self.ranges[i];
            // What `other` lacks of `r`, taken away from `r`.
            let lacking = other.missing_from(r);
            let mut shared = RangeSet::from_range(r);
            shared.subtract(&lacking);
            both.union_with(&shared);
            proof {
                let taken = self.ranges@.take(i as int);
                assert(self.ranges@.take(i + 1) =~= taken.push(r));
                assert forall|b: int| covered(taken.push(r), b) == (covered(taken, b) || r.has(b)) by {
                    lemma_covered_push(taken, r, b);
                }
                assert(both@ =~= bytes_of(self.ranges@.take(i + 1)).intersect(other@));
            }
            i = i + 1;
        }
        proof {
            use_type_invariant(&both);
        }
        assert(self.ranges@.take(i as int) =~= self.ranges@);
        both
    }

    /// Everything here that is not in `other`.
    pub fn subtract(&mut self, other: &RangeSet)
        ensures
            final(self).wf(),
            final(self)@ == old(self)@.difference(other@),
    {
        let ghost before = self@;
        let mut i: usize = 0;
        while i < other.ranges.len()
            invariant
                i <= other.ranges@.len(),
                self@ == before.difference(bytes_of(other.ranges@.take(i as int))),
            decreases other.ranges.len() - i,
        {
            let r = other.ranges[i];
            self.remove(r);
            proof {
                let taken = other.ranges@.take(i as int);
                assert(other.ranges@.take(i + 1) =~= taken.push(r));
                assert forall|b: int| covered(taken.push(r), b) == (covered(taken, b) || r.has(b)) by {
                    lemma_covered_push(taken, r, b);
                }
                assert(self@ =~= before.difference(bytes_of(other.ranges@.take(i + 1))));
            }
            i = i + 1;
        }
        proof {
            use_type_invariant(&*self);
        }
        assert(other.ranges@.take(i as int) =~= other.ranges@);
    }

    /// Drop everything.
    pub fn clear(&mut self)
        ensures
            final(self).wf(),
            final(self)@ == Set::<int>::empty(),
    {
        self.ranges = Vec::new();
        assert(self@ =~= Set::<int>::empty());
    }
}

impl Default for RangeSet {
    fn default() -> (s: RangeSet)
        ensures
            s.wf(),
            s@ == Set::<int>::empty(),
    {
        RangeSet::new()
    }
}

impl Clone for RangeSet {
    fn clone(&self) -> (s: RangeSet)
        ensures
            s.wf(),
            s.list() == self.list(),
            s@ == self@,
    {
        proof {
            use_type_invariant(self);
        }
        let mut ranges: Vec<ByteRange> = Vec::new();
        let mut i: usize = 0;
        while i < self.ranges.len()
            invariant
                i <= self.ranges@.len(),
                ranges@ == self.ranges@.take(i as int),
            decreases self.ranges.len() - i,
        {
            ranges.push(self.ranges[i]);
            assert(self.ranges@.take(i + 1) =~= self.ranges@.take(i as int).push(self.ranges@[i as int]));
            i = i + 1;
        }
        assert(self.ranges@.take(i as int) =~= self.ranges@);
        RangeSet { ranges }
    }
}

/// What `out` and the pending block hold is what `seen` and `added` hold.
spec fn accounts_for(
    out: Seq<ByteRange>,
    pending: bool,
    offset: u64,
    end: u64,
    seen: Seq<ByteRange>,
    added: ByteRange,
) -> bool {
    forall|b: int|
        (#[trigger] covered(out, b) || (pending && offset <= b < end)) == (covered(seen, b)
            || added.has(b))
}

/// Appending a range covers its bytes and no others.
proof fn lemma_covered_push(s: Seq<ByteRange>, r: ByteRange, b: int)
    ensures
        covered(s.push(r), b) == (covered(s, b) || r.has(b)),
{
    let after = s.push(r);
    if covered(s, b) {
        let i = choose|i: int| 0 <= i < s.len() && (#[trigger] s[i]).has(b);
        assert(after[i].has(b));
    }
    if r.has(b) {
        assert(after[s.len() as int].has(b));
    }
    if covered(after, b) {
        let i = choose|i: int| 0 <= i < after.len() && (#[trigger] after[i]).has(b);
        if i < s.len() {
            assert(s[i].has(b));
        }
    }
}

/// An unbroken run of covered bytes lies inside one range.
proof fn lemma_block_in_one_range(s: Seq<ByteRange>, block: ByteRange)
    requires
        separated(s),
        block.length > 0,
        block.offset < u64::MAX,
        block.bytes().subset_of(bytes_of(s)),
    ensures
        exists|i: int|
            0 <= i < s.len() && (#[trigger] s[i]).offset <= block.offset && block.end()
                <= s[i].end(),
{
    assert(block.bytes().contains(block.offset as int));
    assert(covered(s, block.offset as int));
    let i = choose|i: int| 0 <= i < s.len() && (#[trigger] s[i]).has(block.offset as int);
    if block.end() > s[i].end() {
        let gap = s[i].end();
        assert(block.bytes().contains(gap));
        assert(covered(s, gap));
        let j = choose|j: int| 0 <= j < s.len() && (#[trigger] s[j]).has(gap);
        if j > i {
            assert(s[i].end() < s[j].offset);
        } else if j < i {
            assert(s[j].end() < s[i].offset);
        }
    }
}

/// Separated ranges hold as many bytes as their lengths say.
proof fn lemma_total_length(s: Seq<ByteRange>)
    requires
        separated(s),
    ensures
        bytes_of(s).finite(),
        bytes_of(s).len() == total_length(s),
    decreases s.len(),
{
    if s.len() == 0 {
        assert(bytes_of(s) =~= Set::<int>::empty());
    } else {
        let init = s.drop_last();
        let last = s.last();
        lemma_total_length(init);
        let lo = last.offset as int;
        let hi = last.end();
        assert(proper(s[s.len() - 1]));
        vstd::set_lib::lemma_int_range(lo, hi);
        let tail = vstd::set_lib::set_int_range(lo, hi);
        assert(init.push(last) =~= s);
        assert forall|b: int| covered(s, b) == (covered(init, b) || last.has(b)) by {
            lemma_covered_push(init, last, b);
        }
        assert(bytes_of(s) =~= bytes_of(init).union(tail));
        assert forall|b: int| !(bytes_of(init).contains(b) && tail.contains(b)) by {
            if bytes_of(init).contains(b) && tail.contains(b) {
                let i = choose|i: int| 0 <= i < init.len() && (#[trigger] init[i]).has(b);
                assert(s[i].end() < s[s.len() - 1].offset);
            }
        }
        assert(bytes_of(init).disjoint(tail));
        vstd::set_lib::lemma_set_disjoint_lens(bytes_of(init), tail);
    }
}

/// Two sets that cover the same bytes are the same list of ranges, however
/// they were built.
pub proof fn equal_bytes_are_equal_ranges(a: Seq<ByteRange>, b: Seq<ByteRange>)
    requires
        separated(a),
        separated(b),
        bytes_of(a) == bytes_of(b),
    ensures
        a == b,
    decreases a.len(),
{
    if a.len() == 0 {
        if b.len() > 0 {
            assert(proper(b[0]));
            assert(b[0].has(b[0].offset as int));
            assert(bytes_of(b).contains(b[0].offset as int));
            assert(covered(a, b[0].offset as int));
        }
        assert(a =~= b);
    } else if b.len() == 0 {
        assert(proper(a[0]));
        assert(a[0].has(a[0].offset as int));
        assert(bytes_of(a).contains(a[0].offset as int));
        assert(covered(b, a[0].offset as int));
    } else {
        let x = a.last();
        let y = b.last();
        lemma_last_is_determined(a, b);
        let ai = a.drop_last();
        let bi = b.drop_last();
        assert(ai.push(x) =~= a);
        assert(bi.push(y) =~= b);
        assert forall|z: int| bytes_of(ai).contains(z) == bytes_of(bi).contains(z) by {
            lemma_covered_push(ai, x, z);
            lemma_covered_push(bi, y, z);
            assert(bytes_of(a).contains(z) == bytes_of(b).contains(z));
            assert(bytes_of(a).contains(z) == covered(a, z));
            assert(bytes_of(b).contains(z) == covered(b, z));
            if x.has(z) {
                if covered(ai, z) {
                    let i = choose|i: int| 0 <= i < ai.len() && (#[trigger] ai[i]).has(z);
                    assert(ai[i] == a[i]);
                    assert(a[i].end() < a[a.len() - 1].offset);
                }
                if covered(bi, z) {
                    let i = choose|i: int| 0 <= i < bi.len() && (#[trigger] bi[i]).has(z);
                    assert(bi[i] == b[i]);
                    assert(b[i].end() < b[b.len() - 1].offset);
                }
            }
        }
        assert(bytes_of(ai) =~= bytes_of(bi));
        equal_bytes_are_equal_ranges(ai, bi);
        assert(a =~= b);
    }
}

proof fn lemma_last_is_determined(a: Seq<ByteRange>, b: Seq<ByteRange>)
    requires
        separated(a),
        separated(b),
        a.len() > 0,
        b.len() > 0,
        bytes_of(a) == bytes_of(b),
    ensures
        a.last() == b.last(),
{
    lemma_last_inside(a, b);
    lemma_last_inside(b, a);
    assert(proper(a[a.len() - 1]));
    assert(proper(b[b.len() - 1]));
}

/// The last range of `a` lies within the last range of `b`.
proof fn lemma_last_inside(a: Seq<ByteRange>, b: Seq<ByteRange>)
    requires
        separated(a),
        separated(b),
        a.len() > 0,
        b.len() > 0,
        bytes_of(a) == bytes_of(b),
    ensures
        b.last().offset <= a.last().offset,
        a.last().end() <= b.last().end(),
{
    let x = a.last();
    let y = b.last();
    assert(a[a.len() - 1] == x && proper(x));
    assert(b[b.len() - 1] == y && proper(y));
    assert forall|z: int| x.has(z) implies bytes_of(b).contains(z) by {
        assert(a[a.len() - 1].has(z));
        assert(bytes_of(a).contains(z));
    }
    lemma_block_in_one_range(b, x);
    let i = choose|i: int|
        0 <= i < b.len() && (#[trigger] b[i]).offset <= x.offset && x.end() <= b[i].end();
    if i < b.len() - 1 {
        assert(b[i].end() < b[b.len() - 1].offset);
        assert(b[b.len() - 1].has(y.offset as int));
        assert(bytes_of(b).contains(y.offset as int));
        assert(covered(a, y.offset as int));
        let k = choose|k: int| 0 <= k < a.len() && (#[trigger] a[k]).has(y.offset as int);
        if k < a.len() - 1 {
            assert(a[k].end() < a[a.len() - 1].offset);
        }
    }
}

} // verus!
