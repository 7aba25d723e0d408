//! A set of arrival ordinals, kept in ascending order.

use vstd::prelude::*;
use crate::identity::IngressOrdinal;

verus! {

/// Strictly ascending, so nothing occurs twice.
pub open spec fn ascending(s: Seq<IngressOrdinal>) -> bool {
    forall|i: int, j: int| 0 <= i < j < s.len() ==> (#[trigger] s[i]).0 < (#[trigger] s[j]).0
}

/// Two ascending sequences of the same ordinals are the same sequence.
pub proof fn ascending_is_determined(a: Seq<IngressOrdinal>, b: Seq<IngressOrdinal>)
    requires
        ascending(a),
        ascending(b),
        forall|o: IngressOrdinal| a.contains(o) == b.contains(o),
    ensures
        a == b,
    decreases a.len(),
{
    if a.len() == 0 {
        if b.len() > 0 {
            assert(b.contains(b[0]));
        }
        assert(a =~= b);
    } else if b.len() == 0 {
        assert(a.contains(a[0]));
    } else {
        let x = a.last();
        let y = b.last();
        assert(a.contains(x));
        assert(b.contains(y));
        let i = choose|i: int| 0 <= i < b.len() && b[i] == x;
        let j = choose|j: int| 0 <= j < a.len() && a[j] == y;
        assert(x == y);
        let ai = a.drop_last();
        let bi = b.drop_last();
        assert forall|o: IngressOrdinal| ai.contains(o) == bi.contains(o) by {
            if ai.contains(o) {
                let k = choose|k: int| 0 <= k < ai.len() && ai[k] == o;
                assert(a[k] == o && o.0 < x.0);
                assert(b.contains(o));
                let m = choose|m: int| 0 <= m < b.len() && b[m] == o;
                assert(bi[m] == o);
            }
            if bi.contains(o) {
                let k = choose|k: int| 0 <= k < bi.len() && bi[k] == o;
                assert(b[k] == o && o.0 < y.0);
                assert(a.contains(o));
                let m = choose|m: int| 0 <= m < a.len() && a[m] == o;
                assert(ai[m] == o);
            }
        }
        ascending_is_determined(ai, bi);
        assert(a =~= ai.push(x));
        assert(b =~= bi.push(y));
    }
}

/// Ordinals in ascending order, each at most once.
#[derive(Debug)]
pub struct OrdinalSet {
    items: Vec<IngressOrdinal>,
}

impl View for OrdinalSet {
    type V = Seq<IngressOrdinal>;

    closed spec fn view(&self) -> Seq<IngressOrdinal> {
        self.items@
    }
}

impl OrdinalSet {
    pub open spec fn wf(&self) -> bool {
        ascending(self@)
    }

    #[must_use]
    pub fn new() -> (s: Self)
        ensures
            s.wf(),
            s@ == Seq::<IngressOrdinal>::empty(),
    {
        OrdinalSet { items: Vec::new() }
    }

    #[must_use]
    pub fn len(&self) -> (n: usize)
        ensures
            n == self@.len(),
    {
        self.items.len()
    }

    #[must_use]
    pub fn get(&self, i: usize) -> (o: IngressOrdinal)
        requires
            i < self@.len(),
        ensures
            o == self@[i as int],
    {
        self.items[i]
    }

    /// How many members are below `o`, which is where it stands or would stand.
    fn below(&self, o: IngressOrdinal) -> (at: usize)
        requires
            self.wf(),
        ensures
            at <= self@.len(),
            forall|j: int| 0 <= j < at ==> (#[trigger] self@[j]).0 < o.0,
            forall|j: int| at <= j < self@.len() ==> (#[trigger] self@[j]).0 >= o.0,
    {
        let mut at: usize = 0;
        while at < self.items.len() && self.items[at].0 < o.0
            invariant
                self.wf(),
                at <= self.items@.len(),
                forall|j: int| 0 <= j < at ==> (#[trigger] self.items@[j]).0 < o.0,
            decreases self.items.len() - at,
        {
            at = at + 1;
        }
        at
    }

    #[must_use]
    pub fn contains(&self, o: IngressOrdinal) -> (held: bool)
        requires
            self.wf(),
        ensures
            held == self@.contains(o),
    {
        let at = self.below(o);
        let held = at < self.items.len() && self.items[at].0 == o.0;
        proof {
            if held {
                assert(self@[at as int] == o);
            }
        }
        held
    }

    /// Add an ordinal; whether it was new.
    pub fn insert(&mut self, o: IngressOrdinal) -> (new: bool)
        requires
            old(self).wf(),
        ensures
            final(self).wf(),
            new == !old(self)@.contains(o),
            final(self)@.len() == old(self)@.len() + (if new { 1int } else { 0int }),
            forall|x: IngressOrdinal| #[trigger]
                final(self)@.contains(x) == (old(self)@.contains(x) || x == o),
    {
        let at = self.below(o);
        let ghost before = self@;
        if at < self.items.len() && self.items[at].0 == o.0 {
            assert(before[at as int] == o);
            return false;
        }
        self.items.insert(at, o);
        proof {
            assert(self@ == before.insert(at as int, o));
            assert(self@[at as int] == o);
            assert forall|x: IngressOrdinal| #[trigger]
                self@.contains(x) == (before.contains(x) || x == o) by {
                if before.contains(x) {
                    let k = choose|k: int| 0 <= k < before.len() && before[k] == x;
                    assert(self@[if k < at { k } else { k + 1 }] == x);
                }
                if self@.contains(x) {
                    let k = choose|k: int| 0 <= k < self@.len() && self@[k] == x;
                    if k < at {
                        assert(before[k] == x);
                    } else if k > at {
                        assert(before[k - 1] == x);
                    }
                }
            }
        }
        true
    }

    /// Take an ordinal out; whether it was there.
    pub fn remove(&mut self, o: IngressOrdinal) -> (held: bool)
        requires
            old(self).wf(),
        ensures
            final(self).wf(),
            held == old(self)@.contains(o),
            final(self)@.len() == old(self)@.len() - (if held { 1int } else { 0int }),
            forall|x: IngressOrdinal| #[trigger]
                final(self)@.contains(x) == (old(self)@.contains(x) && x != o),
    {
        let at = self.below(o);
        let ghost before = self@;
        if at < self.items.len() && self.items[at].0 == o.0 {
            let _ = self.items.remove(at);
            proof {
                assert(before[at as int] == o);
                assert(self@ == before.remove(at as int));
                assert forall|x: IngressOrdinal| #[trigger]
                    self@.contains(x) == (before.contains(x) && x != o) by {
                    if before.contains(x) && x != o {
                        let k = choose|k: int| 0 <= k < before.len() && before[k] == x;
                        assert(self@[if k < at { k } else { k - 1 }] == x);
                    }
                    if self@.contains(x) {
                        let k = choose|k: int| 0 <= k < self@.len() && self@[k] == x;
                        assert(before[if k < at { k } else { k + 1 }] == x);
                    }
                }
            }
            true
        } else {
            false
        }
    }

    /// The members, ascending.
    #[must_use]
    pub fn into_vec(self) -> (v: Vec<IngressOrdinal>)
        ensures
            v@ == self@,
    {
        self.items
    }

    /// The members, ascending.
    #[must_use]
    pub fn to_vec(&self) -> (v: Vec<IngressOrdinal>)
        ensures
            v@ == self@,
    {
        let mut v: Vec<IngressOrdinal> = Vec::new();
        let mut i: usize = 0;
        while i < self.items.len()
            invariant
                i <= self.items@.len(),
                v@ == self.items@.take(i as int),
            decreases self.items.len() - i,
        {
            v.push(self.items[i]);
            assert(self.items@.take(i + 1) =~= self.items@.take(i as int).push(self.items@[i as int]));
            i = i + 1;
        }
        assert(self.items@.take(i as int) =~= self.items@);
        v
    }
}

} // verus!
