//! Words joined along an order.
//!
//! What a run shows of one backing, or of one fence, is each completed
//! transaction's part of it, one after another. Two orders of the same
//! transactions join to the same word where every pair that changed places
//! commutes.

use vstd::prelude::*;
use crate::exec::ExecTransaction;
use crate::identity::IngressOrdinal;

verus! {

/// The words of an order, one after another.
pub open spec fn joined<T>(
    words: spec_fn(IngressOrdinal) -> Seq<T>,
    order: Seq<IngressOrdinal>,
) -> Seq<T>
    decreases order.len(),
{
    if order.len() == 0 {
        Seq::empty()
    } else {
        joined(words, order.drop_last()) + words(order.last())
    }
}

/// The order holds exactly what the base holds, each once.
pub open spec fn is_shuffle(order: Seq<IngressOrdinal>, base: Seq<IngressOrdinal>) -> bool {
    &&& order.no_duplicates()
    &&& forall|o: IngressOrdinal| #[trigger] order.contains(o) == base.contains(o)
}

/// Two words may change places.
pub open spec fn commute<T>(a: Seq<T>, b: Seq<T>) -> bool {
    a + b == b + a
}

/// Whatever stands before something that arrived earlier commutes with it.
pub open spec fn keeps<T>(
    words: spec_fn(IngressOrdinal) -> Seq<T>,
    order: Seq<IngressOrdinal>,
) -> bool {
    forall|a: int, b: int|
        0 <= a < b < order.len() && (#[trigger] order[a]).0 > (#[trigger] order[b]).0 ==> commute(
            words(order[a]),
            words(order[b]),
        )
}

proof fn lemma_joined_parts<T>(
    words: spec_fn(IngressOrdinal) -> Seq<T>,
    a: Seq<IngressOrdinal>,
    b: Seq<IngressOrdinal>,
)
    ensures
        joined(words, a + b) == joined(words, a) + joined(words, b),
    decreases b.len(),
{
    if b.len() == 0 {
        assert(a + b =~= a);
        assert(joined(words, a) + joined(words, b) =~= joined(words, a));
    } else {
        lemma_joined_parts(words, a, b.drop_last());
        assert((a + b).drop_last() =~= a + b.drop_last());
        assert((a + b).last() == b.last());
        assert(joined(words, a) + (joined(words, b.drop_last()) + words(b.last())) =~= (joined(
            words,
            a,
        ) + joined(words, b.drop_last())) + words(b.last()));
    }
}

/// A word that commutes with each of several commutes with all of them joined.
proof fn lemma_commutes_past<T>(
    words: spec_fn(IngressOrdinal) -> Seq<T>,
    w: Seq<T>,
    rest: Seq<IngressOrdinal>,
)
    requires
        forall|k: int| 0 <= k < rest.len() ==> commute(w, words(#[trigger] rest[k])),
    ensures
        w + joined(words, rest) == joined(words, rest) + w,
    decreases rest.len(),
{
    if rest.len() == 0 {
        assert(w + joined(words, rest) =~= joined(words, rest) + w);
    } else {
        let init = rest.drop_last();
        let last = words(rest.last());
        assert forall|k: int| 0 <= k < init.len() implies commute(w, words(#[trigger] init[k])) by {
            assert(rest[k] == init[k]);
        }
        lemma_commutes_past(words, w, init);
        let before = joined(words, init);
        assert(commute(w, words(rest[rest.len() - 1])));
        assert(w + (before + last) =~= (w + before) + last);
        assert((before + w) + last =~= before + (w + last));
        assert(before + (last + w) =~= (before + last) + w);
    }
}

/// Two orders of the same transactions join to the same word where every pair
/// that changed places commutes.
pub proof fn lemma_shuffled_words<T>(
    words: spec_fn(IngressOrdinal) -> Seq<T>,
    order: Seq<IngressOrdinal>,
    base: Seq<IngressOrdinal>,
)
    requires
        crate::ordinal_set::ascending(base),
        is_shuffle(order, base),
        keeps(words, order),
    ensures
        joined(words, order) == joined(words, base),
    decreases base.len(),
{
    if base.len() == 0 {
        if order.len() > 0 {
            assert(order.contains(order[0]));
        }
    } else {
        let top = base.last();
        let under = base.drop_last();
        assert(base.contains(base[base.len() - 1]));
        assert(order.contains(top));
        let at = choose|at: int| 0 <= at < order.len() && order[at] == top;
        let front = order.take(at);
        let back = order.skip(at + 1);
        let rest = front + back;
        assert(order =~= (front + seq![top]) + back);
        lemma_joined_parts(words, front + seq![top], back);
        lemma_joined_parts(words, front, seq![top]);
        lemma_joined_parts(words, front, back);
        assert(seq![top].drop_last() =~= Seq::<IngressOrdinal>::empty());
        assert(joined(words, seq![top]) =~= words(top)) by {
            reveal_with_fuel(joined, 2);
        }
        assert forall|k: int| 0 <= k < back.len() implies commute(
            words(top),
            words(#[trigger] back[k]),
        ) by {
            let o = order[at + 1 + k];
            assert(o == back[k]);
            assert(order.contains(o));
            assert(base.contains(o));
            let i = choose|i: int| 0 <= i < base.len() && base[i] == o;
            assert(i != base.len() - 1);
            assert(base[i].0 < base[base.len() - 1].0);
            assert(order[at].0 > order[at + 1 + k].0);
        }
        lemma_commutes_past(words, words(top), back);
        assert((joined(words, front) + words(top)) + joined(words, back) =~= joined(words, front)
            + (words(top) + joined(words, back)));
        assert(joined(words, front) + (joined(words, back) + words(top)) =~= (joined(words, front)
            + joined(words, back)) + words(top));
        assert(rest.no_duplicates()) by {
            assert forall|a: int, b: int|
                0 <= a < rest.len() && 0 <= b < rest.len() && a != b implies rest[a] != rest[b] by {
                let x = if a < at { a } else { a + 1 };
                let y = if b < at { b } else { b + 1 };
                assert(rest[a] == order[x] && rest[b] == order[y]);
            }
        }
        assert forall|o: IngressOrdinal| #[trigger] rest.contains(o) == under.contains(o) by {
            if rest.contains(o) {
                let a = choose|a: int| 0 <= a < rest.len() && rest[a] == o;
                let x = if a < at { a } else { a + 1 };
                assert(order[x] == o);
                assert(order.contains(o));
                assert(base.contains(o));
                let i = choose|i: int| 0 <= i < base.len() && base[i] == o;
                assert(i != base.len() - 1);
                assert(under[i] == o);
            }
            if under.contains(o) {
                let i = choose|i: int| 0 <= i < under.len() && under[i] == o;
                assert(base[i] == o);
                assert(base[i].0 < base[base.len() - 1].0);
                assert(base.contains(o));
                assert(order.contains(o));
                let x = choose|x: int| 0 <= x < order.len() && order[x] == o;
                assert(rest[if x < at { x } else { x - 1 }] == o);
            }
        }
        assert forall|a: int, b: int|
            0 <= a < b < rest.len() && (#[trigger] rest[a]).0 > (#[trigger] rest[b]).0 implies commute(
            words(rest[a]),
            words(rest[b]),
        ) by {
            let x = if a < at { a } else { a + 1 };
            let y = if b < at { b } else { b + 1 };
            assert(rest[a] == order[x] && rest[b] == order[y]);
        }
        lemma_shuffled_words(words, rest, under);
    }
}

/// Placing an ordinal that is not there keeps the list ascending.
proof fn lemma_placed_ascending(sorted: Seq<IngressOrdinal>, o: IngressOrdinal)
    requires
        crate::ordinal_set::ascending(sorted),
        !sorted.contains(o),
    ensures
        crate::ordinal_set::ascending(crate::diverge::placed(sorted, o)),
    decreases sorted.len(),
{
    let out = crate::diverge::placed(sorted, o);
    if sorted.len() > 0 {
        let last = sorted.last();
        assert(sorted[sorted.len() - 1] == last);
        assert(sorted.contains(last));
        if crate::diverge::Keyed::key(last) <= crate::diverge::Keyed::key(o) {
            assert forall|a: int, b: int| 0 <= a < b < out.len() implies (#[trigger] out[a]).0 < (
            #[trigger] out[b]).0 by {
                if b < sorted.len() {
                    assert(sorted[a].0 < sorted[b].0);
                } else if a < sorted.len() - 1 {
                    assert(sorted[a].0 < sorted[sorted.len() - 1].0);
                }
            }
        } else {
            let init = sorted.drop_last();
            assert forall|a: int, b: int| 0 <= a < b < init.len() implies (#[trigger] init[a]).0 < (
            #[trigger] init[b]).0 by {
                assert(sorted[a].0 < sorted[b].0);
            }
            assert(!init.contains(o)) by {
                if init.contains(o) {
                    let k = choose|k: int| 0 <= k < init.len() && init[k] == o;
                    assert(sorted[k] == o);
                }
            }
            lemma_placed_ascending(init, o);
            let before = crate::diverge::placed(init, o);
            crate::diverge::lemma_placed_members(init, o);
            assert(out == before.push(last));
            assert forall|a: int, b: int| 0 <= a < b < out.len() implies (#[trigger] out[a]).0 < (
            #[trigger] out[b]).0 by {
                if b < before.len() {
                    assert(before[a].0 < before[b].0);
                } else {
                    assert(before.contains(before[a]));
                    if before[a] != o {
                        let k = choose|k: int| 0 <= k < init.len() && init[k] == before[a];
                        assert(sorted[k].0 < sorted[sorted.len() - 1].0);
                    }
                }
            }
        }
    }
}

proof fn lemma_sorted_ascending(order: Seq<IngressOrdinal>)
    requires
        order.no_duplicates(),
    ensures
        crate::ordinal_set::ascending(crate::diverge::in_key_order(order)),
    decreases order.len(),
{
    if order.len() > 0 {
        let init = order.drop_last();
        assert(init.no_duplicates()) by {
            assert forall|a: int, b: int|
                0 <= a < init.len() && 0 <= b < init.len() && a != b implies init[a] != init[b] by {
                assert(order[a] != order[b]);
            }
        }
        lemma_sorted_ascending(init);
        crate::diverge::lemma_sorted_members(init);
        assert(!init.contains(order.last())) by {
            if init.contains(order.last()) {
                let k = choose|k: int| 0 <= k < init.len() && init[k] == order.last();
                assert(order[k] != order[order.len() - 1]);
            }
        }
        lemma_placed_ascending(crate::diverge::in_key_order(init), order.last());
    }
}

/// A shuffle of ascending ordinals sorts back to them.
pub proof fn lemma_sorts_back(order: Seq<IngressOrdinal>, base: Seq<IngressOrdinal>)
    requires
        crate::ordinal_set::ascending(base),
        is_shuffle(order, base),
    ensures
        crate::diverge::in_key_order(order) == base,
{
    let sorted = crate::diverge::in_key_order(order);
    lemma_sorted_ascending(order);
    crate::diverge::lemma_sorted_members(order);
    assert forall|o: IngressOrdinal| sorted.contains(o) == base.contains(o) by {
        assert(sorted.contains(o) == order.contains(o));
    }
    crate::ordinal_set::ascending_is_determined(sorted, base);
}

/// Items already in key order stay where they are.
pub proof fn lemma_already_sorted<T: crate::diverge::Keyed>(items: Seq<T>)
    requires
        forall|a: int, b: int|
            0 <= a < b < items.len() ==> crate::diverge::Keyed::key(#[trigger] items[a])
                <= crate::diverge::Keyed::key(#[trigger] items[b]),
    ensures
        crate::diverge::in_key_order(items) == items,
    decreases items.len(),
{
    if items.len() > 0 {
        let init = items.drop_last();
        assert forall|a: int, b: int|
            0 <= a < b < init.len() implies crate::diverge::Keyed::key(#[trigger] init[a])
            <= crate::diverge::Keyed::key(#[trigger] init[b]) by {
            assert(init[a] == items[a] && init[b] == items[b]);
        }
        lemma_already_sorted(init);
        if init.len() > 0 {
            assert(crate::diverge::Keyed::key(items[items.len() - 2])
                <= crate::diverge::Keyed::key(items[items.len() - 1]));
        }
        assert(init.push(items.last()) =~= items);
    }
}

/// A shuffle is as long as what it shuffles.
pub proof fn lemma_shuffle_len(order: Seq<IngressOrdinal>, base: Seq<IngressOrdinal>)
    requires
        crate::ordinal_set::ascending(base),
        is_shuffle(order, base),
    ensures
        order.len() == base.len(),
{
    lemma_sorts_back(order, base);
    crate::diverge::lemma_sorted_members(order);
}

pub proof fn lemma_ordinals_ascend(batch: Seq<ExecTransaction>)
    requires
        crate::eligible::in_ingress_order(batch),
    ensures
        crate::ordinal_set::ascending(crate::schedule::ordinals(batch)),
{
    let base = crate::schedule::ordinals(batch);
    assert forall|a: int, b: int| 0 <= a < b < base.len() implies (#[trigger] base[a]).0 < (
    #[trigger] base[b]).0 by {
        assert(batch[a].ingress.0 < batch[b].ingress.0);
    }
}

} // verus!
