//! Keeping the elements of a sequence that satisfy a predicate.
//!
//! The stores remove records in place, in one sweep from the oldest record to
//! the newest. The lemmas here relate each step of such a sweep to
//! `Seq::filter`, and state what a filtered sequence is.

use vstd::prelude::*;

verus! {

/// The state of a sweep over `from` that keeps what satisfies `stay`.
///
/// `seen` elements of `from` have been looked at. Those of them that stay are
/// the first `i` elements of `now`; the rest of `now` is the rest of `from`.
pub open spec fn swept<A>(
    from: Seq<A>,
    now: Seq<A>,
    seen: int,
    i: int,
    stay: spec_fn(A) -> bool,
) -> bool {
    &&& 0 <= seen <= from.len()
    &&& 0 <= i <= now.len()
    &&& now.take(i) == from.take(seen).filter(stay)
    &&& now.skip(i) == from.skip(seen)
}

/// Before the first step nothing has been looked at.
pub proof fn lemma_sweep_start<A>(from: Seq<A>, stay: spec_fn(A) -> bool)
    ensures
        swept(from, from, 0, 0, stay),
{
    reveal(Seq::filter);
    assert(from.take(0) =~= from.take(0).filter(stay));
    assert(from.skip(0) =~= from);
}

/// One step: the element at `i` is the next one of `from`. If it stays, the
/// sweep moves past it; if not, it is removed and the sweep stands still.
pub proof fn lemma_sweep_step<A>(
    from: Seq<A>,
    now: Seq<A>,
    seen: int,
    i: int,
    stay: spec_fn(A) -> bool,
)
    requires
        swept(from, now, seen, i, stay),
        i < now.len(),
    ensures
        seen < from.len(),
        from[seen] == now[i],
        stay(now[i]) ==> swept(from, now, seen + 1, i + 1, stay),
        !stay(now[i]) ==> swept(from, now.remove(i), seen + 1, i, stay),
{
    let x = now[i];
    assert(now.skip(i).len() == now.len() - i);
    assert(from.skip(seen).len() == from.len() - seen);
    assert(now.skip(i)[0] == x);
    assert(from.skip(seen)[0] == from[seen]);
    assert(from.take(seen + 1) =~= from.take(seen).push(x));
    from.take(seen).lemma_filter_push(x, stay);
    assert(from.skip(seen).skip(1) =~= from.skip(seen + 1));
    if stay(x) {
        assert(now.take(i + 1) =~= now.take(i).push(x));
        assert(now.skip(i + 1) =~= now.skip(i).skip(1));
    } else {
        assert(now.remove(i).take(i) =~= now.take(i));
        assert(now.remove(i).skip(i) =~= now.skip(i).skip(1));
    }
}

/// When the sweep has reached the end, what is left is the filtered sequence.
pub proof fn lemma_sweep_end<A>(
    from: Seq<A>,
    now: Seq<A>,
    seen: int,
    i: int,
    stay: spec_fn(A) -> bool,
)
    requires
        swept(from, now, seen, i, stay),
        i == now.len(),
    ensures
        now == from.filter(stay),
{
    assert(now.take(i) =~= now);
    assert(now.skip(i).len() == 0);
    assert(from.skip(seen).len() == from.len() - seen);
    assert(from.take(seen) =~= from);
}

/// A sequence whose elements all satisfy the predicate is its own filter.
pub proof fn lemma_filter_all<A>(s: Seq<A>, pred: spec_fn(A) -> bool)
    requires
        forall|i: int| 0 <= i < s.len() ==> pred(#[trigger] s[i]),
    ensures
        s.filter(pred) == s,
    decreases s.len(),
{
    reveal(Seq::filter);
    if s.len() > 0 {
        let rest = s.drop_last();
        assert forall|i: int| 0 <= i < rest.len() implies pred(#[trigger] rest[i]) by {
            assert(rest[i] == s[i]);
        }
        lemma_filter_all(rest, pred);
        assert(rest.push(s.last()) =~= s);
    }
}

/// Filtering a second time by the same predicate removes nothing more.
pub proof fn lemma_filter_twice<A>(s: Seq<A>, pred: spec_fn(A) -> bool)
    ensures
        s.filter(pred).filter(pred) == s.filter(pred),
{
    let once = s.filter(pred);
    assert forall|i: int| 0 <= i < once.len() implies pred(#[trigger] once[i]) by {
        s.lemma_filter_pred(pred, i);
    }
    lemma_filter_all(once, pred);
}

/// Where the elements of a filtered sequence come from.
///
/// The result gives, for each element of `s.filter(pred)`, its position in
/// `s`. The positions rise, so the elements stand in the order that they have
/// in `s`; every element is the one at its position, and it satisfies `pred`;
/// and every position of `s` whose element satisfies `pred` is among them.
pub proof fn lemma_filter_positions<A>(s: Seq<A>, pred: spec_fn(A) -> bool) -> (at: Seq<int>)
    ensures
        at.len() == s.filter(pred).len(),
        forall|k: int|
            0 <= k < at.len() ==> 0 <= #[trigger] at[k] < s.len() && s[at[k]] == s.filter(pred)[k]
                && pred(s[at[k]]),
        forall|k: int, l: int| 0 <= k < l < at.len() ==> #[trigger] at[k] < #[trigger] at[l],
        forall|i: int| 0 <= i < s.len() && pred(s[i]) ==> #[trigger] at.contains(i),
    decreases s.len(),
{
    reveal(Seq::filter);
    if s.len() == 0 {
        Seq::<int>::empty()
    } else {
        let rest = s.drop_last();
        let x = s.last();
        let last = s.len() - 1;
        let before = lemma_filter_positions(rest, pred);
        let at = if pred(x) {
            before.push(last)
        } else {
            before
        };
        assert forall|k: int| 0 <= k < at.len() implies 0 <= #[trigger] at[k] < s.len() && s[at[k]]
            == s.filter(pred)[k] && pred(s[at[k]]) by {
            if k < before.len() {
                assert(0 <= before[k] < rest.len());
                assert(rest[before[k]] == s[before[k]]);
            }
        }
        assert forall|k: int, l: int| 0 <= k < l < at.len() implies #[trigger] at[k]
            < #[trigger] at[l] by {
            assert(0 <= before[k] < rest.len());
            if l < before.len() {
                assert(before[k] < before[l]);
            }
        }
        assert forall|i: int| 0 <= i < s.len() && pred(s[i]) implies #[trigger] at.contains(i) by {
            if i < last {
                assert(rest[i] == s[i]);
                assert(before.contains(i));
                let k = choose|k: int| 0 <= k < before.len() && before[k] == i;
                assert(at[k] == i);
            } else {
                assert(at[at.len() - 1] == i);
            }
        }
        at
    }
}

} // verus!
