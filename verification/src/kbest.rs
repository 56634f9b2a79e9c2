use vstd::prelude::*;

use crate::search::CANDIDATE_COUNT;

verus! {

/// Number of entries of `s` below `t`.
pub open spec fn count_lt(s: Seq<u64>, t: int) -> nat
    decreases s.len(),
{
    if s.len() == 0 {
        0
    } else {
        count_lt(s.drop_last(), t) + if (s.last() as int) < t {
            1nat
        } else {
            0nat
        }
    }
}

pub open spec fn sorted(s: Seq<u64>) -> bool {
    forall|i: int, j: int| 0 <= i <= j < s.len() ==> s[i] <= s[j]
}

/// `n` capped at `k`.
pub open spec fn cap(k: nat, n: nat) -> nat {
    if n < k {
        n
    } else {
        k
    }
}

/// One when `x` lies below `t`.
pub open spec fn below(x: int, t: int) -> nat {
    if x < t {
        1
    } else {
        0
    }
}

/// The position after the last entry of `kept` that is not above `x`, past
/// the run of entries above `x` at the end.
pub open spec fn slot_after(kept: Seq<u64>, x: u64) -> int
    decreases kept.len(),
{
    if kept.len() == 0 {
        0
    } else if x < kept.last() {
        slot_after(kept.drop_last(), x)
    } else {
        kept.len() as int
    }
}

/// Where `insert_best` and `insert_candidate` put a new entry of distance
/// `x` into `d`, whose last entry is dropped.
pub open spec fn insertion_point(d: Seq<u64>, x: u64) -> int {
    slot_after(d.drop_last(), x)
}

/// `s` with `x` put at position `p` and its last entry dropped.
pub open spec fn inserted<A>(s: Seq<A>, p: int, x: A) -> Seq<A> {
    s.take(p) + seq![x] + s.subrange(p, s.len() - 1)
}

/// Keeping the `k` smallest: after `new` has absorbed a multiset whose
/// members below `t` number `r(t)`, as many entries of `new` lie below each
/// `t` as of the `old` entries and the absorbed members together, capped at
/// the number of slots.
pub open spec fn absorbs(old: Seq<u64>, new: Seq<u64>, r: spec_fn(int) -> nat) -> bool {
    forall|t: int|
        0 <= t <= u64::MAX ==> #[trigger] count_lt(new, t) == cap(
            old.len(),
            count_lt(old, t) + r(t),
        )
}

/// Counting over a concatenation adds the counts of its parts.
pub(crate) proof fn lemma_count_lt_concat(a: Seq<u64>, b: Seq<u64>, t: int)
    ensures
        count_lt(a + b, t) == count_lt(a, t) + count_lt(b, t),
    decreases b.len(),
{
    if b.len() == 0 {
        assert(a + b =~= a);
    } else {
        assert((a + b).drop_last() =~= a + b.drop_last());
        lemma_count_lt_concat(a, b.drop_last(), t);
    }
}

/// A count is at most the length; it is the length when every entry is
/// below `t`, and zero when none is.
pub(crate) proof fn lemma_count_lt_bounds(s: Seq<u64>, t: int)
    ensures
        count_lt(s, t) <= s.len(),
        (forall|i: int| 0 <= i < s.len() ==> (s[i] as int) < t) ==> count_lt(s, t) == s.len(),
        (forall|i: int| 0 <= i < s.len() ==> (s[i] as int) >= t) ==> count_lt(s, t) == 0,
    decreases s.len(),
{
    if s.len() > 0 {
        lemma_count_lt_bounds(s.drop_last(), t);
    }
}

/// A single entry counts when it lies below `t`.
pub(crate) proof fn lemma_count_lt_single(x: u64, t: int)
    ensures
        count_lt(seq![x], t) == below(x as int, t),
{
    assert(seq![x].drop_last() =~= Seq::<u64>::empty());
    assert(seq![x].last() == x);
    assert(count_lt(Seq::<u64>::empty(), t) == 0);
}

/// A sorted sequence has all its entries below `t` once its last one is.
pub(crate) proof fn lemma_count_lt_sorted(s: Seq<u64>, t: int)
    requires
        sorted(s),
        s.len() > 0,
    ensures
        (s.last() as int) < t ==> count_lt(s, t) == s.len(),
        (s.last() as int) >= t ==> count_lt(s, t) == count_lt(s.drop_last(), t),
        count_lt(s.drop_last(), t) < s.len(),
{
    lemma_count_lt_bounds(s, t);
    lemma_count_lt_bounds(s.drop_last(), t);
}

/// In a sorted sequence the entries not above `x` come first.
pub(crate) proof fn lemma_sorted_split(s: Seq<u64>, x: u64)
    requires
        sorted(s),
    ensures
        0 <= count_lt(s, x + 1) <= s.len(),
        forall|i: int| 0 <= i < count_lt(s, x + 1) ==> s[i] <= x,
        forall|i: int| count_lt(s, x + 1) <= i < s.len() ==> s[i] > x,
    decreases s.len(),
{
    lemma_count_lt_bounds(s, x + 1);
    if s.len() > 0 {
        let init = s.drop_last();
        assert(sorted(init)) by {
            assert forall|i: int, j: int| 0 <= i <= j < init.len() implies init[i] <= init[j] by {
                assert(init[i] == s[i] && init[j] == s[j]);
            }
        }
        lemma_sorted_split(init, x);
        if s.last() <= x {
            assert forall|i: int| 0 <= i < s.len() implies (s[i] as int) < x + 1 by {
                assert(s[i] <= s[s.len() - 1]);
            }
            lemma_count_lt_bounds(s, x + 1);
        } else {
            assert(count_lt(s, x + 1) == count_lt(init, x + 1));
            assert forall|i: int| 0 <= i < count_lt(s, x + 1) implies s[i] <= x by {
                assert(s[i] == init[i]);
            }
            assert forall|i: int| count_lt(s, x + 1) <= i < s.len() implies s[i] > x by {
                if i < s.len() - 1 {
                    assert(s[i] == init[i]);
                }
            }
        }
    }
}

/// The slot lies within the kept entries.
pub(crate) proof fn lemma_slot_after_range(s: Seq<u64>, x: u64)
    ensures
        0 <= slot_after(s, x) <= s.len(),
    decreases s.len(),
{
    if s.len() > 0 {
        lemma_slot_after_range(s.drop_last(), x);
    }
}

/// In a sorted sequence the slot after the entries not above `x` is their
/// number.
pub(crate) proof fn lemma_slot_after_sorted(s: Seq<u64>, x: u64)
    requires
        sorted(s),
    ensures
        slot_after(s, x) == count_lt(s, x + 1),
    decreases s.len(),
{
    if s.len() > 0 {
        let init = s.drop_last();
        assert(sorted(init)) by {
            assert forall|i: int, j: int| 0 <= i <= j < init.len() implies init[i] <= init[j] by {
                assert(init[i] == s[i] && init[j] == s[j]);
            }
        }
        lemma_slot_after_sorted(init, x);
        if s.last() <= x {
            assert forall|i: int| 0 <= i < s.len() implies (s[i] as int) < x + 1 by {
                assert(s[i] <= s[s.len() - 1]);
            }
            lemma_count_lt_bounds(s, x + 1);
        }
    }
}

/// Inserting into a sorted sequence keeps it sorted, and the entries below
/// each `t` are those of the kept entries plus the new one.
pub(crate) proof fn lemma_insert_counts(old: Seq<u64>, x: u64)
    requires
        sorted(old),
        old.len() > 0,
    ensures
        sorted(inserted(old, insertion_point(old, x), x)),
        inserted(old, insertion_point(old, x), x).len() == old.len(),
        forall|t: int|
            #[trigger] count_lt(inserted(old, insertion_point(old, x), x), t) == count_lt(
                old.drop_last(),
                t,
            ) + below(x as int, t),
{
    let kept = old.drop_last();
    let p = insertion_point(old, x);
    assert(sorted(kept)) by {
        assert forall|i: int, j: int| 0 <= i <= j < kept.len() implies kept[i] <= kept[j] by {
            assert(kept[i] == old[i] && kept[j] == old[j]);
        }
    }
    lemma_sorted_split(kept, x);
    lemma_slot_after_sorted(kept, x);
    let new = inserted(old, p, x);
    let a = kept.take(p);
    let b = kept.skip(p);
    assert(kept =~= a + b);
    assert(new =~= a + seq![x] + b);
    assert forall|t: int| #[trigger]
        count_lt(new, t) == count_lt(kept, t) + below(x as int, t) by {
        lemma_count_lt_concat(a + seq![x], b, t);
        lemma_count_lt_concat(a, seq![x], t);
        lemma_count_lt_concat(a, b, t);
        lemma_count_lt_single(x, t);
    }
    assert forall|i: int, j: int| 0 <= i <= j < new.len() implies new[i] <= new[j] by {
        if i < p && j > p {
            assert(new[j] == kept[j - 1]);
        }
        if i > p {
            assert(new[i] == kept[i - 1]);
            assert(new[j] == kept[j - 1]);
        }
    }
}

/// Offering a distance below the worst kept one: the inserted sequence has
/// absorbed that one distance.
pub(crate) proof fn lemma_offer_accepted(old: Seq<u64>, x: u64)
    requires
        sorted(old),
        old.len() > 0,
        x < old.last(),
    ensures
        forall|t: int|
            #[trigger] count_lt(inserted(old, insertion_point(old, x), x), t) == cap(
                old.len(),
                count_lt(old, t) + below(x as int, t),
            ),
{
    lemma_insert_counts(old, x);
    assert forall|t: int|
        #[trigger] count_lt(inserted(old, insertion_point(old, x), x), t) == cap(
            old.len(),
            count_lt(old, t) + below(x as int, t),
        ) by {
        lemma_count_lt_sorted(old, t);
    }
}

/// Offering a distance not below the worst kept one leaves the kept
/// entries unchanged, and they have absorbed it.
pub(crate) proof fn lemma_offer_rejected(old: Seq<u64>, x: int)
    requires
        sorted(old),
        old.len() > 0,
        x >= old.last(),
    ensures
        forall|t: int|
            #[trigger] count_lt(old, t) == cap(
                old.len(),
                count_lt(old, t) + below(x, t),
            ),
{
    assert forall|t: int|
        #[trigger] count_lt(old, t) == cap(
            old.len(),
            count_lt(old, t) + below(x, t),
        ) by {
        lemma_count_lt_sorted(old, t);
    }
}

/// Puts `(id, distance)` into the five best, after the entries not above
/// `distance` at the end, dropping the last entry.
pub(crate) fn insert_best(id: usize, distance: u64, best_ids: &mut [usize; 5], best_distances: &mut [u64; 5])
    ensures
        final(best_distances)@ == inserted(
            old(best_distances)@,
            insertion_point(old(best_distances)@, distance),
            distance,
        ),
        final(best_ids)@ == inserted(
            old(best_ids)@,
            insertion_point(old(best_distances)@, distance),
            id,
        ),
{
    let ghost d0 = best_distances@;
    let ghost i0 = best_ids@;
    let ghost kept = d0.drop_last();
    let mut pos: usize = 4;
    assert(kept.take(4) =~= kept);
    while pos > 0 && distance < best_distances[pos - 1]
        invariant
            pos <= 4,
            best_distances@.len() == 5,
            best_ids@.len() == 5,
            kept == d0.drop_last(),
            d0.len() == 5,
            i0.len() == 5,
            slot_after(kept.take(pos as int), distance) == slot_after(kept, distance),
            forall|q: int| 0 <= q <= pos ==> best_distances@[q] == d0[q] && best_ids@[q] == i0[q],
            forall|q: int|
                pos < q < 5 ==> best_distances@[q] == d0[q - 1] && best_ids@[q] == i0[q - 1],
        decreases pos,
    {
        assert(kept.take(pos as int).drop_last() =~= kept.take(pos - 1));
        best_distances[pos] = best_distances[pos - 1];
        best_ids[pos] = best_ids[pos - 1];
        pos -= 1;
    }
    assert(pos as int == insertion_point(d0, distance)) by {
        if pos > 0 {
            assert(kept.take(pos as int).last() == d0[pos - 1]);
        }
    }
    best_distances[pos] = distance;
    best_ids[pos] = id;
    assert(best_distances@ =~= inserted(d0, pos as int, distance));
    assert(best_ids@ =~= inserted(i0, pos as int, id));
}

/// Puts `(id, distance)` into the six candidates, after the entries not above
/// `distance` at the end, dropping the last entry.
pub(crate) fn insert_candidate(
    id: usize,
    distance: u64,
    best_ids: &mut [usize; CANDIDATE_COUNT],
    best_distances: &mut [u64; CANDIDATE_COUNT],
)
    ensures
        final(best_distances)@ == inserted(
            old(best_distances)@,
            insertion_point(old(best_distances)@, distance),
            distance,
        ),
        final(best_ids)@ == inserted(
            old(best_ids)@,
            insertion_point(old(best_distances)@, distance),
            id,
        ),
{
    let ghost d0 = best_distances@;
    let ghost i0 = best_ids@;
    let ghost kept = d0.drop_last();
    let mut pos: usize = CANDIDATE_COUNT - 1;
    assert(kept.take(5) =~= kept);
    while pos > 0 && distance < best_distances[pos - 1]
        invariant
            pos <= 5,
            best_distances@.len() == 6,
            best_ids@.len() == 6,
            kept == d0.drop_last(),
            d0.len() == 6,
            i0.len() == 6,
            slot_after(kept.take(pos as int), distance) == slot_after(kept, distance),
            forall|q: int| 0 <= q <= pos ==> best_distances@[q] == d0[q] && best_ids@[q] == i0[q],
            forall|q: int|
                pos < q < 6 ==> best_distances@[q] == d0[q - 1] && best_ids@[q] == i0[q - 1],
        decreases pos,
    {
        assert(kept.take(pos as int).drop_last() =~= kept.take(pos - 1));
        best_distances[pos] = best_distances[pos - 1];
        best_ids[pos] = best_ids[pos - 1];
        pos -= 1;
    }
    assert(pos as int == insertion_point(d0, distance)) by {
        if pos > 0 {
            assert(kept.take(pos as int).last() == d0[pos - 1]);
        }
    }
    best_distances[pos] = distance;
    best_ids[pos] = id;
    assert(best_distances@ =~= inserted(d0, pos as int, distance));
    assert(best_ids@ =~= inserted(i0, pos as int, id));
}

/// Absorbing one multiset and then another absorbs both.
pub(crate) proof fn lemma_absorbs_trans(
    a: Seq<u64>,
    b: Seq<u64>,
    c: Seq<u64>,
    r1: spec_fn(int) -> nat,
    r2: spec_fn(int) -> nat,
)
    requires
        a.len() == b.len(),
        absorbs(a, b, r1),
        absorbs(b, c, r2),
    ensures
        absorbs(a, c, |t: int| r1(t) + r2(t)),
{
    assert forall|t: int| 0 <= t <= u64::MAX implies #[trigger] count_lt(c, t) == cap(
        a.len(),
        count_lt(a, t) + r1(t) + r2(t),
    ) by {
        assert(count_lt(b, t) == cap(a.len(), count_lt(a, t) + r1(t)));
    }
}

/// Two absorbed multisets with the same members below the worst kept
/// distance leave the same result.
pub(crate) proof fn lemma_absorbs_below_worst(
    old: Seq<u64>,
    new: Seq<u64>,
    r1: spec_fn(int) -> nat,
    r2: spec_fn(int) -> nat,
)
    requires
        sorted(old),
        old.len() > 0,
        absorbs(old, new, r1),
        forall|t: int| 0 <= t <= old.last() ==> #[trigger] r1(t) == r2(t),
    ensures
        absorbs(old, new, r2),
{
    assert forall|t: int| 0 <= t <= u64::MAX implies #[trigger] count_lt(new, t) == cap(
        old.len(),
        count_lt(old, t) + r2(t),
    ) by {
        lemma_count_lt_sorted(old, t);
    }
}

/// Absorbing nothing leaves the kept entries unchanged.
pub(crate) proof fn lemma_absorbs_nothing(s: Seq<u64>)
    ensures
        absorbs(s, s, |t: int| 0nat),
{
    assert forall|t: int| 0 <= t <= u64::MAX implies #[trigger] count_lt(s, t) == cap(
        s.len(),
        count_lt(s, t) + 0nat,
    ) by {
        lemma_count_lt_bounds(s, t);
    }
}

/// A new entry goes after every kept entry not above it and before every
/// kept entry above it, so that entries of equal distance keep the order in
/// which they came.
pub proof fn lemma_insertion_point_places(d: Seq<u64>, x: u64)
    requires
        sorted(d),
        d.len() > 0,
    ensures
        0 <= insertion_point(d, x) < d.len(),
        forall|i: int| 0 <= i < insertion_point(d, x) ==> d[i] <= x,
        forall|i: int| insertion_point(d, x) <= i < d.len() - 1 ==> d[i] > x,
{
    let kept = d.drop_last();
    assert(sorted(kept)) by {
        assert forall|i: int, j: int| 0 <= i <= j < kept.len() implies kept[i] <= kept[j] by {
            assert(kept[i] == d[i] && kept[j] == d[j]);
        }
    }
    lemma_slot_after_sorted(kept, x);
    lemma_sorted_split(kept, x);
    assert forall|i: int| 0 <= i < insertion_point(d, x) implies d[i] <= x by {
        assert(kept[i] == d[i]);
    }
    assert forall|i: int| insertion_point(d, x) <= i < d.len() - 1 implies d[i] > x by {
        assert(kept[i] == d[i]);
    }
}

} // verus!
