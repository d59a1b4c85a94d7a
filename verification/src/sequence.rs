//! Sequences under exchanges: the mathematical model that the contracts of
//! the sorts are stated over.

use crate::order::lt;
use vstd::prelude::*;

verus! {

/// `s` with the elements at `i` and `j` exchanged.
pub open spec fn swapped<T>(s: Seq<T>, i: int, j: int) -> Seq<T> {
    s.update(i, s[j]).update(j, s[i])
}

/// No element of `s` is less than one that stands before it.
pub open spec fn sorted<T: PartialOrd>(s: Seq<T>) -> bool {
    forall|i: int, j: int| 0 <= i < j < s.len() ==> !lt(#[trigger] s[j], #[trigger] s[i])
}

/// No element of `s` in `low..=high` is less than one that stands before it
/// in that range.
pub open spec fn sorted_between<T: PartialOrd>(s: Seq<T>, low: int, high: int) -> bool {
    forall|i: int, j: int| low <= i < j <= high ==> !lt(#[trigger] s[j], #[trigger] s[i])
}

/// Every exchange in `swaps` names two positions below `len`.
pub open spec fn in_bounds(swaps: Seq<(int, int)>, len: nat) -> bool {
    forall|k: int|
        0 <= k < swaps.len() ==> 0 <= (#[trigger] swaps[k]).0 < len && 0 <= swaps[k].1 < len
}

/// Every exchange in `swaps` names two positions of `low..=high`.
pub open spec fn within(swaps: Seq<(int, int)>, low: int, high: int) -> bool {
    forall|k: int|
        0 <= k < swaps.len() ==> low <= (#[trigger] swaps[k]).0 <= high && low <= swaps[k].1
            <= high
}

/// `x` stands at a position of `s` in `low..=high`.
pub open spec fn occurs_in<T>(s: Seq<T>, x: T, low: int, high: int) -> bool {
    exists|m: int| 0 <= m < s.len() && low <= m <= high && #[trigger] s[m] == x
}

/// `r` is `s` rearranged inside `low..=high`: outside that range nothing
/// has moved, and what stands inside it stood inside it before.
pub open spec fn confined<T>(s: Seq<T>, r: Seq<T>, low: int, high: int) -> bool {
    &&& r.len() == s.len()
    &&& forall|k: int| 0 <= k < s.len() && !(low <= k <= high) ==> #[trigger] r[k] == s[k]
    &&& forall|k: int|
        0 <= k < s.len() && low <= k <= high ==> occurs_in(s, #[trigger] r[k], low, high)
}

/// `s` after the exchanges in `swaps`, made in order.
pub open spec fn apply_swaps<T>(s: Seq<T>, swaps: Seq<(int, int)>) -> Seq<T>
    decreases swaps.len(),
{
    if swaps.len() == 0 {
        s
    } else {
        apply_swaps(swapped(s, swaps[0].0, swaps[0].1), swaps.drop_first())
    }
}

/// An exchange of two positions of `s` keeps its length and its elements.
pub proof fn lemma_swapped_permutes<T>(s: Seq<T>, i: int, j: int)
    requires
        0 <= i < s.len(),
        0 <= j < s.len(),
    ensures
        swapped(s, i, j).len() == s.len(),
        swapped(s, i, j).to_multiset() == s.to_multiset(),
{
    broadcast use vstd::seq_lib::to_multiset_update;
    broadcast use vstd::seq_lib::group_to_multiset_ensures;
    broadcast use vstd::multiset::group_multiset_axioms;

    let mid = s.update(i, s[j]);
    assert(mid.to_multiset() == s.to_multiset().insert(s[j]).remove(s[i]));
    assert(swapped(s, i, j).to_multiset() == mid.to_multiset().insert(s[i]).remove(mid[j]));
    assert(s.to_multiset().count(s[i]) > 0);
    assert(s.to_multiset().count(s[j]) > 0);
    assert(swapped(s, i, j).to_multiset() =~= s.to_multiset());
}

/// Applying `first` and then `rest` is applying their concatenation.
pub proof fn lemma_apply_concat<T>(s: Seq<T>, first: Seq<(int, int)>, rest: Seq<(int, int)>)
    ensures
        apply_swaps(s, first + rest) == apply_swaps(apply_swaps(s, first), rest),
    decreases first.len(),
{
    if first.len() == 0 {
        assert(first + rest =~= rest);
    } else {
        assert((first + rest).drop_first() =~= first.drop_first() + rest);
        lemma_apply_concat(swapped(s, first[0].0, first[0].1), first.drop_first(), rest);
    }
}

/// Applying one exchange and then `rest`.
pub proof fn lemma_apply_first<T>(s: Seq<T>, i: int, j: int, rest: Seq<(int, int)>)
    ensures
        apply_swaps(s, seq![(i, j)] + rest) == apply_swaps(swapped(s, i, j), rest),
{
    let all = seq![(i, j)] + rest;
    assert(all.drop_first() =~= rest);
    assert(all[0] == (i, j));
}

/// Exchanges within bounds keep the length and the elements of a sequence.
pub proof fn lemma_apply_permutes<T>(s: Seq<T>, swaps: Seq<(int, int)>)
    requires
        in_bounds(swaps, s.len()),
    ensures
        apply_swaps(s, swaps).len() == s.len(),
        apply_swaps(s, swaps).to_multiset() == s.to_multiset(),
    decreases swaps.len(),
{
    if swaps.len() > 0 {
        lemma_swapped_permutes(s, swaps[0].0, swaps[0].1);
        let rest = swaps.drop_first();
        assert forall|k: int| 0 <= k < rest.len() implies 0 <= (#[trigger] rest[k]).0 < s.len() && 0
            <= rest[k].1 < s.len() by {
            assert(rest[k] == swaps[k + 1]);
        }
        lemma_apply_permutes(swapped(s, swaps[0].0, swaps[0].1), rest);
    }
}

/// A sequence of at most one element is sorted.
pub proof fn lemma_short_is_sorted<T: PartialOrd>(s: Seq<T>)
    requires
        s.len() <= 1,
    ensures
        sorted(s),
{
}

/// One exchange within bounds before others within bounds.
pub proof fn lemma_in_bounds_first(i: int, j: int, rest: Seq<(int, int)>, len: nat)
    requires
        0 <= i < len,
        0 <= j < len,
        in_bounds(rest, len),
    ensures
        in_bounds(seq![(i, j)] + rest, len),
{
    let all = seq![(i, j)] + rest;
    assert forall|k: int| 0 <= k < all.len() implies 0 <= (#[trigger] all[k]).0 < len && 0
        <= all[k].1 < len by {
        if k > 0 {
            assert(all[k] == rest[k - 1]);
        }
    }
}

/// A concatenation is within bounds if both parts are.
pub proof fn lemma_in_bounds_concat(first: Seq<(int, int)>, rest: Seq<(int, int)>, len: nat)
    requires
        in_bounds(first, len),
        in_bounds(rest, len),
    ensures
        in_bounds(first + rest, len),
{
    let all = first + rest;
    assert forall|k: int| 0 <= k < all.len() implies 0 <= (#[trigger] all[k]).0 < len && 0
        <= all[k].1 < len by {
        if k < first.len() {
            assert(all[k] == first[k]);
        } else {
            assert(all[k] == rest[k - first.len()]);
        }
    }
}

/// Exchanges of `low..=high` are within bounds where that range is.
pub proof fn lemma_within_in_bounds(swaps: Seq<(int, int)>, low: int, high: int, len: nat)
    requires
        within(swaps, low, high),
        0 <= low,
        high < len,
    ensures
        in_bounds(swaps, len),
{
}

/// A concatenation stays in a range that both parts stay in.
pub proof fn lemma_within_concat(
    first: Seq<(int, int)>,
    rest: Seq<(int, int)>,
    low: int,
    high: int,
)
    requires
        within(first, low, high),
        within(rest, low, high),
    ensures
        within(first + rest, low, high),
{
    assert forall|k: int| 0 <= k < (first + rest).len() implies low <= (#[trigger] (first
        + rest)[k]).0 <= high && low <= (first + rest)[k].1 <= high by {
        if k < first.len() {
            assert((first + rest)[k] == first[k]);
        } else {
            assert((first + rest)[k] == rest[k - first.len()]);
        }
    }
}

/// Exchanges that stay in a range stay in any range around it.
pub proof fn lemma_within_widen(
    swaps: Seq<(int, int)>,
    low: int,
    high: int,
    wide_low: int,
    wide_high: int,
)
    requires
        within(swaps, low, high),
        wide_low <= low,
        high <= wide_high,
    ensures
        within(swaps, wide_low, wide_high),
{
}

/// Rearranging inside a range twice is rearranging inside it.
pub proof fn lemma_confined_transitive<T>(s: Seq<T>, mid: Seq<T>, r: Seq<T>, low: int, high: int)
    requires
        confined(s, mid, low, high),
        confined(mid, r, low, high),
    ensures
        confined(s, r, low, high),
{
    assert forall|k: int| 0 <= k < s.len() && low <= k <= high implies occurs_in(
        s,
        #[trigger] r[k],
        low,
        high,
    ) by {
        assert(occurs_in(mid, r[k], low, high));
        let via = choose|m: int| 0 <= m < mid.len() && low <= m <= high && mid[m] == r[k];
        assert(occurs_in(s, mid[via], low, high));
    }
}

/// Exchanges of a range within bounds rearrange the sequence inside that
/// range.
pub proof fn lemma_apply_confined<T>(s: Seq<T>, swaps: Seq<(int, int)>, low: int, high: int)
    requires
        within(swaps, low, high),
        0 <= low,
        high < s.len(),
    ensures
        confined(s, apply_swaps(s, swaps), low, high),
    decreases swaps.len(),
{
    if swaps.len() == 0 {
        assert forall|k: int| 0 <= k < s.len() && low <= k <= high implies occurs_in(
            s,
            #[trigger] s[k],
            low,
            high,
        ) by {
            assert(s[k] == s[k]);
        }
    } else {
        let (i, j) = swaps[0];
        let mid = swapped(s, i, j);
        assert forall|k: int| 0 <= k < s.len() && low <= k <= high implies occurs_in(
            s,
            #[trigger] mid[k],
            low,
            high,
        ) by {
            let from = if k == j {
                i
            } else if k == i {
                j
            } else {
                k
            };
            assert(s[from] == mid[k]);
        }
        let rest = swaps.drop_first();
        assert forall|k: int| 0 <= k < rest.len() implies low <= (#[trigger] rest[k]).0 <= high
            && low <= rest[k].1 <= high by {
            assert(rest[k] == swaps[k + 1]);
        }
        lemma_apply_confined(mid, rest, low, high);
        lemma_confined_transitive(s, mid, apply_swaps(mid, rest), low, high);
    }
}

/// The exchange of positions `i` and `j` of `s` puts right a pair that is
/// out of order: `i` comes before `j`, and the element at `j` is less than
/// the element at `i`. With `adjacent`, the two positions are neighbours.
pub open spec fn inverts<T: PartialOrd>(s: Seq<T>, i: int, j: int, adjacent: bool) -> bool {
    &&& 0 <= i < j < s.len()
    &&& lt(s[j], s[i])
    &&& adjacent ==> j == i + 1
}

/// Every exchange of `swaps`, made in order on `s`, puts right a pair that
/// is out of order when the exchange is made.
pub open spec fn inverting<T: PartialOrd>(
    s: Seq<T>,
    swaps: Seq<(int, int)>,
    adjacent: bool,
) -> bool {
    forall|k: int|
        0 <= k < swaps.len() ==> inverts(
            apply_swaps(s, #[trigger] swaps.take(k)),
            swaps[k].0,
            swaps[k].1,
            adjacent,
        )
}

/// One exchange of a pair out of order before others of the same kind.
pub proof fn lemma_inverting_first<T: PartialOrd>(
    s: Seq<T>,
    i: int,
    j: int,
    rest: Seq<(int, int)>,
    adjacent: bool,
)
    requires
        inverts(s, i, j, adjacent),
        inverting(swapped(s, i, j), rest, adjacent),
    ensures
        inverting(s, seq![(i, j)] + rest, adjacent),
{
    let all = seq![(i, j)] + rest;
    assert forall|k: int| 0 <= k < all.len() implies inverts(
        apply_swaps(s, #[trigger] all.take(k)),
        all[k].0,
        all[k].1,
        adjacent,
    ) by {
        if k == 0 {
            assert(all.take(0) =~= Seq::<(int, int)>::empty());
        } else {
            assert(all.take(k) =~= seq![(i, j)] + rest.take(k - 1));
            lemma_apply_first(s, i, j, rest.take(k - 1));
            assert(all[k] == rest[k - 1]);
        }
    }
}

/// Exchanges of pairs out of order, and then more of them.
pub proof fn lemma_inverting_concat<T: PartialOrd>(
    s: Seq<T>,
    first: Seq<(int, int)>,
    rest: Seq<(int, int)>,
    adjacent: bool,
)
    requires
        inverting(s, first, adjacent),
        inverting(apply_swaps(s, first), rest, adjacent),
    ensures
        inverting(s, first + rest, adjacent),
{
    let all = first + rest;
    assert forall|k: int| 0 <= k < all.len() implies inverts(
        apply_swaps(s, #[trigger] all.take(k)),
        all[k].0,
        all[k].1,
        adjacent,
    ) by {
        if k < first.len() {
            assert(all.take(k) =~= first.take(k));
            assert(all[k] == first[k]);
        } else {
            let m = k - first.len();
            assert(all.take(k) =~= first + rest.take(m));
            lemma_apply_concat(s, first, rest.take(m));
            assert(all[k] == rest[m]);
        }
    }
}

/// Of exchanges of pairs out of order the first is one, and the others are
/// such exchanges on what the first leaves.
pub proof fn lemma_inverting_rest<T: PartialOrd>(s: Seq<T>, swaps: Seq<(int, int)>, adjacent: bool)
    requires
        inverting(s, swaps, adjacent),
        swaps.len() > 0,
    ensures
        inverts(s, swaps[0].0, swaps[0].1, adjacent),
        inverting(swapped(s, swaps[0].0, swaps[0].1), swaps.drop_first(), adjacent),
{
    let rest = swaps.drop_first();
    let after = swapped(s, swaps[0].0, swaps[0].1);
    assert(swaps.take(0) =~= Seq::<(int, int)>::empty());
    assert(apply_swaps(s, swaps.take(0)) == s);
    assert forall|k: int| 0 <= k < rest.len() implies inverts(
        apply_swaps(after, #[trigger] rest.take(k)),
        rest[k].0,
        rest[k].1,
        adjacent,
    ) by {
        assert(swaps.take(k + 1) =~= seq![swaps[0]] + rest.take(k));
        lemma_apply_first(s, swaps[0].0, swaps[0].1, rest.take(k));
        assert(rest[k] == swaps[k + 1]);
    }
}

} // verus!
