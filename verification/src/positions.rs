//! Ascending position lists: the shape of every inverted index of the rule
//! table.

use vstd::prelude::*;

verus! {

/// The positions below `n` that `keep` selects, in ascending order.
pub open spec fn positions(n: nat, keep: spec_fn(int) -> bool) -> Seq<usize>
    decreases n,
{
    if n == 0 {
        Seq::empty()
    } else {
        let rest = positions((n - 1) as nat, keep);
        if keep(n - 1) {
            rest.push((n - 1) as usize)
        } else {
            rest
        }
    }
}

/// Whether every element of `s` is smaller than the one after it.
pub open spec fn strictly_ascending(s: Seq<usize>) -> bool {
    forall|a: int, b: int| 0 <= a < b < s.len() ==> s[a] < s[b]
}

/// A position list holds only positions below `n`, at most `n` of them.
pub proof fn lemma_positions_bounded(n: nat, keep: spec_fn(int) -> bool)
    requires
        n <= usize::MAX,
    ensures
        positions(n, keep).len() <= n,
        forall|j: int| 0 <= j < positions(n, keep).len() ==> (#[trigger] positions(n, keep)[j]) < n,
    decreases n,
{
    if n > 0 {
        lemma_positions_bounded((n - 1) as nat, keep);
    }
}

/// A position list holds exactly the selected positions.
pub proof fn lemma_positions_contains(n: nat, keep: spec_fn(int) -> bool, i: usize)
    requires
        n <= usize::MAX,
    ensures
        positions(n, keep).contains(i) <==> (i < n && keep(i as int)),
    decreases n,
{
    if n > 0 {
        let rest = positions((n - 1) as nat, keep);
        lemma_positions_contains((n - 1) as nat, keep, i);
        if keep(n - 1) {
            let last = (n - 1) as usize;
            let full = rest.push(last);
            if rest.contains(i) {
                let j = choose|j: int| 0 <= j < rest.len() && rest[j] == i;
                assert(full[j] == i);
            }
            if i == last {
                assert(full[rest.len() as int] == i);
            }
            if full.contains(i) {
                let j = choose|j: int| 0 <= j < full.len() && full[j] == i;
                if j < rest.len() {
                    assert(rest[j] == i);
                }
            }
        }
    }
}

/// A position list is strictly ascending, so no position occurs twice.
pub proof fn lemma_positions_ascending(n: nat, keep: spec_fn(int) -> bool)
    requires
        n <= usize::MAX,
    ensures
        strictly_ascending(positions(n, keep)),
    decreases n,
{
    if n > 0 {
        lemma_positions_ascending((n - 1) as nat, keep);
        lemma_positions_bounded((n - 1) as nat, keep);
    }
}

/// Two selections that agree below `n` give the same list.
pub proof fn lemma_positions_agree(n: nat, keep: spec_fn(int) -> bool, other: spec_fn(int) -> bool)
    requires
        forall|i: int| 0 <= i < n ==> #[trigger] keep(i) == other(i),
    ensures
        positions(n, keep) == positions(n, other),
    decreases n,
{
    if n > 0 {
        lemma_positions_agree((n - 1) as nat, keep, other);
    }
}

/// A selection that holds nowhere below `n` gives the empty list.
pub proof fn lemma_positions_none(n: nat, keep: spec_fn(int) -> bool)
    requires
        forall|i: int| 0 <= i < n ==> !#[trigger] keep(i),
    ensures
        positions(n, keep) == Seq::<usize>::empty(),
    decreases n,
{
    if n > 0 {
        lemma_positions_none((n - 1) as nat, keep);
    }
}

/// Two selections that exclude each other fill at most `n` places together.
pub proof fn lemma_positions_disjoint(n: nat, keep: spec_fn(int) -> bool, other: spec_fn(int) -> bool)
    requires
        forall|i: int| 0 <= i < n ==> !(#[trigger] keep(i) && other(i)),
    ensures
        positions(n, keep).len() + positions(n, other).len() <= n,
    decreases n,
{
    if n > 0 {
        lemma_positions_disjoint((n - 1) as nat, keep, other);
    }
}

/// The least position below `n` that `keep` selects, if there is one.
pub open spec fn least(n: nat, keep: spec_fn(int) -> bool) -> Option<usize>
    decreases n,
{
    if n == 0 {
        None
    } else {
        match least((n - 1) as nat, keep) {
            Some(i) => Some(i),
            None => if keep(n - 1) {
                Some((n - 1) as usize)
            } else {
                None
            },
        }
    }
}

/// `least` yields a selected position with none selected below it, and
/// yields nothing only where nothing is selected.
pub proof fn lemma_least(n: nat, keep: spec_fn(int) -> bool)
    requires
        n <= usize::MAX,
    ensures
        match least(n, keep) {
            Some(i) => i < n && keep(i as int) && forall|j: int| 0 <= j < i ==> !#[trigger] keep(j),
            None => forall|j: int| 0 <= j < n ==> !#[trigger] keep(j),
        },
    decreases n,
{
    if n > 0 {
        lemma_least((n - 1) as nat, keep);
    }
}

/// A selected position with none selected below it is what `least` yields.
pub proof fn lemma_least_is(n: nat, keep: spec_fn(int) -> bool, i: usize)
    requires
        n <= usize::MAX,
        i < n,
        keep(i as int),
        forall|j: int| 0 <= j < i ==> !#[trigger] keep(j),
    ensures
        least(n, keep) == Some(i),
{
    lemma_least(n, keep);
}

/// The least selected position heads the list of selected positions.
pub proof fn lemma_least_heads_positions(n: nat, keep: spec_fn(int) -> bool)
    requires
        n <= usize::MAX,
    ensures
        least(n, keep) == (if positions(n, keep).len() > 0 {
            Some(positions(n, keep)[0])
        } else {
            None
        }),
    decreases n,
{
    if n > 0 {
        lemma_least_heads_positions((n - 1) as nat, keep);
    }
}

/// One more rule extends a position list at its end, or leaves it.
pub proof fn lemma_step(k: nat, keep: spec_fn(int) -> bool)
    ensures
        positions(k + 1, keep) == (if keep(k as int) {
            positions(k, keep).push(k as usize)
        } else {
            positions(k, keep)
        }),
{
    assert(positions(((k + 1) - 1) as nat, keep) == positions(k, keep));
}

} // verus!
