//! What it means to select items of a list.

use vstd::prelude::*;

verus! {

/// The results are the values of exactly those of the first `n` items that are
/// wanted, one for each, in the order of the items: the result at position `k`
/// comes from the item at position `at[k]`.
pub open spec fn is_selected<A, B>(
    results: Seq<B>,
    items: Seq<A>,
    n: int,
    wanted: spec_fn(A) -> bool,
    value: spec_fn(A) -> B,
    at: Seq<int>,
) -> bool {
    &&& at.len() == results.len()
    &&& forall|k: int|
        0 <= k < at.len() ==> 0 <= (#[trigger] at[k]) < n && wanted(items[at[k]]) && results[k]
            == value(items[at[k]])
    &&& forall|k: int, l: int| 0 <= k < l < at.len() ==> (#[trigger] at[k]) < (#[trigger] at[l])
    &&& forall|i: int| 0 <= i < n && wanted(#[trigger] items[i]) ==> at.contains(i)
}

/// No item is selected from none.
pub proof fn lemma_none_selected<A, B>(
    items: Seq<A>,
    wanted: spec_fn(A) -> bool,
    value: spec_fn(A) -> B,
)
    ensures
        is_selected(Seq::<B>::empty(), items, 0, wanted, value, Seq::empty()),
{
}

/// An item that is wanted is selected next.
pub proof fn lemma_select_next<A, B>(
    results: Seq<B>,
    items: Seq<A>,
    n: int,
    wanted: spec_fn(A) -> bool,
    value: spec_fn(A) -> B,
    at: Seq<int>,
)
    requires
        is_selected(results, items, n, wanted, value, at),
        wanted(items[n]),
        0 <= n,
    ensures
        is_selected(results.push(value(items[n])), items, n + 1, wanted, value, at.push(n)),
{
    let now = at.push(n);
    assert forall|i: int| 0 <= i < n + 1 && wanted(#[trigger] items[i]) implies now.contains(i) by {
        if i < n {
            let k = at.index_of(i);
            assert(now[k] == i);
        } else {
            assert(now[at.len() as int] == i);
        }
    }
}

/// An item that is not wanted is passed over.
pub proof fn lemma_pass_over<A, B>(
    results: Seq<B>,
    items: Seq<A>,
    n: int,
    wanted: spec_fn(A) -> bool,
    value: spec_fn(A) -> B,
    at: Seq<int>,
)
    requires
        is_selected(results, items, n, wanted, value, at),
        !wanted(items[n]),
        0 <= n,
    ensures
        is_selected(results, items, n + 1, wanted, value, at),
{
}

/// The results are the values of the items that are wanted.
pub proof fn lemma_selected_values<A, B>(
    results: Seq<B>,
    items: Seq<A>,
    n: int,
    wanted: spec_fn(A) -> bool,
    value: spec_fn(A) -> B,
    at: Seq<int>,
    b: B,
)
    requires
        is_selected(results, items, n, wanted, value, at),
    ensures
        results.contains(b) <==> exists|i: int|
            0 <= i < n && wanted(#[trigger] items[i]) && value(items[i]) == b,
{
    if results.contains(b) {
        let k = results.index_of(b);
        assert(0 <= at[k] < n);
        assert(wanted(items[at[k]]) && value(items[at[k]]) == b);
    }
    if exists|i: int| 0 <= i < n && wanted(#[trigger] items[i]) && value(items[i]) == b {
        let i = choose|i: int| 0 <= i < n && wanted(#[trigger] items[i]) && value(items[i]) == b;
        let k = at.index_of(i);
        assert(at[k] == i);
        assert(results[k] == b);
    }
}

} // verus!
