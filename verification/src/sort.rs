//! A stable merge sort of positions.

use crate::bytes;
use crate::bytes::bytes_less;
use crate::split;
use vstd::prelude::*;

verus! {

/// `lt` orders the positions below `n`, where positions of which neither comes
/// first count as equal.
pub open spec fn is_weak_order(lt: spec_fn(int, int) -> bool, n: int) -> bool {
    &&& forall|a: int, b: int| #![trigger lt(a, b)] 0 <= a < n && 0 <= b < n && lt(a, b) ==> !lt(b, a)
    &&& forall|a: int, b: int, c: int|
        #![trigger lt(a, b), lt(b, c)]
        0 <= a < n && 0 <= b < n && 0 <= c < n && !lt(a, b) && !lt(b, c) ==> !lt(a, c)
}

/// Position `a` comes before position `b` in a stable sort.
pub open spec fn comes_before(lt: spec_fn(int, int) -> bool, a: int, b: int) -> bool {
    lt(a, b) || (!lt(b, a) && a < b)
}

/// The positions are in the order of a stable sort.
pub open spec fn in_order(lt: spec_fn(int, int) -> bool, p: Seq<usize>) -> bool {
    forall|i: int, j: int|
        0 <= i < j < p.len() ==> comes_before(lt, #[trigger] p[i] as int, #[trigger] p[j] as int)
}

/// `p` lists each position below `n` once, in the order of a stable sort.
pub open spec fn is_sorting(lt: spec_fn(int, int) -> bool, p: Seq<usize>, n: int) -> bool {
    &&& p.len() == n
    &&& forall|i: int| 0 <= i < p.len() ==> (#[trigger] p[i]) < n
    &&& p.no_duplicates()
    &&& in_order(lt, p)
}

/// The closure decides the order `lt` on the positions below `n`.
pub open spec fn decides<F: Fn(usize, usize) -> bool>(
    less: F,
    lt: spec_fn(int, int) -> bool,
    n: int,
) -> bool {
    &&& forall|a: usize, b: usize| a < n && b < n ==> #[trigger] call_requires(less, (a, b))
    &&& forall|a: usize, b: usize, r: bool|
        a < n && b < n && #[trigger] call_ensures(less, (a, b), r) ==> r == lt(a as int, b as int)
}

proof fn lemma_before_transitive(lt: spec_fn(int, int) -> bool, n: int, a: int, b: int, c: int)
    requires
        is_weak_order(lt, n),
        0 <= a < n,
        0 <= b < n,
        0 <= c < n,
        comes_before(lt, a, b),
        comes_before(lt, b, c),
    ensures
        comes_before(lt, a, c),
{
    if lt(c, a) {
        // Then `a` is not before `c`, and one of the two steps has to fail.
        assert(!lt(a, c));
        if lt(a, b) {
            assert(!lt(b, a));
            assert(!lt(c, b));
            assert(!lt(c, a));
        } else {
            assert(!lt(b, a));
            assert(!lt(c, b));
            assert(!lt(c, a));
        }
    }
    assert(!lt(c, b));
    assert(!lt(b, a));
    assert(!lt(c, a));
    if !lt(a, c) {
        if lt(a, b) {
            assert(!lt(a, c) && !lt(c, b) ==> !lt(a, b));
        }
        if lt(b, c) {
            assert(!lt(b, a) && !lt(a, c) ==> !lt(b, c));
        }
    }
}

/// A list of distinct positions below its own length lists them all.
pub proof fn lemma_sorting_lists_all(p: Seq<usize>, n: int, x: usize)
    requires
        p.len() == n,
        forall|i: int| 0 <= i < p.len() ==> (#[trigger] p[i]) < n,
        p.no_duplicates(),
        x < n,
    ensures
        p.contains(x),
{
    if !p.contains(x) {
        let q = p.map_values(|u: usize| u as int);
        let values = q.to_set();
        let range = vstd::set_lib::set_int_range(0, n);
        vstd::set_lib::lemma_int_range(0, n);
        assert(q.no_duplicates()) by {
            assert forall|i: int, j: int| 0 <= i < q.len() && 0 <= j < q.len() && i != j implies q[i]
                != q[j] by {
                assert(p[i] != p[j]);
            }
        }
        q.unique_seq_to_set();
        assert(values.subset_of(range.remove(x as int))) by {
            assert forall|v: int| values.contains(v) implies range.remove(x as int).contains(v) by {
                let i = choose|i: int| 0 <= i < q.len() && q[i] == v;
                assert(p[i] == v as usize);
                if v == x as int {
                    assert(p[i] == x);
                }
            }
        }
        vstd::set_lib::lemma_len_subset(values, range.remove(x as int));
    }
}

/// The one list of the positions below `n` in the order of a stable sort.
pub open spec fn sorting_of(lt: spec_fn(int, int) -> bool, n: int) -> Seq<usize> {
    choose|p: Seq<usize>| is_sorting(lt, p, n)
}

/// There is one stable sort only.
pub proof fn lemma_sorting_unique(lt: spec_fn(int, int) -> bool, p: Seq<usize>, q: Seq<usize>, n: int)
    requires
        n <= usize::MAX,
        is_weak_order(lt, n),
        is_sorting(lt, p, n),
        is_sorting(lt, q, n),
    ensures
        p == q,
{
    assert forall|k: int| 0 <= k < n implies p[k] == q[k] by {
        lemma_sorting_same_at(lt, p, q, n, k);
    }
    assert(p =~= q);
}

proof fn lemma_sorting_same_at(
    lt: spec_fn(int, int) -> bool,
    p: Seq<usize>,
    q: Seq<usize>,
    n: int,
    k: int,
)
    requires
        n <= usize::MAX,
        is_weak_order(lt, n),
        is_sorting(lt, p, n),
        is_sorting(lt, q, n),
        0 <= k < n,
    ensures
        p[k] == q[k],
    decreases k,
{
    assert forall|j: int| 0 <= j < k implies p[j] == q[j] by {
        lemma_sorting_same_at(lt, p, q, n, j);
    }
    // What stands at `k` in one list stands at `k` or later in the other.
    lemma_sorting_lists_all(q, n, p[k]);
    let i = q.index_of(p[k]);
    if i < k {
        assert(p[i] == q[i]);
        assert(p[i] == p[k]);
    }
    lemma_sorting_lists_all(p, n, q[k]);
    let j = p.index_of(q[k]);
    if j < k {
        assert(p[j] == q[j]);
        assert(q[j] == q[k]);
    }
    if i > k {
        assert(comes_before(lt, q[k] as int, q[i] as int));
        assert(j > k);
        assert(comes_before(lt, p[k] as int, p[j] as int));
        assert(lt(p[k] as int, q[k] as int) ==> !lt(q[k] as int, p[k] as int));
    }
}

/// Every list of positions has a stable sort.
pub proof fn lemma_sorting_exists(lt: spec_fn(int, int) -> bool, n: int)
    requires
        0 <= n <= usize::MAX,
        is_weak_order(lt, n),
    ensures
        is_sorting(lt, sorting_of(lt, n), n),
    decreases n,
{
    if n == 0 {
        assert(is_sorting(lt, Seq::<usize>::empty(), n));
    } else {
        lemma_sorting_exists(lt, n - 1);
        let q = sorting_of(lt, n - 1);
        let x = n - 1;
        let j = lemma_insertion_point(lt, q, x, 0);
        let p = q.insert(j, x as usize);
        assert forall|a: int, b: int| 0 <= a < b < p.len() implies comes_before(
            lt,
            #[trigger] p[a] as int,
            #[trigger] p[b] as int,
        ) by {
            if a < j && b == j {
                assert(p[a] == q[a]);
            } else if a == j && b > j {
                assert(p[b] == q[b - 1]);
            } else {
                let c = if a < j {
                    a
                } else {
                    a - 1
                };
                let d = if b < j {
                    b
                } else {
                    b - 1
                };
                assert(p[a] == q[c]);
                assert(p[b] == q[d]);
                assert(comes_before(lt, q[c] as int, q[d] as int));
            }
        }
        assert forall|a: int| 0 <= a < p.len() implies (#[trigger] p[a]) < n by {
            if a < j {
                assert(p[a] == q[a]);
            } else if a > j {
                assert(p[a] == q[a - 1]);
            }
        }
        assert forall|a: int, b: int| 0 <= a < p.len() && 0 <= b < p.len() && a != b implies p[a]
            != p[b] by {
            if a < b {
                assert(comes_before(lt, p[a] as int, p[b] as int));
            } else {
                assert(comes_before(lt, p[b] as int, p[a] as int));
            }
            assert(lt(p[a] as int, p[a] as int) ==> !lt(p[a] as int, p[a] as int));
        }
        assert(is_sorting(lt, p, n));
    }
}

/// Where a last position is to be inserted: before all that come after it.
proof fn lemma_insertion_point(
    lt: spec_fn(int, int) -> bool,
    q: Seq<usize>,
    x: int,
    from: int,
) -> (j: int)
    requires
        0 <= x < usize::MAX,
        is_weak_order(lt, x + 1),
        is_sorting(lt, q, x),
        0 <= from <= q.len(),
        forall|i: int| 0 <= i < from ==> !lt(x, #[trigger] q[i] as int),
    ensures
        from <= j <= q.len(),
        forall|i: int| 0 <= i < j ==> !lt(x, #[trigger] q[i] as int),
        forall|i: int| j <= i < q.len() ==> lt(x, #[trigger] q[i] as int),
    decreases q.len() - from,
{
    if from == q.len() {
        from
    } else if lt(x, q[from] as int) {
        assert forall|i: int| from <= i < q.len() implies lt(x, #[trigger] q[i] as int) by {
            if i > from {
                assert(comes_before(lt, q[from] as int, q[i] as int));
                assert(!lt(q[i] as int, q[from] as int));
                if !lt(x, q[i] as int) {
                    assert(!lt(x, q[from] as int));
                }
            }
        }
        from
    } else {
        lemma_insertion_point(lt, q, x, from + 1)
    }
}

/// Merges two sorted lists of positions, all of the first below all of the second.
fn merge<F: Fn(usize, usize) -> bool>(
    left: Vec<usize>,
    right: Vec<usize>,
    less: &F,
    Ghost(lt): Ghost<spec_fn(int, int) -> bool>,
    Ghost(n): Ghost<int>,
) -> (r: Vec<usize>)
    requires
        is_weak_order(lt, n),
        decides(*less, lt, n),
        in_order(lt, left@),
        in_order(lt, right@),
        left@.len() + right@.len() <= usize::MAX,
        forall|i: int, j: int|
            0 <= i < left@.len() && 0 <= j < right@.len() ==> #[trigger] left@[i]
                < #[trigger] right@[j],
        forall|i: int| 0 <= i < left@.len() ==> (#[trigger] left@[i]) < n,
        forall|i: int| 0 <= i < right@.len() ==> (#[trigger] right@[i]) < n,
    ensures
        in_order(lt, r@),
        r@.len() == left@.len() + right@.len(),
        forall|k: int|
            0 <= k < r@.len() ==> left@.contains(#[trigger] r@[k]) || right@.contains(r@[k]),
{
    let mut r: Vec<usize> = Vec::new();
    let mut i: usize = 0;
    let mut j: usize = 0;
    while i < left.len() || j < right.len()
        invariant
            is_weak_order(lt, n),
            decides(*less, lt, n),
            in_order(lt, left@),
            in_order(lt, right@),
            left@.len() + right@.len() <= usize::MAX,
            forall|i: int, j: int|
                0 <= i < left@.len() && 0 <= j < right@.len() ==> #[trigger] left@[i]
                    < #[trigger] right@[j],
            forall|i: int| 0 <= i < left@.len() ==> (#[trigger] left@[i]) < n,
            forall|i: int| 0 <= i < right@.len() ==> (#[trigger] right@[i]) < n,
            i <= left@.len(),
            j <= right@.len(),
            r@.len() == i + j,
            in_order(lt, r@),
            forall|k: int|
                0 <= k < r@.len() ==> (#[trigger] r@[k]) < n && (left@.contains(r@[k])
                    || right@.contains(r@[k])),
            forall|k: int, l: int|
                0 <= k < r@.len() && i <= l < left@.len() ==> comes_before(
                    lt,
                    #[trigger] r@[k] as int,
                    #[trigger] left@[l] as int,
                ),
            forall|k: int, l: int|
                0 <= k < r@.len() && j <= l < right@.len() ==> comes_before(
                    lt,
                    #[trigger] r@[k] as int,
                    #[trigger] right@[l] as int,
                ),
        decreases left@.len() + right@.len() - i - j,
    {
        let take_right = if i >= left.len() {
            true
        } else if j >= right.len() {
            false
        } else {
            less(right[j], left[i])
        };
        let ghost before = r@;
        if take_right {
            let x = right[j];
            proof {
                assert(right@.contains(x));
                assert forall|l: int| i <= l < left@.len() implies comes_before(
                    lt,
                    x as int,
                    #[trigger] left@[l] as int,
                ) by {
                    if l > i {
                        lemma_before_transitive(lt, n, x as int, left@[i as int] as int, left@[l] as int);
                    }
                }
            }
            r.push(x);
            j += 1;
        } else {
            let x = left[i];
            proof {
                assert(left@.contains(x));
                assert forall|l: int| j <= l < right@.len() implies comes_before(
                    lt,
                    x as int,
                    #[trigger] right@[l] as int,
                ) by {
                    assert(x < right@[j as int]);
                    if l > j {
                        lemma_before_transitive(
                            lt,
                            n,
                            x as int,
                            right@[j as int] as int,
                            right@[l] as int,
                        );
                    }
                }
            }
            r.push(x);
            i += 1;
        }
    }
    r
}

/// Sorts the positions from `lo` up to `hi`.
fn sort_range<F: Fn(usize, usize) -> bool>(
    lo: usize,
    hi: usize,
    less: &F,
    Ghost(lt): Ghost<spec_fn(int, int) -> bool>,
    Ghost(n): Ghost<int>,
) -> (r: Vec<usize>)
    requires
        lo <= hi <= n,
        is_weak_order(lt, n),
        decides(*less, lt, n),
    ensures
        r@.len() == hi - lo,
        in_order(lt, r@),
        forall|i: int| 0 <= i < r@.len() ==> lo <= (#[trigger] r@[i]) < hi,
    decreases hi - lo,
{
    if hi - lo <= 1 {
        let mut r: Vec<usize> = Vec::new();
        if lo < hi {
            r.push(lo);
        }
        return r;
    }
    let mid = lo + (hi - lo) / 2;
    let left = sort_range(lo, mid, less, Ghost(lt), Ghost(n));
    let right = sort_range(mid, hi, less, Ghost(lt), Ghost(n));
    merge(left, right, less, Ghost(lt), Ghost(n))
}

/// Sorts the positions below `n` by the order that `less` decides. Positions
/// that count as equal keep their order.
pub fn sort_positions<F: Fn(usize, usize) -> bool>(
    n: usize,
    less: &F,
    Ghost(lt): Ghost<spec_fn(int, int) -> bool>,
) -> (r: Vec<usize>)
    requires
        is_weak_order(lt, n as int),
        decides(*less, lt, n as int),
    ensures
        is_sorting(lt, r@, n as int),
{
    let r = sort_range(0, n, less, Ghost(lt), Ghost(n as int));
    assert(r@.no_duplicates()) by {
        assert forall|i: int, j: int| 0 <= i < r@.len() && 0 <= j < r@.len() && i != j implies r@[i]
            != r@[j] by {
            if i < j {
                assert(comes_before(lt, r@[i] as int, r@[j] as int));
            } else {
                assert(comes_before(lt, r@[j] as int, r@[i] as int));
            }
        }
    }
    r
}

/// The lexicographic order of byte strings, by their positions.
pub open spec fn bytes_order(keys: Seq<Seq<u8>>) -> spec_fn(int, int) -> bool {
    |a: int, b: int| bytes::lex_less(keys[a], keys[b])
}

/// Byte strings in lexicographic order.
pub open spec fn sorted_bytes(keys: Seq<Seq<u8>>) -> Seq<Seq<u8>> {
    let p = sorting_of(bytes_order(keys), keys.len() as int);
    Seq::new(keys.len(), |i: int| keys[p[i] as int])
}

/// The lexicographic order is an order.
pub proof fn lemma_bytes_order(keys: Seq<Seq<u8>>)
    ensures
        is_weak_order(bytes_order(keys), keys.len() as int),
{
    let lt = bytes_order(keys);
    let n = keys.len() as int;
    assert forall|a: int, b: int| #![trigger lt(a, b)] 0 <= a < n && 0 <= b < n && lt(
        a,
        b,
    ) implies !lt(b, a) by {
        if lt(b, a) {
            bytes::lemma_lex_transitive(keys[a], keys[b], keys[a]);
            bytes::lemma_lex_irreflexive(keys[a]);
        }
    }
    assert forall|a: int, b: int, c: int|
        #![trigger lt(a, b), lt(b, c)]
        0 <= a < n && 0 <= b < n && 0 <= c < n && !lt(a, b) && !lt(b, c) implies !lt(a, c) by {
        if lt(a, c) {
            if !bytes::lex_less(keys[b], keys[a]) {
                bytes::lemma_lex_total(keys[a], keys[b]);
            } else {
                bytes::lemma_lex_transitive(keys[b], keys[a], keys[c]);
            }
        }
    }
}

/// Sorting keeps the byte strings, and puts different ones in strict order.
pub proof fn lemma_sorted_bytes(keys: Seq<Seq<u8>>)
    requires
        keys.len() <= usize::MAX,
    ensures
        sorted_bytes(keys).len() == keys.len(),
        sorted_bytes(keys).to_set() == keys.to_set(),
        forall|i: int, j: int|
            0 <= i < j < keys.len() ==> !bytes::lex_less(
                #[trigger] sorted_bytes(keys)[j],
                #[trigger] sorted_bytes(keys)[i],
            ),
        keys.no_duplicates() ==> forall|i: int, j: int|
            0 <= i < j < keys.len() ==> bytes::lex_less(
                #[trigger] sorted_bytes(keys)[i],
                #[trigger] sorted_bytes(keys)[j],
            ),
{
    let n = keys.len() as int;
    let lt = bytes_order(keys);
    let s = sorted_bytes(keys);
    lemma_bytes_order(keys);
    lemma_sorting_exists(lt, n);
    let p = sorting_of(lt, n);
    assert forall|k: Seq<u8>| s.to_set().contains(k) <==> keys.to_set().contains(k) by {
        if s.contains(k) {
            let i = s.index_of(k);
            assert(keys[p[i] as int] == k);
        }
        if keys.contains(k) {
            let x = keys.index_of(k);
            lemma_sorting_lists_all(p, n, x as usize);
            let i = p.index_of(x as usize);
            assert(s[i] == k);
        }
    }
    assert(s.to_set() =~= keys.to_set());
    assert forall|i: int, j: int| 0 <= i < j < n implies !bytes::lex_less(
        #[trigger] s[j],
        #[trigger] s[i],
    ) && (keys.no_duplicates() ==> bytes::lex_less(s[i], s[j])) by {
        let a = p[i] as int;
        let b = p[j] as int;
        assert(comes_before(lt, a, b));
        assert(lt(a, b) ==> !lt(b, a));
        if keys.no_duplicates() && !lt(a, b) {
            bytes::lemma_lex_total(keys[a], keys[b]);
        }
    }
}

/// Sorts the positions of byte strings by their lexicographic order.
pub fn sort_bytes(keys: &[Vec<u8>]) -> (p: Vec<usize>)
    ensures
        p@ == sorting_of(bytes_order(split::byte_views(keys@)), keys@.len() as int),
        is_sorting(bytes_order(split::byte_views(keys@)), p@, keys@.len() as int),
{
    let ghost views = split::byte_views(keys@);
    let ghost lt = bytes_order(views);
    let less = |a: usize, b: usize| -> (r: bool)
        requires
            a < keys@.len(),
            b < keys@.len(),
        ensures
            r == bytes::lex_less(keys@[a as int]@, keys@[b as int]@),
        { bytes_less(keys[a].as_slice(), keys[b].as_slice()) };
    proof {
        lemma_bytes_order(views);
    }
    let p = sort_positions(keys.len(), &less, Ghost(lt));
    proof {
        lemma_sorting_exists(lt, keys@.len() as int);
        lemma_sorting_unique(lt, p@, sorting_of(lt, keys@.len() as int), keys@.len() as int);
    }
    p
}

} // verus!
