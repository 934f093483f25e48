//! Splitting of work: partitions of bounded weight and groups for threads.

use vstd::prelude::*;
use vstd::slice::slice_subrange;

verus! {

/// `values` are values that `eval` gives for the items, one for each.
pub open spec fn measures<T, F: Fn(&T) -> u64>(eval: F, xs: Seq<T>, values: Seq<u64>) -> bool {
    &&& values.len() == xs.len()
    &&& forall|i: int| 0 <= i < xs.len() ==> call_ensures(eval, (&xs[i],), #[trigger] values[i])
}

/// `parts` are the given ranges of the items.
pub open spec fn are_ranges_of<T>(parts: Seq<&[T]>, xs: Seq<T>, ranges: Seq<(int, int)>) -> bool {
    &&& parts.len() == ranges.len()
    &&& forall|k: int|
        0 <= k < parts.len() ==> (#[trigger] parts[k])@ == xs.subrange(ranges[k].0, ranges[k].1)
}

/// The sum of a list of values.
pub open spec fn sum_of(values: Seq<u64>) -> nat
    decreases values.len(),
{
    if values.len() == 0 {
        0
    } else {
        sum_of(values.drop_last()) + values.last() as nat
    }
}

/// The first values add up to at most the sum of all.
pub proof fn lemma_sum_of_prefix(values: Seq<u64>, n: int)
    requires
        0 <= n <= values.len(),
    ensures
        sum_of(values.take(n)) <= sum_of(values),
    decreases values.len(),
{
    if n < values.len() {
        lemma_sum_of_prefix(values.drop_last(), n);
        assert(values.drop_last().take(n) =~= values.take(n));
    } else {
        assert(values.take(n) =~= values);
    }
}

/// The sum of the values from `i` up to `j`.
pub open spec fn range_sum(values: Seq<u64>, i: int, j: int) -> nat
    decreases j - i,
{
    if i >= j {
        0
    } else {
        range_sum(values, i, j - 1) + values[j - 1] as nat
    }
}

/// Sums of adjacent ranges add up.
pub proof fn lemma_range_sum_split(values: Seq<u64>, i: int, j: int, k: int)
    requires
        0 <= i <= j <= k <= values.len(),
    ensures
        range_sum(values, i, k) == range_sum(values, i, j) + range_sum(values, j, k),
    decreases k - j,
{
    if j < k {
        lemma_range_sum_split(values, i, j, k - 1);
    }
}

/// The sum of a list is the sum over its whole range.
pub proof fn lemma_sum_is_range_sum(values: Seq<u64>)
    ensures
        sum_of(values) == range_sum(values, 0, values.len() as int),
    decreases values.len(),
{
    if values.len() > 0 {
        let init = values.drop_last();
        lemma_sum_is_range_sum(init);
        lemma_range_sum_same(init, values, 0, init.len() as int);
    }
}

/// Equal values have equal sums.
pub proof fn lemma_range_sum_same(a: Seq<u64>, b: Seq<u64>, i: int, j: int)
    requires
        0 <= i,
        j <= a.len(),
        j <= b.len(),
        forall|k: int| i <= k < j ==> a[k] == b[k],
    ensures
        range_sum(a, i, j) == range_sum(b, i, j),
    decreases j - i,
{
    if i < j {
        lemma_range_sum_same(a, b, i, j - 1);
    }
}

/// A sum over a range is at most the sum over a range around it.
pub proof fn lemma_range_sum_within(values: Seq<u64>, i: int, j: int)
    requires
        0 <= i <= j <= values.len(),
    ensures
        range_sum(values, i, j) <= sum_of(values),
{
    lemma_sum_is_range_sum(values);
    lemma_range_sum_split(values, 0, i, values.len() as int);
    lemma_range_sum_split(values, i, j, values.len() as int);
}

/// Where a partition ends that starts with the sum `curr` at position `i`: at
/// the first value with which the sum would exceed the bound.
pub open spec fn fit_end(values: Seq<u64>, i: int, curr: int, bound: int) -> int
    decreases values.len() - i,
{
    if 0 <= i < values.len() && curr + values[i] <= bound {
        fit_end(values, i + 1, curr + values[i], bound)
    } else {
        i
    }
}

/// The ranges that `rounds` bounded partitions and one last partition make of
/// the values from position `i` on. Empty ranges are left out.
pub open spec fn cuts(values: Seq<u64>, i: int, rounds: nat, bound: int) -> Seq<(int, int)>
    decreases rounds,
{
    if rounds == 0 {
        if i < values.len() {
            seq![(i, values.len() as int)]
        } else {
            Seq::empty()
        }
    } else {
        let e = fit_end(values, i, 0, bound);
        let rest = cuts(values, e, (rounds - 1) as nat, bound);
        if e != i {
            seq![(i, e)] + rest
        } else {
            rest
        }
    }
}

/// The number of partitions asked for, limited to the number of items. The
/// number of items counts modulo two to the 32.
pub open spec fn partition_limit(n: u32, len: nat) -> int {
    let items = (len % 0x1_0000_0000) as int;
    if n <= items {
        n as int
    } else {
        items
    }
}

/// The ranges of the items that go into each partition.
pub open spec fn partition_ranges(values: Seq<u64>, n: u32) -> Seq<(int, int)> {
    if values.len() == 0 {
        Seq::empty()
    } else {
        let limit = partition_limit(n, values.len());
        cuts(values, 0, (limit - 1) as nat, sum_of(values) as int / limit)
    }
}

proof fn lemma_fit_end(values: Seq<u64>, i: int, curr: int, bound: int)
    requires
        0 <= i <= values.len(),
    ensures
        i <= fit_end(values, i, curr, bound) <= values.len(),
        curr <= bound ==> curr + range_sum(values, i, fit_end(values, i, curr, bound)) <= bound,
    decreases values.len() - i,
{
    if i < values.len() && curr + values[i] <= bound {
        lemma_fit_end(values, i + 1, curr + values[i], bound);
        let e = fit_end(values, i, curr, bound);
        lemma_range_sum_split(values, i, i + 1, e);
        assert(range_sum(values, i, i) == 0);
        assert(range_sum(values, i, i + 1) == values[i] as nat);
    }
}

/// Evaluates all items.
fn evaluate<T, F: Fn(&T) -> u64>(xs: &[T], eval: &F) -> (r: Vec<u64>)
    requires
        forall|i: int| 0 <= i < xs@.len() ==> call_requires(*eval, (&#[trigger] xs@[i],)),
    ensures
        measures(*eval, xs@, r@),
{
    let mut r: Vec<u64> = Vec::new();
    let mut i: usize = 0;
    while i < xs.len()
        invariant
            forall|i: int| 0 <= i < xs@.len() ==> call_requires(*eval, (&#[trigger] xs@[i],)),
            i <= xs.len(),
            r@.len() == i,
            forall|k: int| 0 <= k < i ==> call_ensures(*eval, (&xs@[k],), #[trigger] r@[k]),
        decreases xs.len() - i,
    {
        r.push(eval(&xs[i]));
        i += 1;
    }
    r
}

/// Adds up the values.
pub fn total_of(values: &[u64]) -> (total: u64)
    requires
        sum_of(values@) <= u64::MAX,
    ensures
        total == sum_of(values@),
{
    let mut total: u64 = 0;
    let mut i: usize = 0;
    proof {
        lemma_sum_is_range_sum(values@);
    }
    while i < values.len()
        invariant
            i <= values.len(),
            total == range_sum(values@, 0, i as int),
            sum_of(values@) <= u64::MAX,
        decreases values.len() - i,
    {
        proof {
            lemma_range_sum_within(values@, 0, i + 1);
        }
        total += values[i];
        i += 1;
    }
    proof {
        lemma_sum_is_range_sum(values@);
    }
    total
}

/// Partition the dataset into *up to* `n` partitions, using the values returned
/// by `eval` as the partitioning metric.
pub fn partition_by_u64<T, F: Fn(&T) -> u64>(xs: &[T], n: u32, eval: F) -> (r: Vec<&[T]>)
    requires
        forall|i: int| 0 <= i < xs@.len() ==> call_requires(eval, (&#[trigger] xs@[i],)),
        forall|values: Seq<u64>| #[trigger]
            measures(eval, xs@, values) ==> sum_of(values) <= u64::MAX,
        xs@.len() > 0 ==> partition_limit(n, xs@.len()) > 0,
    ensures
        exists|values: Seq<u64>| #[trigger]
            measures(eval, xs@, values) && are_ranges_of(r@, xs@, partition_ranges(values, n)),
{
    let values = evaluate(xs, &eval);
    if xs.len() == 0 {
        let r: Vec<&[T]> = Vec::new();
        assert(are_ranges_of(r@, xs@, partition_ranges(values@, n)));
        return r;
    }
    let len = xs.len() as u64;
    let items = #[verifier::truncate] (len as u32);
    assert(items == len % 0x1_0000_0000) by (bit_vector)
        requires
            items == len as u32,
    ;
    let limit: u32 = if n <= items {
        n
    } else {
        items
    };
    let total = total_of(values.as_slice());
    let bound = total / (limit as u64);
    let ghost all = partition_ranges(values@, n);
    let mut partitions: Vec<&[T]> = Vec::new();
    let mut i: usize = 0;
    let mut round: u32 = 0;
    assert(all =~= Seq::<(int, int)>::empty() + all);
    let ghost mut done: Seq<(int, int)> = Seq::empty();
    while round < limit - 1
        invariant
            values@.len() == xs@.len(),
            sum_of(values@) <= u64::MAX,
            i <= xs.len(),
            round <= limit - 1,
            all == done + cuts(values@, i as int, (limit - 1 - round) as nat, bound as int),
            are_ranges_of(partitions@, xs@, done),
        decreases limit - round,
    {
        let begin = i;
        let mut curr: u64 = 0;
        let ghost end = fit_end(values@, i as int, 0, bound as int);
        while i < xs.len()
            invariant
                values@.len() == xs@.len(),
                sum_of(values@) <= u64::MAX,
                begin <= i <= xs.len(),
                curr == range_sum(values@, begin as int, i as int),
                end == fit_end(values@, i as int, curr as int, bound as int),
            ensures
                i == end,
                begin <= i <= xs.len(),
            decreases xs.len() - i,
        {
            let v = values[i];
            proof {
                lemma_range_sum_within(values@, begin as int, i + 1);
            }
            if curr + v <= bound {
                curr += v;
            } else {
                break;
            }
            i += 1;
        }
        let ghost rest = cuts(values@, i as int, (limit - 1 - round - 1) as nat, bound as int);
        if begin != i {
            partitions.push(slice_subrange(xs, begin, i));
            proof {
                let now = (begin as int, i as int);
                assert(done + (seq![now] + rest) =~= done.push(now) + rest);
                done = done.push(now);
            }
        }
        round += 1;
    }
    if i < xs.len() {
        partitions.push(slice_subrange(xs, i, xs.len()));
        proof {
            let now = (i as int, xs@.len() as int);
            done = done.push(now);
        }
    }
    assert(all =~= done);
    assert(are_ranges_of(partitions@, xs@, partition_ranges(values@, n)));
    partitions
}

/// What holds of every list of cuts: the ranges are not empty and follow one
/// another from the first position to the last, and all but the last partition
/// keep to the bound.
proof fn lemma_cuts(values: Seq<u64>, i: int, rounds: nat, bound: int)
    requires
        0 <= i <= values.len(),
        0 <= bound,
    ensures
        ({
            let all = cuts(values, i, rounds, bound);
            &&& all.len() <= rounds + 1
            &&& (i < values.len() ==> all.len() > 0 && all[0].0 == i && all.last().1
                == values.len())
            &&& (i == values.len() ==> all.len() == 0)
            &&& forall|k: int| 0 <= k < all.len() ==> i <= (#[trigger] all[k]).0 < all[k].1 <= values.len()
            &&& forall|k: int| 0 <= k < all.len() - 1 ==> (#[trigger] all[k]).1 == all[k + 1].0
            &&& forall|k: int|
                0 <= k < all.len() && k < rounds && #[trigger] all[k].1 < values.len() ==> range_sum(
                    values,
                    all[k].0,
                    all[k].1,
                ) <= bound
        }),
    decreases rounds,
{
    if rounds > 0 {
        let e = fit_end(values, i, 0, bound);
        lemma_fit_end(values, i, 0, bound);
        lemma_cuts(values, e, (rounds - 1) as nat, bound);
        let rest = cuts(values, e, (rounds - 1) as nat, bound);
        let all = cuts(values, i, rounds, bound);
        if e != i {
            assert forall|k: int| 0 < k < all.len() implies #[trigger] all[k] == rest[k - 1] by {}
            assert(all[0] == (i, e));
            assert forall|k: int| 0 <= k < all.len() - 1 implies (#[trigger] all[k]).1 == all[k
                + 1].0 by {
                if k == 0 {
                    assert(all[1] == rest[0]);
                } else {
                    assert(all[k] == rest[k - 1]);
                    assert(all[k + 1] == rest[k]);
                }
            }
            assert forall|k: int|
                0 <= k < all.len() && k < rounds && #[trigger] all[k].1 < values.len() implies range_sum(
                values,
                all[k].0,
                all[k].1,
            ) <= bound by {
                if k > 0 {
                    assert(all[k] == rest[k - 1]);
                }
            }
            if e < values.len() {
                assert(all.last() == rest.last());
            }
        }
    }
}

/// A partitioning loses nothing and keeps the order: the partitions are not
/// empty and follow one another from the first item to the last. There are at
/// most as many as asked for, and all but the last keep to an even share of
/// the total.
pub proof fn law_partitions_cover_in_order(values: Seq<u64>, n: u32)
    requires
        values.len() > 0,
        partition_limit(n, values.len()) > 0,
    ensures
        ({
            let all = partition_ranges(values, n);
            let share = sum_of(values) as int / partition_limit(n, values.len());
            &&& 0 < all.len() <= partition_limit(n, values.len()) <= n
            &&& all[0].0 == 0
            &&& all.last().1 == values.len()
            &&& forall|k: int| 0 <= k < all.len() ==> 0 <= (#[trigger] all[k]).0 < all[k].1
            &&& forall|k: int| 0 <= k < all.len() - 1 ==> (#[trigger] all[k]).1 == all[k + 1].0
            &&& forall|k: int|
                0 <= k < all.len() - 1 ==> range_sum(
                    values,
                    (#[trigger] all[k]).0,
                    all[k].1,
                ) <= share
        }),
{
    let limit = partition_limit(n, values.len());
    let share = sum_of(values) as int / limit;
    assert(share >= 0) by (nonlinear_arith)
        requires
            limit > 0,
            sum_of(values) >= 0,
            share == sum_of(values) as int / limit,
    ;
    lemma_cuts(values, 0, (limit - 1) as nat, share);
    let all = partition_ranges(values, n);
    assert forall|k: int| 0 <= k < all.len() - 1 implies range_sum(
        values,
        (#[trigger] all[k]).0,
        all[k].1,
    ) <= share by {
        assert(all[k + 1].0 < all[k + 1].1 <= values.len());
        assert(all[k].1 < values.len());
    }
}

/// The number of items that one thread handles.
pub open spec fn group_size(nthread: nat, len: nat) -> nat {
    if nthread > len {
        1
    } else {
        len / nthread
    }
}

/// The ranges of the items that go to each thread: groups of `size` items from
/// position `i` on, the last of which may be smaller.
pub open spec fn groups_from(i: int, len: int, size: int) -> Seq<(usize, usize)>
    decreases len - i,
{
    if 0 <= i < len && size > 0 {
        let e = if i + size <= len {
            i + size
        } else {
            len
        };
        seq![(i as usize, e as usize)] + groups_from(e, len, size)
    } else {
        Seq::empty()
    }
}

/// Splits `len` items into even-sized groups for `nthread` threads. Each group
/// is the range of its items.
pub fn thread_groups(nthread: usize, len: usize) -> (r: Vec<(usize, usize)>)
    requires
        nthread > 0,
    ensures
        r@ == groups_from(0, len as int, group_size(nthread as nat, len as nat) as int),
{
    let size: usize = if nthread > len {
        1
    } else {
        len / nthread
    };
    assert(size > 0) by {
        if nthread <= len {
            assert(len / nthread >= 1) by (nonlinear_arith)
                requires
                    0 < nthread <= len,
            ;
        }
    }
    let ghost all = groups_from(0, len as int, size as int);
    let mut r: Vec<(usize, usize)> = Vec::new();
    let mut i: usize = 0;
    assert(all =~= r@ + all);
    while i < len
        invariant
            size > 0,
            i <= len,
            all == r@ + groups_from(i as int, len as int, size as int),
        decreases len - i,
    {
        let e: usize = if size <= len - i {
            i + size
        } else {
            len
        };
        let ghost rest = groups_from(e as int, len as int, size as int);
        assert(r@ + (seq![(i, e)] + rest) =~= r@.push((i, e)) + rest);
        r.push((i, e));
        i = e;
    }
    assert(all =~= r@);
    r
}

/// The groups follow one another from the first item to the last, so that the
/// outputs of the threads, joined in order, match the order of the input. All
/// groups but the last have the same size.
pub proof fn law_groups_cover_in_order(i: int, len: int, size: int)
    requires
        0 <= i <= len <= usize::MAX,
        0 < size,
    ensures
        ({
            let all = groups_from(i, len, size);
            &&& (i < len ==> all.len() > 0 && all[0].0 == i && all.last().1 == len)
            &&& (i == len ==> all.len() == 0)
            &&& forall|k: int| 0 <= k < all.len() ==> (#[trigger] all[k]).0 < all[k].1 <= len
            &&& forall|k: int|
                0 <= k < all.len() - 1 ==> (#[trigger] all[k]).1 == all[k + 1].0 && all[k].1 - all[k].0
                    == size
        }),
    decreases len - i,
{
    if i < len {
        let e = if i + size <= len {
            i + size
        } else {
            len
        };
        law_groups_cover_in_order(e, len, size);
        let rest = groups_from(e, len, size);
        let all = groups_from(i, len, size);
        assert forall|k: int| 0 < k < all.len() implies #[trigger] all[k] == rest[k - 1] by {}
        assert(all[0] == (i as usize, e as usize));
        assert forall|k: int| 0 <= k < all.len() - 1 implies (#[trigger] all[k]).1 == all[k + 1].0
            && all[k].1 - all[k].0 == size by {
            assert(all[k + 1] == rest[k]);
            if k > 0 {
                assert(all[k] == rest[k - 1]);
            }
        }
        if e < len {
            assert(all.last() == rest.last());
        }
    }
}

/// A sum does not depend on where a value stands: taking any one out lowers it
/// by that value.
pub proof fn law_every_value_counts(values: Seq<u64>, i: int)
    requires
        0 <= i < values.len(),
    ensures
        sum_of(values) == sum_of(values.remove(i)) + values[i],
        sum_of(Seq::empty()) == 0,
    decreases values.len(),
{
    let n = values.len() - 1;
    if i == n {
        assert(values.remove(i) =~= values.drop_last());
    } else {
        let init = values.drop_last();
        law_every_value_counts(init, i);
        assert(values.remove(i).drop_last() =~= init.remove(i));
        assert(values.remove(i).last() == values.last());
    }
}

/// Partitions are filled as far as they go: the item after each partition but
/// the last would have exceeded an even share of the total.
pub proof fn law_partitions_are_filled(values: Seq<u64>, n: u32, k: int)
    requires
        values.len() > 0,
        partition_limit(n, values.len()) > 0,
        0 <= k < partition_ranges(values, n).len() - 1,
    ensures
        ({
            let all = partition_ranges(values, n);
            let share = sum_of(values) as int / partition_limit(n, values.len());
            range_sum(values, all[k].0, all[k].1 + 1) > share
        }),
{
    let limit = partition_limit(n, values.len());
    let share = sum_of(values) as int / limit;
    assert(share >= 0) by (nonlinear_arith)
        requires
            limit > 0,
            sum_of(values) >= 0,
            share == sum_of(values) as int / limit,
    ;
    lemma_cuts_filled(values, 0, (limit - 1) as nat, share, k);
}

proof fn lemma_fit_end_exceeds(values: Seq<u64>, i: int, curr: int, bound: int)
    requires
        0 <= i <= values.len(),
        fit_end(values, i, curr, bound) < values.len(),
    ensures
        curr + range_sum(values, i, fit_end(values, i, curr, bound) + 1) > bound,
    decreases values.len() - i,
{
    lemma_fit_end(values, i, curr, bound);
    let e = fit_end(values, i, curr, bound);
    if i < values.len() && curr + values[i] <= bound {
        lemma_fit_end(values, i + 1, curr + values[i], bound);
        lemma_fit_end_exceeds(values, i + 1, curr + values[i], bound);
        lemma_range_sum_split(values, i, i + 1, e + 1);
        assert(range_sum(values, i, i) == 0);
        assert(range_sum(values, i, i + 1) == values[i] as nat);
    } else {
        assert(e == i);
        assert(range_sum(values, i, i) == 0);
        assert(range_sum(values, i, i + 1) == values[i] as nat);
    }
}

proof fn lemma_cuts_filled(values: Seq<u64>, i: int, rounds: nat, bound: int, k: int)
    requires
        0 <= i <= values.len(),
        0 <= k < cuts(values, i, rounds, bound).len() - 1,
        bound >= 0,
    ensures
        range_sum(
            values,
            cuts(values, i, rounds, bound)[k].0,
            cuts(values, i, rounds, bound)[k].1 + 1,
        ) > bound,
    decreases rounds,
{
    if rounds > 0 {
        let e = fit_end(values, i, 0, bound);
        lemma_fit_end(values, i, 0, bound);
        let rest = cuts(values, e, (rounds - 1) as nat, bound);
        if e != i {
            if k == 0 {
                lemma_cuts(values, e, (rounds - 1) as nat, bound);
                if e >= values.len() {
                    assert(rest.len() == 0);
                }
                lemma_fit_end_exceeds(values, i, 0, bound);
            } else {
                lemma_cuts_filled(values, e, (rounds - 1) as nat, bound, k - 1);
            }
        } else {
            lemma_cuts_filled(values, e, (rounds - 1) as nat, bound, k);
        }
    }
}

/// The sum of a range is that of the values in it.
pub proof fn law_range_sum_is_of_its_values(values: Seq<u64>, i: int, j: int)
    requires
        0 <= i <= j <= values.len(),
    ensures
        range_sum(values, i, j) == sum_of(values.subrange(i, j)),
    decreases j - i,
{
    if i < j {
        law_range_sum_is_of_its_values(values, i, j - 1);
        assert(values.subrange(i, j).drop_last() =~= values.subrange(i, j - 1));
    }
}

/// There are no more partitions than asked for, nor more than items.
pub proof fn law_partitions_are_limited(n: u32, len: nat)
    requires
        len <= u32::MAX,
    ensures
        partition_limit(n, len) <= n,
        partition_limit(n, len) <= len,
        partition_limit(n, len) == n || partition_limit(n, len) == len,
{
    assert(len as int % 0x1_0000_0000 == len);
}

/// Groups hold at least one item, and no more than an even share of the items.
pub proof fn law_groups_share_the_items(nthread: nat, len: nat)
    requires
        nthread > 0,
        len > 0,
    ensures
        group_size(nthread, len) >= 1,
        nthread <= len ==> group_size(nthread, len) * nthread <= len < (group_size(nthread, len)
            + 1) * nthread,
        nthread > len ==> group_size(nthread, len) == 1,
{
    if nthread <= len {
        let g = len / nthread;
        assert(g >= 1 && g * nthread <= len < (g + 1) * nthread) by (nonlinear_arith)
            requires
                0 < nthread <= len,
                g == len / nthread,
        ;
    }
}

} // verus!
