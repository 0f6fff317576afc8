//! The in-place comparison-counting sort.
//!
//! For each position `i` the sort compares the element currently at `i`
//! against the element at every position `j` with `i <= j < n`, swapping
//! whenever the former is larger, and counts every comparison, the
//! self-comparison at `j == i` included. The count is therefore always
//! `n * (n + 1) / 2`, whatever the input order.

use vstd::prelude::*;

verus! {

/// A sequence is in non-descending order.
pub open spec fn sorted(s: Seq<i32>) -> bool {
    forall|a: int, b: int| 0 <= a < b < s.len() ==> #[trigger] s[a] <= #[trigger] s[b]
}

/// Comparisons performed on a list of length `n`: one for every pair of
/// positions `(i, j)` with `i <= j < n`, self-pairs included.
pub open spec fn comparison_count(n: nat) -> nat {
    n * (n + 1) / 2
}

/// Comparisons performed after the first `i` outer rounds: round `k`
/// compares position `k` against positions `k..n`, which is `n - k`
/// comparisons.
spec fn count_after_rounds(n: int, i: int) -> int
    decreases i,
{
    if i <= 0 {
        0
    } else {
        count_after_rounds(n, i - 1) + n - (i - 1)
    }
}

proof fn lemma_count_closed_form(n: int, i: int)
    requires
        0 <= i <= n,
    ensures
        2 * count_after_rounds(n, i) == i * (2 * n - i + 1),
    decreases i,
{
    if i > 0 {
        lemma_count_closed_form(n, i - 1);
        let c1 = count_after_rounds(n, i - 1);
        assert(count_after_rounds(n, i) == c1 + n - (i - 1));
        assert(2 * c1 == (i - 1) * (2 * n - (i - 1) + 1));
        assert(2 * (c1 + n - (i - 1)) == i * (2 * n - i + 1)) by (nonlinear_arith)
            requires
                2 * c1 == (i - 1) * (2 * n - (i - 1) + 1),
        ;
        assert(2 * count_after_rounds(n, i) == i * (2 * n - i + 1));
    } else {
        assert(count_after_rounds(n, i) == 0);
        assert(i * (2 * n - i + 1) == 0) by (nonlinear_arith)
            requires
                i == 0,
        ;
    }
}

proof fn lemma_count_full(n: nat)
    ensures
        count_after_rounds(n as int, n as int) == comparison_count(n),
{
    lemma_count_closed_form(n as int, n as int);
    assert(count_after_rounds(n as int, n as int) == n * (n + 1) / 2) by (nonlinear_arith)
        requires
            2 * count_after_rounds(n as int, n as int) == n * (2 * n - n + 1),
    ;
}

proof fn lemma_count_monotonic(n: int, a: int, b: int)
    requires
        0 <= a <= b <= n,
    ensures
        count_after_rounds(n, a) <= count_after_rounds(n, b),
    decreases b - a,
{
    if a < b {
        lemma_count_monotonic(n, a, b - 1);
    }
}

/// Swapping the elements at two positions leaves the multiset of elements
/// unchanged.
proof fn lemma_swap_preserves_multiset(s: Seq<i32>, i: int, j: int)
    requires
        0 <= i < s.len(),
        0 <= j < s.len(),
    ensures
        s.update(i, s[j]).update(j, s[i]).to_multiset() == s.to_multiset(),
{
    broadcast use vstd::seq_lib::to_multiset_update;
    broadcast use vstd::seq_lib::group_to_multiset_ensures;
    broadcast use vstd::multiset::group_multiset_axioms;

    let t = s.update(i, s[j]);
    assert(t[j] == s[j]);
    assert(s.to_multiset().contains(s[i]));
    assert(t.to_multiset() == s.to_multiset().insert(s[j]).remove(s[i]));
    assert(t.update(j, s[i]).to_multiset() == t.to_multiset().insert(s[i]).remove(s[j]));
    assert(s.to_multiset().insert(s[j]).remove(s[i]).insert(s[i]).remove(s[j])
        =~= s.to_multiset());
}

/// Sort the vector in place into non-descending order and return the number
/// of pairwise comparisons performed: the result holds the same multiset of
/// values as the input, and the count equals `n * (n + 1) / 2` for an input
/// of length `n`, whatever the input order.
pub fn bubble_sort(data: &mut Vec<i32>) -> (count: u64)
    requires
        comparison_count(old(data)@.len()) <= u64::MAX,
    ensures
        sorted(final(data)@),
        final(data)@.to_multiset() == old(data)@.to_multiset(),
        final(data)@.len() == old(data)@.len(),
        count == comparison_count(old(data)@.len()),
{
    let ghost orig = data@;
    let n = data.len();
    let mut count: u64 = 0;
    let mut i: usize = 0;
    proof {
        lemma_count_full(n as nat);
    }
    while i < n
        invariant
            i <= n,
            n == data@.len(),
            orig.len() == n,
            data@.to_multiset() == orig.to_multiset(),
            comparison_count(n as nat) <= u64::MAX,
            count_after_rounds(n as int, n as int) == comparison_count(n as nat),
            count == count_after_rounds(n as int, i as int),
            forall|a: int, b: int| 0 <= a < b < i ==> #[trigger] data@[a] <= #[trigger] data@[b],
            forall|a: int, b: int| 0 <= a < i <= b < n ==> #[trigger] data@[a] <= #[trigger] data@[b],
        decreases n - i,
    {
        let mut j: usize = i;
        while j < n
            invariant
                i < n,
                i <= j <= n,
                n == data@.len(),
                orig.len() == n,
                data@.to_multiset() == orig.to_multiset(),
                comparison_count(n as nat) <= u64::MAX,
                count_after_rounds(n as int, n as int) == comparison_count(n as nat),
                count == count_after_rounds(n as int, i as int) + (j - i),
                forall|a: int, b: int| 0 <= a < b < i ==> #[trigger] data@[a] <= #[trigger] data@[b],
                forall|a: int, b: int| 0 <= a < i <= b < n ==> #[trigger] data@[a] <= #[trigger] data@[b],
                forall|k: int| i <= k < j ==> data@[i as int] <= #[trigger] data@[k],
            decreases n - j,
        {
            proof {
                lemma_count_monotonic(n as int, i as int + 1, n as int);
                assert(count_after_rounds(n as int, i as int + 1)
                    == count_after_rounds(n as int, i as int) + n - i);
            }
            if data[i] > data[j] {
                let ghost pre = data@;
                let vi = data[i];
                let vj = data[j];
                data.set(i, vj);
                data.set(j, vi);
                proof {
                    lemma_swap_preserves_multiset(pre, i as int, j as int);
                    assert(data@ == pre.update(i as int, pre[j as int]).update(
                        j as int,
                        pre[i as int],
                    ));
                }
            }
            count = count + 1;
            j = j + 1;
        }
        proof {
            assert(count_after_rounds(n as int, i as int + 1)
                == count_after_rounds(n as int, i as int) + n - i);
        }
        i = i + 1;
    }
    count
}

} // verus!
