use vstd::prelude::*;
use crate::lemma_swap_to_multiset;

verus! {

/// The value of a counter that started at zero after `shares` threads each
/// added `share` to it, one after another under a lock.
pub open spec fn total_after(shares: nat, share: int) -> int
    decreases shares,
{
    if shares == 0 {
        0
    } else {
        total_after((shares - 1) as nat, share) + share
    }
}

/// One thread's turn at the shared counter: adds `share` to it.
pub fn add_share(counter: &mut usize, share: usize)
    requires
        *old(counter) + share <= usize::MAX,
    ensures
        *final(counter) == *old(counter) + share,
{
    *counter = *counter + share;
}

/// Whatever order the threads take their turns in, the counter ends at the
/// number of threads times the share of each.
pub proof fn law_counter_total(shares: nat, share: nat)
    ensures
        total_after(shares, share as int) == shares * share,
    decreases shares,
{
    if shares > 0 {
        let k = (shares - 1) as nat;
        law_counter_total(k, share);
        assert(shares * share == k * share + share) by (nonlinear_arith)
            requires
                shares == k + 1,
        ;
    } else {
        assert(shares * share == 0) by (nonlinear_arith)
            requires
                shares == 0,
        ;
    }
}

/// Every element equals its own position: the shape of a collector that each
/// thread extended with the length it found.
pub open spec fn is_arrival_order(s: Seq<usize>) -> bool {
    forall|i: int| 0 <= i < s.len() ==> #[trigger] s[i] == i
}

/// Ascending order.
pub open spec fn is_sorted(s: Seq<usize>) -> bool {
    forall|i: int, j: int| 0 <= i <= j < s.len() ==> s[i] <= s[j]
}

/// One thread's turn at the shared collector: appends the collector's
/// current length.
pub fn push_arrival(collector: &mut Vec<usize>)
    ensures
        final(collector)@ == old(collector)@.push(old(collector)@.len() as usize),
{
    let len = collector.len();
    collector.push(len);
}

/// Each turn keeps the collector in arrival order, so after `n` turns it
/// holds `0, 1, ..., n - 1`, already ascending.
pub proof fn law_arrivals_in_order(s: Seq<usize>)
    requires
        is_arrival_order(s),
        s.len() < usize::MAX,
    ensures
        is_arrival_order(s.push(s.len() as usize)),
        is_sorted(s),
{
}

/// Sorts `v` in ascending order (stable insertion sort); a vector that is
/// already sorted is left as it is.
pub fn sort_ascending(v: &mut Vec<usize>)
    ensures
        is_sorted(final(v)@),
        final(v)@.to_multiset() == old(v)@.to_multiset(),
        is_sorted(old(v)@) ==> final(v)@ == old(v)@,
{
    let n = v.len();
    let ghost orig = v@;
    let mut i: usize = 1;
    if n == 0 {
        return;
    }
    while i < n
        invariant
            1 <= i <= n,
            v@.len() == n,
            orig.len() == n,
            v@.to_multiset() == orig.to_multiset(),
            is_sorted(v@.subrange(0, i as int)),
            forall|k: int| i <= k < n ==> v@[k] == orig[k],
            is_sorted(orig) ==> v@ == orig,
        decreases n - i,
    {
        let mut j: usize = i;
        proof {
            let t = v@.subrange(0, i as int);
            assert forall|a: int, b: int| 0 <= a <= b <= i && a != j && b != j implies #[trigger] v@[a]
                <= #[trigger] v@[b] by {
                assert(t[a] <= t[b]);
            }
        }
        while j > 0 && v[j] < v[j - 1]
            invariant
                1 <= i < n,
                j <= i,
                v@.len() == n,
                orig.len() == n,
                v@.to_multiset() == orig.to_multiset(),
                forall|k: int| i < k < n ==> v@[k] == orig[k],
                // v[0..=i] is sorted except that v[j] may be smaller than its left neighbours
                forall|a: int, b: int| 0 <= a <= b <= i && a != j && b != j ==> v@[a] <= v@[b],
                forall|b: int| j < b <= i ==> v@[j as int] <= v@[b],
                is_sorted(orig) ==> v@ == orig,
            decreases j,
        {
            proof {
                if is_sorted(orig) {
                    assert(v@[j - 1] <= v@[j as int]);
                }
            }
            let x = v[j];
            let y = v[j - 1];
            proof {
                lemma_swap_to_multiset(v@, j as int, j - 1);
            }
            v[j] = y;
            v[j - 1] = x;
            j = j - 1;
        }
        proof {
            let t = v@.subrange(0, i + 1);
            assert forall|a: int, b: int| 0 <= a <= b < t.len() implies #[trigger] t[a]
                <= #[trigger] t[b] by {
                if a == j && b != j {
                } else if b == j && a != j {
                    assert(v@[a] <= v@[j as int]) by {
                        if j > 0 {
                            assert(v@[j - 1] <= v@[j as int]);
                        }
                    }
                }
            }
        }
        i = i + 1;
    }
    assert(v@.subrange(0, n as int) =~= v@);
}

} // verus!
