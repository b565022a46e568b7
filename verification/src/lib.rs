//! File descriptor table with a min-heap of free numbers, and the decisions
//! that threads sharing a counter, a collector or a channel take in turn.

use vstd::prelude::*;

pub mod min_heap;
pub mod fd_table;
pub mod counter;
pub mod messages;

verus! {

broadcast use vstd::seq_lib::group_to_multiset_ensures;

/// Exchanging two elements of a sequence keeps its multiset of elements.
pub(crate) proof fn lemma_swap_to_multiset<A>(s: Seq<A>, i: int, j: int)
    requires
        0 <= i < s.len(),
        0 <= j < s.len(),
    ensures
        s.update(i, s[j]).update(j, s[i]).to_multiset() =~= s.to_multiset(),
{
    let m = s.to_multiset();
    let s1 = s.update(i, s[j]);
    assert(s1.to_multiset() == m.insert(s[j]).remove(s[i]));
    assert(s1.update(j, s[i]).to_multiset() == s1.to_multiset().insert(s[i]).remove(s1[j]));
    assert(m.count(s[i]) > 0);
    assert(m.count(s[j]) > 0);
}

} // verus!
