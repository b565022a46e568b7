use vstd::prelude::*;
use vstd::multiset::Multiset;
use crate::lemma_swap_to_multiset;

verus! {

broadcast use vstd::seq_lib::group_to_multiset_ensures;

// ---------------------------------------------------------------------------
// The array a heap operation leaves behind
// ---------------------------------------------------------------------------

/// Index of the parent of node `c` in an array-backed binary tree.
pub open spec fn parent_of(c: int) -> int {
    (c - 1) / 2
}

/// `a` with the values at `i` and `j` exchanged.
pub open spec fn swapped(a: Seq<usize>, i: int, j: int) -> Seq<usize> {
    a.update(i, a[j]).update(j, a[i])
}

/// The child of `k` that a sinking value changes places with: the left child
/// unless the right one exists and is strictly smaller.
pub open spec fn smaller_child(a: Seq<usize>, k: int) -> int {
    if 2 * k + 2 < a.len() && a[2 * k + 2] < a[2 * k + 1] {
        2 * k + 2
    } else {
        2 * k + 1
    }
}

/// The array after the value at `k` sinks: while it has a child, it changes
/// places with its smaller child unless that child is larger than it.
pub open spec fn sink(a: Seq<usize>, k: int) -> Seq<usize>
    decreases a.len() - k,
{
    if k < 0 || 2 * k + 1 >= a.len() {
        a
    } else if a[smaller_child(a, k)] > a[k] {
        a
    } else {
        sink(swapped(a, k, smaller_child(a, k)), smaller_child(a, k))
    }
}

/// The array after the value at `k` rises: while it has a parent larger than
/// it, the two change places.
pub open spec fn rise(a: Seq<usize>, k: int) -> Seq<usize>
    decreases k,
{
    if k <= 0 || k >= a.len() {
        a
    } else if a[parent_of(k)] <= a[k] {
        a
    } else {
        rise(swapped(a, k, parent_of(k)), parent_of(k))
    }
}

/// The array after sinking the values at `i`, `i - 1`, ..., `0` in turn.
pub open spec fn heapify(a: Seq<usize>, i: int) -> Seq<usize>
    decreases i,
{
    if i <= 0 {
        sink(a, i)
    } else {
        heapify(sink(a, i), i - 1)
    }
}

/// The node at which heapifying an array of length `n` starts: the parent of
/// the last node, or the root when there is only one.
pub open spec fn heapify_start(n: int) -> int {
    if n > 1 {
        parent_of(n - 1)
    } else {
        0
    }
}

// ---------------------------------------------------------------------------
// Order
// ---------------------------------------------------------------------------

/// `x` is an element of `m` and no element of `m` is smaller.
pub open spec fn is_least(m: Multiset<usize>, x: usize) -> bool {
    &&& m.contains(x)
    &&& forall|y: usize| m.contains(y) ==> x <= y
}

/// Node `c` lies in the subtree rooted at `r` (counting `r` itself).
pub open spec fn in_subtree(c: int, r: int) -> bool
    decreases c,
{
    if c == r {
        true
    } else if c <= r || c <= 0 {
        false
    } else {
        in_subtree(parent_of(c), r)
    }
}

/// Every parent/child edge of `a` whose parent index is at least `lo` and
/// differs from `skip` is ordered (parent no greater than child).
#[verifier::opaque]
spec fn edges_ordered(a: Seq<usize>, lo: int, skip: int) -> bool {
    forall|c: int|
        1 <= c < a.len() && lo <= parent_of(c) && parent_of(c) != skip ==> a[parent_of(c)]
            <= #[trigger] a[c]
}

/// The min-heap property: every node is no smaller than its parent.
spec fn is_heap(a: Seq<usize>) -> bool {
    edges_ordered(a, 0, -1)
}

/// Every edge of `a` whose parent lies in the subtree rooted at `r` and differs
/// from `skip` is ordered.
#[verifier::opaque]
spec fn subtree_ordered(a: Seq<usize>, r: int, skip: int) -> bool {
    forall|c: int|
        1 <= c < a.len() && in_subtree(parent_of(c), r) && parent_of(c) != skip
            ==> a[parent_of(c)] <= #[trigger] a[c]
}

/// While a value sinks from `r` and now stands at `k` (below `r`), the parent
/// of `k` is no greater than any child of `k`.
#[verifier::opaque]
spec fn sink_bridge(a: Seq<usize>, r: int, k: int) -> bool {
    k != r ==> forall|c: int|
        1 <= c < a.len() && parent_of(c) == k ==> a[parent_of(k)] <= #[trigger] a[c]
}

/// Every edge except the one that enters `k` is ordered.
#[verifier::opaque]
spec fn ordered_except_into(a: Seq<usize>, k: int) -> bool {
    forall|c: int| 1 <= c < a.len() && c != k ==> a[parent_of(c)] <= #[trigger] a[c]
}

/// While a value rises and now stands at `k`, the parent of `k` is no
/// greater than any child of `k`.
#[verifier::opaque]
spec fn rise_bridge(a: Seq<usize>, k: int) -> bool {
    k > 0 ==> forall|c: int|
        1 <= c < a.len() && parent_of(c) == k ==> a[parent_of(k)] <= #[trigger] a[c]
}

/// `k` is no greater than those of its children (`2k + 1`, `2k + 2`) that exist.
spec fn below_children(a: Seq<usize>, k: int) -> bool {
    &&& 2 * k + 1 < a.len() ==> a[k] <= a[2 * k + 1]
    &&& 2 * k + 2 < a.len() ==> a[k] <= a[2 * k + 2]
}

/// Positions outside the subtree rooted at `r` hold the same values in `a`
/// and `b`.
spec fn same_outside(a: Seq<usize>, b: Seq<usize>, r: int) -> bool {
    &&& a.len() == b.len()
    &&& forall|j: int| 0 <= j < a.len() && !in_subtree(j, r) ==> #[trigger] b[j] == a[j]
}

// ---------------------------------------------------------------------------
// Lemmas
// ---------------------------------------------------------------------------

/// Every node lies in the subtree of the root.
proof fn lemma_in_root_subtree(c: int)
    requires
        c >= 0,
    ensures
        in_subtree(c, 0),
    decreases c,
{
    if c > 0 {
        lemma_in_root_subtree(parent_of(c));
    }
}

/// In a heap the first element is no greater than any other.
proof fn lemma_root_is_least(a: Seq<usize>, j: int)
    requires
        is_heap(a),
        0 <= j < a.len(),
    ensures
        a[0] <= a[j],
    decreases j,
{
    if j > 0 {
        lemma_root_is_least(a, parent_of(j));
        reveal(edges_ordered);
        assert(a[parent_of(j)] <= a[j]);
    }
}

proof fn lemma_root_is_least_of_multiset(a: Seq<usize>)
    requires
        is_heap(a),
        a.len() > 0,
    ensures
        is_least(a.to_multiset(), a[0]),
{
    assert(a.contains(a[0]));
    assert forall|y: usize| a.to_multiset().contains(y) implies a[0] <= y by {
        assert(a.contains(y));
        let j = choose|j: int| 0 <= j < a.len() && a[j] == y;
        lemma_root_is_least(a, j);
    }
}

/// A sequence with at most one element is a heap.
proof fn lemma_tiny_is_heap(a: Seq<usize>)
    requires
        a.len() <= 1,
    ensures
        is_heap(a),
{
    reveal(edges_ordered);
}

/// Before heapifying, the edges below the starting node are trivially ordered.
proof fn lemma_heapify_begin(a: Seq<usize>)
    requires
        a.len() > 0,
    ensures
        edges_ordered(a, heapify_start(a.len() as int) + 1, -1),
{
    reveal(edges_ordered);
    let first = heapify_start(a.len() as int) + 1;
    assert forall|c: int|
        1 <= c < a.len() && first <= parent_of(c) && parent_of(c) != -1 implies a[parent_of(c)]
        <= #[trigger] a[c] by {
        assert(parent_of(c) <= parent_of(a.len() - 1));
    }
}

/// Sinking from `i` may start when every edge whose parent is above `i` in
/// index order is ordered.
proof fn lemma_heapify_sink_ready(a: Seq<usize>, i: int)
    requires
        0 <= i,
        edges_ordered(a, i + 1, -1),
    ensures
        subtree_ordered(a, i, i),
{
    reveal(edges_ordered);
    reveal(subtree_ordered);
}

/// Sinking from `i` repairs the edges whose parent lies in `i`'s subtree and
/// leaves the others alone, so afterwards every edge whose parent is at least
/// `i` is ordered.
proof fn lemma_heapify_sink_done(a: Seq<usize>, b: Seq<usize>, i: int)
    requires
        0 <= i,
        edges_ordered(a, i + 1, -1),
        subtree_ordered(b, i, -1),
        same_outside(a, b, i),
    ensures
        edges_ordered(b, i, -1),
{
    reveal(edges_ordered);
    reveal(subtree_ordered);
    assert forall|c: int|
        1 <= c < b.len() && i <= parent_of(c) && parent_of(c) != -1 implies b[parent_of(c)]
        <= #[trigger] b[c] by {
        let p = parent_of(c);
        if !in_subtree(p, i) {
            assert(!in_subtree(c, i));
            assert(b[p] == a[p]);
            assert(a[p] <= a[c]);
        }
    }
}

/// One step of sinking: swapping the value at `k` with its smaller child `mc`
/// (which is no greater than it) moves the disorder down to `mc`.
proof fn lemma_sink_step(a: Seq<usize>, r: int, k: int)
    requires
        in_subtree(k, r),
        0 <= r,
        0 <= k,
        2 * k + 1 < a.len(),
        a[smaller_child(a, k)] <= a[k],
        subtree_ordered(a, r, k),
        sink_bridge(a, r, k),
    ensures
        ({
            let mc = smaller_child(a, k);
            let b = swapped(a, k, mc);
            &&& in_subtree(mc, r)
            &&& subtree_ordered(b, r, mc)
            &&& sink_bridge(b, r, mc)
            &&& same_outside(a, b, r)
        }),
{
    reveal(subtree_ordered);
    reveal(sink_bridge);
    let mc = smaller_child(a, k);
    let b = swapped(a, k, mc);
    assert(in_subtree(mc, r));
    assert forall|c: int|
        1 <= c < b.len() && in_subtree(parent_of(c), r) && parent_of(c) != mc implies b[parent_of(
        c,
    )] <= #[trigger] b[c] by {
        let p = parent_of(c);
        if p == k {
            assert(c == 2 * k + 1 || c == 2 * k + 2);
        } else if c == k {
            assert(a[parent_of(k)] <= a[mc]);
        } else {
            assert(a[p] <= a[c]);
        }
    }
    assert forall|c: int| 1 <= c < b.len() && parent_of(c) == mc implies b[parent_of(mc)]
        <= #[trigger] b[c] by {
        assert(a[parent_of(c)] <= a[c]);
    }
    assert forall|j: int| 0 <= j < a.len() && !in_subtree(j, r) implies #[trigger] b[j] == a[j] by {
        assert(j != k && j != mc);
    }
}

/// Sinking stops where the value is no greater than its children: from there
/// every edge in the subtree is ordered.
proof fn lemma_sink_done(a: Seq<usize>, r: int, k: int)
    requires
        subtree_ordered(a, r, k),
        below_children(a, k),
    ensures
        subtree_ordered(a, r, -1),
{
    reveal(subtree_ordered);
    assert forall|c: int|
        1 <= c < a.len() && in_subtree(parent_of(c), r) && parent_of(c) != -1 implies a[parent_of(
        c,
    )] <= #[trigger] a[c] by {
        if parent_of(c) == k {
            assert(c == 2 * k + 1 || c == 2 * k + 2);
        }
    }
}

/// A value that has not moved yet needs no bridge.
proof fn lemma_sink_bridge_at_root(a: Seq<usize>, r: int)
    ensures
        sink_bridge(a, r, r),
{
    reveal(sink_bridge);
}

/// Rising may start at a value appended to a heap.
proof fn lemma_rise_start(a: Seq<usize>, x: usize)
    requires
        is_heap(a),
    ensures
        ordered_except_into(a.push(x), a.len() as int),
        rise_bridge(a.push(x), a.len() as int),
{
    reveal(edges_ordered);
    reveal(ordered_except_into);
    reveal(rise_bridge);
    let b = a.push(x);
    assert forall|c: int| 1 <= c < b.len() && c != a.len() implies b[parent_of(c)]
        <= #[trigger] b[c] by {
        assert(a[parent_of(c)] <= a[c]);
    }
}

/// One step of rising: swapping the value at `k` with its larger parent moves
/// the disorder up to the parent.
proof fn lemma_rise_step(a: Seq<usize>, k: int)
    requires
        0 < k < a.len(),
        a[parent_of(k)] > a[k],
        ordered_except_into(a, k),
        rise_bridge(a, k),
    ensures
        ({
            let p = parent_of(k);
            let b = swapped(a, k, p);
            ordered_except_into(b, p) && rise_bridge(b, p)
        }),
{
    reveal(ordered_except_into);
    reveal(rise_bridge);
    let p = parent_of(k);
    let b = swapped(a, k, p);
    assert forall|c: int| 1 <= c < b.len() && c != p implies b[parent_of(c)] <= #[trigger] b[c] by {
        if c == k {
        } else if parent_of(c) == k {
            assert(a[parent_of(k)] <= a[c]);
        } else if parent_of(c) == p {
            assert(a[p] <= a[c]);
        } else {
            assert(a[parent_of(c)] <= a[c]);
        }
    }
    if p > 0 {
        assert(a[parent_of(p)] <= a[p]);
        assert forall|c: int| 1 <= c < b.len() && parent_of(c) == p implies b[parent_of(p)]
            <= #[trigger] b[c] by {
            if c != k {
                assert(a[p] <= a[c]);
            }
        }
    }
}

/// Rising stops at the root or where the parent is no greater: the whole
/// sequence is then a heap.
proof fn lemma_rise_done(a: Seq<usize>, k: int)
    requires
        0 <= k < a.len(),
        ordered_except_into(a, k),
        k == 0 || a[parent_of(k)] <= a[k],
    ensures
        is_heap(a),
{
    reveal(edges_ordered);
    reveal(ordered_except_into);
}

/// Removing the root of a heap and moving the last value into its place
/// leaves only the edges out of the root to repair.
proof fn lemma_pop_start(a: Seq<usize>)
    requires
        is_heap(a),
        a.len() > 0,
    ensures
        subtree_ordered(swapped(a, 0, a.len() - 1).drop_last(), 0, 0),
{
    reveal(edges_ordered);
    reveal(subtree_ordered);
    let b = swapped(a, 0, a.len() - 1).drop_last();
    assert forall|c: int|
        1 <= c < b.len() && in_subtree(parent_of(c), 0) && parent_of(c) != 0 implies b[parent_of(
        c,
    )] <= #[trigger] b[c] by {
        assert(a[parent_of(c)] <= a[c]);
    }
}

/// When the whole tree below the root is ordered, the array is a heap.
proof fn lemma_root_subtree_is_heap(a: Seq<usize>)
    requires
        subtree_ordered(a, 0, -1),
    ensures
        is_heap(a),
{
    reveal(edges_ordered);
    reveal(subtree_ordered);
    assert forall|c: int|
        1 <= c < a.len() && 0 <= parent_of(c) && parent_of(c) != -1 implies a[parent_of(c)]
        <= #[trigger] a[c] by {
        lemma_in_root_subtree(parent_of(c));
    }
}

// ---------------------------------------------------------------------------
// Laws on the values a heap holds
// ---------------------------------------------------------------------------

/// Every nonempty multiset of values has a least element.
pub proof fn lemma_least_exists(m: Multiset<usize>)
    requires
        m.len() > 0,
    ensures
        exists|x: usize| is_least(m, x),
    decreases m.len(),
{
    let x = m.choose();
    assert(m.count(x) > 0);
    let rest = m.remove(x);
    if rest.len() == 0 {
        assert forall|y: usize| m.contains(y) implies x <= y by {
            if y != x {
                assert(rest.count(y) == m.count(y));
            }
        }
        assert(is_least(m, x));
    } else {
        lemma_least_exists(rest);
        let y = choose|y: usize| is_least(rest, y);
        assert(rest.count(y) > 0);
        let z = if x < y { x } else { y };
        assert forall|w: usize| m.contains(w) implies z <= w by {
            if w != x {
                assert(rest.count(w) == m.count(w));
                assert(rest.contains(w));
            }
        }
        assert(m.count(y) >= rest.count(y));
        assert(is_least(m, z));
    }
}

/// The least value of a nonempty multiset.
pub open spec fn least(m: Multiset<usize>) -> usize {
    choose|x: usize| is_least(m, x)
}

/// A heap's least value is unique, so `peek` and `pop` name the same value.
pub proof fn law_least_unique(m: Multiset<usize>, x: usize, y: usize)
    requires
        is_least(m, x),
        is_least(m, y),
    ensures
        x == y,
{
}

/// The values a heap holding `m` gives out when popped until empty.
pub open spec fn drained(m: Multiset<usize>) -> Seq<usize>
    decreases m.len(),
{
    if m.len() == 0 {
        Seq::empty()
    } else {
        proof {
            lemma_least_exists(m);
            assert(m.count(least(m)) > 0);
        }
        seq![least(m)] + drained(m.remove(least(m)))
    }
}

/// Ascending order.
pub open spec fn ascending(s: Seq<usize>) -> bool {
    forall|i: int, j: int| 0 <= i <= j < s.len() ==> s[i] <= s[j]
}

/// Popping a heap whose values are `m` gives the first value of `drained(m)`
/// and leaves a heap that gives out the rest.
pub proof fn law_pop_follows_drain(m: Multiset<usize>, r: usize)
    requires
        is_least(m, r),
    ensures
        drained(m) == seq![r] + drained(m.remove(r)),
{
    lemma_least_exists(m);
    assert(m.len() > 0) by {
        assert(m.count(r) > 0);
    }
    assert(least(m) == r);
}

/// Popping until empty gives out every value held, each as often as it is
/// held, in ascending order.
pub proof fn law_drain_sorted(m: Multiset<usize>)
    ensures
        ascending(drained(m)),
        drained(m).to_multiset() == m,
        drained(m).len() == m.len(),
    decreases m.len(),
{
    if m.len() == 0 {
        assert(m =~= Multiset::<usize>::empty());
    } else {
        lemma_least_exists(m);
        let x = least(m);
        assert(m.count(x) > 0);
        let rest = m.remove(x);
        law_drain_sorted(rest);
        let tail = drained(rest);
        let d = seq![x] + tail;
        assert(drained(m) == d);
        assert(d =~= tail.insert(0, x));
        assert(d.to_multiset() =~= m);
        assert forall|i: int, j: int| 0 <= i <= j < d.len() implies d[i] <= d[j] by {
            if i == 0 {
                assert(tail.contains(d[j]) || j == 0);
                if j > 0 {
                    assert(tail[j - 1] == d[j]);
                    assert(rest.contains(d[j]));
                    assert(m.count(d[j]) >= rest.count(d[j]));
                    assert(m.contains(d[j]));
                }
            } else {
                assert(tail[i - 1] <= tail[j - 1]);
            }
        }
    }
}

/// Pushing the values of `xs` onto an empty heap and popping until empty
/// gives `xs` in ascending order.
pub proof fn law_heap_sorts(xs: Seq<usize>)
    ensures
        drained(xs.to_multiset()) == xs.sort_by(|a: usize, b: usize| a <= b),
{
    let leq = |a: usize, b: usize| a <= b;
    law_drain_sorted(xs.to_multiset());
    xs.lemma_sort_by_ensures(leq);
    let d = drained(xs.to_multiset());
    assert(vstd::relations::sorted_by(d, leq)) by {
        assert forall|i: int, j: int| 0 <= i < j < d.len() implies leq(d[i], d[j]) by {}
    }
    assert(vstd::relations::total_ordering(leq)) by {
        reveal(vstd::relations::total_ordering);
    }
    vstd::seq_lib::lemma_sorted_unique(d, xs.sort_by(leq), leq);
}

/// One call on a heap.
pub enum HeapOp {
    Push(usize),
    Pop,
}

/// The values held after the calls `ops` on a heap holding `m`.
pub open spec fn after_ops(m: Multiset<usize>, ops: Seq<HeapOp>) -> Multiset<usize>
    decreases ops.len(),
{
    if ops.len() == 0 {
        m
    } else {
        match ops[0] {
            HeapOp::Push(v) => after_ops(m.insert(v), ops.drop_first()),
            HeapOp::Pop => if m.len() == 0 {
                after_ops(m, ops.drop_first())
            } else {
                after_ops(m.remove(least(m)), ops.drop_first())
            },
        }
    }
}

/// How many of `ops` are pushes.
pub open spec fn pushes(ops: Seq<HeapOp>) -> nat
    decreases ops.len(),
{
    if ops.len() == 0 {
        0
    } else {
        (if ops[0] is Push { 1nat } else { 0nat }) + pushes(ops.drop_first())
    }
}

/// How many of `ops`, run on a heap holding `m`, are pops of a nonempty heap.
pub open spec fn pops_taken(m: Multiset<usize>, ops: Seq<HeapOp>) -> nat
    decreases ops.len(),
{
    if ops.len() == 0 {
        0
    } else {
        match ops[0] {
            HeapOp::Push(v) => pops_taken(m.insert(v), ops.drop_first()),
            HeapOp::Pop => if m.len() == 0 {
                pops_taken(m, ops.drop_first())
            } else {
                1 + pops_taken(m.remove(least(m)), ops.drop_first())
            },
        }
    }
}

/// After any run of pushes and pops, a heap holds as many values as were
/// pushed and not popped.
pub proof fn law_len_after_ops(m: Multiset<usize>, ops: Seq<HeapOp>)
    ensures
        after_ops(m, ops).len() + pops_taken(m, ops) == m.len() + pushes(ops),
    decreases ops.len(),
{
    if ops.len() > 0 {
        match ops[0] {
            HeapOp::Push(v) => {
                law_len_after_ops(m.insert(v), ops.drop_first());
            },
            HeapOp::Pop => {
                if m.len() == 0 {
                    law_len_after_ops(m, ops.drop_first());
                } else {
                    lemma_least_exists(m);
                    assert(m.count(least(m)) > 0);
                    law_len_after_ops(m.remove(least(m)), ops.drop_first());
                }
            },
        }
    }
}

/// Values leave a heap in ascending order: the least value of what remains
/// after removing the least value is no smaller than it.
pub proof fn law_pop_order(m: Multiset<usize>, x: usize, y: usize)
    requires
        is_least(m, x),
        is_least(m.remove(x), y),
    ensures
        x <= y,
{
    assert(m.remove(x).contains(y));
    assert(m.count(y) >= m.remove(x).count(y));
    assert(m.contains(y));
}

/// Pushing a value onto an empty heap and popping gives the value back and
/// leaves the heap empty.
pub proof fn law_push_pop_round_trip(x: usize, r: usize)
    requires
        is_least(Multiset::<usize>::empty().insert(x), r),
    ensures
        r == x,
        Multiset::<usize>::empty().insert(x).remove(r) =~= Multiset::<usize>::empty(),
{
}

/// A heap whose least value is `x` still has a least value after a push,
/// and it is the smaller of `x` and the pushed value.
pub proof fn law_push_keeps_least(m: Multiset<usize>, x: usize, v: usize)
    requires
        is_least(m, x),
    ensures
        is_least(m.insert(v), if v < x { v } else { x }),
{
    let n = m.insert(v);
    assert(n.count(v) > 0);
    assert(n.count(x) >= m.count(x));
    assert forall|y: usize| n.contains(y) implies (if v < x { v } else { x }) <= y by {
        if y != v {
            assert(m.count(y) == n.count(y));
            assert(m.contains(y));
        }
    }
}

// ---------------------------------------------------------------------------
// The heap
// ---------------------------------------------------------------------------

/// A binary min-heap of `usize` values stored in a vector.
pub struct MinHeap {
    arr: Vec<usize>,
}

impl View for MinHeap {
    type V = Multiset<usize>;

    /// The values held by the heap, with their multiplicities.
    open spec fn view(&self) -> Multiset<usize> {
        self.storage().to_multiset()
    }
}

impl MinHeap {
    /// The heap's backing array, in storage order.
    pub closed spec fn storage(&self) -> Seq<usize> {
        self.arr@
    }

    /// The heap's storage is ordered as a min-heap.
    pub closed spec fn wf(&self) -> bool {
        is_heap(self.arr@)
    }

    /// Creates an empty heap.
    pub fn new() -> (heap: MinHeap)
        ensures
            heap.wf(),
            heap.storage() == Seq::<usize>::empty(),
            heap@ =~= Multiset::<usize>::empty(),
    {
        let heap = MinHeap { arr: Vec::new() };
        assert(heap.arr@.to_multiset().len() == 0);
        proof {
            lemma_tiny_is_heap(heap.arr@);
        }
        heap
    }

    /// Index of the left child of `index`.
    pub fn left(&self, index: usize) -> (r: usize)
        requires
            index * 2 + 1 <= usize::MAX,
        ensures
            r == index * 2 + 1,
    {
        index * 2 + 1
    }

    /// Index of the right child of `index`.
    pub fn right(&self, index: usize) -> (r: usize)
        requires
            index * 2 + 2 <= usize::MAX,
        ensures
            r == index * 2 + 2,
    {
        index * 2 + 2
    }

    /// Index of the parent of `index`, or `None` for the root.
    pub fn parent(&self, index: usize) -> (r: Option<usize>)
        ensures
            index == 0 ==> r is None,
            index > 0 ==> r == Some(parent_of(index as int) as usize),
    {
        if index == 0 {
            None
        } else {
            Some((index - 1) / 2)
        }
    }

    /// The smallest value in the heap (the first value stored), if any.
    pub fn peek(&self) -> (r: Option<&usize>)
        requires
            self.wf(),
        ensures
            r is None <==> self@.len() == 0,
            r is Some ==> is_least(self@, *r.unwrap()) && *r.unwrap() == self.storage()[0],
    {
        if self.arr.len() == 0 {
            None
        } else {
            proof {
                lemma_root_is_least_of_multiset(self.arr@);
            }
            Some(&self.arr[0])
        }
    }

    fn swap(&mut self, a: usize, b: usize)
        requires
            a < old(self).arr.len(),
            b < old(self).arr.len(),
        ensures
            final(self).arr@ == swapped(old(self).arr@, a as int, b as int),
            final(self).arr@.to_multiset() == old(self).arr@.to_multiset(),
    {
        proof {
            lemma_swap_to_multiset(self.arr@, a as int, b as int);
        }
        let x = self.arr[a];
        let y = self.arr[b];
        self.arr[a] = y;
        self.arr[b] = x;
    }

    /// Number of values in the heap.
    pub fn len(&self) -> (r: usize)
        ensures
            r == self@.len(),
            r == self.storage().len(),
    {
        self.arr.len()
    }

    fn child_to_swap(&self, i: usize) -> (r: Option<usize>)
        ensures
            2 * i + 1 >= self.arr.len() ==> r is None,
            2 * i + 1 < self.arr.len() ==> r == Some(smaller_child(self.arr@, i as int) as usize),
    {
        let n = self.len();
        if i >= n / 2 {
            return None;
        }
        let l = self.left(i);
        let r = self.right(i);
        if l >= n {
            None
        } else if r >= n {
            Some(l)
        } else if self.arr[l] <= self.arr[r] {
            Some(l)
        } else {
            Some(r)
        }
    }

    fn sink_down(&mut self, i: usize)
        requires
            i < old(self).arr.len() || old(self).arr.len() == 0,
            subtree_ordered(old(self).arr@, i as int, i as int),
        ensures
            final(self).arr@ == sink(old(self).arr@, i as int),
            final(self).arr@.to_multiset() == old(self).arr@.to_multiset(),
            subtree_ordered(final(self).arr@, i as int, -1),
            same_outside(old(self).arr@, final(self).arr@, i as int),
    {
        let ghost lo = i as int;
        let ghost n = self.arr@.len();
        let ghost start = self.arr@;
        let ghost ms = self.arr@.to_multiset();
        proof {
            lemma_sink_bridge_at_root(self.arr@, lo);
        }
        let mut i = i;
        loop
            invariant
                self.arr@.len() == n,
                self.arr@.to_multiset() == ms,
                sink(self.arr@, i as int) == sink(start, lo),
                same_outside(start, self.arr@, lo),
                0 <= lo,
                in_subtree(i as int, lo),
                i < n || n == 0,
                subtree_ordered(self.arr@, lo, i as int),
                sink_bridge(self.arr@, lo, i as int),
            ensures
                self.arr@ == sink(start, lo),
                self.arr@.to_multiset() == ms,
                same_outside(start, self.arr@, lo),
                subtree_ordered(self.arr@, lo, -1),
            decreases n - i,
        {
            match self.child_to_swap(i) {
                None => {
                    proof {
                        lemma_sink_done(self.arr@, lo, i as int);
                    }
                    break;
                },
                Some(mc) => {
                    if self.arr[mc] > self.arr[i] {
                        proof {
                            lemma_sink_done(self.arr@, lo, i as int);
                        }
                        break;
                    }
                    proof {
                        lemma_sink_step(self.arr@, lo, i as int);
                    }
                    self.swap(i, mc);
                    i = mc;
                },
            }
        }
    }

    fn float_up(&mut self, i: usize)
        requires
            i < old(self).arr.len(),
            ordered_except_into(old(self).arr@, i as int),
            rise_bridge(old(self).arr@, i as int),
        ensures
            final(self).arr@ == rise(old(self).arr@, i as int),
            final(self).arr@.to_multiset() == old(self).arr@.to_multiset(),
            is_heap(final(self).arr@),
    {
        let ghost n = self.arr@.len();
        let ghost start = self.arr@;
        let ghost k0 = i as int;
        let ghost ms = self.arr@.to_multiset();
        let mut i = i;
        loop
            invariant
                self.arr@.len() == n,
                self.arr@.to_multiset() == ms,
                rise(self.arr@, i as int) == rise(start, k0),
                i < n,
                ordered_except_into(self.arr@, i as int),
                rise_bridge(self.arr@, i as int),
            ensures
                self.arr@ == rise(start, k0),
                self.arr@.to_multiset() == ms,
                is_heap(self.arr@),
            decreases i,
        {
            match self.parent(i) {
                None => {
                    proof {
                        lemma_rise_done(self.arr@, i as int);
                    }
                    break;
                },
                Some(pa) => {
                    if self.arr[pa] <= self.arr[i] {
                        proof {
                            lemma_rise_done(self.arr@, i as int);
                        }
                        break;
                    }
                    proof {
                        lemma_rise_step(self.arr@, i as int);
                    }
                    self.swap(i, pa);
                    i = pa;
                },
            }
        }
    }

    /// Adds `el` to the heap: it is appended and rises into place.
    pub fn push(&mut self, el: usize)
        requires
            old(self).wf(),
        ensures
            final(self).wf(),
            final(self)@ =~= old(self)@.insert(el),
            final(self).storage() == rise(
                old(self).storage().push(el),
                old(self).storage().len() as int,
            ),
    {
        proof {
            lemma_rise_start(self.arr@, el);
        }
        self.arr.push(el);
        let last = self.len() - 1;
        self.float_up(last);
    }

    /// Removes and returns the smallest value, or `None` when the heap is
    /// empty: the last value takes the first place and sinks into place.
    pub fn pop(&mut self) -> (r: Option<usize>)
        requires
            old(self).wf(),
        ensures
            final(self).wf(),
            old(self)@.len() == 0 ==> r is None && final(self)@ == old(self)@
                && final(self).storage() == old(self).storage(),
            old(self)@.len() > 0 ==> r is Some && is_least(old(self)@, r.unwrap()) && r.unwrap()
                == old(self).storage()[0] && final(self)@ =~= old(self)@.remove(r.unwrap())
                && final(self).storage() == sink(
                swapped(old(self).storage(), 0, old(self).storage().len() - 1).drop_last(),
                0,
            ),
    {
        let len = self.len();
        if len == 0 {
            None
        } else {
            proof {
                lemma_root_is_least_of_multiset(self.arr@);
                lemma_pop_start(self.arr@);
            }
            let ghost a = self.arr@;
            self.swap(0, len - 1);
            let ghost s = self.arr@;
            let result = self.arr.pop();
            proof {
                assert(self.arr@.push(a[0]) =~= s);
                assert(self.arr@.to_multiset() =~= a.to_multiset().remove(a[0]));
                assert(self.arr@ =~= s.drop_last());
            }
            self.sink_down(0);
            proof {
                lemma_root_subtree_is_heap(self.arr@);
            }
            result
        }
    }

    /// Builds a heap holding the values of `value`, by sinking every node
    /// that has a child, from the last such node back to the root.
    pub fn from(value: Vec<usize>) -> (heap: MinHeap)
        requires
            value.len() > 0,
        ensures
            heap.wf(),
            heap@ =~= value@.to_multiset(),
            heap.storage() == heapify(value@, heapify_start(value@.len() as int)),
    {
        let ghost orig = value@;
        let mut heap = MinHeap { arr: value };
        let ghost ms = heap.arr@.to_multiset();
        let ghost n = heap.arr@.len();
        let mut i = match heap.parent(heap.len() - 1) {
            Some(p) => p,
            None => 0,
        };
        proof {
            lemma_heapify_begin(heap.arr@);
        }
        loop
            invariant_except_break
                edges_ordered(heap.arr@, i + 1, -1),
                heapify(heap.arr@, i as int) == heapify(orig, heapify_start(n as int)),
            invariant
                heap.arr@.len() == n,
                n > 0,
                heap.arr@.to_multiset() == ms,
                i < n,
            ensures
                heap.arr@.to_multiset() == ms,
                is_heap(heap.arr@),
                heap.arr@ == heapify(orig, heapify_start(n as int)),
            decreases i,
        {
            proof {
                lemma_heapify_sink_ready(heap.arr@, i as int);
            }
            let ghost before = heap.arr@;
            heap.sink_down(i);
            proof {
                lemma_heapify_sink_done(before, heap.arr@, i as int);
            }
            if i == 0 {
                break;
            }
            i -= 1;
        }
        heap
    }
}

} // verus!
