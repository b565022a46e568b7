use vstd::prelude::*;
use vstd::multiset::Multiset;
use std::sync::Arc;
use crate::min_heap::MinHeap;

verus! {

broadcast use vstd::seq_lib::group_to_multiset_ensures;

/// A file object that the table hands out by number: a regular file, a pipe, a
/// socket. Callers implement it; the table never calls its methods.
pub trait File: Send + Sync {
    fn read(&self, buf: &mut [u8]) -> isize;

    fn write(&self, buf: &[u8]) -> isize;
}

/// `fd` is not open in `open`, and every smaller number is.
pub open spec fn is_lowest_unused(open: Set<usize>, fd: usize) -> bool {
    &&& !open.contains(fd)
    &&& forall|j: usize| j < fd ==> open.contains(j)
}

/// The file that descriptor `fd` names in the table `m`, if it is open.
pub open spec fn lookup<F: ?Sized>(m: Map<usize, Arc<F>>, fd: usize) -> Option<Arc<F>> {
    if m.dom().contains(fd) {
        Some(m[fd])
    } else {
        None
    }
}

/// Every set of descriptor numbers is finite.
pub proof fn lemma_fd_set_finite(s: Set<usize>)
    ensures
        s.finite(),
{
    broadcast use vstd::set_lib::full_set_properties;

    assert(Set::<usize>::full().finite());
    vstd::set_lib::lemma_len_subset(s, Set::<usize>::full());
}

/// Hands out a second handle to the same file object.
fn share_handle<T: ?Sized>(slot: &Option<Arc<T>>) -> (r: Option<Arc<T>>)
    ensures
        r == *slot,
{
    match slot {
        Some(file) => Some(Arc::clone(file)),
        None => None,
    }
}

/// After `alloc_fd` opens `file` under `fd`, `get(fd)` returns that file.
pub proof fn law_get_after_alloc<F: ?Sized>(m: Map<usize, Arc<F>>, fd: usize, file: Arc<F>)
    ensures
        lookup(m.insert(fd, file), fd) == Some(file),
{
}

/// After `close(fd)`, `get(fd)` returns `None` and a second `close(fd)` fails.
pub proof fn law_closed_fd_is_gone<F: ?Sized>(m: Map<usize, Arc<F>>, fd: usize)
    ensures
        lookup(m.remove(fd), fd) is None,
        !m.remove(fd).dom().contains(fd),
{
}

/// Closing a descriptor that is not open changes nothing, so the next
/// `alloc_fd` hands out the number it would have handed out anyway.
pub proof fn law_close_unopened_changes_nothing<F: ?Sized>(m: Map<usize, Arc<F>>, fd: usize)
    requires
        !m.dom().contains(fd),
    ensures
        m.remove(fd) =~= m,
{
}

/// Opening and closing one descriptor leaves every other descriptor as it was.
pub proof fn law_other_fds_untouched<F: ?Sized>(
    m: Map<usize, Arc<F>>,
    fd: usize,
    other: usize,
    file: Arc<F>,
)
    requires
        other != fd,
    ensures
        lookup(m.insert(fd, file), other) == lookup(m, other),
        lookup(m.remove(fd), other) == lookup(m, other),
{
}

/// Closing the descriptor that `alloc_fd` just opened restores the table, and
/// the next `alloc_fd` hands out the same number again.
pub proof fn law_close_undoes_alloc<F: ?Sized>(m: Map<usize, Arc<F>>, fd: usize, file: Arc<F>)
    requires
        is_lowest_unused(m.dom(), fd),
    ensures
        m.insert(fd, file).remove(fd) =~= m,
        is_lowest_unused(m.insert(fd, file).remove(fd).dom(), fd),
{
    assert(m.insert(fd, file).remove(fd) =~= m);
}

/// The number `alloc_fd` hands out is determined by the open set: there is
/// only one lowest unused number.
pub proof fn law_lowest_unused_unique(open: Set<usize>, a: usize, b: usize)
    requires
        is_lowest_unused(open, a),
        is_lowest_unused(open, b),
    ensures
        a == b,
{
    if a < b {
        assert(open.contains(a));
    } else if b < a {
        assert(open.contains(b));
    }
}

/// The number `alloc_fd` hands out is at most the number of open
/// descriptors: it reuses a gap, or extends just past the open ones.
pub proof fn law_lowest_unused_bounded(open: Set<usize>, fd: usize)
    requires
        is_lowest_unused(open, fd),
    ensures
        fd <= open.len(),
{
    lemma_fd_set_finite(open);
    let below = Set::new(|j: usize| j < fd);
    assert(below =~= Set::<usize>::range(0, fd));
    vstd::set_lib::range_set_properties::<usize>(0, fd);
    vstd::set_lib::lemma_len_subset(below, open);
}

/// Closing `fd` and then allocating hands out the smaller of `fd` and the
/// number that allocating would have handed out before the close.
pub proof fn law_close_then_alloc_reuses(open: Set<usize>, fd: usize, lowest: usize)
    requires
        open.contains(fd),
        is_lowest_unused(open, lowest),
    ensures
        is_lowest_unused(open.remove(fd), if fd < lowest { fd } else { lowest }),
{
    if lowest < fd {
        assert(!open.remove(fd).contains(lowest));
    }
}

/// `alloc_fd` adds one to `count`, and a successful `close` takes one away.
pub proof fn law_count_moves_by_one<F: ?Sized>(m: Map<usize, Arc<F>>, fd: usize, file: Arc<F>)
    ensures
        !m.dom().contains(fd) ==> m.insert(fd, file).len() == m.len() + 1,
        m.dom().contains(fd) ==> m.remove(fd).len() == m.len() - 1,
{
    lemma_fd_set_finite(m.dom());
}

/// What one call did to the table: `alloc_fd` opened a file under a number,
/// or `close` was called on a number.
pub enum FdEvent<F: ?Sized> {
    Opened(usize, Arc<F>),
    Closed(usize),
}

/// The table after the calls `events`, starting from `m`.
pub open spec fn replay<F: ?Sized>(m: Map<usize, Arc<F>>, events: Seq<FdEvent<F>>) -> Map<
    usize,
    Arc<F>,
>
    decreases events.len(),
{
    if events.len() == 0 {
        m
    } else {
        let before = replay(m, events.drop_last());
        match events.last() {
            FdEvent::Opened(fd, file) => before.insert(fd, file),
            FdEvent::Closed(fd) => before.remove(fd),
        }
    }
}

/// The file of the latest call on `fd` in `events`, if that call opened it.
pub open spec fn latest_open<F: ?Sized>(events: Seq<FdEvent<F>>, fd: usize) -> Option<Arc<F>>
    decreases events.len(),
{
    if events.len() == 0 {
        None
    } else {
        match events.last() {
            FdEvent::Opened(g, file) => if g == fd {
                Some(file)
            } else {
                latest_open(events.drop_last(), fd)
            },
            FdEvent::Closed(g) => if g == fd {
                None
            } else {
                latest_open(events.drop_last(), fd)
            },
        }
    }
}

/// After any history of `alloc_fd` and `close` on a new table, `get(fd)`
/// returns the file of the latest `alloc_fd` that handed out `fd`, unless a
/// `close(fd)` came after it; then it returns `None`.
pub proof fn law_get_after_history<F: ?Sized>(events: Seq<FdEvent<F>>, fd: usize)
    ensures
        lookup(replay(Map::<usize, Arc<F>>::empty(), events), fd) == latest_open(events, fd),
    decreases events.len(),
{
    if events.len() > 0 {
        law_get_after_history(events.drop_last(), fd);
    }
}

/// File descriptor table: maps small integers to open file objects of type
/// `F` (in use, `dyn File`).
pub struct FdTable<F: ?Sized> {
    files: Vec<Option<Arc<F>>>,
    index_heap: MinHeap,
}

impl<F: ?Sized> View for FdTable<F> {
    type V = Map<usize, Arc<F>>;

    /// The open descriptors, each with the file it names.
    closed spec fn view(&self) -> Map<usize, Arc<F>> {
        Map::new(
            |fd: usize| fd < self.files@.len() && self.files@[fd as int] is Some,
            |fd: usize| self.files@[fd as int].unwrap(),
        )
    }
}

/// Slot `x` exists and holds no file.
spec fn slot_free<F: ?Sized>(files: Seq<Option<Arc<F>>>, x: usize) -> bool {
    x < files.len() && files[x as int] is None
}

/// `free` holds each free slot of `files` exactly once and nothing else.
spec fn free_slots_listed<F: ?Sized>(free: Multiset<usize>, files: Seq<Option<Arc<F>>>) -> bool {
    forall|x: usize| #[trigger] free.count(x) == if slot_free(files, x) { 1nat } else { 0nat }
}

/// A change confined to slot `idx` keeps the free list exact, provided the
/// count at `idx` matches the slot's new state.
proof fn lemma_free_slots_relisted<F: ?Sized>(
    free0: Multiset<usize>,
    files0: Seq<Option<Arc<F>>>,
    free1: Multiset<usize>,
    files1: Seq<Option<Arc<F>>>,
    idx: usize,
)
    requires
        free_slots_listed(free0, files0),
        forall|x: usize| x != idx ==> #[trigger] free1.count(x) == free0.count(x),
        forall|x: usize| x != idx ==> #[trigger] slot_free(files1, x) == slot_free(files0, x),
        free1.count(idx) == if slot_free(files1, idx) { 1nat } else { 0nat },
    ensures
        free_slots_listed(free1, files1),
{
    assert forall|x: usize|
        #[trigger] free1.count(x) == if slot_free(files1, x) { 1nat } else { 0nat } by {
        if x != idx {
            assert(free0.count(x) == if slot_free(files0, x) { 1nat } else { 0nat });
        }
    }
}

impl<F: ?Sized> FdTable<F> {
    /// The table's internal bookkeeping is consistent: the heap of free
    /// numbers holds each closed slot exactly once and nothing else.
    pub closed spec fn wf(&self) -> bool {
        &&& self.index_heap.wf()
        &&& free_slots_listed(self.index_heap@, self.files@)
        &&& self@.dom().len() + self.index_heap@.len() == self.files@.len()
    }

    /// Creates an empty table with room for four descriptors, for files of
    /// any type `F`.
    pub fn empty() -> (table: Self)
        ensures
            table.wf(),
            table@ == Map::<usize, Arc<F>>::empty(),
    {
        let files: Vec<Option<Arc<F>>> = vec![None, None, None, None];
        let free: Vec<usize> = vec![0, 1, 2, 3];
        let index_heap = MinHeap::from(free);
        let table = FdTable { files, index_heap };
        proof {
            assert(table@ =~= Map::<usize, Arc<F>>::empty());
            let s = free@;
            assert(s =~= Seq::<usize>::empty().push(0).push(1).push(2).push(3));
            assert forall|x: usize|
                #[trigger] table.index_heap@.count(x) == if slot_free(table.files@, x) {
                    1nat
                } else {
                    0nat
                } by {
                assert(Seq::<usize>::empty().to_multiset() =~= Multiset::<usize>::empty());
            }
        }
        table
    }

    /// Opens `file` under the smallest number that is not in use (reusing a
    /// closed slot, or else extending the table) and returns that number.
    pub fn alloc_fd(&mut self, file: Arc<F>) -> (fd: usize)
        requires
            old(self).wf(),
        ensures
            final(self).wf(),
            is_lowest_unused(old(self)@.dom(), fd),
            final(self)@ == old(self)@.insert(fd, file),
    {
        proof {
            lemma_fd_set_finite(self@.dom());
        }
        if let Some(index) = self.index_heap.peek() {
            let index = *index;
            proof {
                assert(self.index_heap@.count(index) > 0);
                assert(slot_free(self.files@, index));
                assert forall|j: usize| j < index implies old(self)@.dom().contains(j) by {
                    if !old(self)@.dom().contains(j) {
                        assert(slot_free(self.files@, j));
                        assert(self.index_heap@.count(j) == 1);
                        assert(self.index_heap@.contains(j));
                    }
                }
            }
            self.files[index] = Some(file);
            self.index_heap.pop();
            proof {
                assert(self@ =~= old(self)@.insert(index, file));
                lemma_free_slots_relisted(
                    old(self).index_heap@,
                    old(self).files@,
                    self.index_heap@,
                    self.files@,
                    index,
                );
            }
            index
        } else {
            let index = self.files.len();
            proof {
                assert forall|j: usize| j < index implies old(self)@.dom().contains(j) by {
                    assert(self.index_heap@.count(j) == 0);
                }
            }
            self.files.push(Some(file));
            proof {
                assert(self@ =~= old(self)@.insert(index, file));
                lemma_free_slots_relisted(
                    old(self).index_heap@,
                    old(self).files@,
                    self.index_heap@,
                    self.files@,
                    index,
                );
            }
            index
        }
    }

    /// The file that `fd` names, or `None` when `fd` is not open.
    pub fn get(&self, fd: usize) -> (r: Option<Arc<F>>)
        ensures
            r == lookup(self@, fd),
    {
        if fd < self.files.len() {
            share_handle(&self.files[fd])
        } else {
            None
        }
    }

    /// Closes `fd`. Returns whether it was open.
    pub fn close(&mut self, fd: usize) -> (closed: bool)
        requires
            old(self).wf(),
        ensures
            final(self).wf(),
            closed == old(self)@.dom().contains(fd),
            final(self)@ == old(self)@.remove(fd),
    {
        proof {
            lemma_fd_set_finite(self@.dom());
        }
        if fd < self.files.len() {
            if self.files[fd].is_some() {
                self.files[fd] = None;
                self.index_heap.push(fd);
                proof {
                    assert(self@ =~= old(self)@.remove(fd));
                    lemma_free_slots_relisted(
                        old(self).index_heap@,
                        old(self).files@,
                        self.index_heap@,
                        self.files@,
                        fd,
                    );
                }
                return true;
            }
        }
        proof {
            assert(self@ =~= old(self)@.remove(fd));
        }
        false
    }

    /// Number of open descriptors.
    pub fn count(&self) -> (n: usize)
        requires
            self.wf(),
        ensures
            n == self@.len(),
    {
        self.files.len() - self.index_heap.len()
    }
}

impl FdTable<dyn File> {
    /// Creates an empty table of `dyn File` objects with room for four
    /// descriptors.
    pub fn new() -> (table: Self)
        ensures
            table.wf(),
            table@ == Map::<usize, Arc<dyn File>>::empty(),
    {
        Self::empty()
    }
}

impl Default for FdTable<dyn File> {
    fn default() -> (table: Self)
        ensures
            table.wf(),
            table@ == Map::<usize, Arc<dyn File>>::empty(),
    {
        Self::new()
    }
}

} // verus!
