//! A bump allocator: a cursor that only moves forward, and a count of the
//! blocks that are out.
//!
//! Memory is handed out from the cursor upwards and is never reused one block
//! at a time. Only when the last outstanding block comes back does the cursor
//! return to the start of the heap. One block that is never freed therefore
//! keeps the whole region from being reclaimed, however many others were
//! freed: that is the price of this strategy, and callers must know it.

use vstd::prelude::*;
use crate::allocator::{align_up, align_up_spec, is_aligned, lemma_align_up_is_least_multiple};

verus! {

/// The state of a bump allocator as mathematical integers.
pub struct BumpState {
    pub heap_start: int,
    pub heap_end: int,
    pub next: int,
    pub allocations: int,
}

impl BumpState {
    /// The cursor lies inside the heap.
    pub open spec fn cursor_in_heap(self) -> bool {
        0 <= self.heap_start <= self.next <= self.heap_end
    }

    /// The cursor lies inside the heap and every field fits a machine word.
    pub open spec fn wf(self) -> bool {
        &&& self.cursor_in_heap()
        &&& self.heap_end <= usize::MAX
        &&& 0 <= self.allocations <= usize::MAX
    }

    /// Where a block of the given alignment would start.
    pub open spec fn alloc_start(self, align: int) -> int {
        align_up_spec(self.next, align)
    }

    /// Whether a request can be served from what lies above the cursor.
    pub open spec fn fits(self, size: int, align: int) -> bool {
        self.alloc_start(align) + size <= self.heap_end
    }

    /// The address that a request yields, if it fits.
    pub open spec fn alloc_result(self, size: int, align: int) -> Option<int> {
        if self.fits(size, align) {
            Some(self.alloc_start(align))
        } else {
            None
        }
    }

    /// The state after a request: the cursor past the block and one more block
    /// out if it fits, no change if it does not.
    pub open spec fn after_alloc(self, size: int, align: int) -> BumpState {
        if self.fits(size, align) {
            BumpState {
                heap_start: self.heap_start,
                heap_end: self.heap_end,
                next: self.alloc_start(align) + size,
                allocations: self.allocations + 1,
            }
        } else {
            self
        }
    }

    /// The state after a block came back: one block fewer out, and the cursor
    /// at the start of the heap exactly if none is left.
    pub open spec fn after_dealloc(self) -> BumpState {
        BumpState {
            heap_start: self.heap_start,
            heap_end: self.heap_end,
            next: if self.allocations - 1 == 0 {
                self.heap_start
            } else {
                self.next
            },
            allocations: self.allocations - 1,
        }
    }

    /// The state after one operation.
    pub open spec fn step(self, op: BumpOp) -> BumpState {
        match op {
            BumpOp::Alloc { size, align } => self.after_alloc(size, align),
            BumpOp::Dealloc { ptr, size } => self.after_dealloc(),
        }
    }

    /// The state after a sequence of operations, first to last.
    pub open spec fn run(self, ops: Seq<BumpOp>) -> BumpState
        decreases ops.len(),
    {
        if ops.len() == 0 {
            self
        } else {
            self.run(ops.drop_last()).step(ops.last())
        }
    }
}

/// One call on a bump allocator.
pub enum BumpOp {
    /// A request for `size` bytes at a multiple of `align`.
    Alloc { size: int, align: int },
    /// The block of `size` bytes at `ptr` comes back.
    Dealloc { ptr: int, size: int },
}

impl BumpOp {
    /// Sizes are not negative and alignments are positive.
    pub open spec fn valid(self) -> bool {
        match self {
            BumpOp::Alloc { size, align } => size >= 0 && align > 0,
            BumpOp::Dealloc { ptr, size } => true,
        }
    }
}

/// Every operation of `ops` is valid.
pub open spec fn all_valid(ops: Seq<BumpOp>) -> bool {
    forall|i: int| 0 <= i < ops.len() ==> (#[trigger] ops[i]).valid()
}

/// Every operation of `ops` is a request for memory.
pub open spec fn all_allocs(ops: Seq<BumpOp>) -> bool {
    forall|i: int| 0 <= i < ops.len() ==> (#[trigger] ops[i]) is Alloc
}

/// Every operation of `ops` gives a block back.
pub open spec fn all_deallocs(ops: Seq<BumpOp>) -> bool {
    forall|i: int| 0 <= i < ops.len() ==> (#[trigger] ops[i]) is Dealloc
}

/// Every request among `ops`, run from `s`, is served.
pub open spec fn all_served(s: BumpState, ops: Seq<BumpOp>) -> bool {
    forall|i: int|
        0 <= i < ops.len() ==> match #[trigger] ops[i] {
            BumpOp::Alloc { size, align } => s.run(ops.take(i)).fits(size, align),
            BumpOp::Dealloc { ptr, size } => true,
        }
}

/// While `ops` run from `s`, at least one block is out after every step.
pub open spec fn never_empty(s: BumpState, ops: Seq<BumpOp>) -> bool {
    forall|k: int| 0 <= k <= ops.len() ==> (#[trigger] s.run(ops.take(k))).allocations > 0
}

/// As long as some block is out, the heap keeps its bounds and the cursor
/// never moves down.
pub proof fn lemma_cursor_monotone(s: BumpState, ops: Seq<BumpOp>)
    requires
        s.cursor_in_heap(),
        all_valid(ops),
        never_empty(s, ops),
    ensures
        s.run(ops).heap_start == s.heap_start,
        s.run(ops).heap_end == s.heap_end,
        s.next <= s.run(ops).next <= s.heap_end,
    decreases ops.len(),
{
    if ops.len() > 0 {
        let front = ops.drop_last();
        assert forall|k: int| 0 <= k <= front.len() implies (#[trigger] s.run(front.take(k))).allocations
            > 0 by {
            assert(front.take(k) =~= ops.take(k));
        }
        assert forall|i: int| 0 <= i < front.len() implies (#[trigger] front[i]).valid() by {
            assert(front[i] == ops[i]);
        }
        lemma_cursor_monotone(s, front);
        let mid = s.run(front);
        assert(ops.take(ops.len() as int) =~= ops);
        assert(s.run(ops.take(ops.len() as int)).allocations > 0);
        assert(ops.last().valid());
        match ops.last() {
            BumpOp::Alloc { size, align } => {
                lemma_align_up_is_least_multiple(mid.next, align);
            },
            BumpOp::Dealloc { ptr, size } => {},
        }
    }
}

/// Two blocks that are out at the same time do not overlap, and both lie in
/// the heap: if a block was handed out and the count of outstanding blocks
/// has stayed above zero since (as it must while that block is out), a later
/// block starts at or above the end of the earlier one.
pub proof fn lemma_live_blocks_disjoint(
    s: BumpState,
    size1: int,
    align1: int,
    ops: Seq<BumpOp>,
    size2: int,
    align2: int,
)
    requires
        s.cursor_in_heap(),
        size1 >= 0,
        align1 > 0,
        size2 >= 0,
        align2 > 0,
        all_valid(ops),
        s.fits(size1, align1),
        never_empty(s.after_alloc(size1, align1), ops),
        s.after_alloc(size1, align1).run(ops).fits(size2, align2),
    ensures
        ({
            let a1 = s.alloc_result(size1, align1).unwrap();
            let a2 = s.after_alloc(size1, align1).run(ops).alloc_result(size2, align2).unwrap();
            &&& s.heap_start <= a1
            &&& a1 + size1 <= a2
            &&& a2 + size2 <= s.heap_end
            &&& is_aligned(a1, align1)
            &&& is_aligned(a2, align2)
        }),
{
    let s1 = s.after_alloc(size1, align1);
    lemma_align_up_is_least_multiple(s.next, align1);
    lemma_cursor_monotone(s1, ops);
    lemma_align_up_is_least_multiple(s1.run(ops).next, align2);
}

/// Requests that are all served raise the count by their number and leave the
/// heap's bounds alone.
pub proof fn lemma_allocs_count(s: BumpState, allocs: Seq<BumpOp>)
    requires
        all_allocs(allocs),
        all_served(s, allocs),
    ensures
        s.run(allocs).allocations == s.allocations + allocs.len(),
        s.run(allocs).heap_start == s.heap_start,
        s.run(allocs).heap_end == s.heap_end,
    decreases allocs.len(),
{
    if allocs.len() > 0 {
        let front = allocs.drop_last();
        assert forall|i: int| 0 <= i < front.len() implies match #[trigger] front[i] {
            BumpOp::Alloc { size, align } => s.run(front.take(i)).fits(size, align),
            BumpOp::Dealloc { ptr, size } => true,
        } by {
            assert(front[i] == allocs[i]);
            assert(front.take(i) =~= allocs.take(i));
        }
        assert forall|i: int| 0 <= i < front.len() implies (#[trigger] front[i]) is Alloc by {
            assert(front[i] == allocs[i]);
        }
        lemma_allocs_count(s, front);
        let last = allocs.len() - 1;
        assert(allocs[last] is Alloc);
        assert(allocs.take(last) =~= front);
    }
}

/// Blocks that come back lower the count one by one, in whatever order and
/// whichever blocks they are; the cursor stays where it is until the count
/// reaches zero, and is at the start of the heap once it does.
pub proof fn lemma_deallocs_reclaim_at_zero(s: BumpState, frees: Seq<BumpOp>)
    requires
        all_deallocs(frees),
        frees.len() <= s.allocations,
    ensures
        s.run(frees).allocations == s.allocations - frees.len(),
        s.run(frees).heap_start == s.heap_start,
        s.run(frees).heap_end == s.heap_end,
        0 < frees.len() == s.allocations ==> s.run(frees).next == s.heap_start,
        frees.len() < s.allocations ==> s.run(frees).next == s.next,
    decreases frees.len(),
{
    if frees.len() > 0 {
        let front = frees.drop_last();
        assert forall|i: int| 0 <= i < front.len() implies (#[trigger] front[i]) is Dealloc by {
            assert(front[i] == frees[i]);
        }
        lemma_deallocs_reclaim_at_zero(s, front);
        assert(frees[frees.len() - 1] is Dealloc);
    }
}

/// After `n` served requests on an allocator with no block out, followed by
/// deallocations in any order, the heap is reclaimed exactly by the `n`-th
/// deallocation: before it the cursor is where the requests left it, after it
/// the cursor is at the start of the heap. So if the requests have moved
/// the cursor at all, it is back at the start of the heap if and only if
/// all `n` blocks are back.
pub proof fn lemma_reclaimed_exactly_by_last_dealloc(
    s: BumpState,
    allocs: Seq<BumpOp>,
    frees: Seq<BumpOp>,
)
    requires
        s.allocations == 0,
        all_allocs(allocs),
        all_served(s, allocs),
        all_deallocs(frees),
        0 < frees.len() <= allocs.len(),
    ensures
        frees.len() < allocs.len() ==> s.run(allocs).run(frees).next == s.run(allocs).next,
        frees.len() == allocs.len() ==> s.run(allocs).run(frees).next == s.heap_start,
        s.run(allocs).run(frees).allocations == allocs.len() - frees.len(),
        s.run(allocs).next != s.heap_start ==> (s.run(allocs).run(frees).next == s.heap_start
            <==> frees.len() == allocs.len()),
{
    lemma_allocs_count(s, allocs);
    lemma_deallocs_reclaim_at_zero(s.run(allocs), frees);
}

/// A bump allocator over the bytes from `heap_start` up to `heap_end`:
/// `next` is the first byte not handed out, `allocations` the number of
/// blocks that are out.
pub struct BumpAllocator {
    heap_start: usize,
    heap_end: usize,
    next: usize,
    allocations: usize,
}

impl View for BumpAllocator {
    type V = BumpState;

    closed spec fn view(&self) -> BumpState {
        BumpState {
            heap_start: self.heap_start as int,
            heap_end: self.heap_end as int,
            next: self.next as int,
            allocations: self.allocations as int,
        }
    }
}

impl BumpAllocator {
    #[verifier::type_invariant]
    spec fn inv(self) -> bool {
        self@.wf()
    }

    /// An allocator over an empty heap at address zero: every request that
    /// needs room fails until `init` gives it a region.
    pub fn new() -> (r: Self)
        ensures
            r@ == (BumpState { heap_start: 0, heap_end: 0, next: 0, allocations: 0 }),
            r@.wf(),
    {
        BumpAllocator { heap_start: 0, heap_end: 0, next: 0, allocations: 0 }
    }

    /// Sets the heap to the `heap_size` bytes from `heap_start` on, with the
    /// cursor at its start. The count of outstanding blocks is kept.
    pub fn init(&mut self, heap_start: usize, heap_size: usize)
        requires
            heap_start + heap_size <= usize::MAX,
        ensures
            final(self)@ == (BumpState {
                heap_start: heap_start as int,
                heap_end: heap_start + heap_size,
                next: heap_start as int,
                allocations: old(self)@.allocations,
            }),
            final(self)@.wf(),
    {
        proof {
            use_type_invariant(&*self);
        }
        *self = BumpAllocator {
            heap_start,
            heap_end: heap_start + heap_size,
            next: heap_start,
            allocations: self.allocations,
        };
    }

    /// The first address of the heap.
    pub fn heap_start(&self) -> (r: usize)
        ensures
            r == self@.heap_start,
    {
        self.heap_start
    }

    /// The address just past the heap.
    pub fn heap_end(&self) -> (r: usize)
        ensures
            r == self@.heap_end,
    {
        self.heap_end
    }

    /// The cursor: the first byte that has not been handed out.
    pub fn next(&self) -> (r: usize)
        ensures
            r == self@.next,
    {
        self.next
    }

    /// The number of blocks that are out.
    pub fn allocations(&self) -> (r: usize)
        ensures
            r == self@.allocations,
    {
        self.allocations
    }

    /// Hands out `size` bytes at the first multiple of `align` at or above the
    /// cursor, or `None` if the block would end past the heap (or past the
    /// machine word). On success the cursor moves to the end of the block and
    /// the count goes up by one; on failure nothing changes.
    ///
    /// A block that is handed out is aligned, lies inside the heap, and starts
    /// at or above the old cursor, hence above every block handed out since
    /// the heap was last reclaimed.
    pub fn allocate(&mut self, size: usize, align: usize) -> (r: Option<usize>)
        requires
            align > 0,
            old(self)@.allocations < usize::MAX,
        ensures
            final(self)@ == old(self)@.after_alloc(size as int, align as int),
            match r {
                Some(a) => old(self)@.alloc_result(size as int, align as int) == Some(a as int),
                None => old(self)@.alloc_result(size as int, align as int) is None,
            },
            old(self)@.wf(),
            final(self)@.wf(),
            match r {
                Some(a) => {
                    &&& is_aligned(a as int, align as int)
                    &&& old(self)@.heap_start <= old(self)@.next <= a
                    &&& a + size == final(self)@.next
                    &&& final(self)@.next <= old(self)@.heap_end
                },
                None => true,
            },
    {
        proof {
            use_type_invariant(&*self);
            lemma_align_up_is_least_multiple(self.next as int, align as int);
        }
        let alloc_start = match align_up(self.next, align) {
            Some(start) => start,
            None => {
                return None;
            },
        };
        let alloc_end = match alloc_start.checked_add(size) {
            Some(end) => end,
            None => {
                return None;
            },
        };
        if alloc_end > self.heap_end {
            None
        } else {
            self.next = alloc_end;
            self.allocations += 1;
            Some(alloc_start)
        }
    }

    /// Takes a block back. The block itself is not looked at: the count goes
    /// down by one, and the cursor returns to the start of the heap exactly
    /// when the count reaches zero. Until then nothing is reclaimed.
    pub fn dealloc(&mut self, _ptr: usize, _size: usize, _align: usize)
        requires
            old(self)@.allocations > 0,
        ensures
            final(self)@ == old(self)@.after_dealloc(),
            final(self)@.wf(),
    {
        proof {
            use_type_invariant(&*self);
        }
        self.allocations -= 1;
        if self.allocations == 0 {
            self.next = self.heap_start;
        }
    }
}

} // verus!
