//! What holds of the free-list allocator over any sequence of calls.
//!
//! The laws speak of the free list as a sequence of regions and of calls as
//! values, and follow the list through `run`. They are stated for callers
//! that keep to the rules of a heap: a block is given back at most once, and
//! only a block that was handed out.

use vstd::prelude::*;
use vstd::arithmetic::power2::is_pow2;
use crate::allocator::{
    align_up_spec, is_aligned, lemma_align_up_is_least_multiple, lemma_aligned_sum,
    lemma_aligned_to_divisor,
};
use crate::allocator::linked_list::{
    after_alloc, after_dealloc, alloc_result, block_size, first_fit, first_fit_from, held_by_some,
    lemma_normalize, normalize, wf_list, ListNode, NODE_ALIGN, NODE_SIZE,
};

verus! {

/// What `first_fit_from` finds: the least index from `from` on whose region
/// fits, or nothing if none does.
pub proof fn lemma_first_fit_from(nodes: Seq<ListNode>, size: int, align: int, from: int)
    requires
        0 <= from,
    ensures
        match first_fit_from(nodes, size, align, from) {
            Some(i) => {
                &&& from <= i < nodes.len()
                &&& nodes[i].fit(size, align) is Some
                &&& forall|j: int| from <= j < i ==> (#[trigger] nodes[j]).fit(size, align) is None
            },
            None => forall|j: int|
                from <= j < nodes.len() ==> (#[trigger] nodes[j]).fit(size, align) is None,
        },
    decreases nodes.len() - from,
{
    if from < nodes.len() && nodes[from].fit(size, align) is None {
        lemma_first_fit_from(nodes, size, align, from + 1);
    }
}

/// A request is served if and only if it can be normalised and fits in some
/// single region of the free list.
pub proof fn lemma_served_iff_fits(nodes: Seq<ListNode>, size: int, align: int)
    ensures
        alloc_result(nodes, size, align) is Some <==> normalize(size, align) is Some && exists|
            i: int,
        |
            0 <= i < nodes.len() && (#[trigger] nodes[i]).fit(
                normalize(size, align).unwrap().0,
                normalize(size, align).unwrap().1,
            ) is Some,
{
    if normalize(size, align) is Some {
        let (sz, al) = normalize(size, align).unwrap();
        lemma_first_fit_from(nodes, sz, al, 0);
    }
}

/// Free regions are not merged: a request that is larger than each single
/// region fails, however many bytes the regions hold together.
pub proof fn lemma_larger_than_every_region_fails(nodes: Seq<ListNode>, size: int, align: int)
    requires
        size >= 0,
        is_pow2(align),
        forall|i: int| 0 <= i < nodes.len() ==> (#[trigger] nodes[i]).size < size,
    ensures
        alloc_result(nodes, size, align) is None,
{
    lemma_served_iff_fits(nodes, size, align);
    if normalize(size, align) is Some {
        lemma_normalize(size, align);
        let (sz, al) = normalize(size, align).unwrap();
        assert forall|i: int| 0 <= i < nodes.len() implies (#[trigger] nodes[i]).fit(sz, al)
            is None by {
            assert(nodes[i].size < size);
            lemma_align_up_is_least_multiple(nodes[i].start as int, al);
        }
    }
}

/// Free regions only help: a request that is served from a free list is
/// served from every list that holds the same regions and more.
pub proof fn lemma_more_regions_serve_more(
    nodes: Seq<ListNode>,
    more: Seq<ListNode>,
    size: int,
    align: int,
)
    requires
        alloc_result(nodes, size, align) is Some,
    ensures
        alloc_result(more + nodes, size, align) is Some,
{
    lemma_served_iff_fits(nodes, size, align);
    lemma_served_iff_fits(more + nodes, size, align);
    let (sz, al) = normalize(size, align).unwrap();
    let i = choose|i: int| 0 <= i < nodes.len() && (#[trigger] nodes[i]).fit(sz, al) is Some;
    assert((more + nodes)[more.len() + i] == nodes[i]);
}

/// No region of the list shares a byte with `[lo, hi)`.
pub open spec fn avoids(nodes: Seq<ListNode>, lo: int, hi: int) -> bool {
    forall|i: int| 0 <= i < nodes.len() ==> (#[trigger] nodes[i]).end() <= lo || hi <= nodes[i].start
}

/// Every region of the list lies in `[lo, hi)`.
pub open spec fn within(nodes: Seq<ListNode>, lo: int, hi: int) -> bool {
    forall|i: int| 0 <= i < nodes.len() ==> lo <= (#[trigger] nodes[i]).start && nodes[i].end() <= hi
}

/// No two regions of the list share a byte.
pub open spec fn pairwise_disjoint(nodes: Seq<ListNode>) -> bool {
    forall|i: int, j: int|
        0 <= i < j < nodes.len() ==> (#[trigger] nodes[i]).end() <= (#[trigger] nodes[j]).start
            || nodes[j].end() <= nodes[i].start
}

/// A heap as `init` leaves it on an allocator without regions is where the
/// laws start: its one region is well formed, shares no byte with another,
/// and lies in the bounds of the heap.
pub proof fn lemma_fresh_heap(heap_start: usize, heap_size: usize)
    requires
        is_aligned(heap_start as int, NODE_ALIGN as int),
        heap_size >= NODE_SIZE,
        heap_start + heap_size <= usize::MAX,
    ensures
        ({
            let nodes = Seq::<ListNode>::empty().insert(
                0,
                ListNode { start: heap_start, size: heap_size },
            );
            &&& wf_list(nodes)
            &&& pairwise_disjoint(nodes)
            &&& within(nodes, heap_start as int, heap_start + heap_size)
        }),
{
}

/// Whether the free region `block` is exactly what `size` and `align` are
/// served with: it has the normalised size and starts at a multiple of the
/// normalised alignment.
pub open spec fn serves_exactly(block: ListNode, size: int, align: int) -> bool {
    match normalize(size, align) {
        Some((sz, al)) => block.size == sz && al > 0 && is_aligned(block.start as int, al),
        None => false,
    }
}

/// A block that is handed out is aligned as asked, covers at least the bytes
/// asked for, and lies in one region of the free list as it was.
pub proof fn lemma_alloc_block(nodes: Seq<ListNode>, size: int, align: int)
    requires
        wf_list(nodes),
        size >= 0,
        is_pow2(align),
        alloc_result(nodes, size, align) is Some,
    ensures
        ({
            let a = alloc_result(nodes, size, align).unwrap();
            &&& a >= 0
            &&& is_aligned(a, align)
            &&& is_aligned(a, NODE_ALIGN as int)
            &&& size <= block_size(size, align)
            &&& NODE_SIZE <= block_size(size, align)
            &&& a + block_size(size, align) <= usize::MAX
            &&& held_by_some(nodes, a, a + block_size(size, align))
            &&& serves_exactly(
                ListNode { start: a as usize, size: block_size(size, align) as usize },
                size,
                align,
            )
        }),
{
    lemma_normalize(size, align);
    reveal_with_fuel(is_pow2, 1);
    let (sz, al) = normalize(size, align).unwrap();
    lemma_first_fit_from(nodes, sz, al, 0);
    let i = first_fit(nodes, sz, al).unwrap();
    let a = nodes[i].fit(sz, al).unwrap();
    assert(nodes[i].wf());
    lemma_align_up_is_least_multiple(nodes[i].start as int, al);
    lemma_aligned_to_divisor(a, NODE_ALIGN as int, al);
    lemma_aligned_to_divisor(a, align, al);
    assert(nodes[i].start <= a && a + sz <= nodes[i].end());
}

/// The index in the old list of the region that stands at index `j` of the
/// list after a request was served from region `i`: the regions keep their
/// order, region `i` is gone, and what is left of it, if anything, stands in
/// front of them.
pub open spec fn source(i: int, has_rest: bool, j: int) -> int {
    let x = if has_rest {
        j - 1
    } else {
        j
    };
    if x < i {
        x
    } else {
        x + 1
    }
}

/// What the free list looks like after a request was served: the block lies
/// in the region that served it; what is left of that region behind the
/// block, if anything, is a well-formed region at the head of the list; the
/// regions behind it are the other regions of the old list.
pub proof fn lemma_after_alloc_regions(nodes: Seq<ListNode>, size: int, align: int)
    requires
        wf_list(nodes),
        size >= 0,
        is_pow2(align),
        alloc_result(nodes, size, align) is Some,
    ensures
        ({
            let sz = block_size(size, align);
            let i = first_fit(nodes, sz, normalize(size, align).unwrap().1).unwrap();
            let a = alloc_result(nodes, size, align).unwrap();
            let excess = nodes[i].end() - (a + sz);
            let after = after_alloc(nodes, size, align);
            &&& 0 <= i < nodes.len()
            &&& nodes[i].start <= a
            &&& a + sz <= nodes[i].end()
            &&& excess >= 0
            &&& after.len() == nodes.len() - 1 + if excess > 0 {
                1int
            } else {
                0int
            }
            &&& excess > 0 ==> {
                &&& after[0].wf()
                &&& after[0].start == a + sz
                &&& after[0].end() == nodes[i].end()
            }
            &&& forall|j: int|
                (if excess > 0 {
                    1int
                } else {
                    0int
                }) <= j < after.len() ==> #[trigger] after[j] == nodes[source(i, excess > 0, j)]
        }),
{
    lemma_normalize(size, align);
    reveal_with_fuel(is_pow2, 1);
    let (sz, al) = normalize(size, align).unwrap();
    lemma_first_fit_from(nodes, sz, al, 0);
    let i = first_fit(nodes, sz, al).unwrap();
    let a = nodes[i].fit(sz, al).unwrap();
    let excess = nodes[i].end() - (a + sz);
    assert(nodes[i].wf());
    lemma_align_up_is_least_multiple(nodes[i].start as int, al);
    lemma_aligned_to_divisor(a, NODE_ALIGN as int, al);
    lemma_aligned_sum(a, sz, NODE_ALIGN as int);
}

/// Serving a request only takes bytes out of the free list: the list stays
/// well formed, and every region of the new list lies in a region of the old
/// one.
pub proof fn lemma_alloc_shrinks(nodes: Seq<ListNode>, size: int, align: int)
    requires
        wf_list(nodes),
        size >= 0,
        is_pow2(align),
    ensures
        wf_list(after_alloc(nodes, size, align)),
        forall|j: int|
            0 <= j < after_alloc(nodes, size, align).len() ==> held_by_some(
                nodes,
                (#[trigger] after_alloc(nodes, size, align)[j]).start as int,
                after_alloc(nodes, size, align)[j].end(),
            ),
{
    let after = after_alloc(nodes, size, align);
    if alloc_result(nodes, size, align) is Some {
        lemma_after_alloc_regions(nodes, size, align);
        let sz = block_size(size, align);
        let i = first_fit(nodes, sz, normalize(size, align).unwrap().1).unwrap();
        let excess = nodes[i].end() - (alloc_result(nodes, size, align).unwrap() + sz);
        assert forall|j: int| 0 <= j < after.len() implies (#[trigger] after[j]).wf()
            && held_by_some(nodes, after[j].start as int, after[j].end()) by {
            if excess > 0 && j == 0 {
                assert(nodes[i].start <= after[j].start && after[j].end() <= nodes[i].end());
            } else {
                let k = source(i, excess > 0, j);
                assert(after[j] == nodes[k]);
                assert(nodes[k].wf());
                assert(nodes[k].start <= after[j].start && after[j].end() <= nodes[k].end());
            }
        }
    } else {
        lemma_served_iff_fits(nodes, size, align);
        if normalize(size, align) is Some {
            lemma_first_fit_from(
                nodes,
                normalize(size, align).unwrap().0,
                normalize(size, align).unwrap().1,
                0,
            );
        }
        assert(after == nodes);
        assert forall|j: int| 0 <= j < after.len() implies held_by_some(
            nodes,
            (#[trigger] after[j]).start as int,
            after[j].end(),
        ) by {
            assert(nodes[j].start <= after[j].start && after[j].end() <= nodes[j].end());
        }
    }
}

/// Serving a request keeps the free regions apart: if no two regions shared
/// a byte, no two share one afterwards, and none shares a byte with the
/// block that was handed out.
pub proof fn lemma_alloc_keeps_apart(nodes: Seq<ListNode>, size: int, align: int)
    requires
        wf_list(nodes),
        pairwise_disjoint(nodes),
        size >= 0,
        is_pow2(align),
    ensures
        pairwise_disjoint(after_alloc(nodes, size, align)),
        alloc_result(nodes, size, align) is Some ==> avoids(
            after_alloc(nodes, size, align),
            alloc_result(nodes, size, align).unwrap(),
            alloc_result(nodes, size, align).unwrap() + block_size(size, align),
        ),
{
    let after = after_alloc(nodes, size, align);
    if alloc_result(nodes, size, align) is Some {
        lemma_after_alloc_regions(nodes, size, align);
        let sz = block_size(size, align);
        let i = first_fit(nodes, sz, normalize(size, align).unwrap().1).unwrap();
        let a = alloc_result(nodes, size, align).unwrap();
        let excess = nodes[i].end() - (a + sz);
        let first = if excess > 0 {
            1int
        } else {
            0int
        };
        assert forall|j: int| first <= j < after.len() implies (#[trigger] after[j]).end()
            <= nodes[i].start || nodes[i].end() <= after[j].start by {
            let k = source(i, excess > 0, j);
            assert(after[j] == nodes[k]);
            if k < i {
                assert(nodes[k].end() <= nodes[i].start || nodes[i].end() <= nodes[k].start);
            } else {
                assert(nodes[i].end() <= nodes[k].start || nodes[k].end() <= nodes[i].start);
            }
        }
        assert forall|x: int, y: int| 0 <= x < y < after.len() implies (#[trigger] after[x]).end()
            <= (#[trigger] after[y]).start || after[y].end() <= after[x].start by {
            if x >= first {
                let kx = source(i, excess > 0, x);
                let ky = source(i, excess > 0, y);
                assert(after[x] == nodes[kx]);
                assert(after[y] == nodes[ky]);
                assert(nodes[kx].end() <= nodes[ky].start || nodes[ky].end() <= nodes[kx].start);
            } else {
                assert(after[y].end() <= nodes[i].start || nodes[i].end() <= after[y].start);
            }
        }
        assert forall|j: int| 0 <= j < after.len() implies (#[trigger] after[j]).end() <= a || a
            + sz <= after[j].start by {
            if j >= first {
                assert(after[j].end() <= nodes[i].start || nodes[i].end() <= after[j].start);
            }
        }
    } else {
        lemma_served_iff_fits(nodes, size, align);
        if normalize(size, align) is Some {
            lemma_first_fit_from(
                nodes,
                normalize(size, align).unwrap().0,
                normalize(size, align).unwrap().1,
                0,
            );
        }
        assert(after == nodes);
    }
}

/// One call on a free-list allocator.
pub enum HeapOp {
    /// A request for `size` bytes at a multiple of `align`.
    Alloc { size: int, align: int },
    /// The block at `ptr` that was asked for with `size` and `align` comes
    /// back.
    Dealloc { ptr: int, size: int, align: int },
}

impl HeapOp {
    /// What the allocator asks of every call: a size that is not negative
    /// and a power-of-two alignment; of a block that comes back, also that
    /// it starts at a multiple of `NODE_ALIGN` and ends inside the address
    /// space.
    pub open spec fn valid(self) -> bool {
        match self {
            HeapOp::Alloc { size, align } => size >= 0 && is_pow2(align),
            HeapOp::Dealloc { ptr, size, align } => {
                &&& ptr >= 0
                &&& size >= 0
                &&& is_pow2(align)
                &&& is_aligned(ptr, NODE_ALIGN as int)
                &&& normalize(size, align) is Some
                &&& ptr + block_size(size, align) <= usize::MAX
            },
        }
    }

    /// The call gives back no byte of `[lo, hi)`.
    pub open spec fn clear_of(self, lo: int, hi: int) -> bool {
        match self {
            HeapOp::Alloc { size, align } => true,
            HeapOp::Dealloc { ptr, size, align } => ptr + block_size(size, align) <= lo || hi
                <= ptr,
        }
    }

    /// The call gives back only bytes of `[lo, hi)`.
    pub open spec fn inside(self, lo: int, hi: int) -> bool {
        match self {
            HeapOp::Alloc { size, align } => true,
            HeapOp::Dealloc { ptr, size, align } => lo <= ptr && ptr + block_size(size, align)
                <= hi,
        }
    }

    /// The call gives back no byte that is free already in `nodes`.
    pub open spec fn not_free_in(self, nodes: Seq<ListNode>) -> bool {
        match self {
            HeapOp::Alloc { size, align } => true,
            HeapOp::Dealloc { ptr, size, align } => avoids(
                nodes,
                ptr,
                ptr + block_size(size, align),
            ),
        }
    }
}

/// The free list after one call.
pub open spec fn step(nodes: Seq<ListNode>, op: HeapOp) -> Seq<ListNode> {
    match op {
        HeapOp::Alloc { size, align } => after_alloc(nodes, size, align),
        HeapOp::Dealloc { ptr, size, align } => after_dealloc(nodes, ptr, size, align),
    }
}

/// The free list after a sequence of calls, first to last.
pub open spec fn run(nodes: Seq<ListNode>, ops: Seq<HeapOp>) -> Seq<ListNode>
    decreases ops.len(),
{
    if ops.len() == 0 {
        nodes
    } else {
        step(run(nodes, ops.drop_last()), ops.last())
    }
}

/// Every call of `ops` is valid.
pub open spec fn all_valid(ops: Seq<HeapOp>) -> bool {
    forall|i: int| 0 <= i < ops.len() ==> (#[trigger] ops[i]).valid()
}

/// No call of `ops` gives back a byte of `[lo, hi)`.
pub open spec fn all_clear_of(ops: Seq<HeapOp>, lo: int, hi: int) -> bool {
    forall|i: int| 0 <= i < ops.len() ==> (#[trigger] ops[i]).clear_of(lo, hi)
}

/// Every call of `ops` gives back only bytes of `[lo, hi)`.
pub open spec fn all_inside(ops: Seq<HeapOp>, lo: int, hi: int) -> bool {
    forall|i: int| 0 <= i < ops.len() ==> (#[trigger] ops[i]).inside(lo, hi)
}

/// No call of `ops`, run from `nodes`, gives back a byte that is free at
/// that moment.
pub open spec fn no_double_free(nodes: Seq<ListNode>, ops: Seq<HeapOp>) -> bool {
    forall|i: int| 0 <= i < ops.len() ==> (#[trigger] ops[i]).not_free_in(run(nodes, ops.take(i)))
}

/// Valid calls keep the free list well formed.
pub proof fn lemma_run_wf(nodes: Seq<ListNode>, ops: Seq<HeapOp>)
    requires
        wf_list(nodes),
        all_valid(ops),
    ensures
        wf_list(run(nodes, ops)),
    decreases ops.len(),
{
    if ops.len() > 0 {
        let front = ops.drop_last();
        assert forall|i: int| 0 <= i < front.len() implies (#[trigger] front[i]).valid() by {
            assert(front[i] == ops[i]);
        }
        lemma_run_wf(nodes, front);
        let mid = run(nodes, front);
        assert(ops.last().valid());
        match ops.last() {
            HeapOp::Alloc { size, align } => {
                lemma_alloc_shrinks(mid, size, align);
            },
            HeapOp::Dealloc { ptr, size, align } => {
                lemma_normalize(size, align);
                let after = after_dealloc(mid, ptr, size, align);
                assert forall|j: int| 0 <= j < after.len() implies (#[trigger] after[j]).wf() by {
                    if j > 0 {
                        assert(after[j] == mid[j - 1]);
                    }
                }
            },
        }
    }
}

/// Bytes that are not free stay so until they are given back: if no region
/// shares a byte with `[lo, hi)` and no call gives back a byte of it, no
/// region shares a byte with it afterwards.
pub proof fn lemma_run_avoids(nodes: Seq<ListNode>, ops: Seq<HeapOp>, lo: int, hi: int)
    requires
        wf_list(nodes),
        all_valid(ops),
        all_clear_of(ops, lo, hi),
        avoids(nodes, lo, hi),
    ensures
        avoids(run(nodes, ops), lo, hi),
    decreases ops.len(),
{
    if ops.len() > 0 {
        let front = ops.drop_last();
        assert forall|i: int| 0 <= i < front.len() implies (#[trigger] front[i]).valid()
            && front[i].clear_of(lo, hi) by {
            assert(front[i] == ops[i]);
        }
        lemma_run_avoids(nodes, front, lo, hi);
        lemma_run_wf(nodes, front);
        let mid = run(nodes, front);
        assert(ops.last().valid() && ops.last().clear_of(lo, hi));
        match ops.last() {
            HeapOp::Alloc { size, align } => {
                lemma_alloc_shrinks(mid, size, align);
                let after = after_alloc(mid, size, align);
                assert forall|j: int| 0 <= j < after.len() implies (#[trigger] after[j]).end() <= lo
                    || hi <= after[j].start by {
                    assert(held_by_some(mid, after[j].start as int, after[j].end()));
                    let k = choose|k: int|
                        0 <= k < mid.len() && (#[trigger] mid[k]).start <= after[j].start
                            && after[j].end() <= mid[k].end();
                    assert(mid[k].end() <= lo || hi <= mid[k].start);
                }
            },
            HeapOp::Dealloc { ptr, size, align } => {
                lemma_normalize(size, align);
                let after = after_dealloc(mid, ptr, size, align);
                assert forall|j: int| 0 <= j < after.len() implies (#[trigger] after[j]).end() <= lo
                    || hi <= after[j].start by {
                    if j > 0 {
                        assert(after[j] == mid[j - 1]);
                    }
                }
            },
        }
    }
}

/// The free list stays inside the heap: if every region lies in `[lo, hi)`
/// and only bytes of `[lo, hi)` are given back, every region lies in it
/// afterwards.
pub proof fn lemma_run_within(nodes: Seq<ListNode>, ops: Seq<HeapOp>, lo: int, hi: int)
    requires
        wf_list(nodes),
        all_valid(ops),
        all_inside(ops, lo, hi),
        within(nodes, lo, hi),
    ensures
        within(run(nodes, ops), lo, hi),
    decreases ops.len(),
{
    if ops.len() > 0 {
        let front = ops.drop_last();
        assert forall|i: int| 0 <= i < front.len() implies (#[trigger] front[i]).valid()
            && front[i].inside(lo, hi) by {
            assert(front[i] == ops[i]);
        }
        lemma_run_within(nodes, front, lo, hi);
        lemma_run_wf(nodes, front);
        let mid = run(nodes, front);
        assert(ops.last().valid() && ops.last().inside(lo, hi));
        match ops.last() {
            HeapOp::Alloc { size, align } => {
                lemma_alloc_shrinks(mid, size, align);
                let after = after_alloc(mid, size, align);
                assert forall|j: int| 0 <= j < after.len() implies lo <= (#[trigger] after[j]).start
                    && after[j].end() <= hi by {
                    assert(held_by_some(mid, after[j].start as int, after[j].end()));
                    let k = choose|k: int|
                        0 <= k < mid.len() && (#[trigger] mid[k]).start <= after[j].start
                            && after[j].end() <= mid[k].end();
                    assert(lo <= mid[k].start && mid[k].end() <= hi);
                }
            },
            HeapOp::Dealloc { ptr, size, align } => {
                lemma_normalize(size, align);
                let after = after_dealloc(mid, ptr, size, align);
                assert forall|j: int| 0 <= j < after.len() implies lo <= (#[trigger] after[j]).start
                    && after[j].end() <= hi by {
                    if j > 0 {
                        assert(after[j] == mid[j - 1]);
                    }
                }
            },
        }
    }
}

/// The free regions stay disjoint as long as nothing is freed twice: if no
/// two regions share a byte and no call gives back a byte that is free at
/// that moment, no two regions share a byte afterwards.
pub proof fn lemma_run_disjoint(nodes: Seq<ListNode>, ops: Seq<HeapOp>)
    requires
        wf_list(nodes),
        pairwise_disjoint(nodes),
        all_valid(ops),
        no_double_free(nodes, ops),
    ensures
        pairwise_disjoint(run(nodes, ops)),
    decreases ops.len(),
{
    if ops.len() > 0 {
        let front = ops.drop_last();
        let last = ops.len() - 1;
        assert forall|i: int| 0 <= i < front.len() implies (#[trigger] front[i]).valid()
            && front[i].not_free_in(run(nodes, front.take(i))) by {
            assert(front[i] == ops[i]);
            assert(front.take(i) =~= ops.take(i));
        }
        lemma_run_disjoint(nodes, front);
        lemma_run_wf(nodes, front);
        let mid = run(nodes, front);
        assert(ops.take(last) =~= front);
        assert(ops[last].valid() && ops[last].not_free_in(run(nodes, ops.take(last))));
        match ops.last() {
            HeapOp::Alloc { size, align } => {
                lemma_alloc_keeps_apart(mid, size, align);
            },
            HeapOp::Dealloc { ptr, size, align } => {
                lemma_normalize(size, align);
                let after = after_dealloc(mid, ptr, size, align);
                assert forall|x: int, y: int| 0 <= x < y < after.len() implies (
                #[trigger] after[x]).end() <= (#[trigger] after[y]).start || after[y].end()
                    <= after[x].start by {
                    assert(after[y] == mid[y - 1]);
                    if x > 0 {
                        assert(after[x] == mid[x - 1]);
                    }
                }
            },
        }
    }
}

/// Two blocks that are out at the same time do not overlap. Start from a
/// free list whose regions are disjoint; a request is served with a first
/// block; any calls follow, none of which gives back a byte of that block;
/// then a request is served with a second block. The two blocks, taken with
/// their normalised sizes, share no byte, and each is aligned as asked.
pub proof fn lemma_live_blocks_disjoint(
    nodes: Seq<ListNode>,
    size1: int,
    align1: int,
    ops: Seq<HeapOp>,
    size2: int,
    align2: int,
)
    requires
        wf_list(nodes),
        pairwise_disjoint(nodes),
        size1 >= 0,
        is_pow2(align1),
        size2 >= 0,
        is_pow2(align2),
        all_valid(ops),
        alloc_result(nodes, size1, align1) is Some,
        all_clear_of(
            ops,
            alloc_result(nodes, size1, align1).unwrap(),
            alloc_result(nodes, size1, align1).unwrap() + block_size(size1, align1),
        ),
        alloc_result(run(after_alloc(nodes, size1, align1), ops), size2, align2) is Some,
    ensures
        ({
            let a1 = alloc_result(nodes, size1, align1).unwrap();
            let a2 = alloc_result(
                run(after_alloc(nodes, size1, align1), ops),
                size2,
                align2,
            ).unwrap();
            &&& a1 + block_size(size1, align1) <= a2 || a2 + block_size(size2, align2) <= a1
            &&& size1 <= block_size(size1, align1)
            &&& size2 <= block_size(size2, align2)
            &&& is_aligned(a1, align1)
            &&& is_aligned(a2, align2)
        }),
{
    let a1 = alloc_result(nodes, size1, align1).unwrap();
    let s1 = after_alloc(nodes, size1, align1);
    let s2 = run(s1, ops);
    let a2 = alloc_result(s2, size2, align2).unwrap();
    lemma_alloc_block(nodes, size1, align1);
    lemma_alloc_shrinks(nodes, size1, align1);
    lemma_alloc_keeps_apart(nodes, size1, align1);
    lemma_run_wf(s1, ops);
    lemma_run_avoids(s1, ops, a1, a1 + block_size(size1, align1));
    lemma_alloc_block(s2, size2, align2);
    let k = choose|k: int|
        0 <= k < s2.len() && (#[trigger] s2[k]).start <= a2 && a2 + block_size(size2, align2)
            <= s2[k].end();
    assert(s2[k].end() <= a1 || a1 + block_size(size1, align1) <= s2[k].start);
}

/// A block that is handed out lies inside the heap: if every free region
/// lies in `[lo, hi)`, as after `init` with those bounds, and only bytes of
/// `[lo, hi)` are given back, then so does every block that a later request
/// is served with.
pub proof fn lemma_blocks_within_heap(
    nodes: Seq<ListNode>,
    ops: Seq<HeapOp>,
    size: int,
    align: int,
    lo: int,
    hi: int,
)
    requires
        wf_list(nodes),
        within(nodes, lo, hi),
        all_valid(ops),
        all_inside(ops, lo, hi),
        size >= 0,
        is_pow2(align),
        alloc_result(run(nodes, ops), size, align) is Some,
    ensures
        lo <= alloc_result(run(nodes, ops), size, align).unwrap(),
        alloc_result(run(nodes, ops), size, align).unwrap() + size <= hi,
        alloc_result(run(nodes, ops), size, align).unwrap() + block_size(size, align) <= hi,
{
    let s = run(nodes, ops);
    let a = alloc_result(s, size, align).unwrap();
    lemma_run_wf(nodes, ops);
    lemma_run_within(nodes, ops, lo, hi);
    lemma_alloc_block(s, size, align);
    let k = choose|k: int|
        0 <= k < s.len() && (#[trigger] s[k]).start <= a && a + block_size(size, align)
            <= s[k].end();
    assert(lo <= s[k].start && s[k].end() <= hi);
}

/// A region that is exactly what a request is served with, at the head of a
/// free list, serves that request at its own start and leaves the list.
pub proof fn lemma_exact_head_serves(head: ListNode, rest: Seq<ListNode>, size: int, align: int)
    requires
        serves_exactly(head, size, align),
    ensures
        alloc_result(rest.insert(0, head), size, align) == Some(head.start as int),
        after_alloc(rest.insert(0, head), size, align) == rest,
{
    let (sz, al) = normalize(size, align).unwrap();
    let list = rest.insert(0, head);
    assert(list[0] == head);
    assert(align_up_spec(head.start as int, al) == head.start);
    assert(head.fit(sz, al) == Some(head.start as int));
    assert(first_fit(list, sz, al) == Some(0int));
    assert(list.remove(0) =~= rest);
}

/// A block that was handed out and is given back can be had again: giving
/// it back is a valid call, and the same request is then served at the same
/// address and leaves the free list as the first request left it.
pub proof fn lemma_alloc_free_alloc(nodes: Seq<ListNode>, size: int, align: int)
    requires
        wf_list(nodes),
        size >= 0,
        is_pow2(align),
        alloc_result(nodes, size, align) is Some,
    ensures
        ({
            let a = alloc_result(nodes, size, align).unwrap();
            let served = after_alloc(nodes, size, align);
            let freed = after_dealloc(served, a, size, align);
            &&& (HeapOp::Dealloc { ptr: a, size, align }).valid()
            &&& alloc_result(freed, size, align) == Some(a)
            &&& after_alloc(freed, size, align) == served
        }),
{
    let a = alloc_result(nodes, size, align).unwrap();
    let served = after_alloc(nodes, size, align);
    lemma_alloc_block(nodes, size, align);
    let block = ListNode { start: a as usize, size: block_size(size, align) as usize };
    lemma_exact_head_serves(block, served, size, align);
}

/// The requests `reqs`, each a size and an alignment, as calls.
pub open spec fn allocs_of(reqs: Seq<(int, int)>) -> Seq<HeapOp> {
    Seq::new(reqs.len(), |i: int| HeapOp::Alloc { size: reqs[i].0, align: reqs[i].1 })
}

/// The address that request `i` yields when the requests are made in order,
/// starting from `nodes`.
pub open spec fn served_at(nodes: Seq<ListNode>, reqs: Seq<(int, int)>, i: int) -> Option<int> {
    alloc_result(run(nodes, allocs_of(reqs).take(i)), reqs[i].0, reqs[i].1)
}

/// Every request asks for a size that is not negative and a power-of-two
/// alignment, and every one is served when they are made in order.
pub open spec fn all_served(nodes: Seq<ListNode>, reqs: Seq<(int, int)>) -> bool {
    forall|i: int|
        0 <= i < reqs.len() ==> {
            &&& (#[trigger] reqs[i]).0 >= 0
            &&& is_pow2(reqs[i].1)
            &&& served_at(nodes, reqs, i) is Some
        }
}

/// The blocks that the requests were served with, as free regions, in the
/// order of the requests.
pub open spec fn blocks_of(nodes: Seq<ListNode>, reqs: Seq<(int, int)>) -> Seq<ListNode> {
    Seq::new(
        reqs.len(),
        |i: int|
            ListNode {
                start: served_at(nodes, reqs, i).unwrap() as usize,
                size: block_size(reqs[i].0, reqs[i].1) as usize,
            },
    )
}

/// The calls that give back every block the requests were served with, the
/// block of the last request first.
pub open spec fn frees_in_reverse(nodes: Seq<ListNode>, reqs: Seq<(int, int)>) -> Seq<HeapOp> {
    Seq::new(
        reqs.len(),
        |j: int|
            HeapOp::Dealloc {
                ptr: served_at(nodes, reqs, reqs.len() - 1 - j).unwrap(),
                size: reqs[reqs.len() - 1 - j].0,
                align: reqs[reqs.len() - 1 - j].1,
            },
    )
}

/// The last call of a sequence is the last to change the list.
pub proof fn lemma_run_last(nodes: Seq<ListNode>, ops: Seq<HeapOp>)
    requires
        ops.len() > 0,
    ensures
        run(nodes, ops) == step(run(nodes, ops.drop_last()), ops.last()),
{
}

/// Whether the `j`-th call of `frees` gives back the block that stands
/// `j`-th from the end of `blocks`.
pub open spec fn gives_back(frees: Seq<HeapOp>, blocks: Seq<ListNode>, j: int) -> bool {
    match frees[j] {
        HeapOp::Alloc { size, align } => false,
        HeapOp::Dealloc { ptr, size, align } => {
            &&& normalize(size, align) is Some
            &&& blocks[blocks.len() - 1 - j] == ListNode {
                start: ptr as usize,
                size: block_size(size, align) as usize,
            }
        },
    }
}

/// Blocks that come back pile up at the head of the free list: after the
/// first `m` calls of `frees`, of which the `j`-th gives back the block that
/// stands `j`-th from the end of `blocks`, the last `m` blocks stand in front
/// of what the list was.
pub proof fn lemma_frees_pile_up(
    list: Seq<ListNode>,
    frees: Seq<HeapOp>,
    blocks: Seq<ListNode>,
    m: int,
)
    requires
        frees.len() == blocks.len(),
        0 <= m <= frees.len(),
        forall|j: int| 0 <= j < frees.len() ==> #[trigger] gives_back(frees, blocks, j),
    ensures
        run(list, frees.take(m)) == blocks.subrange(blocks.len() - m, blocks.len() as int) + list,
    decreases m,
{
    let k = blocks.len() as int;
    if m == 0 {
        assert(frees.take(0).len() == 0);
        assert(blocks.subrange(k, k) + list =~= list);
    } else {
        lemma_frees_pile_up(list, frees, blocks, m - 1);
        lemma_run_last(list, frees.take(m));
        assert(frees.take(m).drop_last() =~= frees.take(m - 1));
        assert(frees.take(m).last() == frees[m - 1]);
        assert(gives_back(frees, blocks, m - 1));
        let prev = blocks.subrange(k - m + 1, k) + list;
        assert(step(prev, frees[m - 1]) == prev.insert(0, blocks[k - m]));
        assert(prev.insert(0, blocks[k - m]) =~= blocks.subrange(k - m, k) + list);
    }
}

/// Whether the block at position `i` is exactly what request `i` is served
/// with.
pub open spec fn serves_request(blocks: Seq<ListNode>, reqs: Seq<(int, int)>, i: int) -> bool {
    serves_exactly(blocks[i], reqs[i].0, reqs[i].1)
}

/// Regions at the head of the free list that are exactly what the requests
/// `reqs` are served with, in their order, serve the first `m` of them one
/// by one, each at its own start.
pub proof fn lemma_exact_blocks_serve(
    list: Seq<ListNode>,
    blocks: Seq<ListNode>,
    reqs: Seq<(int, int)>,
    m: int,
)
    requires
        reqs.len() == blocks.len(),
        0 <= m <= reqs.len(),
        forall|i: int| 0 <= i < reqs.len() ==> #[trigger] serves_request(blocks, reqs, i),
    ensures
        run(blocks + list, allocs_of(reqs).take(m)) == blocks.subrange(m, blocks.len() as int)
            + list,
        forall|i: int|
            0 <= i < m ==> #[trigger] served_at(blocks + list, reqs, i) == Some(
                blocks[i].start as int,
            ),
    decreases m,
{
    let k = blocks.len() as int;
    let allocs = allocs_of(reqs);
    if m == 0 {
        assert(allocs.take(0).len() == 0);
        assert(blocks.subrange(0, k) + list =~= blocks + list);
    } else {
        let i = m - 1;
        lemma_exact_blocks_serve(list, blocks, reqs, i);
        lemma_run_last(blocks + list, allocs.take(m));
        assert(allocs.take(m).drop_last() =~= allocs.take(i));
        assert(allocs.take(m).last() == allocs[i]);
        let rest = blocks.subrange(m, k) + list;
        assert(serves_request(blocks, reqs, i));
        lemma_exact_head_serves(blocks[i], rest, reqs[i].0, reqs[i].1);
        assert(rest.insert(0, blocks[i]) =~= blocks.subrange(i, k) + list);
    }
}

/// The block that request `i` was served with is exactly what that request
/// is served with, and giving it back is a valid call that puts it at the
/// head of the list.
pub proof fn lemma_served_block_exact(nodes: Seq<ListNode>, reqs: Seq<(int, int)>, i: int)
    requires
        wf_list(nodes),
        all_served(nodes, reqs),
        0 <= i < reqs.len(),
    ensures
        serves_request(blocks_of(nodes, reqs), reqs, i),
        frees_in_reverse(nodes, reqs)[reqs.len() - 1 - i].valid(),
        gives_back(frees_in_reverse(nodes, reqs), blocks_of(nodes, reqs), reqs.len() - 1 - i),
{
    let allocs = allocs_of(reqs);
    let origin = run(nodes, allocs.take(i));
    assert(reqs[i].0 >= 0);
    assert forall|x: int| 0 <= x < allocs.take(i).len() implies (#[trigger] allocs.take(
        i,
    )[x]).valid() by {
        assert(reqs[x].0 >= 0);
    }
    lemma_run_wf(nodes, allocs.take(i));
    lemma_alloc_block(origin, reqs[i].0, reqs[i].1);
}

/// Handing out blocks and taking them all back in reverse order loses
/// nothing that the requests did not lose: the blocks are free regions of
/// their own at the head of the list, in the order in which they were handed
/// out, in front of what the requests had left. The same requests, made
/// again, are served at the same addresses and leave the list as the first
/// round left it, and whatever request the list would have served with the
/// blocks out, it serves with the blocks back. The regions are not merged,
/// so this is all that is promised: a request larger than each of them
/// fails.
pub proof fn lemma_reverse_frees_allow_replay(nodes: Seq<ListNode>, reqs: Seq<(int, int)>)
    requires
        wf_list(nodes),
        all_served(nodes, reqs),
    ensures
        ({
            let served = run(nodes, allocs_of(reqs));
            let freed = run(served, frees_in_reverse(nodes, reqs));
            &&& all_valid(frees_in_reverse(nodes, reqs))
            &&& freed == blocks_of(nodes, reqs) + served
            &&& all_served(freed, reqs)
            &&& forall|i: int|
                0 <= i < reqs.len() ==> #[trigger] served_at(freed, reqs, i) == served_at(
                    nodes,
                    reqs,
                    i,
                )
            &&& run(freed, allocs_of(reqs)) == served
            &&& forall|size: int, align: int|
                alloc_result(served, size, align) is Some ==> (#[trigger] alloc_result(
                    freed,
                    size,
                    align,
                )) is Some
        }),
{
    let k = reqs.len() as int;
    let allocs = allocs_of(reqs);
    let served = run(nodes, allocs);
    let frees = frees_in_reverse(nodes, reqs);
    let blocks = blocks_of(nodes, reqs);
    assert forall|j: int| 0 <= j < frees.len() implies (#[trigger] frees[j]).valid() by {
        lemma_served_block_exact(nodes, reqs, k - 1 - j);
    }
    assert forall|j: int| 0 <= j < frees.len() implies #[trigger] gives_back(frees, blocks, j) by {
        lemma_served_block_exact(nodes, reqs, k - 1 - j);
    }
    lemma_frees_pile_up(served, frees, blocks, k);
    assert(frees.take(k) =~= frees);
    assert(blocks.subrange(0, k) =~= blocks);
    let freed = run(served, frees);
    assert(freed == blocks + served);
    assert forall|i: int| 0 <= i < reqs.len() implies #[trigger] serves_request(
        blocks,
        reqs,
        i,
    ) by {
        lemma_served_block_exact(nodes, reqs, i);
    }
    lemma_exact_blocks_serve(served, blocks, reqs, k);
    assert(allocs.take(k) =~= allocs);
    assert(blocks.subrange(k, k) + served =~= served);
    assert forall|i: int| 0 <= i < reqs.len() implies {
        &&& (#[trigger] reqs[i]).0 >= 0
        &&& is_pow2(reqs[i].1)
        &&& served_at(freed, reqs, i) is Some
        &&& served_at(freed, reqs, i) == served_at(nodes, reqs, i)
    } by {
        assert(served_at(freed, reqs, i) == Some(blocks[i].start as int));
        lemma_served_block_exact(nodes, reqs, i);
        let origin = run(nodes, allocs.take(i));
        assert forall|x: int| 0 <= x < allocs.take(i).len() implies (#[trigger] allocs.take(
            i,
        )[x]).valid() by {
            assert(reqs[x].0 >= 0);
        }
        lemma_run_wf(nodes, allocs.take(i));
        lemma_alloc_block(origin, reqs[i].0, reqs[i].1);
    }
    assert forall|size: int, align: int|
        alloc_result(served, size, align) is Some implies (#[trigger] alloc_result(
        freed,
        size,
        align,
    )) is Some by {
        lemma_more_regions_serve_more(served, blocks, size, align);
    }
}

} // verus!
