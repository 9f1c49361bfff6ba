//! A first-fit free-list allocator.
//!
//! The allocator keeps the free regions of its heap in a list, newest first.
//! A request is served from the first region in which it fits; what is left
//! of that region behind the block goes back to the head of the list. A block
//! that is freed becomes a region of its own at the head of the list.
//! Neighbouring free regions are never merged, so a heap that has been cut
//! into small regions stays cut: a request larger than every single region
//! fails even if the regions together would hold it.

use vstd::prelude::*;
use vstd::arithmetic::power2::is_pow2;
use crate::allocator::{
    align_up, align_up_spec, is_aligned, lemma_align_up_is_least_multiple, lemma_aligned_sum,
    lemma_aligned_to_divisor,
};
use crate::allocator::linked_list::laws::lemma_alloc_block;

pub mod laws;

verus! {

/// The bytes a free region needs to describe itself: its size and the link to
/// the next region, one machine word each. No region and no block is smaller.
pub const NODE_SIZE: usize = 16;

/// The alignment of the start of every free region.
pub const NODE_ALIGN: usize = 8;

/// A free region: `size` bytes from `start` on.
#[derive(Clone, Copy, Debug)]
pub struct ListNode {
    pub start: usize,
    pub size: usize,
}

impl ListNode {
    /// The address just past the region.
    pub open spec fn end(self) -> int {
        self.start + self.size
    }

    /// The region ends inside the address space, can hold its own
    /// description and starts at a multiple of `NODE_ALIGN`.
    pub open spec fn wf(self) -> bool {
        &&& self.end() <= usize::MAX
        &&& self.size >= NODE_SIZE
        &&& is_aligned(self.start as int, NODE_ALIGN as int)
    }

    /// Where a block of `size` bytes aligned to `align` would start in this
    /// region, if it fits: the block must end inside the region, and what is
    /// left behind it must be nothing or enough for a region of its own.
    pub open spec fn fit(self, size: int, align: int) -> Option<int> {
        let start = align_up_spec(self.start as int, align);
        let excess = self.end() - (start + size);
        if excess == 0 || excess >= NODE_SIZE {
            Some(start)
        } else {
            None
        }
    }

    /// The region of `size` bytes at `start`.
    pub fn new(start: usize, size: usize) -> (r: Self)
        ensures
            r.start == start,
            r.size == size,
    {
        ListNode { start, size }
    }

    /// The address of the first byte of the region.
    pub fn start_addr(&self) -> (r: usize)
        ensures
            r == self.start,
    {
        self.start
    }

    /// The address just past the region.
    pub fn end_addr(&self) -> (r: usize)
        requires
            self.end() <= usize::MAX,
        ensures
            r == self.end(),
    {
        self.start + self.size
    }
}

/// Every region of the list is well formed.
pub open spec fn wf_list(nodes: Seq<ListNode>) -> bool {
    forall|i: int| 0 <= i < nodes.len() ==> (#[trigger] nodes[i]).wf()
}

/// The index of the first region from `from` on in which the request fits.
pub open spec fn first_fit_from(nodes: Seq<ListNode>, size: int, align: int, from: int) -> Option<int>
    decreases nodes.len() - from,
{
    if from < 0 || from >= nodes.len() {
        None
    } else if nodes[from].fit(size, align) is Some {
        Some(from)
    } else {
        first_fit_from(nodes, size, align, from + 1)
    }
}

/// The index of the first region of the list in which the request fits.
pub open spec fn first_fit(nodes: Seq<ListNode>, size: int, align: int) -> Option<int> {
    first_fit_from(nodes, size, align, 0)
}

/// The size and alignment that a request is served with: the alignment is at
/// least `NODE_ALIGN`, the size is rounded up to the alignment and is at least
/// `NODE_SIZE`, so that the block can become a free region when it comes back.
/// `None` if the rounded size does not fit in a machine word.
pub open spec fn normalize(size: int, align: int) -> Option<(int, int)> {
    let al = if align < NODE_ALIGN { NODE_ALIGN as int } else { align };
    let padded = align_up_spec(size, al);
    if padded > usize::MAX {
        None
    } else if padded < NODE_SIZE {
        Some((NODE_SIZE as int, al))
    } else {
        Some((padded, al))
    }
}

/// The address that a request yields: the aligned start in the first region
/// that fits the normalised request.
pub open spec fn alloc_result(nodes: Seq<ListNode>, size: int, align: int) -> Option<int> {
    match normalize(size, align) {
        None => None,
        Some((sz, al)) => match first_fit(nodes, sz, al) {
            None => None,
            Some(i) => nodes[i].fit(sz, al),
        },
    }
}

/// The free list after a request: the region that served it is gone, and what
/// was left of it behind the block is the new head. Unchanged if the request
/// fails.
pub open spec fn after_alloc(nodes: Seq<ListNode>, size: int, align: int) -> Seq<ListNode> {
    match normalize(size, align) {
        None => nodes,
        Some((sz, al)) => match first_fit(nodes, sz, al) {
            None => nodes,
            Some(i) => {
                let end = nodes[i].fit(sz, al).unwrap() + sz;
                let excess = nodes[i].end() - end;
                if excess > 0 {
                    nodes.remove(i).insert(
                        0,
                        ListNode { start: end as usize, size: excess as usize },
                    )
                } else {
                    nodes.remove(i)
                }
            },
        },
    }
}

/// The free list after a block came back: the block, with its normalised
/// size, is the new head.
pub open spec fn after_dealloc(nodes: Seq<ListNode>, ptr: int, size: int, align: int) -> Seq<
    ListNode,
> {
    match normalize(size, align) {
        None => nodes,
        Some((sz, al)) => nodes.insert(0, ListNode { start: ptr as usize, size: sz as usize }),
    }
}

/// The size that a block is served and taken back with.
pub open spec fn block_size(size: int, align: int) -> int {
    match normalize(size, align) {
        Some((sz, al)) => sz,
        None => size,
    }
}

/// Some region of the list holds all of `[lo, hi)`.
pub open spec fn held_by_some(nodes: Seq<ListNode>, lo: int, hi: int) -> bool {
    exists|k: int| 0 <= k < nodes.len() && (#[trigger] nodes[k]).start <= lo && hi <= nodes[k].end()
}

/// A power of two is a multiple of every smaller power of two: here, an
/// alignment of at least `NODE_ALIGN` is a multiple of it.
pub proof fn lemma_pow2_multiple_of_node_align(align: int)
    requires
        is_pow2(align),
        align >= NODE_ALIGN,
    ensures
        is_aligned(align, NODE_ALIGN as int),
{
    reveal_with_fuel(is_pow2, 4);
}

/// What a request for a power-of-two alignment is normalised to: a size of
/// at least `NODE_SIZE` and at least the size asked for, a multiple of
/// `NODE_ALIGN`; an alignment that is a multiple of both `NODE_ALIGN` and the
/// alignment asked for.
pub proof fn lemma_normalize(size: int, align: int)
    requires
        size >= 0,
        is_pow2(align),
    ensures
        match normalize(size, align) {
            Some((sz, al)) => {
                &&& sz >= NODE_SIZE
                &&& sz >= size
                &&& sz <= usize::MAX
                &&& al >= NODE_ALIGN
                &&& al >= align
                &&& is_aligned(sz, NODE_ALIGN as int)
                &&& is_aligned(al, NODE_ALIGN as int)
                &&& is_aligned(al, align)
                &&& al == align || al == NODE_ALIGN
            },
            None => true,
        },
{
    reveal_with_fuel(is_pow2, 4);
    let al = if align < NODE_ALIGN { NODE_ALIGN as int } else { align };
    if align >= NODE_ALIGN {
        lemma_pow2_multiple_of_node_align(align);
        assert(align % align == 0) by (nonlinear_arith)
            requires
                align > 0,
        ;
    } else {
        assert(align == 1 || align == 2 || align == 4);
        if align == 1 {
            assert(8int % 1 == 0);
        } else if align == 2 {
            assert(8int % 2 == 0);
        } else {
            assert(8int % 4 == 0);
        }
    }
    assert(is_aligned(al, align));
    lemma_align_up_is_least_multiple(size, al);
    let padded = align_up_spec(size, al);
    if padded <= usize::MAX {
        if padded >= NODE_SIZE {
            lemma_aligned_to_divisor(padded, NODE_ALIGN as int, al);
        }
    }
}

/// A first-fit allocator over a list of free regions, the newest first.
pub struct LinkedListAllocator {
    regions: Vec<ListNode>,
}

impl View for LinkedListAllocator {
    type V = Seq<ListNode>;

    /// The free list, head first.
    closed spec fn view(&self) -> Seq<ListNode> {
        self.regions@
    }
}

impl LinkedListAllocator {
    #[verifier::type_invariant]
    spec fn inv(self) -> bool {
        wf_list(self@)
    }

    /// An allocator with no free region: every request fails until `init`
    /// gives it a heap.
    pub fn new() -> (r: Self)
        ensures
            r@ == Seq::<ListNode>::empty(),
    {
        LinkedListAllocator { regions: Vec::new() }
    }

    /// An allocator with no free region that keeps its list in `storage`,
    /// emptied: whatever `storage` held is dropped, its allocation is kept.
    ///
    /// The contract speaks of the list, which is empty as after `new`. That
    /// the allocator then asks for no memory of its own while the list is no
    /// longer than the capacity of `storage` is what `Vec` promises of
    /// `clear`, `insert` and `remove`; capacities are not part of the model.
    pub fn with_storage(storage: Vec<ListNode>) -> (r: Self)
        ensures
            r@ == Seq::<ListNode>::empty(),
    {
        let mut regions = storage;
        regions.clear();
        LinkedListAllocator { regions }
    }

    /// Gives the allocator the `heap_size` bytes from `heap_start` on as one
    /// free region at the head of its list.
    pub fn init(&mut self, heap_start: usize, heap_size: usize)
        requires
            is_aligned(heap_start as int, NODE_ALIGN as int),
            heap_size >= NODE_SIZE,
            heap_start + heap_size <= usize::MAX,
        ensures
            final(self)@ == old(self)@.insert(0, ListNode { start: heap_start, size: heap_size }),
            wf_list(final(self)@),
    {
        self.add_free_region(heap_start, heap_size);
    }

    /// The number of free regions.
    pub fn region_count(&self) -> (r: usize)
        ensures
            r == self@.len(),
    {
        self.regions.len()
    }

    /// The free region at position `index` of the list, the head being at 0.
    pub fn region(&self, index: usize) -> (r: ListNode)
        requires
            index < self@.len(),
        ensures
            r == self@[index as int],
            r.wf(),
    {
        proof {
            use_type_invariant(self);
        }
        self.regions[index]
    }

    /// Puts the region of `size` bytes at `addr` at the head of the free
    /// list. The region must be able to hold its own description: it starts
    /// at a multiple of `NODE_ALIGN` and has at least `NODE_SIZE` bytes.
    pub fn add_free_region(&mut self, addr: usize, size: usize)
        requires
            is_aligned(addr as int, NODE_ALIGN as int),
            size >= NODE_SIZE,
            addr + size <= usize::MAX,
        ensures
            final(self)@ == old(self)@.insert(0, ListNode { start: addr, size: size }),
            wf_list(final(self)@),
    {
        proof {
            use_type_invariant(&*self);
        }
        let node = ListNode::new(addr, size);
        // The list is changed outside the allocator and put back whole.
        let mut regions: Vec<ListNode> = Vec::new();
        core::mem::swap(&mut self.regions, &mut regions);
        regions.insert(0, node);
        core::mem::swap(&mut self.regions, &mut regions);
    }

    /// Takes the region at position `index` off the list.
    fn remove_region(&mut self, index: usize) -> (r: ListNode)
        requires
            index < old(self)@.len(),
        ensures
            r == old(self)@[index as int],
            final(self)@ == old(self)@.remove(index as int),
    {
        proof {
            use_type_invariant(&*self);
        }
        // The list is changed outside the allocator and put back whole.
        let mut regions: Vec<ListNode> = Vec::new();
        core::mem::swap(&mut self.regions, &mut regions);
        let node = regions.remove(index);
        core::mem::swap(&mut self.regions, &mut regions);
        node
    }

    /// Looks for the first region in which `size` bytes aligned to `align`
    /// fit, takes it off the list and returns it with the address at which
    /// the block starts. The list is unchanged if no region fits.
    pub fn find_region(&mut self, size: usize, align: usize) -> (r: Option<(ListNode, usize)>)
        requires
            align > 0,
        ensures
            match r {
                Some((node, start)) => {
                    &&& first_fit(old(self)@, size as int, align as int) is Some
                    &&& node == old(self)@[first_fit(old(self)@, size as int, align as int).unwrap()]
                    &&& node.fit(size as int, align as int) == Some(start as int)
                    &&& node.wf()
                    &&& final(self)@ == old(self)@.remove(
                        first_fit(old(self)@, size as int, align as int).unwrap(),
                    )
                },
                None => {
                    &&& first_fit(old(self)@, size as int, align as int) is None
                    &&& final(self)@ == old(self)@
                },
            },
            wf_list(final(self)@),
    {
        proof {
            use_type_invariant(&*self);
        }
        let mut i: usize = 0;
        while i < self.regions.len()
            invariant
                i <= self.regions@.len(),
                align > 0,
                self.regions@ == old(self).regions@,
                wf_list(self.regions@),
                first_fit(self.regions@, size as int, align as int) == first_fit_from(
                    self.regions@,
                    size as int,
                    align as int,
                    i as int,
                ),
            decreases self.regions@.len() - i,
        {
            let region = self.regions[i];
            match Self::alloc_from_region(&region, size, align) {
                Ok(alloc_start) => {
                    let node = self.remove_region(i);
                    return Some((node, alloc_start));
                },
                Err(_) => {
                    i += 1;
                },
            }
        }
        None
    }

    /// Tests whether `size` bytes aligned to `align` fit in `region`, and
    /// where: the block starts at the first multiple of `align` in the
    /// region, must end inside it, and must leave behind it either nothing
    /// or at least `NODE_SIZE` bytes, since a smaller rest could never be
    /// handed out or recorded again. An address computation that overflows
    /// counts as not fitting.
    pub fn alloc_from_region(region: &ListNode, size: usize, align: usize) -> (r: Result<usize, ()>)
        requires
            align > 0,
            region.end() <= usize::MAX,
        ensures
            match r {
                Ok(start) => region.fit(size as int, align as int) == Some(start as int),
                Err(_) => region.fit(size as int, align as int) is None,
            },
    {
        proof {
            lemma_align_up_is_least_multiple(region.start as int, align as int);
        }
        let alloc_start = match align_up(region.start_addr(), align) {
            Some(start) => start,
            None => {
                return Err(());
            },
        };
        let alloc_end = match alloc_start.checked_add(size) {
            Some(end) => end,
            None => {
                return Err(());
            },
        };
        if alloc_end > region.end_addr() {
            return Err(());
        }
        let excess_size = region.end_addr() - alloc_end;
        if excess_size > 0 && excess_size < NODE_SIZE {
            return Err(());
        }
        Ok(alloc_start)
    }

    /// Adjusts a request so that the block can later become a free region:
    /// the alignment is raised to `NODE_ALIGN`, the size is rounded up to a
    /// multiple of the alignment and raised to `NODE_SIZE`. `None` if the
    /// rounded size does not fit in a machine word.
    pub fn size_align(size: usize, align: usize) -> (r: Option<(usize, usize)>)
        requires
            align > 0,
        ensures
            match r {
                Some((sz, al)) => normalize(size as int, align as int) == Some((sz as int, al as int)),
                None => normalize(size as int, align as int) is None,
            },
    {
        let align = if align < NODE_ALIGN {
            NODE_ALIGN
        } else {
            align
        };
        match align_up(size, align) {
            None => None,
            Some(padded) => {
                if padded < NODE_SIZE {
                    Some((NODE_SIZE, align))
                } else {
                    Some((padded, align))
                }
            },
        }
    }

    /// Serves a request from the first free region in which it fits, after
    /// normalising it with `size_align`. The region leaves the list; what is
    /// left of it behind the block becomes the new head. Bytes of the region
    /// in front of an aligned block are not kept. `None`, with the list
    /// unchanged, if no region fits or the size cannot be normalised.
    ///
    /// The block that is handed out starts at a multiple of `align` and of
    /// `NODE_ALIGN`, has the size that `size_align` gives, which is at least
    /// `size`, and lies in one region that was free.
    pub fn allocate(&mut self, size: usize, align: usize) -> (r: Option<usize>)
        requires
            is_pow2(align as int),
        ensures
            final(self)@ == after_alloc(old(self)@, size as int, align as int),
            match r {
                Some(a) => {
                    &&& alloc_result(old(self)@, size as int, align as int) == Some(a as int)
                    &&& is_aligned(a as int, align as int)
                    &&& is_aligned(a as int, NODE_ALIGN as int)
                    &&& size <= block_size(size as int, align as int)
                    &&& held_by_some(
                        old(self)@,
                        a as int,
                        a + block_size(size as int, align as int),
                    )
                },
                None => alloc_result(old(self)@, size as int, align as int) is None,
            },
            wf_list(old(self)@),
            wf_list(final(self)@),
    {
        proof {
            use_type_invariant(&*self);
            lemma_normalize(size as int, align as int);
            reveal_with_fuel(is_pow2, 1);
            if alloc_result(self@, size as int, align as int) is Some {
                lemma_alloc_block(self@, size as int, align as int);
            }
        }
        let (sz, al) = match Self::size_align(size, align) {
            Some(adjusted) => adjusted,
            None => {
                return None;
            },
        };
        match self.find_region(sz, al) {
            Some((region, alloc_start)) => {
                proof {
                    lemma_align_up_is_least_multiple(region.start as int, al as int);
                    lemma_aligned_to_divisor(alloc_start as int, NODE_ALIGN as int, al as int);
                    lemma_aligned_to_divisor(alloc_start as int, align as int, al as int);
                    lemma_aligned_sum(alloc_start as int, sz as int, NODE_ALIGN as int);
                }
                let alloc_end = alloc_start + sz;
                let excess_size = region.end_addr() - alloc_end;
                if excess_size > 0 {
                    self.add_free_region(alloc_end, excess_size);
                }
                Some(alloc_start)
            },
            None => None,
        }
    }

    /// Takes a block back: the block, with the size that `size_align` gives
    /// for it, becomes a free region at the head of the list. It is not
    /// merged with a free neighbour.
    pub fn dealloc(&mut self, ptr: usize, size: usize, align: usize)
        requires
            is_pow2(align as int),
            is_aligned(ptr as int, NODE_ALIGN as int),
            normalize(size as int, align as int) is Some,
            ptr + normalize(size as int, align as int).unwrap().0 <= usize::MAX,
        ensures
            final(self)@ == after_dealloc(old(self)@, ptr as int, size as int, align as int),
            wf_list(final(self)@),
    {
        proof {
            lemma_normalize(size as int, align as int);
            reveal_with_fuel(is_pow2, 1);
        }
        match Self::size_align(size, align) {
            Some((size, _)) => {
                self.add_free_region(ptr, size);
            },
            None => {},
        }
    }
}

} // verus!
