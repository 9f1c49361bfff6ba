//! Physical frames: the allocator that hands them out from the boot-time
//! memory map, and the walk through the four levels of page tables that
//! finds the frame behind a virtual address.

use vstd::prelude::*;
use bootloader::bootinfo::{MemoryMap, MemoryRegion, MemoryRegionType};

pub mod translate;

verus! {

/// `MemoryMap` of the bootloader crate: the regions of physical memory as
/// the loader found them. Nothing is claimed of what is in it; what this
/// module reads of it goes through `memory_regions`.
#[verifier::external_type_specification]
#[verifier::external_body]
pub struct ExMemoryMap(MemoryMap);

/// `MemoryRegion` of the bootloader crate, the element of the slice that a
/// `MemoryMap` dereferences to. Nothing is claimed of what is in it.
#[verifier::external_type_specification]
#[verifier::external_body]
pub struct ExMemoryRegion(MemoryRegion);

/// The regions of a memory map in the order in which the map holds them,
/// each as the number of its first frame, the number of the first frame
/// behind it, and whether it is marked usable.
pub uninterp spec fn memory_regions(map: MemoryMap) -> Seq<(u64, u64, bool)>;

/// The number of regions of a memory map: the length of the slice that
/// `MemoryMap` dereferences to.
#[verifier::external_body]
fn region_count(map: &MemoryMap) -> (r: usize)
    ensures
        r == memory_regions(*map).len(),
{
    map.len()
}

/// One region of a memory map: the two frame numbers of its `range` and
/// whether its `region_type` is `Usable`, read from the slice that
/// `MemoryMap` dereferences to.
#[verifier::external_body]
fn region_at(map: &MemoryMap, index: usize) -> (r: (u64, u64, bool))
    requires
        index < memory_regions(*map).len(),
    ensures
        r == memory_regions(*map)[index as int],
{
    let region = &map[index];
    let usable = match region.region_type {
        MemoryRegionType::Usable => true,
        _ => false,
    };
    (region.range.start_frame_number, region.range.end_frame_number, usable)
}

/// The size of a frame and of a page in bytes.
pub const FRAME_SIZE: u64 = 4096;

/// The first number that is no physical address: physical addresses have
/// 52 bits.
pub const PHYS_ADDR_LIMIT: u64 = 0x10_0000_0000_0000;

/// The first number that is no frame number: `PHYS_ADDR_LIMIT / FRAME_SIZE`.
pub const FRAME_NUMBER_LIMIT: u64 = 0x100_0000_0000;

/// The start of the frame that holds a physical address, as
/// `PhysFrame::containing_address` of the x86_64 crate gives it for
/// `PhysAddr::new(addr)`: the address rounded down to a multiple of 4096.
/// `PhysAddr::new` panics on an address of more than 52 bits.
#[verifier::external_body]
fn frame_start_containing(addr: u64) -> (r: u64)
    requires
        addr < PHYS_ADDR_LIMIT,
    ensures
        r == addr - addr % 4096,
{
    let address = x86_64::PhysAddr::new(addr);
    let frame: x86_64::structures::paging::PhysFrame =
        x86_64::structures::paging::PhysFrame::containing_address(address);
    frame.start_address().as_u64()
}

/// A frame: 4096 bytes of physical memory that start at a multiple of 4096.
#[derive(Clone, Copy, Debug)]
pub struct PhysFrame {
    start_address: u64,
}

impl PhysFrame {
    #[verifier::type_invariant]
    spec fn inv(self) -> bool {
        self.start_address % 4096 == 0 && self.start_address < PHYS_ADDR_LIMIT
    }

    /// The address of the first byte of the frame.
    pub closed spec fn start(self) -> u64 {
        self.start_address
    }

    /// The frame that holds the physical address `addr`.
    pub fn containing_address(addr: u64) -> (r: Self)
        requires
            addr < PHYS_ADDR_LIMIT,
        ensures
            r.start() == addr - addr % 4096,
    {
        PhysFrame { start_address: frame_start_containing(addr) }
    }

    /// The address of the first byte of the frame, a multiple of 4096 below
    /// `PHYS_ADDR_LIMIT`.
    pub fn start_address(&self) -> (r: u64)
        ensures
            r == self.start(),
            r % 4096 == 0,
            r < PHYS_ADDR_LIMIT,
    {
        proof {
            use_type_invariant(self);
        }
        self.start_address
    }
}

/// The start addresses of the frames of one region of a memory map, lowest
/// first: none if the region is not usable or holds no frame, else one for
/// each frame number from the first up to, not including, the end.
pub open spec fn region_frames(region: (u64, u64, bool)) -> Seq<int> {
    if region.2 && region.0 < region.1 {
        Seq::new((region.1 - region.0) as nat, |k: int| (region.0 + k) * 4096)
    } else {
        Seq::empty()
    }
}

/// The start addresses of all usable frames of a memory map: those of its
/// regions, one region after the other in the order of the map.
pub open spec fn usable_frames_of(regions: Seq<(u64, u64, bool)>) -> Seq<int>
    decreases regions.len(),
{
    if regions.len() == 0 {
        Seq::empty()
    } else {
        usable_frames_of(regions.drop_last()) + region_frames(regions.last())
    }
}

/// Every usable frame of the map has a physical address: no usable region
/// that holds a frame ends above `FRAME_NUMBER_LIMIT`.
pub open spec fn frames_addressable(regions: Seq<(u64, u64, bool)>) -> bool {
    forall|i: int|
        0 <= i < regions.len() && (#[trigger] regions[i]).2 && regions[i].0 < regions[i].1
            ==> regions[i].1 <= FRAME_NUMBER_LIMIT
}

/// The frame that the call with the given number yields, counting from 0:
/// the usable frame with that index, or none once they are used up.
pub open spec fn frame_for_call(regions: Seq<(u64, u64, bool)>, call: int) -> Option<int> {
    if 0 <= call < usable_frames_of(regions).len() {
        Some(usable_frames_of(regions)[call])
    } else {
        None
    }
}

/// The usable frames of the first regions of a map come first among the
/// usable frames of the whole map.
pub proof fn lemma_frames_prefix(regions: Seq<(u64, u64, bool)>, j: int)
    requires
        0 <= j <= regions.len(),
    ensures
        usable_frames_of(regions.take(j)).len() <= usable_frames_of(regions).len(),
        forall|x: int|
            0 <= x < usable_frames_of(regions.take(j)).len() ==> #[trigger] usable_frames_of(
                regions.take(j),
            )[x] == usable_frames_of(regions)[x],
    decreases regions.len(),
{
    if j == regions.len() {
        assert(regions.take(j) =~= regions);
    } else {
        lemma_frames_prefix(regions.drop_last(), j);
        assert(regions.drop_last().take(j) =~= regions.take(j));
    }
}

/// The usable frames of one region more are those of the regions before it
/// followed by its own.
pub proof fn lemma_frames_step(regions: Seq<(u64, u64, bool)>, i: int)
    requires
        0 <= i < regions.len(),
    ensures
        usable_frames_of(regions.take(i + 1)) == usable_frames_of(regions.take(i)) + region_frames(
            regions[i],
        ),
{
    assert(regions.take(i + 1).drop_last() =~= regions.take(i));
    assert(regions.take(i + 1).last() == regions[i]);
}

/// No frame belongs to two usable regions of the map.
pub open spec fn usable_regions_disjoint(regions: Seq<(u64, u64, bool)>) -> bool {
    forall|i: int, j: int|
        0 <= i < j < regions.len() && (#[trigger] regions[i]).2 && (#[trigger] regions[j]).2
            && regions[i].0 < regions[i].1 && regions[j].0 < regions[j].1 ==> regions[i].1
            <= regions[j].0 || regions[j].1 <= regions[i].0
}

/// Where the usable frame with index `x` comes from: the index of its region
/// in the map, and its frame number.
pub open spec fn frame_source(regions: Seq<(u64, u64, bool)>, x: int) -> (int, int)
    decreases regions.len(),
{
    if regions.len() == 0 {
        (0, 0)
    } else if x < usable_frames_of(regions.drop_last()).len() {
        frame_source(regions.drop_last(), x)
    } else {
        (regions.len() - 1, regions.last().0 + (x - usable_frames_of(regions.drop_last()).len()))
    }
}

/// Every usable frame comes from a usable region of the map, has a frame
/// number of that region, and starts at 4096 times that number.
pub proof fn lemma_frame_source(regions: Seq<(u64, u64, bool)>, x: int)
    requires
        0 <= x < usable_frames_of(regions).len(),
    ensures
        ({
            let (i, f) = frame_source(regions, x);
            &&& 0 <= i < regions.len()
            &&& regions[i].2
            &&& regions[i].0 <= f < regions[i].1
            &&& usable_frames_of(regions)[x] == f * 4096
        }),
    decreases regions.len(),
{
    if regions.len() > 0 {
        let front = regions.drop_last();
        if x < usable_frames_of(front).len() {
            lemma_frame_source(front, x);
            let (i, f) = frame_source(front, x);
            assert(front[i] == regions[i]);
        }
    }
}

/// Frames are numbered region by region and, within a region, upwards: of
/// two usable frames, the one with the lower index comes from an earlier
/// region, or from the same region with a lower frame number.
pub proof fn lemma_frame_source_ordered(regions: Seq<(u64, u64, bool)>, x: int, y: int)
    requires
        0 <= x < y < usable_frames_of(regions).len(),
    ensures
        ({
            let (i, f) = frame_source(regions, x);
            let (j, g) = frame_source(regions, y);
            i < j || (i == j && f < g)
        }),
    decreases regions.len(),
{
    if regions.len() > 0 {
        let front = regions.drop_last();
        if y < usable_frames_of(front).len() {
            lemma_frame_source_ordered(front, x, y);
        } else if x < usable_frames_of(front).len() {
            lemma_frame_source(front, x);
        }
    }
}

/// If no frame belongs to two usable regions of the map, the calls of
/// `allocate_frame` hand out each usable frame once: with `m` usable frames,
/// the first `m` calls yield frames that start at multiples of 4096 and
/// share no byte with each other, and every later call yields none.
pub proof fn lemma_each_frame_once(regions: Seq<(u64, u64, bool)>)
    requires
        usable_regions_disjoint(regions),
    ensures
        forall|c: int|
            0 <= c < usable_frames_of(regions).len() ==> (#[trigger] frame_for_call(
                regions,
                c,
            )) is Some && frame_for_call(regions, c).unwrap() % 4096 == 0,
        forall|c: int, d: int|
            0 <= c < d < usable_frames_of(regions).len() ==> (#[trigger] frame_for_call(
                regions,
                c,
            )).unwrap() + 4096 <= (#[trigger] frame_for_call(regions, d)).unwrap()
                || frame_for_call(regions, d).unwrap() + 4096 <= frame_for_call(
                regions,
                c,
            ).unwrap(),
        forall|c: int|
            c >= usable_frames_of(regions).len() ==> (#[trigger] frame_for_call(
                regions,
                c,
            )) is None,
{
    assert forall|c: int| 0 <= c < usable_frames_of(regions).len() implies (
    #[trigger] frame_for_call(regions, c)) is Some && frame_for_call(regions, c).unwrap() % 4096
        == 0 by {
        lemma_frame_source(regions, c);
    }
    assert forall|c: int, d: int| 0 <= c < d < usable_frames_of(regions).len() implies (
    #[trigger] frame_for_call(regions, c)).unwrap() + 4096 <= (#[trigger] frame_for_call(
        regions,
        d,
    )).unwrap() || frame_for_call(regions, d).unwrap() + 4096 <= frame_for_call(
        regions,
        c,
    ).unwrap() by {
        lemma_frame_source(regions, c);
        lemma_frame_source(regions, d);
        lemma_frame_source_ordered(regions, c, d);
        let (i, f) = frame_source(regions, c);
        let (j, g) = frame_source(regions, d);
        if i < j {
            assert(regions[i].1 <= regions[j].0 || regions[j].1 <= regions[i].0);
        }
    }
}

/// The frames `frames` start, one by one, at the addresses `starts`.
pub open spec fn frames_match(frames: Seq<PhysFrame>, starts: Seq<int>) -> bool {
    &&& frames.len() == starts.len()
    &&& forall|x: int| 0 <= x < frames.len() ==> (#[trigger] frames[x]).start() == starts[x]
}

/// The state of a frame allocator: the regions of its memory map and the
/// number of calls it has answered.
pub struct FrameAllocatorState {
    pub regions: Seq<(u64, u64, bool)>,
    pub next: int,
}

/// Hands out the usable frames of a memory map one by one, in the order of
/// the map, and never takes one back.
pub struct BootInfoFrameAllocator {
    memory_map: &'static MemoryMap,
    next: usize,
}

impl View for BootInfoFrameAllocator {
    type V = FrameAllocatorState;

    closed spec fn view(&self) -> FrameAllocatorState {
        FrameAllocatorState { regions: memory_regions(*self.memory_map), next: self.next as int }
    }
}

impl BootInfoFrameAllocator {
    #[verifier::type_invariant]
    spec fn inv(self) -> bool {
        frames_addressable(memory_regions(*self.memory_map))
    }

    /// An allocator over `memory_map` that has handed out nothing yet. The
    /// caller answers for the map: the frames it marks usable must be unused.
    pub fn init(memory_map: &'static MemoryMap) -> (r: Self)
        requires
            frames_addressable(memory_regions(*memory_map)),
        ensures
            r@.regions == memory_regions(*memory_map),
            r@.next == 0,
    {
        BootInfoFrameAllocator { memory_map, next: 0 }
    }

    /// As `init`, after a look at the map: `None` if the map marks a frame
    /// usable that has no physical address.
    pub fn try_init(memory_map: &'static MemoryMap) -> (r: Option<Self>)
        ensures
            match r {
                Some(allocator) => {
                    &&& frames_addressable(memory_regions(*memory_map))
                    &&& allocator@.regions == memory_regions(*memory_map)
                    &&& allocator@.next == 0
                },
                None => !frames_addressable(memory_regions(*memory_map)),
            },
    {
        let count = region_count(memory_map);
        let mut i: usize = 0;
        while i < count
            invariant
                i <= count,
                count == memory_regions(*memory_map).len(),
                frames_addressable(memory_regions(*memory_map).take(i as int)),
            decreases count - i,
        {
            let (start, end, usable) = region_at(memory_map, i);
            if usable && start < end && end > FRAME_NUMBER_LIMIT {
                return None;
            }
            proof {
                let regions = memory_regions(*memory_map);
                assert forall|x: int|
                    0 <= x < regions.take(i + 1).len() && (#[trigger] regions.take(i + 1)[x]).2
                        && regions.take(i + 1)[x].0 < regions.take(i + 1)[x].1 implies regions.take(
                    i + 1,
                )[x].1 <= FRAME_NUMBER_LIMIT by {
                    if x < i {
                        assert(regions.take(i as int)[x] == regions.take(i + 1)[x]);
                    }
                }
            }
            i += 1;
        }
        proof {
            assert(memory_regions(*memory_map).take(i as int) =~= memory_regions(*memory_map));
        }
        Some(Self::init(memory_map))
    }

    /// The number of calls of `allocate_frame` answered so far.
    pub fn next(&self) -> (r: usize)
        ensures
            r == self@.next,
    {
        self.next
    }

    /// The usable frame with index `n`, counting from 0 through the usable
    /// regions in the order of the map, or `None` if there are not that
    /// many.
    pub fn frame_at(&self, n: usize) -> (r: Option<PhysFrame>)
        ensures
            match r {
                Some(frame) => frame_for_call(self@.regions, n as int) == Some(frame.start() as int),
                None => frame_for_call(self@.regions, n as int) is None,
            },
    {
        proof {
            use_type_invariant(self);
        }
        let ghost regions = memory_regions(*self.memory_map);
        let count = region_count(self.memory_map);
        let mut remaining: u64 = n as u64;
        let mut i: usize = 0;
        while i < count
            invariant
                i <= count,
                count == regions.len(),
                regions == memory_regions(*self.memory_map),
                frames_addressable(regions),
                usable_frames_of(regions.take(i as int)).len() + remaining == n,
            decreases count - i,
        {
            let (start, end, usable) = region_at(self.memory_map, i);
            proof {
                lemma_frames_step(regions, i as int);
                lemma_frames_prefix(regions, i + 1);
            }
            if usable && start < end {
                let frames: u64 = end - start;
                if remaining < frames {
                    let addr: u64 = (start + remaining) * FRAME_SIZE;
                    proof {
                        let before = usable_frames_of(regions.take(i as int));
                        let upto = usable_frames_of(regions.take(i + 1));
                        assert(upto[n as int] == region_frames(regions[i as int])[remaining as int]);
                        assert(usable_frames_of(regions)[n as int] == addr);
                        assert(addr % 4096 == 0);
                    }
                    return Some(PhysFrame::containing_address(addr));
                }
                remaining -= frames;
            }
            i += 1;
        }
        proof {
            assert(regions.take(i as int) =~= regions);
        }
        None
    }

    /// All usable frames of the map, in the order in which `allocate_frame`
    /// hands them out, whether handed out already or not.
    pub fn usable_frames(&self) -> (r: Vec<PhysFrame>)
        ensures
            frames_match(r@, usable_frames_of(self@.regions)),
    {
        proof {
            use_type_invariant(self);
        }
        let ghost regions = memory_regions(*self.memory_map);
        let count = region_count(self.memory_map);
        let mut frames: Vec<PhysFrame> = Vec::new();
        let mut i: usize = 0;
        while i < count
            invariant
                i <= count,
                count == regions.len(),
                regions == memory_regions(*self.memory_map),
                frames_addressable(regions),
                frames_match(frames@, usable_frames_of(regions.take(i as int))),
            decreases count - i,
        {
            let (start, end, usable) = region_at(self.memory_map, i);
            proof {
                lemma_frames_step(regions, i as int);
            }
            if usable && start < end {
                let ghost before = usable_frames_of(regions.take(i as int));
                let mut number: u64 = start;
                while number < end
                    invariant
                        start <= number <= end,
                        end <= FRAME_NUMBER_LIMIT,
                        regions[i as int] == (start, end, usable),
                        usable,
                        frames_match(
                            frames@,
                            before + region_frames(regions[i as int]).take(number - start),
                        ),
                    decreases end - number,
                {
                    let ghost held = frames@;
                    let frame = PhysFrame::containing_address(number * FRAME_SIZE);
                    frames.push(frame);
                    proof {
                        let of_region = region_frames(regions[i as int]);
                        assert(of_region.take(number - start + 1) =~= of_region.take(
                            number - start,
                        ).push(number * 4096));
                        assert(before + of_region.take(number - start + 1) =~= (before
                            + of_region.take(number - start)).push(number * 4096));
                        assert(frames@ =~= held.push(frame));
                    }
                    number += 1;
                }
                proof {
                    let of_region = region_frames(regions[i as int]);
                    assert(of_region.take(end - start) =~= of_region);
                }
            } else {
                proof {
                    let before = usable_frames_of(regions.take(i as int));
                    assert(before + region_frames(regions[i as int]) =~= before);
                }
            }
            i += 1;
        }
        proof {
            assert(regions.take(i as int) =~= regions);
        }
        frames
    }

    /// Hands out the next usable frame, or `None` once all are handed out.
    /// The call is counted either way, so no frame is handed out twice and
    /// after the first `None` every answer is `None`.
    pub fn allocate_frame(&mut self) -> (r: Option<PhysFrame>)
        requires
            old(self)@.next < usize::MAX,
        ensures
            final(self)@.regions == old(self)@.regions,
            final(self)@.next == old(self)@.next + 1,
            match r {
                Some(frame) => frame_for_call(old(self)@.regions, old(self)@.next) == Some(
                    frame.start() as int,
                ),
                None => frame_for_call(old(self)@.regions, old(self)@.next) is None,
            },
    {
        proof {
            use_type_invariant(&*self);
        }
        let frame = self.frame_at(self.next);
        self.next += 1;
        frame
    }
}

/// A frame allocator that has no frame to give, for callers that need an
/// allocator and must not be given memory.
pub struct EmptyFrameAllocator;

impl EmptyFrameAllocator {
    /// `None`, always.
    pub fn allocate_frame(&mut self) -> (r: Option<PhysFrame>)
        ensures
            r is None,
    {
        None
    }
}

} // verus!
