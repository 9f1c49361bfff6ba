//! The walk through the four levels of page tables that finds the physical
//! address behind a virtual one.
//!
//! The page tables are memory, and this crate does not read memory. The walk
//! is therefore cut into steps: a `PageWalk` says which entry of which table
//! to read next, and `step` takes the entry that was read and says how the
//! walk goes on. Whoever can read the tables runs the loop.

use vstd::prelude::*;
use crate::memory::{PhysFrame, PHYS_ADDR_LIMIT};

verus! {

/// Why a page-table entry names no frame.
#[derive(Clone, Copy, Debug, PartialEq, Eq, Structural)]
pub enum FrameError {
    /// The entry is not marked present.
    FrameNotPresent,
    /// The entry maps a huge page, not a table or a 4096-byte frame.
    HugeFrame,
}

/// The bit of a page-table entry that marks it present.
pub const ENTRY_PRESENT: u64 = 0x1;

/// The bit of a page-table entry that marks a huge page.
pub const ENTRY_HUGE_PAGE: u64 = 0x80;

/// The bits of a page-table entry that hold the address of a frame.
pub const ENTRY_ADDR_MASK: u64 = 0x000f_ffff_ffff_f000;

/// The start of the frame that a page-table entry names: none if the entry
/// is not present, none if it is present and maps a huge page, else the
/// address bits of the entry.
pub open spec fn entry_frame_spec(entry: u64) -> Result<u64, FrameError> {
    if entry & ENTRY_PRESENT == 0 {
        Err(FrameError::FrameNotPresent)
    } else if entry & ENTRY_HUGE_PAGE != 0 {
        Err(FrameError::HugeFrame)
    } else {
        Ok(entry & ENTRY_ADDR_MASK)
    }
}

/// The index into the table of the given level, 4 down to 1, for a virtual
/// address: nine bits of the address, bits 39 to 47 for level 4 and nine bits
/// lower for each level below.
pub open spec fn table_index(addr: u64, level: int) -> int {
    if level == 4 {
        (addr as int / 0x80_0000_0000) % 512
    } else if level == 3 {
        (addr as int / 0x4000_0000) % 512
    } else if level == 2 {
        (addr as int / 0x20_0000) % 512
    } else {
        (addr as int / 0x1000) % 512
    }
}

/// The offset of a virtual address in its page: its lowest twelve bits.
pub open spec fn page_offset_spec(addr: u64) -> int {
    addr as int % 4096
}

/// `VirtAddr::p4_index` of the x86_64 crate, on the address made by
/// `VirtAddr::new_truncate`: bits 39 to 47 of the address. `new_truncate`
/// changes bits 48 to 63 only.
#[verifier::external_body]
fn p4_index(addr: u64) -> (r: u16)
    ensures
        r == (addr as int / 0x80_0000_0000) % 512,
{
    u16::from(x86_64::VirtAddr::new_truncate(addr).p4_index())
}

/// `VirtAddr::p3_index` of the x86_64 crate, on the address made by
/// `VirtAddr::new_truncate`: bits 30 to 38 of the address.
#[verifier::external_body]
fn p3_index(addr: u64) -> (r: u16)
    ensures
        r == (addr as int / 0x4000_0000) % 512,
{
    u16::from(x86_64::VirtAddr::new_truncate(addr).p3_index())
}

/// `VirtAddr::p2_index` of the x86_64 crate, on the address made by
/// `VirtAddr::new_truncate`: bits 21 to 29 of the address.
#[verifier::external_body]
fn p2_index(addr: u64) -> (r: u16)
    ensures
        r == (addr as int / 0x20_0000) % 512,
{
    u16::from(x86_64::VirtAddr::new_truncate(addr).p2_index())
}

/// `VirtAddr::p1_index` of the x86_64 crate, on the address made by
/// `VirtAddr::new_truncate`: bits 12 to 20 of the address.
#[verifier::external_body]
fn p1_index(addr: u64) -> (r: u16)
    ensures
        r == (addr as int / 0x1000) % 512,
{
    u16::from(x86_64::VirtAddr::new_truncate(addr).p1_index())
}

/// `VirtAddr::page_offset` of the x86_64 crate, on the address made by
/// `VirtAddr::new_truncate`: the lowest twelve bits of the address.
#[verifier::external_body]
fn page_offset(addr: u64) -> (r: u16)
    ensures
        r == addr as int % 4096,
{
    u16::from(x86_64::VirtAddr::new_truncate(addr).page_offset())
}

/// `PageTableEntry::frame` of the x86_64 crate, on the entry with the given
/// bits. The crate offers no entry from raw bits, so the entry is set from
/// its two parts: the address bits (`PhysAddr::new_truncate` drops bits 52
/// to 63, `align_down` bits 0 to 11) and the flag bits (`from_bits_truncate`
/// keeps the bits that are flags, which are all bits but the address bits);
/// `set_addr` joins them again. `frame` then answers `FrameNotPresent` if
/// bit 0 is clear, else `HugeFrame` if bit 7 is set, else the frame at the
/// address bits.
#[verifier::external_body]
fn entry_frame_start(entry: u64) -> (r: Result<u64, FrameError>)
    ensures
        r == entry_frame_spec(entry),
{
    let mut table_entry = x86_64::structures::paging::page_table::PageTableEntry::new();
    table_entry.set_addr(
        x86_64::PhysAddr::new_truncate(entry).align_down(4096u64),
        x86_64::structures::paging::PageTableFlags::from_bits_truncate(entry),
    );
    match table_entry.frame() {
        Ok(frame) => Ok(frame.start_address().as_u64()),
        Err(x86_64::structures::paging::page_table::FrameError::FrameNotPresent) => Err(
            FrameError::FrameNotPresent,
        ),
        Err(x86_64::structures::paging::page_table::FrameError::HugeFrame) => Err(
            FrameError::HugeFrame,
        ),
    }
}

/// The canonical form of a virtual address, in which bits 48 to 63 are
/// copies of bit 47: the address itself if it is canonical already, the
/// address with bits 48 to 63 set if only bit 47 of bits 47 to 63 is set,
/// and none if those bits hold anything else.
pub open spec fn canonical_spec(addr: u64) -> Option<u64> {
    let top = addr as int / 0x8000_0000_0000;
    if top == 0 || top == 0x1ffff {
        Some(addr)
    } else if top == 1 {
        Some((addr + 0xffff_0000_0000_0000) as u64)
    } else {
        None
    }
}

/// `VirtAddr::try_new` of the x86_64 crate, with the address it makes read
/// back by `as_u64`: it looks at bits 47 to 63, keeps the address if they
/// are all clear or all set, extends the sign if only bit 47 is set, and
/// fails on anything else.
#[verifier::external_body]
fn canonical_address(addr: u64) -> (r: Option<u64>)
    ensures
        r == canonical_spec(addr),
{
    match x86_64::VirtAddr::try_new(addr) {
        Ok(virt) => Some(virt.as_u64()),
        Err(_) => None,
    }
}

/// Where physical memory is seen in the virtual address space when all of
/// it is mapped from `physical_memory_offset` on: the canonical form of the
/// sum, none if the sum passes the machine word or has no canonical form.
pub open spec fn phys_to_virt_spec(physical_memory_offset: u64, phys: u64) -> Option<u64> {
    if physical_memory_offset + phys > u64::MAX {
        None
    } else {
        canonical_spec((physical_memory_offset + phys) as u64)
    }
}

/// The virtual address at which the physical address `phys` can be read,
/// all physical memory being mapped from `physical_memory_offset` on.
pub fn phys_to_virt(physical_memory_offset: u64, phys: u64) -> (r: Option<u64>)
    ensures
        r == phys_to_virt_spec(physical_memory_offset, phys),
{
    match physical_memory_offset.checked_add(phys) {
        Some(sum) => canonical_address(sum),
        None => None,
    }
}

/// The frame that a page-table entry names, or why it names none.
pub fn entry_frame(entry: u64) -> (r: Result<PhysFrame, FrameError>)
    ensures
        match r {
            Ok(frame) => entry_frame_spec(entry) == Ok::<u64, FrameError>(frame.start()),
            Err(e) => entry_frame_spec(entry) == Err::<u64, FrameError>(e),
        },
{
    match entry_frame_start(entry) {
        Ok(start) => {
            assert(start % 4096 == 0 && start < PHYS_ADDR_LIMIT) by (bit_vector)
                requires
                    start == entry & 0x000f_ffff_ffff_f000u64,
            ;
            Ok(PhysFrame::containing_address(start))
        },
        Err(e) => Err(e),
    }
}

/// A walk as plain values: the virtual address that is translated, the
/// level of the table to read next, 4 down to 1, and the start of the frame
/// that holds that table.
pub struct WalkState {
    pub addr: u64,
    pub level: int,
    pub table: u64,
}

/// How a walk goes on after one entry, as plain values.
pub enum StepResult {
    /// The entry names the table of the next lower level.
    Descend(WalkState),
    /// The entry of the lowest level names the frame: the physical address.
    Mapped(u64),
    /// The entry is not present: the address is not mapped.
    NotMapped,
    /// The entry maps a huge page, which this walk does not follow.
    HugePage,
}

/// The outcome of a whole translation.
pub enum Translation {
    /// The physical address behind the virtual one.
    Mapped(u64),
    /// Some entry on the way is not present: the address is not mapped.
    NotMapped,
    /// Some entry on the way maps a huge page.
    HugePage,
}

impl WalkState {
    /// The index of the entry to read in the table of this state.
    pub open spec fn index(self) -> int {
        table_index(self.addr, self.level)
    }

    /// How the walk goes on when `entry` is what the table holds at
    /// `index()`: it ends where the entry names no frame; below level 1 it
    /// ends with the start of the named frame plus the offset of the address
    /// in its page; else it goes down one level, into the named frame.
    pub open spec fn step(self, entry: u64) -> StepResult {
        match entry_frame_spec(entry) {
            Err(FrameError::FrameNotPresent) => StepResult::NotMapped,
            Err(FrameError::HugeFrame) => StepResult::HugePage,
            Ok(frame) => if self.level <= 1 {
                StepResult::Mapped((frame + page_offset_spec(self.addr)) as u64)
            } else {
                StepResult::Descend(
                    WalkState { addr: self.addr, level: self.level - 1, table: frame },
                )
            },
        }
    }

    /// The outcome of the walk from this state on, over page tables given as
    /// a function from the start of a table's frame and an index to the
    /// entry there.
    pub open spec fn finish(self, tables: spec_fn(u64, int) -> u64) -> Translation
        decreases self.level,
    {
        match self.step(tables(self.table, self.index())) {
            StepResult::Descend(next) => if self.level > 1 {
                next.finish(tables)
            } else {
                Translation::NotMapped
            },
            StepResult::Mapped(phys) => Translation::Mapped(phys),
            StepResult::NotMapped => Translation::NotMapped,
            StepResult::HugePage => Translation::HugePage,
        }
    }
}

/// The translation of the virtual address `addr` by the page tables
/// `tables`, of which the one of level 4 is in the frame at `root`.
pub open spec fn translate_spec(tables: spec_fn(u64, int) -> u64, root: u64, addr: u64) -> Translation {
    (WalkState { addr, level: 4, table: root }).finish(tables)
}

/// Whether the tables map the page of `addr` to the frame at `frame`
/// through tables of all four levels: the entry for `addr` in each table on
/// the way is present and maps no huge page, and the one of level 1 names
/// `frame`.
pub open spec fn maps_through_four_levels(
    tables: spec_fn(u64, int) -> u64,
    root: u64,
    addr: u64,
    frame: u64,
) -> bool {
    let e4 = tables(root, table_index(addr, 4));
    let e3 = tables(entry_frame_spec(e4).unwrap(), table_index(addr, 3));
    let e2 = tables(entry_frame_spec(e3).unwrap(), table_index(addr, 2));
    let e1 = tables(entry_frame_spec(e2).unwrap(), table_index(addr, 1));
    &&& entry_frame_spec(e4) is Ok
    &&& entry_frame_spec(e3) is Ok
    &&& entry_frame_spec(e2) is Ok
    &&& entry_frame_spec(e1) == Ok::<u64, FrameError>(frame)
}

/// The address bits of an entry are the start of a frame: a multiple of
/// 4096 below `PHYS_ADDR_LIMIT`.
pub proof fn lemma_entry_frame_is_frame(entry: u64)
    ensures
        match entry_frame_spec(entry) {
            Ok(frame) => frame % 4096 == 0 && frame < PHYS_ADDR_LIMIT,
            Err(_) => true,
        },
{
    assert((entry & 0x000f_ffff_ffff_f000u64) % 4096 == 0 && (entry & 0x000f_ffff_ffff_f000u64)
        < 0x10_0000_0000_0000u64) by (bit_vector);
}

/// A virtual address whose page is mapped through tables of all four
/// levels translates to the start of the mapped frame plus the offset of
/// the address in its page. As the frame starts at a multiple of 4096 and
/// the offset is below 4096, the sum has the bits of the frame above bit 11
/// and the bits of the address below.
pub proof fn lemma_translate_mapped(
    tables: spec_fn(u64, int) -> u64,
    root: u64,
    addr: u64,
    frame: u64,
)
    requires
        maps_through_four_levels(tables, root, addr, frame),
    ensures
        translate_spec(tables, root, addr) == Translation::Mapped((frame + addr % 4096) as u64),
        frame + addr % 4096 <= u64::MAX,
        (frame + addr % 4096) as u64 == frame | (addr & 0xfff),
{
    let e4 = tables(root, table_index(addr, 4));
    let e3 = tables(entry_frame_spec(e4).unwrap(), table_index(addr, 3));
    let e2 = tables(entry_frame_spec(e3).unwrap(), table_index(addr, 2));
    let e1 = tables(entry_frame_spec(e2).unwrap(), table_index(addr, 1));
    let w4 = WalkState { addr, level: 4, table: root };
    let w3 = WalkState { addr, level: 3, table: entry_frame_spec(e4).unwrap() };
    let w2 = WalkState { addr, level: 2, table: entry_frame_spec(e3).unwrap() };
    let w1 = WalkState { addr, level: 1, table: entry_frame_spec(e2).unwrap() };
    assert(w1.finish(tables) == Translation::Mapped((frame + addr % 4096) as u64));
    assert(w2.step(e2) == StepResult::Descend(w1));
    assert(w2.finish(tables) == w1.finish(tables));
    assert(w3.step(e3) == StepResult::Descend(w2));
    assert(w3.finish(tables) == w2.finish(tables));
    assert(w4.step(e4) == StepResult::Descend(w3));
    assert(w4.finish(tables) == w3.finish(tables));
    lemma_entry_frame_is_frame(e1);
    let offset: u64 = addr % 4096;
    assert(offset == addr & 0xfff) by (bit_vector)
        requires
            offset == addr % 4096,
    ;
    assert(frame + offset == frame | offset) by (bit_vector)
        requires
            frame % 4096 == 0,
            frame < 0x10_0000_0000_0000u64,
            offset < 4096,
    ;
}

/// A walk in progress: which entry of which table is to be read next.
pub struct PageWalk {
    addr: u64,
    level: u8,
    table: PhysFrame,
}

impl View for PageWalk {
    type V = WalkState;

    closed spec fn view(&self) -> WalkState {
        WalkState { addr: self.addr, level: self.level as int, table: self.table.start() }
    }
}

/// How a walk goes on after one entry.
pub enum WalkStep {
    /// Read the entry that the walk inside names, and step again.
    Descend(PageWalk),
    /// The walk is over: the physical address.
    Mapped(u64),
    /// The walk is over: the address is not mapped.
    NotMapped,
    /// The walk is over: it met a huge page, which it does not follow.
    HugePage,
}

impl View for WalkStep {
    type V = StepResult;

    open spec fn view(&self) -> StepResult {
        match self {
            WalkStep::Descend(walk) => StepResult::Descend(walk@),
            WalkStep::Mapped(phys) => StepResult::Mapped(*phys),
            WalkStep::NotMapped => StepResult::NotMapped,
            WalkStep::HugePage => StepResult::HugePage,
        }
    }
}

impl PageWalk {
    #[verifier::type_invariant]
    spec fn inv(self) -> bool {
        1 <= self.level <= 4
    }

    /// The walk for the virtual address `addr`, at the table of level 4 in
    /// the frame `level_4_table`. Bits 48 to 63 of the address take no part
    /// in the walk.
    pub fn start(addr: u64, level_4_table: PhysFrame) -> (r: Self)
        ensures
            r@ == (WalkState { addr, level: 4, table: level_4_table.start() }),
    {
        PageWalk { addr, level: 4, table: level_4_table }
    }

    /// The frame that holds the table to read next.
    pub fn table(&self) -> (r: PhysFrame)
        ensures
            r.start() == self@.table,
    {
        self.table
    }

    /// The virtual address at which the table to read next stands, all
    /// physical memory being mapped from `physical_memory_offset` on.
    pub fn table_address(&self, physical_memory_offset: u64) -> (r: Option<u64>)
        ensures
            r == phys_to_virt_spec(physical_memory_offset, self@.table),
    {
        phys_to_virt(physical_memory_offset, self.table.start_address())
    }

    /// The level of the table to read next: 4, 3, 2 or 1.
    pub fn level(&self) -> (r: u8)
        ensures
            r == self@.level,
            1 <= r <= 4,
    {
        proof {
            use_type_invariant(self);
        }
        self.level
    }

    /// The index of the entry to read next in that table, below 512.
    pub fn index(&self) -> (r: u16)
        ensures
            r == self@.index(),
            r < 512,
    {
        proof {
            use_type_invariant(self);
        }
        if self.level == 4 {
            p4_index(self.addr)
        } else if self.level == 3 {
            p3_index(self.addr)
        } else if self.level == 2 {
            p2_index(self.addr)
        } else {
            p1_index(self.addr)
        }
    }

    /// Goes on with the entry that was read at `index()` of `table()`. An
    /// entry that is not present ends the walk: the address is not mapped.
    /// An entry that maps a huge page ends it too, as unsupported. Else the
    /// entry names a frame: that of the next table, or, at level 1, the
    /// frame of the page, and the walk ends with the physical address.
    pub fn step(self, entry: u64) -> (r: WalkStep)
        ensures
            r@ == self@.step(entry),
            self@.level > 1 || !(r is Descend),
    {
        proof {
            use_type_invariant(&self);
        }
        match entry_frame(entry) {
            Err(FrameError::FrameNotPresent) => WalkStep::NotMapped,
            Err(FrameError::HugeFrame) => WalkStep::HugePage,
            Ok(frame) => {
                if self.level == 1 {
                    let offset = page_offset(self.addr);
                    WalkStep::Mapped(frame.start_address() + offset as u64)
                } else {
                    WalkStep::Descend(
                        PageWalk { addr: self.addr, level: self.level - 1, table: frame },
                    )
                }
            },
        }
    }
}

} // verus!
