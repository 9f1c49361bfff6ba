//! The numbering of the hardware interrupts.
//!
//! The two interrupt controllers are remapped so that their interrupts
//! follow the 32 exceptions of the processor.

use vstd::prelude::*;

verus! {

/// The interrupt number of the first line of the first controller.
pub const PIC_1_OFFSET: u8 = 32;

/// The interrupt number of the first line of the second controller.
pub const PIC_2_OFFSET: u8 = PIC_1_OFFSET + 8;

/// The hardware interrupts that the kernel handles.
#[derive(Debug, Clone, Copy)]
pub enum InterruptIndex {
    /// The timer, on line 0 of the first controller.
    Timer,
    /// The keyboard, on line 1 of the first controller.
    Keyboard,
}

impl InterruptIndex {
    /// The interrupt number: `PIC_1_OFFSET` plus the line.
    pub open spec fn number(self) -> int {
        match self {
            InterruptIndex::Timer => PIC_1_OFFSET as int,
            InterruptIndex::Keyboard => PIC_1_OFFSET + 1,
        }
    }

    /// The interrupt number as a byte.
    pub fn as_u8(self) -> (r: u8)
        ensures
            r == self.number(),
    {
        match self {
            InterruptIndex::Timer => PIC_1_OFFSET,
            InterruptIndex::Keyboard => PIC_1_OFFSET + 1,
        }
    }

    /// The interrupt number as an index into the interrupt table.
    pub fn as_usize(self) -> (r: usize)
        ensures
            r == self.number(),
    {
        let number: u8 = self.as_u8();
        number as usize
    }
}

} // verus!
