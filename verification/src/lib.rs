//! The memory-management core of a small x86_64 kernel: heap allocators over a
//! fixed region, a physical frame allocator over the boot-time memory map and
//! the four-level page-table walk, together with the few pure pieces of the
//! text console and the interrupt numbering.
//!
//! Everything in this crate is plain computation on addresses and sizes. The
//! code that touches hardware (raw memory, control registers, I/O ports) lives
//! outside and drives these functions with the values it reads.

use vstd::prelude::*;

pub mod allocator;
pub mod interrupts;
pub mod memory;
pub mod vga_buffer;

verus! {

/// What the kernel tells the emulator when it ends a test run.
#[derive(Debug, Clone, Copy, PartialEq, Eq, Structural)]
pub enum QemuExitCode {
    Success,
    Failed,
}

impl QemuExitCode {
    /// The value written to the exit port of the emulator: `0x10` for
    /// success, `0x11` for failure.
    pub open spec fn code_spec(self) -> int {
        match self {
            QemuExitCode::Success => 0x10,
            QemuExitCode::Failed => 0x11,
        }
    }

    /// The value written to the exit port of the emulator.
    pub fn code(self) -> (r: u32)
        ensures
            r == self.code_spec(),
    {
        match self {
            QemuExitCode::Success => 0x10,
            QemuExitCode::Failed => 0x11,
        }
    }
}

} // verus!
