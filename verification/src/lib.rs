//! Memory-initialization stage of a capability-based microkernel boot loader.
//!
//! Given a flattened boot image containing a kernel and a set of initial
//! processes, this library allocates physical pages, builds a two-level page
//! table per process, maps each program's sections into an isolated virtual
//! address space with the right permissions, records which process owns every
//! consumed physical frame, and performs the global fix-ups (shared kernel
//! megapage, loader-private page ownership) that the kernel's trap path
//! depends on.  Every step runs before any fault handler exists, so the
//! mapping and accounting arithmetic is stated in contracts and proved.

use vstd::prelude::*;

pub mod args;
pub mod bootconfig;
pub mod minielf;
pub mod pagetable;
pub mod phase2;
pub mod program;

verus! {

/// Process identifier; 0 marks a physical frame as free or permanently
/// reserved, 1 is the kernel, 2 and up are the initial processes.
pub type XousPid = u8;

/// Size of one physical page and of one page-table span unit, in bytes.
pub const PAGE_SIZE: usize = 4096;

/// Machine word size in bytes on the 32-bit target this layout serves.
pub const WORD_SIZE: usize = 4;

/// Top of the initial user stack (exclusive).
pub const USER_STACK_TOP: usize = 0x8000_0000;

/// Virtual window through which a process can see its own second-level
/// page-table pages.
pub const PAGE_TABLE_OFFSET: usize = 0xff40_0000;

/// Virtual address at which a process's root page table is mapped into the
/// process itself.
pub const PAGE_TABLE_ROOT_OFFSET: usize = 0xff80_0000;

/// Virtual address of the page holding the initial thread context record.
pub const CONTEXT_OFFSET: usize = 0xff80_1000;

/// Exclusive upper bound of the virtual region a user program may occupy.
pub const USER_AREA_END: usize = 0xff00_0000;

/// Top of the kernel's exception stack (exclusive).  All kernel structures
/// live within the topmost 4 MiB root-table slot.
pub const EXCEPTION_STACK_TOP: usize = 0xffff_0000;

/// Virtual address where the kernel text is expected to begin.
pub const KERNEL_LOAD_OFFSET: usize = 0xffd0_0000;

/// Number of pages backing the kernel's exception stack.
pub const KERNEL_STACK_PAGE_COUNT: usize = 1;

/// Virtual address at which the boot-generated kernel argument structures
/// are mapped into the kernel.
pub const KERNEL_ARGUMENT_OFFSET: usize = 0xffc0_0000;

/// Bytes at the very top of RAM (loader stack and signature scratch) that
/// are never mapped as kernel arguments.
pub const GUARD_MEMORY_BYTES: usize = 2 * PAGE_SIZE;

/// Page-table entry flag: the entry is valid (bit 0, so an even flag word is
/// an entry that merely reserves its slot).
pub const FLG_VALID: usize = 0x1;

/// Page-table entry flag: executable.
pub const FLG_X: usize = 0x8;

/// Page-table entry flag: writable.
pub const FLG_W: usize = 0x4;

/// Page-table entry flag: readable.
pub const FLG_R: usize = 0x2;

/// Page-table entry flag: accessible from user mode.
pub const FLG_U: usize = 0x10;

/// Page-table entry flag: accessed.
pub const FLG_A: usize = 0x40;

/// Page-table entry flag: dirty.
pub const FLG_D: usize = 0x80;

/// Number of stack pages declared for a user process; only the first is
/// backed by a physical frame at boot.
pub const STACK_PAGE_COUNT: usize = 8;

/// Every error this stage can detect is a fatal boot failure: the image is
/// corrupt or the reserved RAM region cannot hold what the image declares,
/// and continuing would risk constructing an address space that violates
/// isolation.  The caller must halt before any control transfer.
#[derive(Clone, Copy, Debug, PartialEq, Eq, Structural)]
pub enum LoaderError {
    /// A program's section addresses are not strictly increasing and
    /// non-overlapping.
    SectionsNotMonotone,
    /// A program section reaches outside the virtual region user programs
    /// may occupy, or into the fixed stack window.
    SectionOutOfRange,
    /// A tag's declared size does not match its payload.
    MalformedTag,
    /// The kernel program description declares a layout outside the
    /// top-4-MiB kernel window.
    KernelOutOfRange,
    /// The tag list contains no kernel image.
    MissingKernel,
    /// The tag list contains more than one kernel image.
    DuplicateKernel,
    /// The reserved RAM region has no free page left.
    OutOfMemory,
}

/// Entry point kept for an execute-in-place layout mode in which the
/// loader would emit, instead of applying, the list of map operations and
/// block copies for a program image.  The mapping work itself runs
/// through `MiniElf::load`; this mode performs nothing yet.
pub fn layout_process() {
}

} // verus!
