//! End-to-end checks of the phase-2 orchestrator on a synthetic boot
//! image: a kernel plus two initial processes.

use xip_loader::args::{KernelArgument, TAG_INIE, TAG_XKRN};
use xip_loader::bootconfig::BootConfig;
use xip_loader::pagetable::LeafEntry;
use xip_loader::phase2::phase_2;
use xip_loader::{LoaderError, KERNEL_ARGUMENT_OFFSET, KERNEL_LOAD_OFFSET, PAGE_SIZE};

const SRAM_START: usize = 0x4000_0000;
const SRAM_SIZE: usize = 0x0100_0000;
const INIT_SIZE: usize = 0x8000;

fn kernel_tag() -> KernelArgument {
    // load offset, text offset, text size, data offset, data size,
    // bss size, entry point
    KernelArgument {
        name: TAG_XKRN,
        size: 28,
        data: vec![
            0x0010_0000,
            KERNEL_LOAD_OFFSET as u32,
            0x6000,
            KERNEL_LOAD_OFFSET as u32 + 0x8000,
            0x1000,
            0x800,
            KERNEL_LOAD_OFFSET as u32 + 0x20,
        ],
    }
}

fn init_tag(virt: u32, len: u32, flags: u32, entry: u32) -> KernelArgument {
    KernelArgument {
        name: TAG_INIE,
        size: 16,
        data: vec![0x0020_0000, entry, virt, len | (flags << 24)],
    }
}

fn boot(args: Vec<KernelArgument>) -> BootConfig {
    BootConfig::new(SRAM_START, SRAM_SIZE, INIT_SIZE, args)
}

fn leaf(cfg: &BootConfig, table: usize, virt: usize) -> LeafEntry {
    cfg.tables[table].entry_at(virt)
}

/// The full phase: a kernel and two processes come out with consistent
/// records, the kernel megapage slot is identical everywhere, and the
/// loader's private pages are reserved.
#[test]
fn phase2_full_image() {
    let mut cfg = boot(vec![
        kernel_tag(),
        init_tag(0x2000, 3000, 4, 0x2010),
        init_tag(0x8000, 0x2400, 1, 0x8000),
    ]);
    phase_2(&mut cfg).expect("phase 2");

    assert_eq!(cfg.processes.len(), 3);
    assert_eq!(cfg.tables.len(), 3);

    // process identifiers are embedded in order: kernel 1, then 2 and 3
    for (i, p) in cfg.processes.iter().enumerate() {
        assert_eq!(p.satp >> 22, 0x200 + i + 1);
        assert_eq!(p.satp & 0x8000_0000, 0x8000_0000);
    }
    assert_eq!(cfg.processes[0].entrypoint, KERNEL_LOAD_OFFSET + 0x20);
    assert_eq!(cfg.processes[1].entrypoint, 0x2010);
    assert_eq!(cfg.processes[2].entrypoint, 0x8000);

    // the top-4-MiB root slot is bit-identical across every process:
    // kernel text, stack and argument pages resolve identically through
    // every table
    for probe in [
        KERNEL_LOAD_OFFSET,
        KERNEL_LOAD_OFFSET + 0x5000,
        KERNEL_ARGUMENT_OFFSET,
        0xffff_0000 - PAGE_SIZE,
    ] {
        let k = leaf(&cfg, 0, probe);
        let a = leaf(&cfg, 1, probe);
        let b = leaf(&cfg, 2, probe);
        assert_eq!(k, a);
        assert_eq!(k, b);
        assert!(!matches!(k, LeafEntry::Unmapped));
    }

    // kernel argument window maps the boot-structure region in order
    let krn_struct_start = SRAM_START + SRAM_SIZE - INIT_SIZE;
    match leaf(&cfg, 0, KERNEL_ARGUMENT_OFFSET) {
        LeafEntry::Page { ppn, .. } => assert_eq!(ppn * PAGE_SIZE, krn_struct_start),
        LeafEntry::Unmapped => panic!("kernel arguments unmapped"),
    }

    // loader stack and signature scratch stay reserved; the page below
    // them is left free for a clean suspend image
    let pages = SRAM_SIZE / PAGE_SIZE;
    assert_eq!(cfg.runtime_page_tracker[pages - 1], 1);
    assert_eq!(cfg.runtime_page_tracker[pages - 2], 1);
    assert_eq!(cfg.runtime_page_tracker[pages - 3], 0);

    // every argument-window frame is owned by the kernel, except the
    // suspend page left free
    let base = (krn_struct_start - SRAM_START) / PAGE_SIZE;
    let arg_pages = (INIT_SIZE - 2 * PAGE_SIZE) / PAGE_SIZE;
    for k in 0..arg_pages {
        let expected = if base + k == pages - 3 { 0 } else { 1 };
        assert_eq!(cfg.runtime_page_tracker[base + k], expected);
    }

    // the two user processes' pages and the kernel's own root window use
    // pairwise distinct physical frames
    let mut frames = Vec::new();
    for (t, probe) in [(1usize, 0x2000usize), (2, 0x8000), (0, 0xff80_0000)] {
        match leaf(&cfg, t, probe) {
            LeafEntry::Page { ppn, .. } => frames.push(ppn),
            LeafEntry::Unmapped => panic!("expected a mapped page"),
        }
    }
    assert!(frames[0] != frames[1] && frames[0] != frames[2] && frames[1] != frames[2]);
}

/// An image with no kernel tag is rejected before anything is mapped.
#[test]
fn missing_kernel_rejected() {
    let mut cfg = boot(vec![init_tag(0x2000, 3000, 4, 0x2010)]);
    assert_eq!(phase_2(&mut cfg), Err(LoaderError::MissingKernel));
}

/// An image with two kernel tags is rejected.
#[test]
fn duplicate_kernel_rejected() {
    let mut cfg = boot(vec![kernel_tag(), kernel_tag()]);
    assert_eq!(phase_2(&mut cfg), Err(LoaderError::DuplicateKernel));
}

/// A kernel description outside the fixed kernel windows is rejected.
#[test]
fn kernel_out_of_range_rejected() {
    let mut bad = kernel_tag();
    bad.data[1] = 0x1000; // text far below the kernel window
    let mut cfg = boot(vec![bad]);
    assert_eq!(phase_2(&mut cfg), Err(LoaderError::KernelOutOfRange));
}

/// A truncated kernel tag is malformed.
#[test]
fn truncated_kernel_tag_rejected() {
    let mut bad = kernel_tag();
    bad.data.pop();
    bad.size = 24;
    let mut cfg = boot(vec![bad]);
    assert_eq!(phase_2(&mut cfg), Err(LoaderError::MalformedTag));
}

/// Unknown tags are skipped without effect.
#[test]
fn unknown_tags_skipped() {
    let mut cfg = boot(vec![
        KernelArgument { name: 0x7478_6554, size: 4, data: vec![0] },
        kernel_tag(),
    ]);
    phase_2(&mut cfg).expect("phase 2");
    assert_eq!(cfg.processes.len(), 1);
}
