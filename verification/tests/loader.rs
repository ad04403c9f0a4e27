//! End-to-end checks of the section loader on small concrete images.

use xip_loader::args::KernelArgument;
use xip_loader::bootconfig::BootConfig;
use xip_loader::minielf::{MiniElf, MiniElfSection};
use xip_loader::pagetable::LeafEntry;
use xip_loader::{
    LoaderError, FLG_R, FLG_U, FLG_VALID, FLG_W, FLG_X, PAGE_SIZE, USER_STACK_TOP,
};

const SRAM_START: usize = 0x4000_0000;
const SRAM_SIZE: usize = 0x0100_0000;
const INIT_SIZE: usize = 0x4000;

fn fresh_cfg() -> BootConfig {
    let mut cfg = BootConfig::new(SRAM_START, SRAM_SIZE, INIT_SIZE, Vec::new());
    // phase_2 normally sizes these; size them by hand for direct loads
    cfg.processes.push(xip_loader::bootconfig::InitialProcess { satp: 0, entrypoint: 0, sp: 0 });
    cfg.processes.push(xip_loader::bootconfig::InitialProcess { satp: 0, entrypoint: 0, sp: 0 });
    cfg.tables.push(xip_loader::pagetable::PageTable::new());
    cfg.tables.push(xip_loader::pagetable::PageTable::new());
    cfg
}

fn section(virt: u32, len: u32, flags: u32) -> MiniElfSection {
    MiniElfSection { virt, size_and_flags: len | (flags << 24) }
}

fn elf_of(sections: Vec<MiniElfSection>) -> MiniElf {
    MiniElf { load_offset: 0, entry_point: 0x2000, sections }
}

fn leaf_flags(e: LeafEntry) -> usize {
    match e {
        LeafEntry::Page { flags, .. } => flags,
        LeafEntry::Unmapped => panic!("expected a mapped page"),
    }
}

fn leaf_ppn(e: LeafEntry) -> usize {
    match e {
        LeafEntry::Page { ppn, .. } => ppn,
        LeafEntry::Unmapped => panic!("expected a mapped page"),
    }
}

/// A single section of 3000 bytes at 0x2000, executable only: exactly one
/// physical page, leaf flags read + execute + user + valid, no write bit.
#[test]
fn single_page_executable_section() {
    let mut cfg = fresh_cfg();
    let elf = elf_of(vec![section(0x2000, 3000, 4)]);
    let allocated = elf.load(&mut cfg, 2).expect("load");
    assert_eq!(allocated, PAGE_SIZE);
    let e = cfg.tables[1].entry_at(0x2000);
    assert_eq!(leaf_flags(e), FLG_R | FLG_X | FLG_U | FLG_VALID);
    assert!(matches!(cfg.tables[1].entry_at(0x3000), LeafEntry::Unmapped));
}

/// A 4160-byte section at 0x2040 (64-byte in-page offset) spans into a
/// second page: exactly two physical pages, head chunk plus 128-byte
/// tail, with no full-page loop iteration.
#[test]
fn offset_section_spans_two_pages() {
    let mut cfg = fresh_cfg();
    let elf = elf_of(vec![section(0x2040, 4160, 0)]);
    let allocated = elf.load(&mut cfg, 2).expect("load");
    assert_eq!(allocated, 2 * PAGE_SIZE);
    let first = cfg.tables[1].entry_at(0x2000);
    let second = cfg.tables[1].entry_at(0x3000);
    assert_eq!(leaf_flags(first), FLG_R | FLG_U | FLG_VALID);
    assert_eq!(leaf_flags(second), FLG_R | FLG_U | FLG_VALID);
    assert_ne!(leaf_ppn(first), leaf_ppn(second));
    assert!(matches!(cfg.tables[1].entry_at(0x4000), LeafEntry::Unmapped));
}

/// Two sections meeting exactly at a page boundary (first ends at 0x3000,
/// second starts at 0x3000) get independent pages: two pages in total and
/// two distinct frames.
#[test]
fn adjacent_sections_at_page_boundary() {
    let mut cfg = fresh_cfg();
    let elf = elf_of(vec![section(0x2000, 0x1000, 0), section(0x3000, 0x800, 0)]);
    let allocated = elf.load(&mut cfg, 2).expect("load");
    assert_eq!(allocated, 2 * PAGE_SIZE);
    let first = cfg.tables[1].entry_at(0x2000);
    let second = cfg.tables[1].entry_at(0x3000);
    assert_ne!(leaf_ppn(first), leaf_ppn(second));
}

/// Two adjacent sections whose byte ranges straddle one page: the shared
/// page is allocated once, not twice.
#[test]
fn straddled_page_allocated_once() {
    let mut cfg = fresh_cfg();
    // first ends at 0x3800, second occupies the rest of that same page
    let elf = elf_of(vec![section(0x2000, 0x1800, 0), section(0x3800, 0x800, 0)]);
    let allocated = elf.load(&mut cfg, 2).expect("load");
    assert_eq!(allocated, 2 * PAGE_SIZE);
}

/// A straddling second section that also spills into further pages still
/// shares the first page and allocates only the spill.
#[test]
fn straddled_page_with_spill() {
    let mut cfg = fresh_cfg();
    let elf = elf_of(vec![section(0x2000, 0x1800, 0), section(0x3900, 0x1000, 0)]);
    let allocated = elf.load(&mut cfg, 2).expect("load");
    // pages 2, 3 (shared) and 4: three pages in all
    assert_eq!(allocated, 3 * PAGE_SIZE);
    let spill = cfg.tables[1].entry_at(0x4000);
    assert_eq!(leaf_flags(spill), FLG_R | FLG_U | FLG_VALID);
}

/// Non-monotone section lists are a fatal error and leave no mappings
/// behind for the process.
#[test]
fn non_monotone_sections_rejected() {
    let mut cfg = fresh_cfg();
    let elf = elf_of(vec![section(0x3000, 0x1000, 0), section(0x2000, 0x1000, 0)]);
    let r = elf.load(&mut cfg, 2);
    assert_eq!(r, Err(LoaderError::SectionsNotMonotone));
    assert!(matches!(cfg.tables[1].entry_at(0x2000), LeafEntry::Unmapped));
    assert!(matches!(cfg.tables[1].entry_at(0x3000), LeafEntry::Unmapped));
    assert_eq!(cfg.processes[1].satp, 0);
}

/// A section reaching past the user region is a fatal error.
#[test]
fn out_of_range_section_rejected() {
    let mut cfg = fresh_cfg();
    let elf = elf_of(vec![section(0xfeff_f000, 0x2000, 0)]);
    assert_eq!(elf.load(&mut cfg, 2), Err(LoaderError::SectionOutOfRange));
}

/// Exhaustion of the free region is reported, not papered over.
#[test]
fn out_of_memory_reported() {
    // a RAM so small that the setup pages alone cannot fit
    let mut cfg = BootConfig::new(SRAM_START, 4 * PAGE_SIZE, 2 * PAGE_SIZE, Vec::new());
    cfg.processes.push(xip_loader::bootconfig::InitialProcess { satp: 0, entrypoint: 0, sp: 0 });
    cfg.tables.push(xip_loader::pagetable::PageTable::new());
    let elf = elf_of(vec![section(0x2000, 3000, 0)]);
    assert_eq!(elf.load(&mut cfg, 1), Err(LoaderError::OutOfMemory));
}

/// After a process is loaded, its tracker entries name it as the owner of
/// every frame consumed for it, before any other process is loaded.
#[test]
fn tracker_owns_loaded_pages() {
    let mut cfg = fresh_cfg();
    let free_before = cfg.free_top;
    let elf = elf_of(vec![section(0x2000, 3000, 4)]);
    elf.load(&mut cfg, 2).expect("load");
    let free_after = cfg.free_top;
    let mut addr = free_after;
    while addr < free_before {
        let idx = (addr - SRAM_START) / PAGE_SIZE;
        assert_eq!(cfg.runtime_page_tracker[idx], 2);
        addr += PAGE_SIZE;
    }
    // a frame never handed out stays unowned
    let idx_free = (free_after - PAGE_SIZE - SRAM_START) / PAGE_SIZE;
    assert_eq!(cfg.runtime_page_tracker[idx_free], 0);
    // the section page frame is owned by the process that mapped it
    let e = cfg.tables[1].entry_at(0x2000);
    let frame_idx = (leaf_ppn(e) * PAGE_SIZE - SRAM_START) / PAGE_SIZE;
    assert_eq!(cfg.runtime_page_tracker[frame_idx], 2);
}

/// The process record is written once, with the fixed stack pointer and
/// the combined root-pointer / address-space-identifier value.
#[test]
fn process_record_written() {
    let mut cfg = fresh_cfg();
    let free_before = cfg.free_top;
    let elf = elf_of(vec![section(0x2000, 3000, 0)]);
    elf.load(&mut cfg, 2).expect("load");
    let rec = cfg.processes[1];
    assert_eq!(rec.entrypoint, 0x2000);
    assert_eq!(rec.sp, USER_STACK_TOP - 16);
    let root_frame = free_before - PAGE_SIZE;
    assert_eq!(rec.satp, 0x8000_0000 + 2 * 0x40_0000 + root_frame / PAGE_SIZE);
    // root table and first stack page are mapped; guards reserve only
    let root = cfg.tables[1].entry_at(xip_loader::PAGE_TABLE_ROOT_OFFSET);
    assert_eq!(leaf_flags(root), FLG_R | FLG_W | FLG_VALID);
    let sp_leaf = cfg.tables[1].entry_at(USER_STACK_TOP - PAGE_SIZE);
    assert_eq!(leaf_flags(sp_leaf), FLG_U | FLG_R | FLG_W | FLG_VALID);
    let guard = cfg.tables[1].entry_at(USER_STACK_TOP - 2 * PAGE_SIZE);
    assert_eq!(leaf_flags(guard), FLG_U | FLG_R | FLG_W);
    assert_eq!(leaf_ppn(guard), 0);
}

/// A writable section gets the write bit; the reserve-only flag does not
/// change the mapping.
#[test]
fn writable_and_reserve_only_flags() {
    let mut cfg = fresh_cfg();
    let elf = elf_of(vec![section(0x2000, 100, 1), section(0x3000, 100, 2)]);
    elf.load(&mut cfg, 2).expect("load");
    let w = cfg.tables[1].entry_at(0x2000);
    assert_eq!(leaf_flags(w), FLG_R | FLG_W | FLG_U | FLG_VALID);
    let nc = cfg.tables[1].entry_at(0x3000);
    assert_eq!(leaf_flags(nc), FLG_R | FLG_U | FLG_VALID);
}

/// Tag parsing: two payload header words then one section per word pair.
#[test]
fn minielf_parsing() {
    let tag = KernelArgument {
        name: xip_loader::args::TAG_INIE,
        size: 16,
        data: vec![0x1000, 0x2004, 0x2000, 3000 | (4 << 24)],
    };
    let elf = MiniElf::new(&tag).expect("parse");
    assert_eq!(elf.load_offset, 0x1000);
    assert_eq!(elf.entry_point, 0x2004);
    assert_eq!(elf.sections.len(), 1);
    assert_eq!(elf.sections[0].virt, 0x2000);
    assert_eq!(elf.sections[0].len(), 3000);
    assert!(elf.sections[0].no_copy() == false);
    assert!(elf.sections[0].flags() == 4);
}

/// A tag whose declared size disagrees with its payload, or whose payload
/// does not divide into whole section records, is malformed.
#[test]
fn malformed_tags_rejected() {
    let bad_size = KernelArgument { name: xip_loader::args::TAG_INIE, size: 12, data: vec![0, 0] };
    assert!(matches!(MiniElf::new(&bad_size), Err(LoaderError::MalformedTag)));
    let odd = KernelArgument { name: xip_loader::args::TAG_INIE, size: 12, data: vec![0, 0, 7] };
    assert!(matches!(MiniElf::new(&odd), Err(LoaderError::MalformedTag)));
    let short = KernelArgument { name: xip_loader::args::TAG_INIE, size: 4, data: vec![0] };
    assert!(matches!(MiniElf::new(&short), Err(LoaderError::MalformedTag)));
}

/// Section accessors mask the packed length-and-flags word exactly.
#[test]
fn section_accessors() {
    let s = MiniElfSection { virt: 0x8000, size_and_flags: 0x0300_1234 };
    assert_eq!(s.len(), 0x1234);
    assert_eq!(s.flags(), 3);
    assert!(s.no_copy());
    assert!(!s.is_empty());
    let plain = MiniElfSection { virt: 0, size_and_flags: 0x10 };
    assert_eq!(plain.len(), 0x10);
    assert_eq!(plain.flags(), 0);
    assert!(!plain.no_copy());
    assert!(!plain.is_empty());
}
