//! Section-oriented program images and their loader.
//!
//! A program image declares its layout as a list of sections (virtual
//! address, byte length, flag bits), strictly increasing and
//! non-overlapping.  The loader lays the program out into newly allocated
//! physical pages and produces a fully populated page table, allocating a
//! page that two adjacent sections straddle exactly once.

use vstd::prelude::*;

use crate::args::KernelArgument;
use crate::bootconfig::{
    lemma_window_after_alloc, lemma_window_refl, lemma_window_trans, BootConfig, InitialProcess,
};
use crate::pagetable::{
    distinct_frames, frames_above, leaf_is_valid, leaf_of, lemma_vpn_split, no_megapages,
    page_leaf, ppn_of, pt_wf, vpn_mapped, vpn_of, LeafEntry, PageTable, RootEntryView,
};
use crate::{LoaderError, XousPid, FLG_R, FLG_U, FLG_VALID, FLG_W, FLG_X, PAGE_SIZE};
use crate::{CONTEXT_OFFSET, PAGE_TABLE_ROOT_OFFSET, STACK_PAGE_COUNT, USER_AREA_END,
    USER_STACK_TOP};

verus! {

/// One section of a program image: its virtual address, and its byte
/// length packed with its flag bits (the low 24 bits are the length, the
/// top 8 bits are flags: bit 0 writable, bit 1 reserve-only, bit 2
/// executable).
#[derive(Clone, Copy, Debug, PartialEq, Eq, Structural)]
pub struct MiniElfSection {
    /// Virtual address of this section.
    pub virt: u32,
    /// Byte length in the low 24 bits, flags in the top 8.
    pub size_and_flags: u32,
}

/// Byte length of a section (the low 24 bits of its packed word).
pub open spec fn sec_len(s: MiniElfSection) -> int {
    (s.size_and_flags as int) % 0x0100_0000
}

/// The 8 flag bits of a section (the top 8 bits of its packed word).
pub open spec fn sec_flag_bits(s: MiniElfSection) -> int {
    (s.size_and_flags as int) / 0x0100_0000
}

/// Flag bit 0: the section is writable.
pub open spec fn sec_writable(s: MiniElfSection) -> bool {
    sec_flag_bits(s) % 2 == 1
}

/// Flag bit 1: no source bytes are copied for this section.
pub open spec fn sec_no_copy(s: MiniElfSection) -> bool {
    (sec_flag_bits(s) / 2) % 2 == 1
}

/// Flag bit 2: the section is executable.
pub open spec fn sec_executable(s: MiniElfSection) -> bool {
    (sec_flag_bits(s) / 4) % 2 == 1
}

/// One past the last byte address of a section.
pub open spec fn sec_end(s: MiniElfSection) -> int {
    s.virt + sec_len(s)
}

/// The leaf flags a section's pages receive: always readable,
/// user-accessible and valid; writable and executable as the section's
/// flag bits say.
pub open spec fn sec_leaf_flags(s: MiniElfSection) -> usize {
    (FLG_VALID + FLG_R + FLG_U + (if sec_writable(s) {
        FLG_W
    } else {
        0
    }) + (if sec_executable(s) {
        FLG_X
    } else {
        0
    })) as usize
}

/// First virtual page a section touches.
pub open spec fn first_vpn(s: MiniElfSection) -> int {
    s.virt as int / (PAGE_SIZE as int)
}

/// Last virtual page a section touches (its own first page if it is
/// empty).
pub open spec fn last_vpn(s: MiniElfSection) -> int {
    if sec_len(s) == 0 {
        first_vpn(s)
    } else {
        (sec_end(s) - 1) / (PAGE_SIZE as int)
    }
}

/// A section starting at `s.virt` continues a page that the previous
/// section (ending at byte `prev_end`) already ended inside, so that page
/// is already allocated and mapped.
pub open spec fn shares_page(prev_end: int, s: MiniElfSection) -> bool {
    prev_end % (PAGE_SIZE as int) != 0 && s.virt as int / (PAGE_SIZE as int) == prev_end / (
    PAGE_SIZE as int)
}

/// The set of virtual pages the loader maps for one section, given where
/// the previous section ended.
pub open spec fn sec_mapped_vpns(prev_end: int, s: MiniElfSection) -> Set<int> {
    if shares_page(prev_end, s) {
        vstd::set_lib::set_int_range(first_vpn(s) + 1, last_vpn(s) + 1)
    } else {
        vstd::set_lib::set_int_range(first_vpn(s), last_vpn(s) + 1)
    }
}

/// The number of pages the loader allocates for one section.
pub open spec fn sec_pages(prev_end: int, s: MiniElfSection) -> int {
    if shares_page(prev_end, s) {
        last_vpn(s) - first_vpn(s)
    } else {
        last_vpn(s) - first_vpn(s) + 1
    }
}

/// Section addresses are strictly increasing and non-overlapping: each
/// section starts at or after the end of the one before it.
pub open spec fn monotone_from(ss: Seq<MiniElfSection>, prev_end: int) -> bool
    decreases ss.len(),
{
    ss.len() == 0 || (ss[0].virt >= prev_end && monotone_from(
        ss.subrange(1, ss.len() as int),
        sec_end(ss[0]),
    ))
}

/// Where the last section of the list ends (or `prev_end` for an empty
/// list).
pub open spec fn chain_end(ss: Seq<MiniElfSection>, prev_end: int) -> int
    decreases ss.len(),
{
    if ss.len() == 0 {
        prev_end
    } else {
        chain_end(ss.subrange(1, ss.len() as int), sec_end(ss[0]))
    }
}

/// Total number of pages the loader allocates for a section list.
pub open spec fn chain_pages(ss: Seq<MiniElfSection>, prev_end: int) -> int
    decreases ss.len(),
{
    if ss.len() == 0 {
        0
    } else {
        sec_pages(prev_end, ss[0]) + chain_pages(ss.subrange(1, ss.len() as int), sec_end(ss[0]))
    }
}

/// All virtual pages the loader maps for a section list.
pub open spec fn chain_vpns(ss: Seq<MiniElfSection>, prev_end: int) -> Set<int>
    decreases ss.len(),
{
    if ss.len() == 0 {
        Set::empty()
    } else {
        sec_mapped_vpns(prev_end, ss[0]).union(
            chain_vpns(ss.subrange(1, ss.len() as int), sec_end(ss[0])),
        )
    }
}

/// All virtual pages touched by the byte ranges of a section list: the
/// union of each section's page span, independent of how the loader
/// shares straddled pages.
pub open spec fn span_vpns(ss: Seq<MiniElfSection>) -> Set<int>
    decreases ss.len(),
{
    if ss.len() == 0 {
        Set::empty()
    } else {
        vstd::set_lib::set_int_range(first_vpn(ss[0]), last_vpn(ss[0]) + 1).union(
            span_vpns(ss.subrange(1, ss.len() as int)),
        )
    }
}

/// The leaf flags page `v` ends up with: those of the latest section whose
/// mapping covers `v` (a later mapping of the same page overwrites the
/// slot).
pub open spec fn flags_for_vpn(ss: Seq<MiniElfSection>, prev_end: int, v: int) -> usize
    decreases ss.len(),
{
    if ss.len() == 0 {
        0
    } else if sec_mapped_vpns(chain_end(ss.drop_last(), prev_end), ss.last()).contains(v) {
        sec_leaf_flags(ss.last())
    } else {
        flags_for_vpn(ss.drop_last(), prev_end, v)
    }
}

/// The section record packed at word pair `i` of a process tag's payload.
pub open spec fn sec_at(data: Seq<u32>, i: int) -> MiniElfSection {
    MiniElfSection { virt: data[2 + 2 * i], size_and_flags: data[3 + 2 * i] }
}

/// The section list a process tag declares: one record per payload word
/// pair after the two header words (source offset and entry point).
pub open spec fn sections_of(tag: KernelArgument) -> Seq<MiniElfSection> {
    Seq::new(((tag.data@.len() - 2) / 2) as nat, |i: int| sec_at(tag.data@, i))
}

/// No section of the list is empty.
pub open spec fn all_nonempty(ss: Seq<MiniElfSection>) -> bool {
    forall|i: int| 0 <= i < ss.len() ==> sec_len(#[trigger] ss[i]) > 0
}

/// Every section of the list lies in the permitted user region.
pub open spec fn all_in_range(ss: Seq<MiniElfSection>) -> bool {
    forall|i: int| 0 <= i < ss.len() ==> sec_in_range(#[trigger] ss[i])
}

/// The virtual pages every process receives before its sections are laid
/// out: the page-table self view, the thread context record, the backed
/// first stack page, and the reserved stack guard pages below it.
pub open spec fn setup_vpn(v: int) -> bool {
    v == 0xff800 || v == 0xff801 || v == 0x7ffff || (0x7fff8 <= v < 0x7ffff)
}

/// The page that byte position `pe` falls inside, as a set: empty when
/// `pe` sits exactly on a page boundary (no page is partially used).
pub open spec fn boundary_page(pe: int) -> Set<int> {
    if pe % (PAGE_SIZE as int) != 0 {
        vstd::set_lib::set_int_range(pe / (PAGE_SIZE as int), pe / (PAGE_SIZE as int) + 1)
    } else {
        Set::empty()
    }
}

/// A section lies inside the virtual region user programs may occupy and
/// clear of the fixed stack window.
pub open spec fn sec_in_range(s: MiniElfSection) -> bool {
    &&& sec_end(s) <= USER_AREA_END
    &&& ((s.virt < USER_STACK_TOP - STACK_PAGE_COUNT * PAGE_SIZE && sec_end(s) <= USER_STACK_TOP
        - STACK_PAGE_COUNT * PAGE_SIZE) || s.virt >= USER_STACK_TOP)
}

impl MiniElfSection {
    /// Byte length of the section: the packed word with the top eight flag
    /// bits stripped off.
    pub fn len(&self) -> (r: usize)
        ensures
            r == sec_len(*self),
            r < 0x0100_0000,
    {
        (self.size_and_flags % 0x0100_0000) as usize
    }

    /// A section record never reports itself empty, even with a zero
    /// length; emptiness plays no role in the mapping algorithm.
    pub fn is_empty(&self) -> (r: bool)
        ensures
            r == false,
    {
        false
    }

    /// The eight flag bits of the section.
    pub fn flags(&self) -> (r: usize)
        ensures
            r == sec_flag_bits(*self),
            r < 0x100,
    {
        (self.size_and_flags / 0x0100_0000) as usize
    }

    /// Flag bit 1: the section's bytes are not copied from the source
    /// image (a reserve-only region).
    pub fn no_copy(&self) -> (r: bool)
        ensures
            r == sec_no_copy(*self),
    {
        proof {
            vstd::arithmetic::div_mod::lemma_div_denominator(
                self.size_and_flags as int,
                0x0100_0000,
                2,
            );
        }
        (self.size_and_flags / 0x0200_0000) % 2 == 1
    }
}

/// A program image suitable for mapping into RAM: where its bytes sit in
/// the source medium, where execution starts, and its section list.
#[derive(Debug)]
pub struct MiniElf {
    /// Physical source address of this program's bytes, carried for the
    /// copy step that moves the image into the mapped pages; the mapping
    /// and accounting stage records it without reading it.
    pub load_offset: u32,
    /// Virtual address of the entry point.
    pub entry_point: u32,
    /// All sections of this image, in virtual-address order.
    pub sections: Vec<MiniElfSection>,
}

impl MiniElf {
    /// Parse a program image from its tag: the first two payload words are
    /// the source offset and the entry point, followed by one pair of
    /// words per section.  A tag whose size disagrees with its payload, or
    /// whose payload does not divide into whole section records, is a
    /// fatal boot error.
    pub fn new(tag: &KernelArgument) -> (r: Result<MiniElf, LoaderError>)
        requires
            tag.data@.len() <= 0x3fff_ffff,
        ensures
            match r {
                Ok(elf) => {
                    &&& tag.size_ok()
                    &&& tag.data@.len() >= 2
                    &&& (tag.data@.len() - 2) % 2 == 0
                    &&& elf.load_offset == tag.data@[0]
                    &&& elf.entry_point == tag.data@[1]
                    &&& elf.sections@.len() == (tag.data@.len() - 2) / 2
                    &&& forall|i: int|
                        0 <= i < elf.sections@.len() ==> (#[trigger] elf.sections@[i]).virt
                            == tag.data@[2 + 2 * i] && elf.sections@[i].size_and_flags
                            == tag.data@[3 + 2 * i]
                },
                Err(e) => {
                    &&& e == LoaderError::MalformedTag
                    &&& (!tag.size_ok() || tag.data@.len() < 2 || (tag.data@.len() - 2) % 2
                        != 0)
                },
            },
    {
        if !tag.check_size() {
            return Err(LoaderError::MalformedTag);
        }
        let words: usize = tag.data.len();
        if words < 2 || (words - 2) % 2 != 0 {
            return Err(LoaderError::MalformedTag);
        }
        let mut sections: Vec<MiniElfSection> = Vec::new();
        let count: usize = (words - 2) / 2;
        proof {
            vstd::arithmetic::div_mod::lemma_fundamental_div_mod(tag.data@.len() as int - 2, 2);
        }
        while sections.len() < count
            invariant
                sections.len() <= count,
                count == (tag.data@.len() - 2) / 2,
                (tag.data@.len() - 2) % 2 == 0,
                tag.data@.len() >= 2,
                2 * count + 2 == tag.data@.len(),
                tag.data@.len() <= 0x3fff_ffff,
                forall|i: int|
                    0 <= i < sections@.len() ==> (#[trigger] sections@[i]).virt == tag.data@[2 + 2
                        * i] && sections@[i].size_and_flags == tag.data@[3 + 2 * i],
            decreases count - sections.len(),
        {
            let i: usize = sections.len();
            proof {
                vstd::arithmetic::div_mod::lemma_fundamental_div_mod(
                    tag.data@.len() as int - 2,
                    2,
                );
            }
            let s = MiniElfSection {
                virt: tag.data[2 + 2 * i],
                size_and_flags: tag.data[3 + 2 * i],
            };
            sections.push(s);
        }
        Ok(MiniElf { load_offset: tag.data[0], entry_point: tag.data[1], sections })
    }

    /// Load the process into its own address space: allocate and map the
    /// page-table root at its self-view window, the initial thread context
    /// record, the first stack page (with reserved guard pages below it),
    /// then lay out every section in increasing virtual-address order, and
    /// finally write the process record.  Returns the number of bytes of
    /// newly allocated section pages.
    ///
    /// Success is owed whenever the section list is strictly increasing,
    /// non-overlapping and in range, and the free region holds at least
    /// five pages more than twice the section page count.
    #[verifier::rlimit(100)]
    pub fn load(&self, cfg: &mut BootConfig, pid: XousPid) -> (r: Result<usize, LoaderError>)
        requires
            old(cfg).wf(),
            1 <= pid,
            pid as int <= old(cfg).processes@.len(),
        ensures
            final(cfg).wf(),
            final(cfg).same_geometry(old(cfg)),
            final(cfg).free_top <= old(cfg).free_top,
            final(cfg).tracker_window(old(cfg), pid),
            final(cfg).processes@.len() == old(cfg).processes@.len(),
            final(cfg).tables@.len() == old(cfg).tables@.len(),
            old(cfg).free_top - final(cfg).free_top <= PAGE_SIZE * (5 + 2 * chain_pages(
                self.sections@,
                0,
            )),
            monotone_from(self.sections@, 0) && all_in_range(self.sections@) && old(
                cfg,
            ).free_top >= old(cfg).sram_start + PAGE_SIZE * (5 + 2 * chain_pages(
                self.sections@,
                0,
            )) ==> r is Ok,
            match r {
                Ok(n) => {
                    &&& monotone_from(self.sections@, 0)
                    &&& all_in_range(self.sections@)
                    &&& n == PAGE_SIZE * chain_pages(self.sections@, 0)
                    &&& n <= old(cfg).free_top - final(cfg).free_top
                    &&& old(cfg).free_top - final(cfg).free_top >= 5 * PAGE_SIZE
                    &&& forall|v: int|
                        0 <= v < 0x100000 && #[trigger] vpn_mapped(
                            final(cfg).tables@[pid as int - 1]@,
                            v,
                        ) ==> final(cfg).free_top <= PAGE_SIZE as int * (leaf_of(
                            final(cfg).tables@[pid as int - 1]@,
                            v,
                        )->Page_ppn as int) && PAGE_SIZE as int * (leaf_of(
                            final(cfg).tables@[pid as int - 1]@,
                            v,
                        )->Page_ppn as int) < old(cfg).free_top
                    &&& forall|q: int|
                        (0 <= q && q < old(cfg).processes@.len() && q != pid as int - 1) ==> (
                        #[trigger] final(cfg).processes@[q] == old(cfg).processes@[q]
                            && final(cfg).tables@[q] == old(cfg).tables@[q])
                    &&& final(cfg).processes@[pid as int - 1].entrypoint == self.entry_point
                    &&& final(cfg).processes@[pid as int - 1].sp == USER_STACK_TOP - 16
                    &&& final(cfg).processes@[pid as int - 1].satp == 0x8000_0000 + pid as int
                        * 0x40_0000 + (old(cfg).free_top - PAGE_SIZE) / (PAGE_SIZE as int)
                    &&& pt_wf(final(cfg).tables@[pid as int - 1]@)
                    &&& no_megapages(final(cfg).tables@[pid as int - 1]@)
                    &&& distinct_frames(final(cfg).tables@[pid as int - 1]@)
                    &&& leaf_of(final(cfg).tables@[pid as int - 1]@, 0xff800) == page_leaf(
                        ppn_of(old(cfg).free_top - PAGE_SIZE),
                        (FLG_R + FLG_W + FLG_VALID) as usize,
                    )
                    &&& leaf_of(final(cfg).tables@[pid as int - 1]@, 0xff801) == page_leaf(
                        ppn_of(old(cfg).free_top - 3 * PAGE_SIZE),
                        (FLG_R + FLG_W + FLG_VALID) as usize,
                    )
                    &&& leaf_of(final(cfg).tables@[pid as int - 1]@, 0x7ffff) == page_leaf(
                        ppn_of(old(cfg).free_top - 4 * PAGE_SIZE),
                        (FLG_U + FLG_R + FLG_W + FLG_VALID) as usize,
                    )
                    &&& forall|v: int|
                        0x7fff8 <= v < 0x7ffff ==> #[trigger] leaf_of(
                            final(cfg).tables@[pid as int - 1]@,
                            v,
                        ) == page_leaf(0, (FLG_U + FLG_R + FLG_W) as usize)
                    &&& forall|v: int|
                        chain_vpns(self.sections@, 0).contains(v) ==> ((#[trigger] leaf_of(
                            final(cfg).tables@[pid as int - 1]@,
                            v,
                        )) matches LeafEntry::Page { ppn, flags } && flags == flags_for_vpn(
                            self.sections@,
                            0,
                            v,
                        ))
                    &&& forall|v: int|
                        0 <= v < 0x100000 && !chain_vpns(self.sections@, 0).contains(v)
                            && !setup_vpn(v) ==> #[trigger] leaf_of(
                            final(cfg).tables@[pid as int - 1]@,
                            v,
                        ) is Unmapped
                },
                Err(e) => {
                    &&& final(cfg).processes@ == old(cfg).processes@
                    &&& final(cfg).tables@ == old(cfg).tables@
                    &&& (e == LoaderError::SectionsNotMonotone ==> !monotone_from(
                        self.sections@,
                        0,
                    ))
                    &&& (e == LoaderError::SectionOutOfRange ==> !all_in_range(self.sections@))
                    &&& (e == LoaderError::SectionsNotMonotone || e
                        == LoaderError::SectionOutOfRange || e == LoaderError::OutOfMemory)
                },
            },
    {
        let ghost ss = self.sections@;
        let ghost cfge = *cfg;
        proof {
            lemma_chain_pages_nonneg(ss, 0);
        }

        // Page-table root, mapped into the process's own self-view window.
        let satp_address: usize = match cfg.alloc_page(pid) {
            Ok(a) => a,
            Err(e) => {
                proof {
                    lemma_window_refl(&cfge, pid);
                }
                return Err(e);
            },
        };
        let mut pt = PageTable::new();
        let ghost cfg1 = *cfg;
        proof {
            lemma_window_after_alloc(&cfg1, &cfge, pid);
            lemma_div_interval(PAGE_TABLE_ROOT_OFFSET as int, PAGE_SIZE as int * 1024, 1022);
            lemma_div_interval(PAGE_TABLE_ROOT_OFFSET as int, PAGE_SIZE as int, 0xff800);
        }
        let ghost pt1 = pt@;
        match cfg.map_page(&mut pt, satp_address, PAGE_TABLE_ROOT_OFFSET, FLG_R + FLG_W
            + FLG_VALID, pid) {
            Ok(u) => {},
            Err(e) => {
                proof {
                    lemma_window_trans(cfg, &cfg1, &cfge, pid);
                }
                return Err(e);
            },
        }
        let ghost cfg2 = *cfg;
        proof {
            if cfg.free_top != cfg1.free_top {
                lemma_window_after_alloc(cfg, &cfg1, pid);
            }
            lemma_window_trans(cfg, &cfg1, &cfge, pid);
            assert(vpn_of(PAGE_TABLE_ROOT_OFFSET as int) == 0xff800);
            assert(PAGE_SIZE as int * (ppn_of(satp_address as int) as int) == satp_address) by {
                vstd::arithmetic::div_mod::lemma_fundamental_div_mod(
                    satp_address as int,
                    PAGE_SIZE as int,
                );
            }
            lemma_frames_step(
                pt1,
                pt@,
                0xff800,
                ppn_of(satp_address as int),
                (FLG_R + FLG_W + FLG_VALID) as usize,
                satp_address as int,
                cfge.free_top as int,
                cfg.free_top as int,
            );
        }

        // Initial thread context record.
        let thread_address: usize = match cfg.alloc_page(pid) {
            Ok(a) => a,
            Err(e) => {
                proof {
                    lemma_window_trans(cfg, &cfg2, &cfge, pid);
                }
                return Err(e);
            },
        };
        let ghost cfg3 = *cfg;
        proof {
            lemma_window_after_alloc(&cfg3, &cfg2, pid);
            lemma_window_trans(cfg, &cfg2, &cfge, pid);
            lemma_div_interval(CONTEXT_OFFSET as int, PAGE_SIZE as int * 1024, 1022);
            lemma_div_interval(CONTEXT_OFFSET as int, PAGE_SIZE as int, 0xff801);
        }
        let ghost pt3 = pt@;
        match cfg.map_page(&mut pt, thread_address, CONTEXT_OFFSET, FLG_R + FLG_W + FLG_VALID,
            pid) {
            Ok(u) => {},
            Err(e) => {
                proof {
                    lemma_window_trans(cfg, &cfg3, &cfge, pid);
                }
                return Err(e);
            },
        }
        let ghost cfg4 = *cfg;
        proof {
            if cfg.free_top != cfg3.free_top {
                lemma_window_after_alloc(cfg, &cfg3, pid);
            }
            lemma_window_trans(cfg, &cfg3, &cfge, pid);
            assert(vpn_of(CONTEXT_OFFSET as int) == 0xff801);
            assert(cfg4.free_top == cfg3.free_top);
            assert(PAGE_SIZE as int * (ppn_of(thread_address as int) as int) == thread_address)
                by {
                vstd::arithmetic::div_mod::lemma_fundamental_div_mod(
                    thread_address as int,
                    PAGE_SIZE as int,
                );
            }
            lemma_frames_step(
                pt3,
                pt@,
                0xff801,
                ppn_of(thread_address as int),
                (FLG_R + FLG_W + FLG_VALID) as usize,
                thread_address as int,
                cfg2.free_top as int,
                cfg.free_top as int,
            );
        }

        // First stack page, backed by a real frame; the stack pointer
        // starts 16 bytes below the top of the user stack window.
        let stack_addr: usize = USER_STACK_TOP - 16;
        let sp_page: usize = match cfg.alloc_page(pid) {
            Ok(a) => a,
            Err(e) => {
                proof {
                    lemma_window_trans(cfg, &cfg4, &cfge, pid);
                }
                return Err(e);
            },
        };
        let ghost cfg5 = *cfg;
        proof {
            lemma_window_after_alloc(&cfg5, &cfg4, pid);
            lemma_window_trans(cfg, &cfg4, &cfge, pid);
            lemma_div_interval(USER_STACK_TOP as int - PAGE_SIZE, PAGE_SIZE as int * 1024, 511);
            lemma_div_interval(USER_STACK_TOP as int - PAGE_SIZE, PAGE_SIZE as int, 0x7ffff);
        }
        let ghost pt5 = pt@;
        match cfg.map_page(&mut pt, sp_page, USER_STACK_TOP - PAGE_SIZE, FLG_U + FLG_R + FLG_W
            + FLG_VALID, pid) {
            Ok(u) => {},
            Err(e) => {
                proof {
                    lemma_window_trans(cfg, &cfg5, &cfge, pid);
                }
                return Err(e);
            },
        }
        let ghost cfg6 = *cfg;
        proof {
            if cfg.free_top != cfg5.free_top {
                lemma_window_after_alloc(cfg, &cfg5, pid);
            }
            lemma_window_trans(cfg, &cfg5, &cfge, pid);
            assert(vpn_of(USER_STACK_TOP as int - PAGE_SIZE) == 0x7ffff);
            assert(PAGE_SIZE as int * (ppn_of(sp_page as int) as int) == sp_page) by {
                vstd::arithmetic::div_mod::lemma_fundamental_div_mod(
                    sp_page as int,
                    PAGE_SIZE as int,
                );
            }
            lemma_frames_step(
                pt5,
                pt@,
                0x7ffff,
                ppn_of(sp_page as int),
                (FLG_U + FLG_R + FLG_W + FLG_VALID) as usize,
                sp_page as int,
                cfg4.free_top as int,
                cfg.free_top as int,
            );
            assert(satp_address == cfge.free_top - PAGE_SIZE);
            assert(thread_address == cfge.free_top - 3 * PAGE_SIZE);
            assert(sp_page == cfge.free_top - 4 * PAGE_SIZE);
            assert(pt3[511] is Unmapped);
            assert(pt5[511] is Unmapped);
            assert(cfg.free_top == cfge.free_top - 5 * PAGE_SIZE);
        }

        // Reserve the guard pages below the first stack page: declared
        // virtual space for later stack growth, not yet backed by frames.
        let mut i: usize = 1;
        while i < STACK_PAGE_COUNT
            invariant
                1 <= i <= STACK_PAGE_COUNT,
                cfge == *old(cfg),
                cfge.wf(),
                1 <= pid,
                pid as int <= cfge.processes@.len(),
                cfg.wf(),
                cfg.same_geometry(&cfge),
                cfg.processes@ == cfge.processes@,
                cfg.tables@ == cfge.tables@,
                cfg.free_top == cfg6.free_top,
                cfg6.free_top <= cfge.free_top,
                cfg.runtime_page_tracker@ == cfg6.runtime_page_tracker@,
                cfg6.same_geometry(&cfge),
                cfg6.tracker_window(&cfge, pid),
                cfg6.wf(),
                pt_wf(pt@),
                no_megapages(pt@),
                frames_above(pt@, cfg.free_top as int),
                distinct_frames(pt@),
                leaf_of(pt@, 0xff800) == page_leaf(
                    ppn_of(cfge.free_top - PAGE_SIZE),
                    (FLG_R + FLG_W + FLG_VALID) as usize,
                ),
                leaf_of(pt@, 0xff801) == page_leaf(
                    ppn_of(cfge.free_top - 3 * PAGE_SIZE),
                    (FLG_R + FLG_W + FLG_VALID) as usize,
                ),
                leaf_of(pt@, 0x7ffff) == page_leaf(
                    ppn_of(cfge.free_top - 4 * PAGE_SIZE),
                    (FLG_U + FLG_R + FLG_W + FLG_VALID) as usize,
                ),
                forall|v: int|
                    0x7ffff - i < v < 0x7ffff ==> #[trigger] leaf_of(pt@, v) == page_leaf(
                        0,
                        (FLG_U + FLG_R + FLG_W) as usize,
                    ),
                forall|v: int|
                    0 <= v < 0x100000 && v != 0xff800 && v != 0xff801 && !(0x7ffff - i < v
                        <= 0x7ffff) ==> #[trigger] leaf_of(pt@, v) is Unmapped,
            decreases STACK_PAGE_COUNT - i,
        {
            let page_addr: usize = USER_STACK_TOP - PAGE_SIZE * (i + 1);
            proof {
                vstd::arithmetic::mul::lemma_mul_is_distributive_sub(
                    PAGE_SIZE as int,
                    0x80000,
                    i as int + 1,
                );
                lemma_div_interval(page_addr as int, PAGE_SIZE as int * 1024, 511);
                lemma_div_interval(page_addr as int, PAGE_SIZE as int, 0x7ffff - i as int);
                vstd::arithmetic::div_mod::lemma_mod_multiples_basic(
                    0x7ffff - i as int,
                    PAGE_SIZE as int,
                );
            }
            let ghost pt_g = pt@;
            let ghost cfg_g = *cfg;
            match cfg.map_page(&mut pt, 0, page_addr, FLG_U + FLG_R + FLG_W, pid) {
                Ok(u) => {},
                Err(e) => {
                    proof {
                        assert(false);
                    }
                    return Err(e);
                },
            }
            proof {
                assert(vpn_of(page_addr as int) == 0x7ffff - i as int);
                assert(pt_g[511] is Table) by {
                    assert(leaf_of(pt_g, 0x7ffff) is Page);
                }
                assert(cfg.free_top == cfg_g.free_top);
                assert(cfg.runtime_page_tracker@ == cfg_g.runtime_page_tracker@);
                assert(!vpn_mapped(pt@, 0x7ffff - i as int)) by {
                    assert(leaf_of(pt@, 0x7ffff - i as int) == page_leaf(
                        ppn_of(0),
                        (FLG_U + FLG_R + FLG_W) as usize,
                    ));
                }
                assert forall|v: int| 0 <= v < 0x100000 && vpn_mapped(pt@, v) implies
                    PAGE_SIZE as int * (leaf_of(pt@, v)->Page_ppn as int) >= cfg.free_top as int
                by {
                    assert(v != 0x7ffff - i as int);
                    assert(leaf_of(pt@, v) == leaf_of(pt_g, v));
                    assert(vpn_mapped(pt_g, v));
                    assert(PAGE_SIZE as int * (leaf_of(pt_g, v)->Page_ppn as int)
                        >= cfg_g.free_top as int);
                }
                assert forall|v1: int, v2: int|
                    0 <= v1 < 0x100000 && 0 <= v2 < 0x100000 && v1 != v2 && vpn_mapped(pt@, v1)
                        && vpn_mapped(pt@, v2) implies leaf_of(pt@, v1)->Page_ppn != leaf_of(
                    pt@,
                    v2,
                )->Page_ppn by {
                    assert(v1 != 0x7ffff - i as int && v2 != 0x7ffff - i as int);
                    assert(leaf_of(pt@, v1) == leaf_of(pt_g, v1));
                    assert(leaf_of(pt@, v2) == leaf_of(pt_g, v2));
                    assert(vpn_mapped(pt_g, v1) && vpn_mapped(pt_g, v2));
                }
            }
            i = i + 1;
        }

        // Lay the sections out in increasing virtual-address order.
        let ghost cfg_setup = *cfg;
        let ghost pt_setup = pt@;
        let mut allocated_bytes: usize = 0;
        let mut previous_addr: usize = 0;
        let mut ix: usize = 0;
        let n_sections: usize = self.sections.len();
        proof {
            assert(ss.take(0) =~= Seq::<MiniElfSection>::empty());
            assert(cfg.free_top == cfge.free_top - 5 * PAGE_SIZE);
            assert(PAGE_SIZE as int * (ppn_of(cfge.free_top - PAGE_SIZE) as int) == cfge.free_top
                - PAGE_SIZE) by {
                vstd::arithmetic::div_mod::lemma_fundamental_div_mod(
                    cfge.free_top - PAGE_SIZE,
                    PAGE_SIZE as int,
                );
            }
            assert(PAGE_SIZE as int * (ppn_of(cfge.free_top - 3 * PAGE_SIZE) as int)
                == cfge.free_top - 3 * PAGE_SIZE) by {
                vstd::arithmetic::div_mod::lemma_fundamental_div_mod(
                    cfge.free_top - 3 * PAGE_SIZE,
                    PAGE_SIZE as int,
                );
            }
            assert(PAGE_SIZE as int * (ppn_of(cfge.free_top - 4 * PAGE_SIZE) as int)
                == cfge.free_top - 4 * PAGE_SIZE) by {
                vstd::arithmetic::div_mod::lemma_fundamental_div_mod(
                    cfge.free_top - 4 * PAGE_SIZE,
                    PAGE_SIZE as int,
                );
            }
            assert forall|v: int| 0 <= v < 0x100000 && vpn_mapped(pt@, v) implies PAGE_SIZE as int
                * (#[trigger] leaf_of(pt@, v)->Page_ppn as int) < cfge.free_top by {
                if v != 0xff800 && v != 0xff801 && v != 0x7ffff {
                    assert(!leaf_is_valid(leaf_of(pt@, v)));
                }
            }
        }
        while ix < n_sections
            invariant
                ix <= n_sections,
                n_sections == ss.len(),
                ss == self.sections@,
                cfge == *old(cfg),
                cfge.wf(),
                1 <= pid,
                pid as int <= cfge.processes@.len(),
                cfg.wf(),
                cfg.same_geometry(&cfge),
                cfg.processes@ == cfge.processes@,
                cfg.tables@ == cfge.tables@,
                cfg.free_top <= cfg_setup.free_top,
                cfg_setup.free_top == cfge.free_top - 5 * PAGE_SIZE,
                cfg.tracker_window(&cfge, pid),
                forall|v: int|
                    0 <= v < 0x100000 && vpn_mapped(pt@, v) ==> PAGE_SIZE as int * (
                    #[trigger] leaf_of(pt@, v)->Page_ppn as int) < cfge.free_top,
                cfge.free_top - cfg.free_top <= PAGE_SIZE * (5 + 2 * chain_pages(
                    ss.take(ix as int),
                    0,
                )),
                pt_wf(pt@),
                no_megapages(pt@),
                frames_above(pt@, cfg.free_top as int),
                distinct_frames(pt@),
                monotone_from(ss.take(ix as int), 0),
                forall|j: int| 0 <= j < ix ==> sec_in_range(#[trigger] ss[j]),
                previous_addr == chain_end(ss.take(ix as int), 0),
                previous_addr <= 0xff00_0000,
                allocated_bytes == PAGE_SIZE * chain_pages(ss.take(ix as int), 0),
                allocated_bytes <= cfg_setup.free_top - cfg.free_top,
                leaf_of(pt@, 0xff800) == page_leaf(
                    ppn_of(cfge.free_top - PAGE_SIZE),
                    (FLG_R + FLG_W + FLG_VALID) as usize,
                ),
                leaf_of(pt@, 0xff801) == page_leaf(
                    ppn_of(cfge.free_top - 3 * PAGE_SIZE),
                    (FLG_R + FLG_W + FLG_VALID) as usize,
                ),
                leaf_of(pt@, 0x7ffff) == page_leaf(
                    ppn_of(cfge.free_top - 4 * PAGE_SIZE),
                    (FLG_U + FLG_R + FLG_W + FLG_VALID) as usize,
                ),
                forall|v: int|
                    0x7fff8 <= v < 0x7ffff ==> #[trigger] leaf_of(pt@, v) == page_leaf(
                        0,
                        (FLG_U + FLG_R + FLG_W) as usize,
                    ),
                forall|v: int|
                    chain_vpns(ss.take(ix as int), 0).contains(v) ==> ((#[trigger] leaf_of(
                        pt@,
                        v,
                    )) matches LeafEntry::Page { ppn, flags } && flags == flags_for_vpn(
                        ss.take(ix as int),
                        0,
                        v,
                    )),
                forall|v: int|
                    0 <= v < 0x100000 && !chain_vpns(ss.take(ix as int), 0).contains(v)
                        && !setup_vpn(v) ==> #[trigger] leaf_of(pt@, v) is Unmapped,
                forall|v: int|
                    #[trigger] chain_vpns(ss.take(ix as int), 0).contains(v) ==> 0 <= v
                        <= 0xff000,
            decreases n_sections - ix,
        {
            let section: MiniElfSection = self.sections[ix];
            proof {
                assert(section == ss[ix as int]);
                lemma_chain_pages_nonneg(ss, 0);
            }
            if (section.virt as usize) < previous_addr {
                proof {
                    if monotone_from(ss, 0) {
                        lemma_monotone_at(ss, 0, ix as int);
                    }
                    lemma_chain_suffix(ss, 0, ix as int);
                    lemma_chain_pages_nonneg(ss.skip(ix as int), chain_end(ss.take(ix as int), 0));
                }
                return Err(LoaderError::SectionsNotMonotone);
            }
            let sb: usize = USER_STACK_TOP - STACK_PAGE_COUNT * PAGE_SIZE;
            let end64: u64 = section.virt as u64 + section.len() as u64;
            let in_range: bool = end64 <= (USER_AREA_END as u64) && (((section.virt as u64)
                < (sb as u64) && end64 <= (sb as u64)) || (section.virt as u64)
                >= (USER_STACK_TOP as u64));
            if !in_range {
                proof {
                    assert(!sec_in_range(ss[ix as int]));
                    lemma_chain_suffix(ss, 0, ix as int);
                    lemma_chain_pages_nonneg(ss.skip(ix as int), chain_end(ss.take(ix as int), 0));
                }
                return Err(LoaderError::SectionOutOfRange);
            }
            proof {
                assert(sec_in_range(section));
                lemma_sec_pages_count(previous_addr as int, section);
                lemma_sec_range_vpns(previous_addr as int, section);
            }
            let ghost cfg_i = *cfg;
            let ghost pt_i = pt@;
            let m: usize = match map_section(cfg, &mut pt, pid, section, previous_addr) {
                Ok(m) => m,
                Err(e) => {
                    proof {
                        lemma_window_trans(cfg, &cfg_i, &cfge, pid);
                        lemma_chain_snoc(ss.take(ix as int), 0, section);
                        assert(ss.take(ix as int + 1) =~= ss.take(ix as int).push(section));
                        lemma_chain_suffix(ss, 0, ix as int + 1);
                        lemma_chain_pages_nonneg(
                            ss.skip(ix as int + 1),
                            chain_end(ss.take(ix as int + 1), 0),
                        );
                        lemma_sec_pages_count(previous_addr as int, section);
                    }
                    return Err(e);
                },
            };
            proof {
                lemma_window_trans(cfg, &cfg_i, &cfge, pid);
                lemma_chain_snoc(ss.take(ix as int), 0, section);
                assert(ss.take(ix as int + 1) =~= ss.take(ix as int).push(section));
                lemma_flags_snoc(ss.take(ix as int), 0, section);
                lemma_sec_pages_count(previous_addr as int, section);
                assert(chain_vpns(ss.take(ix as int + 1), 0) =~= chain_vpns(
                    ss.take(ix as int),
                    0,
                ).union(sec_mapped_vpns(previous_addr as int, section)));
                assert forall|v: int|
                    chain_vpns(ss.take(ix as int + 1), 0).contains(v) implies ((
                #[trigger] leaf_of(pt@, v)) matches LeafEntry::Page { ppn, flags } && flags
                    == flags_for_vpn(ss.take(ix as int + 1), 0, v)) by {
                    if sec_mapped_vpns(previous_addr as int, section).contains(v) {
                    } else {
                        assert(chain_vpns(ss.take(ix as int), 0).contains(v));
                        assert(0 <= v <= 0xff000);
                        assert(leaf_of(pt@, v) == leaf_of(pt_i, v));
                    }
                }
                assert forall|v: int|
                    0 <= v < 0x100000 && !chain_vpns(ss.take(ix as int + 1), 0).contains(v)
                        && !setup_vpn(v) implies #[trigger] leaf_of(pt@, v) is Unmapped by {
                    assert(leaf_of(pt@, v) == leaf_of(pt_i, v));
                }
                assert(leaf_of(pt@, 0xff800) == leaf_of(pt_i, 0xff800));
                assert(leaf_of(pt@, 0xff801) == leaf_of(pt_i, 0xff801));
                assert(leaf_of(pt@, 0x7ffff) == leaf_of(pt_i, 0x7ffff));
                assert forall|v: int| 0x7fff8 <= v < 0x7ffff implies #[trigger] leaf_of(pt@, v)
                    == page_leaf(0, (FLG_U + FLG_R + FLG_W) as usize) by {
                    assert(leaf_of(pt@, v) == leaf_of(pt_i, v));
                }
                assert forall|v: int| 0 <= v < 0x100000 && vpn_mapped(pt@, v) implies
                    PAGE_SIZE as int * (#[trigger] leaf_of(pt@, v)->Page_ppn as int)
                    < cfge.free_top by {
                    if !sec_mapped_vpns(previous_addr as int, section).contains(v) {
                        assert(leaf_of(pt@, v) == leaf_of(pt_i, v));
                        assert(vpn_mapped(pt_i, v));
                    }
                }
            }
            allocated_bytes = allocated_bytes + m;
            previous_addr = (end64 as usize);
            ix = ix + 1;
        }

        // The process record: entry point from the image header, stack
        // pointer at the fixed top-of-stack address, and the combined
        // root-pointer / address-space-identifier value.
        proof {
            assert(ss.take(n_sections as int) =~= ss);
            assert(satp_address / PAGE_SIZE < 0x100000) by {
                vstd::arithmetic::div_mod::lemma_multiply_divide_lt(
                    satp_address as int,
                    PAGE_SIZE as int,
                    0x100000,
                );
            }
        }
        let satp_value: usize = 0x8000_0000 + (pid as usize) * 0x40_0000 + satp_address
            / PAGE_SIZE;
        let idx: usize = (pid - 1) as usize;
        let ghost ptv = pt@;
        let record = InitialProcess {
            satp: satp_value,
            entrypoint: self.entry_point as usize,
            sp: stack_addr,
        };
        cfg.processes[idx] = record;
        cfg.tables[idx] = pt;
        proof {
            assert(cfg.tables@[pid as int - 1]@ == ptv);
            assert(cfg.processes@.len() == cfge.processes@.len());
            assert forall|t: int| 0 <= t < cfg.tables@.len() implies pt_wf(
                #[trigger] cfg.tables@[t]@,
            ) by {
                if t != pid as int - 1 {
                    assert(cfg.tables@[t] == cfge.tables@[t]);
                }
            }
        }
        Ok(allocated_bytes)
    }
}

/// `x / d == q` exactly when `x` lies in `[d*q, d*(q+1))`.
pub proof fn lemma_div_interval(x: int, d: int, q: int)
    requires
        d > 0,
        d * q <= x,
        x < d * (q + 1),
    ensures
        x / d == q,
        x % d == x - d * q,
{
    vstd::arithmetic::mul::lemma_mul_is_commutative(d, q);
    vstd::arithmetic::mul::lemma_mul_is_distributive_add(d, q, 1);
    vstd::arithmetic::div_mod::lemma_fundamental_div_mod_converse(x, d, q, x - d * q);
}

/// Page bounds of a non-empty section: its pages cover exactly the byte
/// range, with the standard division inequalities.
pub proof fn lemma_sec_vpn_bounds(s: MiniElfSection)
    ensures
        0 <= first_vpn(s) <= last_vpn(s),
        PAGE_SIZE as int * first_vpn(s) <= s.virt as int,
        s.virt < PAGE_SIZE as int * (first_vpn(s) + 1),
        sec_len(s) > 0 ==> PAGE_SIZE as int * last_vpn(s) < sec_end(s),
        sec_len(s) > 0 ==> sec_end(s) <= PAGE_SIZE as int * (last_vpn(s) + 1),
        sec_pages(0, s) >= 0,
{
    let p = PAGE_SIZE as int;
    vstd::arithmetic::div_mod::lemma_fundamental_div_mod(s.virt as int, p);
    vstd::arithmetic::div_mod::lemma_mod_division_less_than_divisor(s.virt as int, p);
    vstd::arithmetic::mul::lemma_mul_is_distributive_add(p, first_vpn(s), 1);
    if sec_len(s) > 0 {
        vstd::arithmetic::div_mod::lemma_fundamental_div_mod(sec_end(s) - 1, p);
        vstd::arithmetic::div_mod::lemma_mod_division_less_than_divisor(sec_end(s) - 1, p);
        vstd::arithmetic::mul::lemma_mul_is_distributive_add(p, last_vpn(s), 1);
        vstd::arithmetic::div_mod::lemma_div_is_ordered(s.virt as int, sec_end(s) - 1, p);
    }
}

/// Allocation count of one section is never negative, and matches the
/// size of the set of pages mapped for it.
pub proof fn lemma_sec_pages_count(pe: int, s: MiniElfSection)
    ensures
        sec_pages(pe, s) >= 0,
        sec_mapped_vpns(pe, s).finite(),
        sec_mapped_vpns(pe, s).len() == sec_pages(pe, s),
        forall|v: int| sec_mapped_vpns(pe, s).contains(v) ==> first_vpn(s) <= v <= last_vpn(s),
{
    lemma_sec_vpn_bounds(s);
    if shares_page(pe, s) {
        vstd::set_lib::lemma_int_range(first_vpn(s) + 1, last_vpn(s) + 1);
    } else {
        vstd::set_lib::lemma_int_range(first_vpn(s), last_vpn(s) + 1);
    }
}

/// Appending one section to a chain: how the end, the page count and the
/// mapped set grow, and what monotonicity means for the longer list.
pub proof fn lemma_chain_snoc(pre: Seq<MiniElfSection>, pe: int, s: MiniElfSection)
    ensures
        chain_end(pre.push(s), pe) == sec_end(s),
        chain_pages(pre.push(s), pe) == chain_pages(pre, pe) + sec_pages(chain_end(pre, pe), s),
        chain_vpns(pre.push(s), pe) =~= chain_vpns(pre, pe).union(
            sec_mapped_vpns(chain_end(pre, pe), s),
        ),
        monotone_from(pre.push(s), pe) <==> (monotone_from(pre, pe) && s.virt >= chain_end(
            pre,
            pe,
        )),
    decreases pre.len(),
{
    let ps = pre.push(s);
    if pre.len() == 0 {
        let tail = ps.subrange(1, ps.len() as int);
        assert(tail =~= Seq::<MiniElfSection>::empty());
        assert(ps[0] == s);
        assert(chain_end(ps, pe) == chain_end(tail, sec_end(s)));
        assert(chain_end(tail, sec_end(s)) == sec_end(s));
        assert(chain_pages(tail, sec_end(s)) == 0);
        assert(chain_vpns(tail, sec_end(s)) =~= Set::<int>::empty());
        assert(monotone_from(tail, sec_end(s)));
        assert(chain_end(pre, pe) == pe);
        assert(chain_pages(pre, pe) == 0);
        assert(chain_vpns(pre, pe) =~= Set::<int>::empty());
        assert(monotone_from(pre, pe));
    } else {
        let rest = pre.subrange(1, pre.len() as int);
        lemma_chain_snoc(rest, sec_end(pre[0]), s);
        let tail = ps.subrange(1, ps.len() as int);
        assert(tail =~= rest.push(s));
        assert(ps[0] == pre[0]);
        assert(chain_end(ps, pe) == chain_end(tail, sec_end(pre[0])));
        assert(chain_pages(ps, pe) == sec_pages(pe, pre[0]) + chain_pages(tail, sec_end(pre[0])));
        assert(chain_vpns(ps, pe) =~= sec_mapped_vpns(pe, pre[0]).union(
            chain_vpns(tail, sec_end(pre[0])),
        ));
    }
}

/// The flag word of a page already mapped by a chain does not change when
/// a later section that does not touch it is appended, and a page the new
/// section maps gets the new section's flags.
pub proof fn lemma_flags_snoc(pre: Seq<MiniElfSection>, pe: int, s: MiniElfSection)
    ensures
        forall|v: int|
            sec_mapped_vpns(chain_end(pre, pe), s).contains(v) ==> flags_for_vpn(
                pre.push(s),
                pe,
                v,
            ) == sec_leaf_flags(s),
        forall|v: int|
            !sec_mapped_vpns(chain_end(pre, pe), s).contains(v) ==> flags_for_vpn(
                pre.push(s),
                pe,
                v,
            ) == flags_for_vpn(pre, pe, v),
{
    assert(pre.push(s).drop_last() =~= pre);
    assert(pre.push(s).last() == s);
}

/// Every page a monotone chain of non-empty sections maps lies strictly
/// inside the chain's byte range, and the chain allocates exactly one
/// page per distinct page it maps.
pub proof fn lemma_chain_count(ss: Seq<MiniElfSection>, pe: int)
    requires
        monotone_from(ss, pe),
        all_nonempty(ss),
        0 <= pe,
    ensures
        chain_end(ss, pe) >= pe,
        chain_pages(ss, pe) >= 0,
        chain_vpns(ss, pe).finite(),
        chain_pages(ss, pe) == chain_vpns(ss, pe).len(),
        forall|v: int|
            chain_vpns(ss, pe).contains(v) ==> PAGE_SIZE as int * v < chain_end(ss, pe),
        forall|v: int|
            chain_vpns(ss, pe).contains(v) ==> v >= pe / (PAGE_SIZE as int) && (pe % (
            PAGE_SIZE as int) != 0 ==> v > pe / (PAGE_SIZE as int)),
    decreases ss.len(),
{
    let p = PAGE_SIZE as int;
    if ss.len() == 0 {
    } else {
        let s = ss[0];
        let rest = ss.subrange(1, ss.len() as int);
        let e0 = sec_end(s);
        let m0 = sec_mapped_vpns(pe, s);
        assert(rest.len() == ss.len() - 1);
        assert(all_nonempty(rest)) by {
            assert(forall|i: int| 0 <= i < rest.len() ==> rest[i] == ss[i + 1]);
        }
        lemma_chain_count(rest, e0);
        lemma_sec_pages_count(pe, s);
        lemma_sec_vpn_bounds(s);
        vstd::arithmetic::div_mod::lemma_fundamental_div_mod(pe, p);
        vstd::arithmetic::div_mod::lemma_mod_division_less_than_divisor(pe, p);
        vstd::arithmetic::div_mod::lemma_fundamental_div_mod(e0, p);
        vstd::arithmetic::div_mod::lemma_mod_division_less_than_divisor(e0, p);
        vstd::arithmetic::div_mod::lemma_div_is_ordered(pe, s.virt as int, p);
        // where the last byte of s falls: aligned end means the previous page
        if e0 % p == 0 {
            lemma_div_interval(e0 - 1, p, e0 / p - 1);
            assert(last_vpn(s) == e0 / p - 1);
        } else {
            lemma_div_interval(e0 - 1, p, e0 / p);
            assert(last_vpn(s) == e0 / p);
        }
        // the rest of the chain maps only pages past the last page of s
        assert(forall|v: int|
            chain_vpns(rest, e0).contains(v) ==> v > last_vpn(s));
        // s's own pages start at or after the page pe falls in
        assert(forall|v: int| m0.contains(v) ==> v >= pe / p && (pe % p != 0 ==> v > pe / p)) by {
            if shares_page(pe, s) {
            } else {
                vstd::arithmetic::div_mod::lemma_div_is_ordered(pe, s.virt as int, p);
            }
        }
        assert(m0.disjoint(chain_vpns(rest, e0))) by {
            assert(forall|v: int| m0.contains(v) ==> v <= last_vpn(s));
        }
        lemma_len_disjoint_union(m0, chain_vpns(rest, e0));
        assert(chain_vpns(ss, pe) == m0.union(chain_vpns(rest, e0)));
        assert(forall|v: int|
            chain_vpns(ss, pe).contains(v) ==> PAGE_SIZE as int * v < chain_end(ss, pe)) by {
            assert(chain_end(ss, pe) == chain_end(rest, e0));
            assert(chain_end(rest, e0) >= e0);
            assert(forall|v: int| m0.contains(v) ==> p * v < e0) by {
                assert(forall|v: int| m0.contains(v) ==> v <= last_vpn(s));
                assert forall|v: int| m0.contains(v) implies p * v < e0 by {
                    vstd::arithmetic::mul::lemma_mul_left_inequality(p, v, last_vpn(s));
                }
            }
        }
    }
}

/// The union of two disjoint finite sets has exactly the sum of their
/// sizes.
pub proof fn lemma_len_disjoint_union<A>(s1: Set<A>, s2: Set<A>)
    requires
        s1.finite(),
        s2.finite(),
        s1.disjoint(s2),
    ensures
        s1.union(s2).finite(),
        s1.union(s2).len() == s1.len() + s2.len(),
    decreases s1.len(),
{
    if s1.is_empty() {
        assert(s1.union(s2) =~= s2);
    } else {
        let a = s1.choose();
        assert(s1.union(s2).remove(a) =~= s1.remove(a).union(s2));
        assert(s1.remove(a).disjoint(s2));
        lemma_len_disjoint_union(s1.remove(a), s2);
        assert(s1.union(s2).contains(a));
        assert(s1.union(s2) =~= s1.union(s2).remove(a).insert(a));
    }
}

/// Arithmetic of the head chunk: after placing the bytes that fall in the
/// section's first page, the bytes left (`b`) determine the remaining
/// pages exactly.
pub proof fn lemma_head_arith(s: MiniElfSection, b: int)
    requires
        b == if sec_len(s) + (s.virt as int % (PAGE_SIZE as int)) > PAGE_SIZE as int {
            sec_len(s) + (s.virt as int % (PAGE_SIZE as int)) - PAGE_SIZE as int
        } else {
            0
        },
    ensures
        b >= 0,
        b <= sec_len(s),
        last_vpn(s) == first_vpn(s) + b / (PAGE_SIZE as int) + (if b % (PAGE_SIZE as int) != 0 {
            1int
        } else {
            0int
        }),
{
    let p = PAGE_SIZE as int;
    let o = s.virt as int % p;
    let f = first_vpn(s);
    vstd::arithmetic::div_mod::lemma_fundamental_div_mod(s.virt as int, p);
    vstd::arithmetic::div_mod::lemma_mod_division_less_than_divisor(s.virt as int, p);
    if sec_len(s) == 0 {
        vstd::arithmetic::div_mod::lemma_basic_div_specific_divisor(p);
        assert(b == 0);
        assert(b / p == 0 && b % p == 0) by {
            vstd::arithmetic::div_mod::lemma_fundamental_div_mod_converse(0, p, 0, 0);
        }
    } else if sec_len(s) + o <= p {
        assert(b == 0);
        assert(b / p == 0 && b % p == 0) by {
            vstd::arithmetic::div_mod::lemma_fundamental_div_mod_converse(0, p, 0, 0);
        }
        // the whole section sits inside its first page
        lemma_div_interval(sec_end(s) - 1, p, f);
    } else {
        assert(b == sec_len(s) + o - p);
        assert(b > 0);
        vstd::arithmetic::div_mod::lemma_fundamental_div_mod(b, p);
        vstd::arithmetic::div_mod::lemma_mod_division_less_than_divisor(b, p);
        vstd::arithmetic::div_mod::lemma_div_pos_is_pos(b, p);
        let q = b / p;
        let r = b % p;
        assert(sec_end(s) - 1 == p * (f + 1) + b - 1) by {
            vstd::arithmetic::mul::lemma_mul_is_distributive_add(p, f, 1);
        }
        if r != 0 {
            assert(sec_end(s) - 1 == p * (f + 1 + q) + (r - 1)) by {
                vstd::arithmetic::mul::lemma_mul_is_distributive_add(p, f + 1, q);
            }
            lemma_div_interval(sec_end(s) - 1, p, f + 1 + q);
        } else {
            assert(q >= 1) by {
                if q == 0 {
                    assert(b == p * 0 + r);
                    assert(b == r);
                }
            }
            assert(sec_end(s) - 1 == p * (f + q) + (p - 1)) by {
                vstd::arithmetic::mul::lemma_mul_is_distributive_add(p, f + 1, q);
                vstd::arithmetic::mul::lemma_mul_is_distributive_add(p, f + q, 1);
            }
            lemma_div_interval(sec_end(s) - 1, p, f + q);
        }
    }
}

/// Pages of an in-range section stay below the kernel windows and clear
/// of the stack window.
pub proof fn lemma_sec_range_vpns(pe: int, s: MiniElfSection)
    requires
        sec_in_range(s),
    ensures
        forall|v: int|
            sec_mapped_vpns(pe, s).contains(v) ==> v <= 0xff000 && (v < 0x7fff8 || v >= 0x80000),
{
    let p = PAGE_SIZE as int;
    lemma_sec_pages_count(pe, s);
    lemma_sec_vpn_bounds(s);
    if sec_len(s) == 0 {
        vstd::arithmetic::div_mod::lemma_div_is_ordered(s.virt as int, 0xff00_0000, p);
        lemma_div_interval(0xff00_0000, p, 0xff000);
        if s.virt >= USER_STACK_TOP {
            vstd::arithmetic::div_mod::lemma_div_is_ordered(0x8000_0000, s.virt as int, p);
            lemma_div_interval(0x8000_0000, p, 0x80000);
        } else {
            vstd::arithmetic::div_mod::lemma_div_is_ordered(s.virt as int, 0x7fff_7fff, p);
            lemma_div_interval(0x7fff_7fff, p, 0x7fff7);
        }
        assert(first_vpn(s) <= 0xff000);
    } else {
        vstd::arithmetic::div_mod::lemma_div_is_ordered(sec_end(s) - 1, 0xfeff_ffff, p);
        lemma_div_interval(0xfeff_ffff, p, 0xfefff);
        if s.virt >= USER_STACK_TOP {
            vstd::arithmetic::div_mod::lemma_div_is_ordered(0x8000_0000, s.virt as int, p);
            lemma_div_interval(0x8000_0000, p, 0x80000);
        } else {
            vstd::arithmetic::div_mod::lemma_div_is_ordered(sec_end(s) - 1, 0x7fff_7fff, p);
            lemma_div_interval(0x7fff_7fff, p, 0x7fff7);
        }
    }
}

/// Carrying one new leaf into a table preserves the frame discipline:
/// the new frame lies below every frame already handed out.
pub proof fn lemma_frames_step(
    ptv_old: Seq<RootEntryView>,
    ptv_new: Seq<RootEntryView>,
    vpn: int,
    ppn_v: usize,
    flags_v: usize,
    frame_addr: int,
    ft_old: int,
    ft_new: int,
)
    requires
        frames_above(ptv_old, ft_old),
        distinct_frames(ptv_old),
        0 <= vpn < 0x100000,
        leaf_of(ptv_new, vpn) == page_leaf(ppn_v, flags_v),
        PAGE_SIZE as int * ppn_v == frame_addr,
        forall|v: int|
            0 <= v < 0x100000 && v != vpn ==> #[trigger] leaf_of(ptv_new, v) == leaf_of(
                ptv_old,
                v,
            ),
        ft_new <= frame_addr < ft_old,
    ensures
        frames_above(ptv_new, ft_new),
        distinct_frames(ptv_new),
{
    assert forall|v: int| 0 <= v < 0x100000 && vpn_mapped(ptv_new, v) implies PAGE_SIZE as int * (
    leaf_of(ptv_new, v)->Page_ppn as int) >= ft_new by {
        if v != vpn {
            assert(leaf_of(ptv_new, v) == leaf_of(ptv_old, v));
            assert(vpn_mapped(ptv_old, v));
            assert(PAGE_SIZE as int * (leaf_of(ptv_old, v)->Page_ppn as int) >= ft_old);
        }
    }
    assert forall|v1: int, v2: int|
        0 <= v1 < 0x100000 && 0 <= v2 < 0x100000 && v1 != v2 && vpn_mapped(ptv_new, v1)
            && vpn_mapped(ptv_new, v2) implies leaf_of(ptv_new, v1)->Page_ppn != leaf_of(
        ptv_new,
        v2,
    )->Page_ppn by {
        if v1 != vpn && v2 != vpn {
            assert(leaf_of(ptv_new, v1) == leaf_of(ptv_old, v1));
            assert(leaf_of(ptv_new, v2) == leaf_of(ptv_old, v2));
            assert(vpn_mapped(ptv_old, v1) && vpn_mapped(ptv_old, v2));
            assert(leaf_of(ptv_old, v1)->Page_ppn != leaf_of(ptv_old, v2)->Page_ppn);
        } else if v1 == vpn {
            assert(leaf_of(ptv_new, v2) == leaf_of(ptv_old, v2));
            assert(vpn_mapped(ptv_old, v2));
            assert(PAGE_SIZE as int * (leaf_of(ptv_old, v2)->Page_ppn as int) >= ft_old);
            assert(PAGE_SIZE as int * (leaf_of(ptv_new, v1)->Page_ppn as int) < ft_old);
        } else {
            assert(leaf_of(ptv_new, v1) == leaf_of(ptv_old, v1));
            assert(vpn_mapped(ptv_old, v1));
            assert(PAGE_SIZE as int * (leaf_of(ptv_old, v1)->Page_ppn as int) >= ft_old);
            assert(PAGE_SIZE as int * (leaf_of(ptv_new, v2)->Page_ppn as int) < ft_old);
        }
    }
}

/// Map one section into `pt`: allocate the first page unless the previous
/// section already mapped it, then one page per full remaining page, then
/// one for a trailing partial page.  Returns the bytes of newly allocated
/// pages.
#[verifier::rlimit(100)]
fn map_section(
    cfg: &mut BootConfig,
    pt: &mut PageTable,
    pid: XousPid,
    section: MiniElfSection,
    previous_addr: usize,
) -> (r: Result<usize, LoaderError>)
    requires
        old(cfg).wf(),
        pt_wf(old(pt)@),
        no_megapages(old(pt)@),
        frames_above(old(pt)@, old(cfg).free_top as int),
        distinct_frames(old(pt)@),
        section.virt as int >= previous_addr,
        sec_in_range(section),
    ensures
        final(cfg).preserves_state(old(cfg)),
        final(cfg).tracker_window(old(cfg), pid),
        pt_wf(final(pt)@),
        no_megapages(final(pt)@),
        frames_above(final(pt)@, final(cfg).free_top as int),
        distinct_frames(final(pt)@),
        old(cfg).free_top - final(cfg).free_top <= 2 * PAGE_SIZE * sec_pages(
            previous_addr as int,
            section,
        ),
        match r {
            Ok(n) => {
                &&& n == PAGE_SIZE * sec_pages(previous_addr as int, section)
                &&& n <= old(cfg).free_top - final(cfg).free_top
                &&& forall|v: int|
                    sec_mapped_vpns(previous_addr as int, section).contains(v) ==> ((
                    #[trigger] leaf_of(final(pt)@, v)) matches LeafEntry::Page {
                        ppn,
                        flags,
                    } && flags == sec_leaf_flags(section) && final(cfg).free_top <= PAGE_SIZE as int
                        * ppn < old(cfg).free_top)
                &&& forall|v: int|
                    0 <= v < 0x100000 && !sec_mapped_vpns(previous_addr as int, section).contains(
                        v,
                    ) ==> #[trigger] leaf_of(final(pt)@, v) == leaf_of(old(pt)@, v)
            },
            Err(e) => {
                &&& e == LoaderError::OutOfMemory
                &&& old(cfg).free_top < old(cfg).sram_start + 2 * PAGE_SIZE * sec_pages(
                    previous_addr as int,
                    section,
                )
            },
        },
{
    let ghost pe = previous_addr as int;
    let ghost f = first_vpn(section);
    let ghost l = last_vpn(section);
    let ghost m = sec_mapped_vpns(pe, section);
    let p: usize = PAGE_SIZE;

    let flag_bits: usize = section.flags();
    let writable: bool = flag_bits % 2 == 1;
    let executable: bool = (flag_bits / 4) % 2 == 1;
    let flag_defaults: usize = FLG_VALID + FLG_R + FLG_U + (if writable {
        FLG_W
    } else {
        0
    }) + (if executable {
        FLG_X
    } else {
        0
    });
    proof {
        assert(flag_defaults == sec_leaf_flags(section));
        lemma_sec_vpn_bounds(section);
        lemma_sec_pages_count(pe, section);
        lemma_sec_range_vpns(pe, section);
        vstd::arithmetic::div_mod::lemma_fundamental_div_mod(pe, PAGE_SIZE as int);
        vstd::arithmetic::div_mod::lemma_mod_division_less_than_divisor(pe, PAGE_SIZE as int);
        vstd::arithmetic::div_mod::lemma_fundamental_div_mod(
            section.virt as int,
            PAGE_SIZE as int,
        );
        vstd::arithmetic::div_mod::lemma_mod_division_less_than_divisor(
            section.virt as int,
            PAGE_SIZE as int,
        );
    }
    let virt: usize = section.virt as usize;
    let seclen: usize = section.len();
    let mut this_page: usize = (virt / p) * p;
    let mut bytes_to_copy: usize = seclen;
    let current_page_addr: usize = (previous_addr / p) * p;

    // a fresh destination page: this section does not continue a page the
    // previous section ended inside
    let fresh: bool = this_page != current_page_addr || previous_addr == current_page_addr;
    proof {
        assert(this_page == PAGE_SIZE as int * f);
        if this_page == current_page_addr {
            vstd::arithmetic::mul::lemma_mul_equality_converse(
                PAGE_SIZE as int,
                f,
                pe / (PAGE_SIZE as int),
            );
        }
        assert(fresh == !shares_page(pe, section));
        assert(l <= 0xff000);
        assert(PAGE_SIZE as int * f <= PAGE_SIZE as int * l) by {
            vstd::arithmetic::mul::lemma_mul_left_inequality(PAGE_SIZE as int, f, l);
        }
        assert(PAGE_SIZE as int * l <= 0xff00_0000) by {
            vstd::arithmetic::mul::lemma_mul_left_inequality(PAGE_SIZE as int, l, 0xff000);
        }
    }

    let ghost cfg0 = *cfg;
    let ghost pt0 = pt@;
    let ghost a0: int = if shares_page(pe, section) {
        f + 1
    } else {
        f
    };
    let ghost mut cur: int = f + 1;
    let mut n_allocated: usize = 0;

    if fresh {
        let ghost pt_i = pt@;
        let frame: usize = match cfg.alloc_page(pid) {
            Ok(a) => a,
            Err(e) => {
                proof {
                    lemma_window_refl(&cfg0, pid);
                }
                return Err(e);
            },
        };
        let ghost cfg_a = *cfg;
        proof {
            lemma_window_after_alloc(&cfg_a, &cfg0, pid);
            lemma_vpn_split(this_page as int);
        }
        match cfg.map_page(pt, frame, this_page, flag_defaults, pid) {
            Ok(u) => {},
            Err(e) => {
                proof {
                    lemma_window_trans(cfg, &cfg_a, &cfg0, pid);
                }
                return Err(e);
            },
        }
        proof {
            if cfg.free_top != cfg_a.free_top {
                lemma_window_after_alloc(cfg, &cfg_a, pid);
            }
            lemma_window_trans(cfg, &cfg_a, &cfg0, pid);
            assert(vpn_of(this_page as int) == f) by {
                vstd::arithmetic::mul::lemma_mul_is_distributive_add(PAGE_SIZE as int, f, 1);
                lemma_div_interval(this_page as int, PAGE_SIZE as int, f);
            }
            assert(PAGE_SIZE as int * (ppn_of(frame as int) as int) == frame) by {
                vstd::arithmetic::div_mod::lemma_fundamental_div_mod(
                    frame as int,
                    PAGE_SIZE as int,
                );
            }
            lemma_frames_step(
                pt_i,
                pt@,
                f,
                ppn_of(frame as int),
                flag_defaults,
                frame as int,
                cfg0.free_top as int,
                cfg.free_top as int,
            );
        }
        n_allocated = p;
        this_page = this_page + p;
        let mut first_chunk_size: usize = p - virt % p;
        if first_chunk_size > seclen {
            first_chunk_size = seclen;
        }
        bytes_to_copy = bytes_to_copy - first_chunk_size;
    } else {
        let first_chunk_size: usize = p - virt % p;
        if bytes_to_copy < first_chunk_size {
            bytes_to_copy = 0;
        } else {
            bytes_to_copy = bytes_to_copy - first_chunk_size;
        }
        this_page = this_page + p;
        proof {
            lemma_window_refl(&cfg0, pid);
        }
    }

    let ghost b0 = bytes_to_copy as int;
    proof {
        assert(b0 == if sec_len(section) + (section.virt as int % (PAGE_SIZE as int))
            > PAGE_SIZE as int {
            sec_len(section) + (section.virt as int % (PAGE_SIZE as int)) - PAGE_SIZE as int
        } else {
            0
        });
        lemma_head_arith(section, b0);
        vstd::arithmetic::div_mod::lemma_fundamental_div_mod(b0, PAGE_SIZE as int);
        vstd::arithmetic::div_mod::lemma_mod_division_less_than_divisor(b0, PAGE_SIZE as int);
        vstd::arithmetic::div_mod::lemma_div_pos_is_pos(b0, PAGE_SIZE as int);
        vstd::arithmetic::div_mod::lemma_fundamental_div_mod_converse(0, PAGE_SIZE as int, 0, 0);
        assert(this_page == PAGE_SIZE as int * f + PAGE_SIZE) by {
            vstd::arithmetic::mul::lemma_mul_is_distributive_add(PAGE_SIZE as int, f, 1);
        }
        assert(this_page == PAGE_SIZE as int * cur) by {
            vstd::arithmetic::mul::lemma_mul_is_distributive_add(PAGE_SIZE as int, f, 1);
        }
        assert(2 * PAGE_SIZE as int * (cur - a0) == if shares_page(pe, section) {
            0int
        } else {
            2 * PAGE_SIZE as int
        }) by {
            vstd::arithmetic::mul::lemma_mul_basics(2 * PAGE_SIZE as int);
        }
    }

    while bytes_to_copy >= p
        invariant
            p == PAGE_SIZE,
            cfg0 == *old(cfg),
            pt0 == old(pt)@,
            cfg0.wf(),
            cfg.wf(),
            cfg.same_geometry(&cfg0),
            cfg.processes@ == cfg0.processes@,
            cfg.tables@ == cfg0.tables@,
            cfg.free_top <= cfg0.free_top,
            cfg.tracker_window(&cfg0, pid),
            pt_wf(pt@),
            no_megapages(pt@),
            frames_above(pt@, cfg.free_top as int),
            distinct_frames(pt@),
            sec_in_range(section),
            pe == previous_addr as int,
            flag_defaults == sec_leaf_flags(section),
            f == first_vpn(section),
            l == last_vpn(section),
            l <= 0xff000,
            a0 == (if shares_page(pe, section) {
                f + 1int
            } else {
                f
            }),
            a0 <= cur <= l + 1,
            f + 1 <= cur,
            bytes_to_copy <= b0,
            (b0 - bytes_to_copy) % (PAGE_SIZE as int) == 0,
            this_page as int == PAGE_SIZE as int * cur,
            cur == f + 1 + (b0 - bytes_to_copy) / (PAGE_SIZE as int),
            l == f + b0 / (PAGE_SIZE as int) + (if b0 % (PAGE_SIZE as int) != 0 {
                1int
            } else {
                0int
            }),
            0 <= b0 <= sec_len(section) < 0x0100_0000,
            n_allocated == (if shares_page(pe, section) {
                0int
            } else {
                PAGE_SIZE as int
            }) + b0 - bytes_to_copy,
            n_allocated <= cfg0.free_top - cfg.free_top,
            cfg0.free_top - cfg.free_top <= 2 * PAGE_SIZE * (cur - a0),
            forall|v: int|
                a0 <= v < cur ==> ((#[trigger] leaf_of(pt@, v)) matches LeafEntry::Page {
                    ppn,
                    flags,
                } && flags == sec_leaf_flags(section) && cfg.free_top <= PAGE_SIZE as int * ppn
                    < cfg0.free_top),
            forall|v: int|
                0 <= v < 0x100000 && !(a0 <= v < cur) ==> #[trigger] leaf_of(pt@, v) == leaf_of(
                    pt0,
                    v,
                ),
        decreases bytes_to_copy,
    {
        proof {
            assert((b0 - bytes_to_copy) / (PAGE_SIZE as int) <= (b0 - PAGE_SIZE) / (
            PAGE_SIZE as int)) by {
                vstd::arithmetic::div_mod::lemma_div_is_ordered(
                    b0 - bytes_to_copy,
                    b0 - PAGE_SIZE,
                    PAGE_SIZE as int,
                );
            }
            assert((b0 - PAGE_SIZE) / (PAGE_SIZE as int) == b0 / (PAGE_SIZE as int) - 1) by {
                vstd::arithmetic::div_mod::lemma_fundamental_div_mod(b0, PAGE_SIZE as int);
                vstd::arithmetic::div_mod::lemma_mod_division_less_than_divisor(
                    b0,
                    PAGE_SIZE as int,
                );
                vstd::arithmetic::mul::lemma_mul_is_distributive_sub(
                    PAGE_SIZE as int,
                    b0 / (PAGE_SIZE as int),
                    1,
                );
                vstd::arithmetic::div_mod::lemma_fundamental_div_mod_converse(
                    b0 - PAGE_SIZE,
                    PAGE_SIZE as int,
                    b0 / (PAGE_SIZE as int) - 1,
                    b0 % (PAGE_SIZE as int),
                );
            }
            assert(cur <= l);
            assert(PAGE_SIZE as int * cur <= PAGE_SIZE as int * l) by {
                vstd::arithmetic::mul::lemma_mul_left_inequality(PAGE_SIZE as int, cur, l);
            }
            assert(PAGE_SIZE as int * l <= 0xff00_0000) by {
                vstd::arithmetic::mul::lemma_mul_left_inequality(PAGE_SIZE as int, l, 0xff000);
            }
            assert(this_page % PAGE_SIZE == 0) by {
                vstd::arithmetic::div_mod::lemma_mod_multiples_basic(cur, PAGE_SIZE as int);
            }
        }
        let ghost cfg_i = *cfg;
        let ghost pt_i = pt@;
        let frame: usize = match cfg.alloc_page(pid) {
            Ok(a) => a,
            Err(e) => {
                proof {
                    lemma_window_trans(cfg, &cfg_i, &cfg0, pid);
                    vstd::arithmetic::mul::lemma_mul_left_inequality(
                        2 * PAGE_SIZE as int,
                        cur - a0,
                        sec_pages(pe, section),
                    );
                }
                return Err(e);
            },
        };
        let ghost cfg_a = *cfg;
        proof {
            lemma_window_after_alloc(&cfg_a, &cfg_i, pid);
            lemma_window_trans(cfg, &cfg_i, &cfg0, pid);
            lemma_vpn_split(this_page as int);
        }
        match cfg.map_page(pt, frame, this_page, flag_defaults, pid) {
            Ok(u) => {},
            Err(e) => {
                proof {
                    lemma_window_trans(cfg, &cfg_a, &cfg0, pid);
                    vstd::arithmetic::mul::lemma_mul_left_inequality(
                        2 * PAGE_SIZE as int,
                        cur + 1 - a0,
                        sec_pages(pe, section),
                    );
                    vstd::arithmetic::mul::lemma_mul_is_distributive_add(
                        2 * PAGE_SIZE as int,
                        cur - a0,
                        1,
                    );
                    vstd::arithmetic::mul::lemma_mul_basics(2 * PAGE_SIZE as int);
                }
                return Err(e);
            },
        }
        proof {
            if cfg.free_top != cfg_a.free_top {
                lemma_window_after_alloc(cfg, &cfg_a, pid);
            }
            lemma_window_trans(cfg, &cfg_a, &cfg0, pid);
            assert(vpn_of(this_page as int) == cur) by {
                vstd::arithmetic::mul::lemma_mul_is_distributive_add(PAGE_SIZE as int, cur, 1);
                lemma_div_interval(this_page as int, PAGE_SIZE as int, cur);
            }
            assert(PAGE_SIZE as int * (ppn_of(frame as int) as int) == frame) by {
                vstd::arithmetic::div_mod::lemma_fundamental_div_mod(
                    frame as int,
                    PAGE_SIZE as int,
                );
            }
            lemma_frames_step(
                pt_i,
                pt@,
                cur,
                ppn_of(frame as int),
                flag_defaults,
                frame as int,
                cfg_i.free_top as int,
                cfg.free_top as int,
            );
            cur = cur + 1;
        }
        n_allocated = n_allocated + p;
        this_page = this_page + p;
        bytes_to_copy = bytes_to_copy - p;
        proof {
            assert((b0 - bytes_to_copy) % (PAGE_SIZE as int) == 0 && cur == f + 1 + (b0
                - bytes_to_copy) / (PAGE_SIZE as int)) by {
                vstd::arithmetic::div_mod::lemma_fundamental_div_mod(
                    b0 - (bytes_to_copy + PAGE_SIZE),
                    PAGE_SIZE as int,
                );
                vstd::arithmetic::mul::lemma_mul_is_distributive_add(
                    PAGE_SIZE as int,
                    (b0 - (bytes_to_copy + PAGE_SIZE)) / (PAGE_SIZE as int),
                    1,
                );
                vstd::arithmetic::div_mod::lemma_fundamental_div_mod_converse(
                    b0 - bytes_to_copy,
                    PAGE_SIZE as int,
                    (b0 - (bytes_to_copy + PAGE_SIZE)) / (PAGE_SIZE as int) + 1,
                    0,
                );
            }
            assert(this_page as int == PAGE_SIZE as int * cur) by {
                vstd::arithmetic::mul::lemma_mul_is_distributive_add(PAGE_SIZE as int, cur - 1, 1);
            }
            assert(cfg_a.free_top == cfg_i.free_top - PAGE_SIZE);
            assert(cfg.free_top >= cfg_a.free_top - PAGE_SIZE);
            assert(cfg0.free_top - cfg_i.free_top <= 2 * PAGE_SIZE * (cur - 1 - a0));
            assert(2 * PAGE_SIZE as int * (cur - a0) == 2 * PAGE_SIZE as int * (cur - 1 - a0) + 2
                * PAGE_SIZE) by {
                vstd::arithmetic::mul::lemma_mul_is_distributive_sub(
                    2 * PAGE_SIZE as int,
                    cur - a0,
                    1,
                );
                vstd::arithmetic::mul::lemma_mul_basics(2 * PAGE_SIZE as int);
            }
            assert(cfg0.free_top - cfg.free_top <= 2 * PAGE_SIZE * (cur - a0));
            assert(cfg.free_top <= cfg_i.free_top);
            assert forall|v: int| a0 <= v < cur implies ((#[trigger] leaf_of(pt@, v))
                matches LeafEntry::Page { ppn, flags } && flags == sec_leaf_flags(section)
                && cfg.free_top <= PAGE_SIZE as int * ppn < cfg0.free_top) by {
                if v < cur - 1 {
                    assert(leaf_of(pt@, v) == leaf_of(pt_i, v));
                } else {
                    assert(leaf_of(pt@, v) == page_leaf(ppn_of(frame as int), flag_defaults));
                    assert(PAGE_SIZE as int * (ppn_of(frame as int) as int) == frame);
                }
            }
            assert forall|v: int| 0 <= v < 0x100000 && !(a0 <= v < cur) implies #[trigger] leaf_of(
                pt@,
                v,
            ) == leaf_of(pt0, v) by {
                assert(leaf_of(pt@, v) == leaf_of(pt_i, v));
            }
        }
    }

    // a final partial page holds the remainder
    if bytes_to_copy > 0 {
        proof {
            assert(bytes_to_copy == b0 % (PAGE_SIZE as int)) by {
                vstd::arithmetic::div_mod::lemma_fundamental_div_mod(
                    b0 - bytes_to_copy,
                    PAGE_SIZE as int,
                );
                vstd::arithmetic::div_mod::lemma_fundamental_div_mod_converse(
                    b0,
                    PAGE_SIZE as int,
                    (b0 - bytes_to_copy) / (PAGE_SIZE as int),
                    bytes_to_copy as int,
                );
            }
            assert(cur == l);
            assert(PAGE_SIZE as int * cur <= 0xff00_0000) by {
                vstd::arithmetic::mul::lemma_mul_left_inequality(PAGE_SIZE as int, cur, 0xff000);
            }
            assert(this_page % PAGE_SIZE == 0) by {
                vstd::arithmetic::div_mod::lemma_mod_multiples_basic(cur, PAGE_SIZE as int);
            }
        }
        let ghost cfg_i = *cfg;
        let ghost pt_i = pt@;
        let frame: usize = match cfg.alloc_page(pid) {
            Ok(a) => a,
            Err(e) => {
                proof {
                    lemma_window_trans(cfg, &cfg_i, &cfg0, pid);
                    vstd::arithmetic::mul::lemma_mul_left_inequality(
                        2 * PAGE_SIZE as int,
                        cur - a0,
                        sec_pages(pe, section),
                    );
                }
                return Err(e);
            },
        };
        let ghost cfg_a = *cfg;
        proof {
            lemma_window_after_alloc(&cfg_a, &cfg_i, pid);
            lemma_window_trans(cfg, &cfg_i, &cfg0, pid);
            lemma_vpn_split(this_page as int);
        }
        match cfg.map_page(pt, frame, this_page, flag_defaults, pid) {
            Ok(u) => {},
            Err(e) => {
                proof {
                    lemma_window_trans(cfg, &cfg_a, &cfg0, pid);
                    vstd::arithmetic::mul::lemma_mul_left_inequality(
                        2 * PAGE_SIZE as int,
                        cur + 1 - a0,
                        sec_pages(pe, section),
                    );
                }
                return Err(e);
            },
        }
        proof {
            if cfg.free_top != cfg_a.free_top {
                lemma_window_after_alloc(cfg, &cfg_a, pid);
            }
            lemma_window_trans(cfg, &cfg_a, &cfg0, pid);
            assert(vpn_of(this_page as int) == cur) by {
                vstd::arithmetic::mul::lemma_mul_is_distributive_add(PAGE_SIZE as int, cur, 1);
                lemma_div_interval(this_page as int, PAGE_SIZE as int, cur);
            }
            assert(PAGE_SIZE as int * (ppn_of(frame as int) as int) == frame) by {
                vstd::arithmetic::div_mod::lemma_fundamental_div_mod(
                    frame as int,
                    PAGE_SIZE as int,
                );
            }
            lemma_frames_step(
                pt_i,
                pt@,
                cur,
                ppn_of(frame as int),
                flag_defaults,
                frame as int,
                cfg_i.free_top as int,
                cfg.free_top as int,
            );
            cur = cur + 1;
        }
        n_allocated = n_allocated + p;
    }

    proof {
        if bytes_to_copy == 0 {
            assert(b0 % (PAGE_SIZE as int) == 0) by {
                vstd::arithmetic::div_mod::lemma_fundamental_div_mod(
                    b0 - 0,
                    PAGE_SIZE as int,
                );
                vstd::arithmetic::div_mod::lemma_fundamental_div_mod_converse(
                    b0,
                    PAGE_SIZE as int,
                    (b0 - 0) / (PAGE_SIZE as int),
                    0,
                );
            }
        }
        assert(cur == l + 1);
        assert(n_allocated == PAGE_SIZE as int * sec_pages(pe, section));
        assert(forall|v: int| m.contains(v) <==> a0 <= v < cur);
        vstd::arithmetic::mul::lemma_mul_left_inequality(
            2 * PAGE_SIZE as int,
            cur - a0,
            sec_pages(pe, section),
        );
    }
    Ok(n_allocated)
}

/// Page counts of sections are never negative, so neither is a chain's.
pub proof fn lemma_chain_pages_nonneg(ss: Seq<MiniElfSection>, pe: int)
    ensures
        chain_pages(ss, pe) >= 0,
    decreases ss.len(),
{
    if ss.len() > 0 {
        lemma_sec_vpn_bounds(ss[0]);
        lemma_sec_pages_count(pe, ss[0]);
        lemma_chain_pages_nonneg(ss.subrange(1, ss.len() as int), sec_end(ss[0]));
    }
}

/// A chain's page count splits at any prefix boundary.
pub proof fn lemma_chain_suffix(ss: Seq<MiniElfSection>, pe: int, i: int)
    requires
        0 <= i <= ss.len(),
    ensures
        chain_pages(ss, pe) == chain_pages(ss.take(i), pe) + chain_pages(
            ss.skip(i),
            chain_end(ss.take(i), pe),
        ),
    decreases i,
{
    if i == 0 {
        assert(ss.take(0) =~= Seq::<MiniElfSection>::empty());
        assert(ss.skip(0) =~= ss);
    } else {
        lemma_chain_suffix(ss, pe, i - 1);
        lemma_chain_snoc(ss.take(i - 1), pe, ss[i - 1]);
        assert(ss.take(i) =~= ss.take(i - 1).push(ss[i - 1]));
        let ce = chain_end(ss.take(i - 1), pe);
        let sk = ss.skip(i - 1);
        assert(sk.len() == ss.len() - i + 1);
        assert(sk[0] == ss[i - 1]);
        assert(chain_pages(sk, ce) == sec_pages(ce, sk[0]) + chain_pages(
            sk.subrange(1, sk.len() as int),
            sec_end(sk[0]),
        ));
        assert(sk.subrange(1, sk.len() as int) =~= ss.skip(i));
    }
}

/// In a monotone chain, every section starts at or after the end of the
/// prefix before it.
pub proof fn lemma_monotone_at(ss: Seq<MiniElfSection>, pe: int, i: int)
    requires
        monotone_from(ss, pe),
        0 <= i < ss.len(),
    ensures
        ss[i].virt >= chain_end(ss.take(i), pe),
    decreases i,
{
    if i == 0 {
        assert(ss.take(0) =~= Seq::<MiniElfSection>::empty());
    } else {
        let rest = ss.subrange(1, ss.len() as int);
        lemma_monotone_at(rest, sec_end(ss[0]), i - 1);
        assert(rest[i - 1] == ss[i]);
        assert(rest.take(i - 1) =~= ss.take(i).subrange(1, i));
        assert(ss.take(i)[0] == ss[0]);
        assert(chain_end(ss.take(i), pe) == chain_end(ss.take(i).subrange(1, i), sec_end(ss[0])));
    }
}

/// Every page in the byte-range span of a monotone chain of non-empty
/// sections lies between the page of `pe` and the chain's end.
pub proof fn lemma_span_bounds(ss: Seq<MiniElfSection>, pe: int)
    requires
        monotone_from(ss, pe),
        all_nonempty(ss),
        0 <= pe,
    ensures
        forall|v: int| span_vpns(ss).contains(v) ==> v >= pe / (PAGE_SIZE as int),
        forall|v: int|
            span_vpns(ss).contains(v) ==> PAGE_SIZE as int * v < chain_end(ss, pe),
        chain_end(ss, pe) >= pe,
    decreases ss.len(),
{
    let p = PAGE_SIZE as int;
    if ss.len() > 0 {
        let s = ss[0];
        let rest = ss.subrange(1, ss.len() as int);
        let e0 = sec_end(s);
        assert(all_nonempty(rest)) by {
            assert(forall|i: int| 0 <= i < rest.len() ==> rest[i] == ss[i + 1]);
        }
        lemma_span_bounds(rest, e0);
        lemma_sec_vpn_bounds(s);
        vstd::arithmetic::div_mod::lemma_div_is_ordered(pe, s.virt as int, p);
        vstd::arithmetic::div_mod::lemma_div_is_ordered(pe, e0, p);
        vstd::arithmetic::div_mod::lemma_fundamental_div_mod(e0, p);
        vstd::arithmetic::div_mod::lemma_mod_division_less_than_divisor(e0, p);
        assert forall|v: int| span_vpns(ss).contains(v) implies v >= pe / p && PAGE_SIZE as int
            * v < chain_end(ss, pe) by {
            if vstd::set_lib::set_int_range(first_vpn(s), last_vpn(s) + 1).contains(v) {
                assert(p * v <= p * last_vpn(s)) by {
                    vstd::arithmetic::mul::lemma_mul_left_inequality(p, v, last_vpn(s));
                }
                assert(chain_end(ss, pe) == chain_end(rest, e0));
            } else {
                assert(span_vpns(rest).contains(v));
                vstd::arithmetic::div_mod::lemma_div_is_ordered(pe, e0, p);
            }
        }
    }
}

/// The pages a monotone chain of non-empty sections maps are exactly the
/// pages its byte ranges touch, less the page that `pe` already ends
/// inside.
pub proof fn lemma_chain_matches_span(ss: Seq<MiniElfSection>, pe: int)
    requires
        monotone_from(ss, pe),
        all_nonempty(ss),
        0 <= pe,
    ensures
        chain_vpns(ss, pe) == span_vpns(ss).difference(boundary_page(pe)),
    decreases ss.len(),
{
    let p = PAGE_SIZE as int;
    if ss.len() == 0 {
        assert(chain_vpns(ss, pe) =~= span_vpns(ss).difference(boundary_page(pe)));
    } else {
        let s = ss[0];
        let rest = ss.subrange(1, ss.len() as int);
        let e0 = sec_end(s);
        let m0 = sec_mapped_vpns(pe, s);
        let r0 = vstd::set_lib::set_int_range(first_vpn(s), last_vpn(s) + 1);
        assert(all_nonempty(rest)) by {
            assert(forall|i: int| 0 <= i < rest.len() ==> rest[i] == ss[i + 1]);
        }
        lemma_chain_matches_span(rest, e0);
        lemma_span_bounds(rest, e0);
        lemma_sec_vpn_bounds(s);
        lemma_sec_pages_count(pe, s);
        vstd::arithmetic::div_mod::lemma_fundamental_div_mod(pe, p);
        vstd::arithmetic::div_mod::lemma_mod_division_less_than_divisor(pe, p);
        vstd::arithmetic::div_mod::lemma_fundamental_div_mod(e0, p);
        vstd::arithmetic::div_mod::lemma_mod_division_less_than_divisor(e0, p);
        vstd::arithmetic::div_mod::lemma_div_is_ordered(pe, s.virt as int, p);
        if e0 % p == 0 {
            lemma_div_interval(e0 - 1, p, e0 / p - 1);
        } else {
            lemma_div_interval(e0 - 1, p, e0 / p);
        }
        assert(chain_vpns(ss, pe) =~= span_vpns(ss).difference(boundary_page(pe))) by {
            assert forall|v: int|
                chain_vpns(ss, pe).contains(v) <==> span_vpns(ss).difference(
                    boundary_page(pe),
                ).contains(v) by {
                if m0.contains(v) {
                    assert(r0.contains(v));
                    assert(!boundary_page(pe).contains(v));
                }
                if chain_vpns(rest, e0).contains(v) {
                    assert(span_vpns(rest).contains(v));
                    assert(!boundary_page(e0).contains(v));
                    assert(v >= e0 / p);
                    if pe % p != 0 && v == pe / p {
                        assert(v == e0 / p);
                        if e0 % p != 0 {
                            assert(boundary_page(e0).contains(v));
                        }
                    }
                }
                if span_vpns(ss).contains(v) && !boundary_page(pe).contains(v) {
                    if r0.contains(v) {
                        if shares_page(pe, s) && v == first_vpn(s) {
                            assert(boundary_page(pe).contains(v));
                        } else {
                            assert(m0.contains(v));
                        }
                    } else {
                        assert(span_vpns(rest).contains(v));
                        if boundary_page(e0).contains(v) {
                            assert(v == e0 / p && e0 % p != 0);
                            assert(v == last_vpn(s));
                            assert(r0.contains(v));
                        } else {
                            assert(chain_vpns(rest, e0).contains(v));
                        }
                    }
                }
            }
        }
    }
}

/// For any section list with strictly increasing, non-overlapping virtual
/// ranges (and no empty section), the total number of physical pages the
/// loader allocates equals the number of distinct page-aligned addresses
/// touched by the union of the sections' byte ranges: no page is mapped
/// twice, and no byte range is left unmapped.
pub proof fn lemma_pages_allocated_match_distinct_pages(ss: Seq<MiniElfSection>)
    requires
        monotone_from(ss, 0),
        all_nonempty(ss),
    ensures
        span_vpns(ss).finite(),
        chain_pages(ss, 0) == span_vpns(ss).len(),
{
    lemma_chain_count(ss, 0);
    lemma_chain_matches_span(ss, 0);
    assert(boundary_page(0) =~= Set::<int>::empty());
    assert(span_vpns(ss).difference(boundary_page(0)) =~= span_vpns(ss));
}

/// When two adjacent sections' byte ranges straddle one page (the second
/// starts inside the first's last page), exactly one physical page is
/// allocated for that shared page, not two: the pair's total is one less
/// than the sum of the two spans.
pub proof fn lemma_straddled_page_allocated_once(s1: MiniElfSection, s2: MiniElfSection)
    requires
        sec_len(s1) > 0,
        sec_len(s2) > 0,
        s2.virt >= sec_end(s1),
        shares_page(sec_end(s1), s2),
    ensures
        chain_pages(seq![s1, s2], 0) == (last_vpn(s1) - first_vpn(s1) + 1) + (last_vpn(s2)
            - first_vpn(s2) + 1) - 1,
{
    let ss = seq![s1, s2];
    let rest = ss.subrange(1, 2);
    assert(ss.len() == 2 && ss[0] == s1 && rest.len() == 1 && rest[0] == s2);
    assert(rest.subrange(1, 1) =~= Seq::<MiniElfSection>::empty());
    assert(chain_pages(rest.subrange(1, 1), sec_end(s2)) == 0);
    assert(chain_pages(rest, sec_end(s1)) == sec_pages(sec_end(s1), s2));
    assert(chain_pages(ss, 0) == sec_pages(0, s1) + chain_pages(rest, sec_end(s1)));
    assert(!shares_page(0, s1)) by {
        vstd::arithmetic::div_mod::lemma_small_mod(0, PAGE_SIZE as nat);
    }
    assert(sec_pages(0, s1) == last_vpn(s1) - first_vpn(s1) + 1);
    assert(sec_pages(sec_end(s1), s2) == last_vpn(s2) - first_vpn(s2));
}

/// Every page an in-range chain maps lies in the user region, below the
/// kernel windows and clear of the stack window.
pub proof fn lemma_chain_range_vpns(ss: Seq<MiniElfSection>, pe: int)
    requires
        all_in_range(ss),
    ensures
        forall|v: int|
            chain_vpns(ss, pe).contains(v) ==> 0 <= v <= 0xff000 && (v < 0x7fff8 || v
                >= 0x80000),
    decreases ss.len(),
{
    if ss.len() > 0 {
        let rest = ss.subrange(1, ss.len() as int);
        assert(all_in_range(rest)) by {
            assert(forall|i: int| 0 <= i < rest.len() ==> rest[i] == ss[i + 1]);
        }
        lemma_chain_range_vpns(rest, sec_end(ss[0]));
        lemma_sec_range_vpns(pe, ss[0]);
        lemma_sec_pages_count(pe, ss[0]);
        lemma_sec_vpn_bounds(ss[0]);
        assert forall|v: int| chain_vpns(ss, pe).contains(v) implies 0 <= v <= 0xff000 && (v
            < 0x7fff8 || v >= 0x80000) by {
            if sec_mapped_vpns(pe, ss[0]).contains(v) {
                assert(first_vpn(ss[0]) <= v);
            } else {
                assert(chain_vpns(rest, sec_end(ss[0])).contains(v));
            }
        }
    }
}

} // verus!
