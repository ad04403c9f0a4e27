//! The flat kernel-image loader.
//!
//! The kernel is described not by a section list but by declared text,
//! data and bss sizes and offsets; its regions are page-rounded and mapped
//! contiguously inside the top root-table slot, reusing the same
//! allocator and page-table builder as the section loader.

use vstd::prelude::*;

use crate::bootconfig::{
    lemma_window_after_alloc, lemma_window_refl, lemma_window_trans, BootConfig, InitialProcess,
};
use crate::minielf::{lemma_div_interval, lemma_frames_step};
use crate::pagetable::{
    distinct_frames, frames_above, leaf_of, no_megapages, page_leaf, ppn_of, pt_wf, vpn_mapped,
    vpn_of, LeafEntry, PageTable,
};
use crate::{
    LoaderError, CONTEXT_OFFSET, EXCEPTION_STACK_TOP, FLG_R, FLG_VALID, FLG_W, FLG_X,
    KERNEL_LOAD_OFFSET, KERNEL_STACK_PAGE_COUNT, PAGE_SIZE, PAGE_TABLE_ROOT_OFFSET,
};

verus! {

/// Kernel program description: where the image's bytes sit, where its
/// text and data go virtually, how large each region is, and where
/// execution begins.  The text region is mapped non-writable and
/// executable; data and bss are mapped read-write.
#[derive(Clone, Copy, Debug, PartialEq, Eq, Structural)]
pub struct ProgramDescription {
    /// Physical source address of this program in the boot medium.
    pub load_offset: u32,
    /// Start of the virtual address where the text region goes.
    pub text_offset: u32,
    /// Bytes of text to map.
    pub text_size: u32,
    /// Start of the virtual address of the data and bss regions.
    pub data_offset: u32,
    /// Size of the data region in bytes.
    pub data_size: u32,
    /// Size of the bss region in bytes.
    pub bss_size: u32,
    /// Virtual address entry point.
    pub entrypoint: u32,
}

/// The kernel description a kernel tag's seven payload words declare.
pub open spec fn kernel_of(tag: crate::args::KernelArgument) -> ProgramDescription {
    ProgramDescription {
        load_offset: tag.data@[0],
        text_offset: tag.data@[1],
        text_size: tag.data@[2],
        data_offset: tag.data@[3],
        data_size: tag.data@[4],
        bss_size: tag.data@[5],
        entrypoint: tag.data@[6],
    }
}

impl ProgramDescription {
    /// Pages needed for the text region.
    pub open spec fn text_pages(&self) -> int {
        (self.text_size + PAGE_SIZE - 1) as int / (PAGE_SIZE as int)
    }

    /// Pages needed for the data and bss regions together.
    pub open spec fn data_pages(&self) -> int {
        (self.data_size + self.bss_size + PAGE_SIZE - 1) as int / (PAGE_SIZE as int)
    }

    /// First virtual page of the text region.
    pub open spec fn text_vpn(&self) -> int {
        self.text_offset as int / (PAGE_SIZE as int)
    }

    /// First virtual page of the data region.
    pub open spec fn data_vpn(&self) -> int {
        self.data_offset as int / (PAGE_SIZE as int)
    }

    /// The declared layout fits the fixed kernel windows: page-aligned
    /// offsets, text at or above the kernel load window, data after the
    /// rounded text region, and everything below the exception stack.
    pub open spec fn layout_ok(&self) -> bool {
        &&& self.text_offset % PAGE_SIZE as u32 == 0
        &&& self.data_offset % PAGE_SIZE as u32 == 0
        &&& KERNEL_LOAD_OFFSET <= self.text_offset
        &&& self.text_offset + self.text_pages() * PAGE_SIZE <= self.data_offset
        &&& self.data_offset + self.data_pages() * PAGE_SIZE <= EXCEPTION_STACK_TOP
            - KERNEL_STACK_PAGE_COUNT * PAGE_SIZE
    }

    /// Runtime check of `layout_ok`, used to reject a malformed kernel
    /// description before any page is mapped for it.
    pub fn check_layout(&self) -> (r: bool)
        ensures
            r == self.layout_ok(),
    {
        let p64: u64 = PAGE_SIZE as u64;
        let tpages: u64 = (self.text_size as u64 + p64 - 1) / p64;
        let dpages: u64 = (self.data_size as u64 + self.bss_size as u64 + p64 - 1) / p64;
        proof {
            assert(tpages == self.text_pages());
            assert(dpages == self.data_pages());
        }
        (self.text_offset as u64) % p64 == 0 && (self.data_offset as u64) % p64 == 0 && (
        KERNEL_LOAD_OFFSET as u64) <= (self.text_offset as u64) && (self.text_offset as u64)
            + tpages * p64 <= (self.data_offset as u64) && (self.data_offset as u64) + dpages
            * p64 <= (EXCEPTION_STACK_TOP as u64) - (KERNEL_STACK_PAGE_COUNT as u64) * p64
    }
}

impl ProgramDescription {
    /// Map the kernel into its own address space: the page-table root at
    /// its self-view window, the thread context record, the exception
    /// stack page, then the page-rounded text region (read-execute) and
    /// the page-rounded data-plus-bss region (read-write), contiguously.
    /// The kernel is always process identifier 1.
    ///
    /// Success is owed whenever the free region holds at least five pages
    /// plus one page per text and data page.
    #[verifier::rlimit(100)]
    pub fn load(&self, cfg: &mut BootConfig) -> (r: Result<(), LoaderError>)
        requires
            old(cfg).wf(),
            old(cfg).processes@.len() >= 1,
            self.layout_ok(),
        ensures
            final(cfg).wf(),
            final(cfg).same_geometry(old(cfg)),
            final(cfg).free_top <= old(cfg).free_top,
            final(cfg).tracker_window(old(cfg), 1),
            final(cfg).processes@.len() == old(cfg).processes@.len(),
            final(cfg).tables@.len() == old(cfg).tables@.len(),
            old(cfg).free_top - final(cfg).free_top <= PAGE_SIZE * (5 + self.text_pages()
                + self.data_pages()),
            old(cfg).free_top >= old(cfg).sram_start + PAGE_SIZE * (5 + self.text_pages()
                + self.data_pages()) ==> r is Ok,
            match r {
                Ok(u) => {
                    &&& old(cfg).free_top - final(cfg).free_top >= 5 * PAGE_SIZE
                    &&& forall|v: int|
                        0 <= v < 0x100000 && #[trigger] vpn_mapped(final(cfg).tables@[0]@, v)
                            ==> final(cfg).free_top <= PAGE_SIZE as int * (leaf_of(
                            final(cfg).tables@[0]@,
                            v,
                        )->Page_ppn as int) && PAGE_SIZE as int * (leaf_of(
                            final(cfg).tables@[0]@,
                            v,
                        )->Page_ppn as int) < old(cfg).free_top
                    &&& forall|q: int|
                        (0 < q && q < old(cfg).processes@.len()) ==> (#[trigger] final(
                            cfg).processes@[q] == old(cfg).processes@[q] && final(
                            cfg).tables@[q] == old(cfg).tables@[q])
                    &&& final(cfg).processes@[0].entrypoint == self.entrypoint
                    &&& final(cfg).processes@[0].sp == EXCEPTION_STACK_TOP - 16
                    &&& final(cfg).processes@[0].satp == 0x8000_0000 + 0x40_0000 + (old(
                        cfg,
                    ).free_top - PAGE_SIZE) / (PAGE_SIZE as int)
                    &&& pt_wf(final(cfg).tables@[0]@)
                    &&& no_megapages(final(cfg).tables@[0]@)
                    &&& distinct_frames(final(cfg).tables@[0]@)
                    &&& leaf_of(final(cfg).tables@[0]@, 0xff800) == page_leaf(
                        ppn_of(old(cfg).free_top - PAGE_SIZE),
                        (FLG_R + FLG_W + FLG_VALID) as usize,
                    )
                    &&& leaf_of(final(cfg).tables@[0]@, 0xff801) == page_leaf(
                        ppn_of(old(cfg).free_top - 3 * PAGE_SIZE),
                        (FLG_R + FLG_W + FLG_VALID) as usize,
                    )
                    &&& leaf_of(final(cfg).tables@[0]@, 0xfffef) == page_leaf(
                        ppn_of(old(cfg).free_top - 4 * PAGE_SIZE),
                        (FLG_R + FLG_W + FLG_VALID) as usize,
                    )
                    &&& forall|k: int|
                        0 <= k < self.text_pages() ==> ((#[trigger] leaf_of(
                            final(cfg).tables@[0]@,
                            self.text_vpn() + k,
                        )) matches LeafEntry::Page { ppn, flags } && flags == (FLG_R + FLG_X
                            + FLG_VALID) as usize)
                    &&& forall|k: int|
                        0 <= k < self.data_pages() ==> ((#[trigger] leaf_of(
                            final(cfg).tables@[0]@,
                            self.data_vpn() + k,
                        )) matches LeafEntry::Page { ppn, flags } && flags == (FLG_R + FLG_W
                            + FLG_VALID) as usize)
                    &&& forall|v: int|
                        0 <= v < 0x100000 && v != 0xff800 && v != 0xff801 && v != 0xfffef && !(
                        self.text_vpn() <= v < self.text_vpn() + self.text_pages()) && !(
                        self.data_vpn() <= v < self.data_vpn() + self.data_pages())
                            ==> #[trigger] leaf_of(final(cfg).tables@[0]@, v) is Unmapped
                },
                Err(e) => {
                    &&& e == LoaderError::OutOfMemory
                    &&& final(cfg).processes@ == old(cfg).processes@
                    &&& final(cfg).tables@ == old(cfg).tables@
                    &&& old(cfg).free_top < old(cfg).sram_start + PAGE_SIZE * (5
                        + self.text_pages() + self.data_pages())
                },
            },
    {
        let ghost cfge = *cfg;
        proof {
            assert(self.text_pages() >= 0 && self.data_pages() >= 0) by {
                vstd::arithmetic::div_mod::lemma_div_pos_is_pos(
                    (self.text_size + PAGE_SIZE - 1) as int,
                    PAGE_SIZE as int,
                );
                vstd::arithmetic::div_mod::lemma_div_pos_is_pos(
                    (self.data_size + self.bss_size + PAGE_SIZE - 1) as int,
                    PAGE_SIZE as int,
                );
            }
        }

        // Page-table root at the self-view window.
        let satp_address: usize = match cfg.alloc_page(1) {
            Ok(a) => a,
            Err(e) => {
                proof {
                    lemma_window_refl(&cfge, 1);
                }
                return Err(e);
            },
        };
        let mut pt = PageTable::new();
        let ghost cfg1 = *cfg;
        proof {
            lemma_window_after_alloc(&cfg1, &cfge, 1);
            lemma_div_interval(PAGE_TABLE_ROOT_OFFSET as int, PAGE_SIZE as int * 1024, 1022);
            lemma_div_interval(PAGE_TABLE_ROOT_OFFSET as int, PAGE_SIZE as int, 0xff800);
        }
        let ghost pt1 = pt@;
        match cfg.map_page(&mut pt, satp_address, PAGE_TABLE_ROOT_OFFSET, FLG_R + FLG_W
            + FLG_VALID, 1) {
            Ok(u) => {},
            Err(e) => {
                proof {
                    lemma_window_trans(cfg, &cfg1, &cfge, 1);
                }
                return Err(e);
            },
        }
        let ghost cfg2 = *cfg;
        proof {
            if cfg.free_top != cfg1.free_top {
                lemma_window_after_alloc(cfg, &cfg1, 1);
            }
            lemma_window_trans(cfg, &cfg1, &cfge, 1);
            assert(vpn_of(PAGE_TABLE_ROOT_OFFSET as int) == 0xff800);
            assert(PAGE_SIZE as int * (ppn_of(satp_address as int) as int) == satp_address) by {
                vstd::arithmetic::div_mod::lemma_fundamental_div_mod(
                    satp_address as int,
                    PAGE_SIZE as int,
                );
            }
            lemma_frames_step(
                pt1,
                pt@,
                0xff800,
                ppn_of(satp_address as int),
                (FLG_R + FLG_W + FLG_VALID) as usize,
                satp_address as int,
                cfge.free_top as int,
                cfg.free_top as int,
            );
        }

        // Thread context record.
        let thread_address: usize = match cfg.alloc_page(1) {
            Ok(a) => a,
            Err(e) => {
                proof {
                    lemma_window_trans(cfg, &cfg2, &cfge, 1);
                }
                return Err(e);
            },
        };
        let ghost cfg3 = *cfg;
        proof {
            lemma_window_after_alloc(&cfg3, &cfg2, 1);
            lemma_window_trans(cfg, &cfg2, &cfge, 1);
            lemma_div_interval(CONTEXT_OFFSET as int, PAGE_SIZE as int * 1024, 1022);
            lemma_div_interval(CONTEXT_OFFSET as int, PAGE_SIZE as int, 0xff801);
        }
        let ghost pt3 = pt@;
        match cfg.map_page(&mut pt, thread_address, CONTEXT_OFFSET, FLG_R + FLG_W + FLG_VALID,
            1) {
            Ok(u) => {},
            Err(e) => {
                proof {
                    lemma_window_trans(cfg, &cfg3, &cfge, 1);
                }
                return Err(e);
            },
        }
        let ghost cfg4 = *cfg;
        proof {
            if cfg.free_top != cfg3.free_top {
                lemma_window_after_alloc(cfg, &cfg3, 1);
            }
            lemma_window_trans(cfg, &cfg3, &cfge, 1);
            assert(vpn_of(CONTEXT_OFFSET as int) == 0xff801);
            assert(PAGE_SIZE as int * (ppn_of(thread_address as int) as int) == thread_address)
                by {
                vstd::arithmetic::div_mod::lemma_fundamental_div_mod(
                    thread_address as int,
                    PAGE_SIZE as int,
                );
            }
            lemma_frames_step(
                pt3,
                pt@,
                0xff801,
                ppn_of(thread_address as int),
                (FLG_R + FLG_W + FLG_VALID) as usize,
                thread_address as int,
                cfg2.free_top as int,
                cfg.free_top as int,
            );
        }

        // Exception stack page just below its top.
        let stack_page: usize = match cfg.alloc_page(1) {
            Ok(a) => a,
            Err(e) => {
                proof {
                    lemma_window_trans(cfg, &cfg4, &cfge, 1);
                }
                return Err(e);
            },
        };
        let ghost cfg5 = *cfg;
        proof {
            lemma_window_after_alloc(&cfg5, &cfg4, 1);
            lemma_window_trans(cfg, &cfg4, &cfge, 1);
            lemma_div_interval(EXCEPTION_STACK_TOP as int - PAGE_SIZE, PAGE_SIZE as int * 1024,
                1023);
            lemma_div_interval(EXCEPTION_STACK_TOP as int - PAGE_SIZE, PAGE_SIZE as int, 0xfffef);
        }
        let ghost pt5 = pt@;
        match cfg.map_page(&mut pt, stack_page, EXCEPTION_STACK_TOP - PAGE_SIZE, FLG_R + FLG_W
            + FLG_VALID, 1) {
            Ok(u) => {},
            Err(e) => {
                proof {
                    lemma_window_trans(cfg, &cfg5, &cfge, 1);
                }
                return Err(e);
            },
        }
        let ghost cfg6 = *cfg;
        proof {
            if cfg.free_top != cfg5.free_top {
                lemma_window_after_alloc(cfg, &cfg5, 1);
            }
            lemma_window_trans(cfg, &cfg5, &cfge, 1);
            assert(vpn_of(EXCEPTION_STACK_TOP as int - PAGE_SIZE) == 0xfffef);
            assert(PAGE_SIZE as int * (ppn_of(stack_page as int) as int) == stack_page) by {
                vstd::arithmetic::div_mod::lemma_fundamental_div_mod(
                    stack_page as int,
                    PAGE_SIZE as int,
                );
            }
            lemma_frames_step(
                pt5,
                pt@,
                0xfffef,
                ppn_of(stack_page as int),
                (FLG_R + FLG_W + FLG_VALID) as usize,
                stack_page as int,
                cfg4.free_top as int,
                cfg.free_top as int,
            );
            assert(satp_address == cfge.free_top - PAGE_SIZE);
            assert(thread_address == cfge.free_top - 3 * PAGE_SIZE);
            assert(stack_page == cfge.free_top - 4 * PAGE_SIZE);
            assert(pt3[1023] is Unmapped);
            assert(pt5[1023] is Unmapped);
            assert(cfg.free_top == cfge.free_top - 5 * PAGE_SIZE);
        }

        // Text region, one page at a time, read-execute.
        let tpages: usize = ((self.text_size as u64 + PAGE_SIZE as u64 - 1) / (
        PAGE_SIZE as u64)) as usize;
        let dpages: usize = ((self.data_size as u64 + self.bss_size as u64 + PAGE_SIZE as u64
            - 1) / (PAGE_SIZE as u64)) as usize;
        proof {
            assert(tpages == self.text_pages());
            assert(dpages == self.data_pages());
            assert(self.text_offset as int == PAGE_SIZE as int * self.text_vpn()) by {
                vstd::arithmetic::div_mod::lemma_fundamental_div_mod(
                    self.text_offset as int,
                    PAGE_SIZE as int,
                );
            }
            assert(self.data_offset as int == PAGE_SIZE as int * self.data_vpn()) by {
                vstd::arithmetic::div_mod::lemma_fundamental_div_mod(
                    self.data_offset as int,
                    PAGE_SIZE as int,
                );
            }
        }
        proof {
            assert(PAGE_SIZE as int * (ppn_of(cfge.free_top - PAGE_SIZE) as int) == cfge.free_top
                - PAGE_SIZE) by {
                vstd::arithmetic::div_mod::lemma_fundamental_div_mod(
                    cfge.free_top - PAGE_SIZE,
                    PAGE_SIZE as int,
                );
            }
            assert(PAGE_SIZE as int * (ppn_of(cfge.free_top - 3 * PAGE_SIZE) as int)
                == cfge.free_top - 3 * PAGE_SIZE) by {
                vstd::arithmetic::div_mod::lemma_fundamental_div_mod(
                    cfge.free_top - 3 * PAGE_SIZE,
                    PAGE_SIZE as int,
                );
            }
            assert(PAGE_SIZE as int * (ppn_of(cfge.free_top - 4 * PAGE_SIZE) as int)
                == cfge.free_top - 4 * PAGE_SIZE) by {
                vstd::arithmetic::div_mod::lemma_fundamental_div_mod(
                    cfge.free_top - 4 * PAGE_SIZE,
                    PAGE_SIZE as int,
                );
            }
            assert forall|v: int| 0 <= v < 0x100000 && vpn_mapped(pt@, v) implies PAGE_SIZE as int
                * (#[trigger] leaf_of(pt@, v)->Page_ppn as int) < cfge.free_top by {
                if v != 0xff800 && v != 0xff801 && v != 0xfffef {
                    assert(leaf_of(pt@, v) is Unmapped);
                }
            }
        }
        let ghost cfg_t0 = *cfg;
        let ghost pt_t0 = pt@;
        let mut k: usize = 0;
        while k < tpages
            invariant
                k <= tpages,
                cfge == *old(cfg),
                cfge.wf(),
                self.layout_ok(),
                tpages == self.text_pages(),
                cfge.processes@.len() >= 1,
                self.text_offset as int == PAGE_SIZE as int * self.text_vpn(),
                cfg.wf(),
                cfg.same_geometry(&cfge),
                cfg.processes@ == cfge.processes@,
                cfg.tables@ == cfge.tables@,
                cfg.free_top as int == cfg_t0.free_top - PAGE_SIZE * k,
                cfg_t0.free_top == cfge.free_top - 5 * PAGE_SIZE,
                forall|v: int|
                    0 <= v < 0x100000 && vpn_mapped(pt@, v) ==> PAGE_SIZE as int * (
                    #[trigger] leaf_of(pt@, v)->Page_ppn as int) < cfge.free_top,
                cfg.tracker_window(&cfge, 1),
                cfg_t0.same_geometry(&cfge),
                pt_wf(pt@),
                no_megapages(pt@),
                frames_above(pt@, cfg.free_top as int),
                distinct_frames(pt@),
                pt@[1023] is Table,
                leaf_of(pt@, 0xff800) == page_leaf(
                    ppn_of(cfge.free_top - PAGE_SIZE),
                    (FLG_R + FLG_W + FLG_VALID) as usize,
                ),
                leaf_of(pt@, 0xff801) == page_leaf(
                    ppn_of(cfge.free_top - 3 * PAGE_SIZE),
                    (FLG_R + FLG_W + FLG_VALID) as usize,
                ),
                leaf_of(pt@, 0xfffef) == page_leaf(
                    ppn_of(cfge.free_top - 4 * PAGE_SIZE),
                    (FLG_R + FLG_W + FLG_VALID) as usize,
                ),
                forall|j: int|
                    0 <= j < k ==> ((#[trigger] leaf_of(pt@, self.text_vpn() + j))
                        matches LeafEntry::Page { ppn, flags } && flags == (FLG_R + FLG_X
                        + FLG_VALID) as usize),
                forall|v: int|
                    0 <= v < 0x100000 && v != 0xff800 && v != 0xff801 && v != 0xfffef && !(
                    self.text_vpn() <= v < self.text_vpn() + k) ==> #[trigger] leaf_of(
                        pt@,
                        v,
                    ) is Unmapped,
            decreases tpages - k,
        {
            proof {
                assert(0xffc0_0000 <= self.text_offset as int + PAGE_SIZE as int * (k as int)
                    && self.text_offset as int + PAGE_SIZE as int * (k as int) < 0xffff_0000) by {
                    vstd::arithmetic::mul::lemma_mul_left_inequality(
                        PAGE_SIZE as int,
                        k as int + 1,
                        tpages as int,
                    );
                    vstd::arithmetic::mul::lemma_mul_is_distributive_add(
                        PAGE_SIZE as int,
                        k as int,
                        1,
                    );
                }
            }
            let addr: usize = self.text_offset as usize + PAGE_SIZE * k;
            proof {
                lemma_div_interval(addr as int, PAGE_SIZE as int * 1024, 1023);
                assert(addr as int == PAGE_SIZE as int * (self.text_vpn() + k as int)) by {
                    vstd::arithmetic::mul::lemma_mul_is_distributive_add(
                        PAGE_SIZE as int,
                        self.text_vpn(),
                        k as int,
                    );
                }
                lemma_div_interval(addr as int, PAGE_SIZE as int, self.text_vpn() + k as int);
                vstd::arithmetic::div_mod::lemma_mod_multiples_basic(
                    self.text_vpn() + k as int,
                    PAGE_SIZE as int,
                );
            }
            let ghost cfg_i = *cfg;
            let ghost pt_i = pt@;
            let frame: usize = match cfg.alloc_page(1) {
                Ok(a) => a,
                Err(e) => {
                    proof {
                        lemma_window_trans(cfg, &cfg_i, &cfge, 1);
                    }
                    return Err(e);
                },
            };
            let ghost cfg_a = *cfg;
            proof {
                lemma_window_after_alloc(&cfg_a, &cfg_i, 1);
                lemma_window_trans(cfg, &cfg_i, &cfge, 1);
            }
            match cfg.map_page(&mut pt, frame, addr, FLG_R + FLG_X + FLG_VALID, 1) {
                Ok(u) => {},
                Err(e) => {
                    proof {
                        assert(false);
                    }
                    return Err(e);
                },
            }
            proof {
                lemma_window_trans(cfg, &cfg_a, &cfge, 1);
                assert(vpn_of(addr as int) == self.text_vpn() + k as int);
                assert(PAGE_SIZE as int * (ppn_of(frame as int) as int) == frame) by {
                    vstd::arithmetic::div_mod::lemma_fundamental_div_mod(
                        frame as int,
                        PAGE_SIZE as int,
                    );
                }
                lemma_frames_step(
                    pt_i,
                    pt@,
                    self.text_vpn() + k as int,
                    ppn_of(frame as int),
                    (FLG_R + FLG_X + FLG_VALID) as usize,
                    frame as int,
                    cfg_i.free_top as int,
                    cfg.free_top as int,
                );
                vstd::arithmetic::mul::lemma_mul_is_distributive_add(
                    PAGE_SIZE as int,
                    k as int,
                    1,
                );
                assert forall|v: int| 0 <= v < 0x100000 && vpn_mapped(pt@, v) implies
                    PAGE_SIZE as int * (#[trigger] leaf_of(pt@, v)->Page_ppn as int)
                    < cfge.free_top by {
                    if v != self.text_vpn() + k as int {
                        assert(leaf_of(pt@, v) == leaf_of(pt_i, v));
                        assert(vpn_mapped(pt_i, v));
                    }
                }
            }
            k = k + 1;
        }

        // Data and bss region, read-write.
        let ghost cfg_d0 = *cfg;
        let ghost pt_d0 = pt@;
        let mut j: usize = 0;
        while j < dpages
            invariant
                j <= dpages,
                cfge == *old(cfg),
                cfge.wf(),
                self.layout_ok(),
                tpages == self.text_pages(),
                dpages == self.data_pages(),
                cfge.processes@.len() >= 1,
                self.data_offset as int == PAGE_SIZE as int * self.data_vpn(),
                cfg.wf(),
                cfg.same_geometry(&cfge),
                cfg.processes@ == cfge.processes@,
                cfg.tables@ == cfge.tables@,
                cfg.free_top as int == cfg_d0.free_top - PAGE_SIZE * j,
                cfg_d0.free_top <= cfge.free_top - 5 * PAGE_SIZE,
                cfge.free_top - cfg_d0.free_top <= PAGE_SIZE * (5 + tpages),
                forall|v: int|
                    0 <= v < 0x100000 && vpn_mapped(pt@, v) ==> PAGE_SIZE as int * (
                    #[trigger] leaf_of(pt@, v)->Page_ppn as int) < cfge.free_top,
                cfg.tracker_window(&cfge, 1),
                cfg_d0.same_geometry(&cfge),
                pt_wf(pt@),
                no_megapages(pt@),
                frames_above(pt@, cfg.free_top as int),
                distinct_frames(pt@),
                pt@[1023] is Table,
                leaf_of(pt@, 0xff800) == page_leaf(
                    ppn_of(cfge.free_top - PAGE_SIZE),
                    (FLG_R + FLG_W + FLG_VALID) as usize,
                ),
                leaf_of(pt@, 0xff801) == page_leaf(
                    ppn_of(cfge.free_top - 3 * PAGE_SIZE),
                    (FLG_R + FLG_W + FLG_VALID) as usize,
                ),
                leaf_of(pt@, 0xfffef) == page_leaf(
                    ppn_of(cfge.free_top - 4 * PAGE_SIZE),
                    (FLG_R + FLG_W + FLG_VALID) as usize,
                ),
                forall|i: int|
                    0 <= i < tpages ==> ((#[trigger] leaf_of(pt@, self.text_vpn() + i))
                        matches LeafEntry::Page { ppn, flags } && flags == (FLG_R + FLG_X
                        + FLG_VALID) as usize),
                forall|i: int|
                    0 <= i < j ==> ((#[trigger] leaf_of(pt@, self.data_vpn() + i))
                        matches LeafEntry::Page { ppn, flags } && flags == (FLG_R + FLG_W
                        + FLG_VALID) as usize),
                forall|v: int|
                    0 <= v < 0x100000 && v != 0xff800 && v != 0xff801 && v != 0xfffef && !(
                    self.text_vpn() <= v < self.text_vpn() + tpages) && !(self.data_vpn() <= v
                        < self.data_vpn() + j) ==> #[trigger] leaf_of(pt@, v) is Unmapped,
            decreases dpages - j,
        {
            proof {
                assert(0xffc0_0000 <= self.data_offset as int + PAGE_SIZE as int * (j as int)
                    && self.data_offset as int + PAGE_SIZE as int * (j as int) < 0xffff_0000) by {
                    vstd::arithmetic::mul::lemma_mul_left_inequality(
                        PAGE_SIZE as int,
                        j as int + 1,
                        dpages as int,
                    );
                    vstd::arithmetic::mul::lemma_mul_is_distributive_add(
                        PAGE_SIZE as int,
                        j as int,
                        1,
                    );
                    vstd::arithmetic::mul::lemma_mul_inequality(0, self.text_pages(),
                        PAGE_SIZE as int);
                }
            }
            let addr: usize = self.data_offset as usize + PAGE_SIZE * j;
            proof {
                lemma_div_interval(addr as int, PAGE_SIZE as int * 1024, 1023);
                assert(addr as int == PAGE_SIZE as int * (self.data_vpn() + j as int)) by {
                    vstd::arithmetic::mul::lemma_mul_is_distributive_add(
                        PAGE_SIZE as int,
                        self.data_vpn(),
                        j as int,
                    );
                }
                lemma_div_interval(addr as int, PAGE_SIZE as int, self.data_vpn() + j as int);
                vstd::arithmetic::div_mod::lemma_mod_multiples_basic(
                    self.data_vpn() + j as int,
                    PAGE_SIZE as int,
                );
            }
            let ghost cfg_i = *cfg;
            let ghost pt_i = pt@;
            let frame: usize = match cfg.alloc_page(1) {
                Ok(a) => a,
                Err(e) => {
                    proof {
                        lemma_window_trans(cfg, &cfg_i, &cfge, 1);
                    }
                    return Err(e);
                },
            };
            let ghost cfg_a = *cfg;
            proof {
                lemma_window_after_alloc(&cfg_a, &cfg_i, 1);
                lemma_window_trans(cfg, &cfg_i, &cfge, 1);
            }
            match cfg.map_page(&mut pt, frame, addr, FLG_R + FLG_W + FLG_VALID, 1) {
                Ok(u) => {},
                Err(e) => {
                    proof {
                        assert(false);
                    }
                    return Err(e);
                },
            }
            proof {
                lemma_window_trans(cfg, &cfg_a, &cfge, 1);
                assert(vpn_of(addr as int) == self.data_vpn() + j as int);
                assert(PAGE_SIZE as int * (ppn_of(frame as int) as int) == frame) by {
                    vstd::arithmetic::div_mod::lemma_fundamental_div_mod(
                        frame as int,
                        PAGE_SIZE as int,
                    );
                }
                lemma_frames_step(
                    pt_i,
                    pt@,
                    self.data_vpn() + j as int,
                    ppn_of(frame as int),
                    (FLG_R + FLG_W + FLG_VALID) as usize,
                    frame as int,
                    cfg_i.free_top as int,
                    cfg.free_top as int,
                );
                vstd::arithmetic::mul::lemma_mul_is_distributive_add(
                    PAGE_SIZE as int,
                    j as int,
                    1,
                );
                assert forall|v: int| 0 <= v < 0x100000 && vpn_mapped(pt@, v) implies
                    PAGE_SIZE as int * (#[trigger] leaf_of(pt@, v)->Page_ppn as int)
                    < cfge.free_top by {
                    if v != self.data_vpn() + j as int {
                        assert(leaf_of(pt@, v) == leaf_of(pt_i, v));
                        assert(vpn_mapped(pt_i, v));
                    }
                }
            }
            j = j + 1;
        }

        // The kernel's process record.
        proof {
            assert(satp_address / PAGE_SIZE < 0x100000) by {
                vstd::arithmetic::div_mod::lemma_multiply_divide_lt(
                    satp_address as int,
                    PAGE_SIZE as int,
                    0x100000,
                );
            }
        }
        let satp_value: usize = 0x8000_0000 + 0x40_0000 + satp_address / PAGE_SIZE;
        let ghost ptv = pt@;
        let record = InitialProcess {
            satp: satp_value,
            entrypoint: self.entrypoint as usize,
            sp: EXCEPTION_STACK_TOP - 16,
        };
        cfg.processes[0] = record;
        cfg.tables[0] = pt;
        proof {
            assert(cfg.tables@[0]@ == ptv);
            assert forall|t: int| 0 <= t < cfg.tables@.len() implies pt_wf(
                #[trigger] cfg.tables@[t]@,
            ) by {
                if t != 0 {
                    assert(cfg.tables@[t] == cfge.tables@[t]);
                }
            }
        }
        Ok(())
    }
}

} // verus!
