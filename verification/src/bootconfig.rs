//! Shared boot state: the physical page allocator, the ownership tracker,
//! the per-process tables and records, and the page-table builder.
//!
//! The loader's global mutable state is held in one explicit structure
//! passed by exclusive reference through the whole call chain, so the
//! strictly sequential, single-threaded discipline is enforced by the type
//! system rather than by convention.

use vstd::prelude::*;

use crate::args::KernelArgument;
use crate::pagetable::{
    leaf_of, lemma_vpn_split, page_leaf, ppn_of, pt_wf, vpn1_of, vpn_of, LeafEntry, PageTable,
    RootEntry,
};
use crate::{LoaderError, XousPid, PAGE_SIZE};

verus! {

/// One process record handed to the kernel: the register-ready `satp` value
/// (root-table frame number plus address-space identifier), the entry
/// point, and the initial stack pointer.  Written once when the process's
/// tag is loaded and never mutated afterwards.
#[derive(Clone, Copy, Debug, PartialEq, Eq, Structural)]
pub struct InitialProcess {
    /// Root page table frame number combined with the process's
    /// address-space identifier, in the layout the hardware expects.
    pub satp: usize,
    /// Virtual address where execution begins.
    pub entrypoint: usize,
    /// Virtual address of the top of the stack.
    pub sp: usize,
}

/// The loader's entire mutable state: RAM geometry, the descending
/// free-page cursor, the per-frame ownership tracker, the process records
/// and page tables built so far, and the image's tag list.
pub struct BootConfig {
    /// First byte of usable RAM.
    pub sram_start: usize,
    /// Size of usable RAM in bytes.
    pub sram_size: usize,
    /// Bytes at the top of RAM already consumed by boot structures (kernel
    /// arguments, loader stack, signature scratch).
    pub init_size: usize,
    /// The allocator cursor: all pages at or above this address, up to the
    /// boot-structure region, have been handed out.  Starts at the bottom
    /// of the boot-structure region and moves downward, one zeroed page per
    /// call, with no free operation in this phase.
    pub free_top: usize,
    /// One entry per physical page of RAM: the owning process, or 0 for
    /// free or permanently reserved.
    pub runtime_page_tracker: Vec<u8>,
    /// Process records, indexed by process identifier minus one.
    pub processes: Vec<InitialProcess>,
    /// Root page tables, indexed by process identifier minus one.
    pub tables: Vec<PageTable>,
    /// The boot image's ordered tag list.
    pub args: Vec<KernelArgument>,
}

impl BootConfig {
    /// Allocator-core invariants: everything page-aligned, RAM within the
    /// 32-bit physical space, the cursor inside the region below the boot
    /// structures, one tracker entry per page.
    pub open spec fn wf_alloc(&self) -> bool {
        &&& self.sram_start % PAGE_SIZE == 0
        &&& self.sram_size % PAGE_SIZE == 0
        &&& self.init_size % PAGE_SIZE == 0
        &&& self.free_top % PAGE_SIZE == 0
        &&& PAGE_SIZE <= self.sram_size
        &&& self.init_size <= self.sram_size
        &&& self.sram_start + self.sram_size <= 0xffff_ffff
        &&& self.sram_start <= self.free_top
        &&& self.free_top + self.init_size <= self.sram_start + self.sram_size
        &&& self.runtime_page_tracker@.len() == self.sram_size / PAGE_SIZE
    }

    /// Full state invariant: the allocator core, plus one table per
    /// process record, every table well-formed.
    pub open spec fn wf(&self) -> bool {
        &&& self.wf_alloc()
        &&& self.processes@.len() == self.tables@.len()
        &&& forall|t: int|
            0 <= t < self.tables@.len() ==> pt_wf(#[trigger] self.tables@[t]@)
    }

    /// Bottom of the boot-structure region at the top of RAM; also where
    /// the allocator cursor starts.
    pub open spec fn krn_struct_start(&self) -> int {
        self.sram_start + self.sram_size - self.init_size
    }

    /// Tracker slot of the page holding physical address `addr`.
    pub open spec fn page_index(&self, addr: int) -> int {
        (addr - self.sram_start) / PAGE_SIZE as int
    }

    /// The RAM geometry fields and the tag list are the same in `self` as
    /// in `other`; nothing in this stage ever changes them after setup.
    pub open spec fn same_geometry(&self, other: &BootConfig) -> bool {
        &&& self.sram_start == other.sram_start
        &&& self.sram_size == other.sram_size
        &&& self.init_size == other.init_size
        &&& self.args@ == other.args@
    }

    /// State relation across a loading step: the invariant holds, nothing
    /// but the allocator cursor, the tracker and the page table under
    /// construction moved, and the cursor only went down.
    pub open spec fn preserves_state(&self, old_cfg: &BootConfig) -> bool {
        &&& self.wf()
        &&& self.same_geometry(old_cfg)
        &&& self.processes@ == old_cfg.processes@
        &&& self.tables@ == old_cfg.tables@
        &&& self.free_top <= old_cfg.free_top
    }

    /// Every page handed out since `old_cfg` (the window between the two
    /// cursor positions) is tracked as owned by `pid`; every other frame's
    /// tracker entry is untouched.
    pub open spec fn tracker_window(&self, old_cfg: &BootConfig, pid: XousPid) -> bool {
        &&& self.runtime_page_tracker@.len() == old_cfg.runtime_page_tracker@.len()
        &&& forall|k: int|
            0 <= k < self.runtime_page_tracker@.len() ==> self.runtime_page_tracker@[k] == (
            if old_cfg.page_index(self.free_top as int) <= k && k < old_cfg.page_index(
                old_cfg.free_top as int,
            ) {
                pid
            } else {
                old_cfg.runtime_page_tracker@[k]
            })
    }

    /// Fresh boot state over the given RAM geometry and tag list: no page
    /// handed out, every frame unowned, no process yet.
    pub fn new(sram_start: usize, sram_size: usize, init_size: usize, args: Vec<KernelArgument>) -> (r:
        BootConfig)
        requires
            sram_start % PAGE_SIZE == 0,
            sram_size % PAGE_SIZE == 0,
            init_size % PAGE_SIZE == 0,
            PAGE_SIZE <= sram_size,
            init_size <= sram_size,
            sram_start + sram_size <= 0xffff_ffff,
        ensures
            r.wf(),
            r.sram_start == sram_start,
            r.sram_size == sram_size,
            r.init_size == init_size,
            r.free_top == sram_start + sram_size - init_size,
            r.args@ == args@,
            r.processes@.len() == 0,
            r.tables@.len() == 0,
            forall|i: int|
                0 <= i < r.runtime_page_tracker@.len() ==> r.runtime_page_tracker@[i] == 0u8,
    {
        let pages: usize = sram_size / PAGE_SIZE;
        let mut tracker: Vec<u8> = Vec::new();
        while tracker.len() < pages
            invariant
                tracker.len() <= pages,
                forall|i: int| 0 <= i < tracker@.len() ==> tracker@[i] == 0u8,
            decreases pages - tracker.len(),
        {
            tracker.push(0u8);
        }
        proof {
            vstd::arithmetic::div_mod::lemma_fundamental_div_mod(sram_size as int, PAGE_SIZE as int);
        }
        BootConfig {
            sram_start,
            sram_size,
            init_size,
            free_top: sram_start + sram_size - init_size,
            runtime_page_tracker: tracker,
            processes: Vec::new(),
            tables: Vec::new(),
            args,
        }
    }

    /// Hand out one zeroed physical page, moving the cursor down, and
    /// record `owner` in the ownership tracker as a side effect.  A page,
    /// once issued, is never reused: exhaustion of the region is a fatal
    /// configuration error, not a recoverable fault.
    pub fn alloc_page(&mut self, owner: XousPid) -> (r: Result<usize, LoaderError>)
        requires
            old(self).wf_alloc(),
        ensures
            final(self).wf_alloc(),
            old(self).wf() ==> final(self).wf(),
            final(self).same_geometry(old(self)),
            final(self).processes@ == old(self).processes@,
            final(self).tables@ == old(self).tables@,
            match r {
                Ok(a) => {
                    &&& a == old(self).free_top - PAGE_SIZE
                    &&& final(self).free_top == a
                    &&& a % PAGE_SIZE == 0
                    &&& old(self).sram_start <= a
                    &&& a + PAGE_SIZE <= old(self).sram_start + old(self).sram_size
                    &&& final(self).runtime_page_tracker@ == old(
                        self,
                    ).runtime_page_tracker@.update(old(self).page_index(a as int), owner)
                },
                Err(e) => {
                    &&& e == LoaderError::OutOfMemory
                    &&& old(self).free_top < old(self).sram_start + PAGE_SIZE
                    &&& final(self).free_top == old(self).free_top
                    &&& final(self).runtime_page_tracker@ == old(self).runtime_page_tracker@
                },
            },
    {
        if self.free_top < self.sram_start + PAGE_SIZE {
            return Err(LoaderError::OutOfMemory);
        }
        let a: usize = self.free_top - PAGE_SIZE;
        self.free_top = a;
        self.change_owner(owner, a);
        Ok(a)
    }

    /// Record process `pid` as the owner of the physical page at `addr`.
    pub fn change_owner(&mut self, pid: XousPid, addr: usize)
        requires
            old(self).wf_alloc(),
            addr % PAGE_SIZE == 0,
            old(self).sram_start <= addr,
            addr < old(self).sram_start + old(self).sram_size,
        ensures
            final(self).wf_alloc(),
            old(self).wf() ==> final(self).wf(),
            final(self).same_geometry(old(self)),
            final(self).free_top == old(self).free_top,
            final(self).processes@ == old(self).processes@,
            final(self).tables@ == old(self).tables@,
            0 <= old(self).page_index(addr as int) < old(self).runtime_page_tracker@.len(),
            final(self).runtime_page_tracker@ == old(self).runtime_page_tracker@.update(
                old(self).page_index(addr as int),
                pid,
            ),
    {
        proof {
            lemma_page_index(
                self.sram_start as int,
                self.sram_size as int,
                addr as int,
            );
        }
        let idx: usize = (addr - self.sram_start) / PAGE_SIZE;
        self.runtime_page_tracker[idx] = pid;
    }
}

/// An aligned address inside an aligned region indexes a page strictly
/// inside the region's page count.
pub proof fn lemma_page_index(start: int, size: int, addr: int)
    requires
        start % PAGE_SIZE as int == 0,
        size % PAGE_SIZE as int == 0,
        addr % PAGE_SIZE as int == 0,
        start <= addr < start + size,
    ensures
        0 <= (addr - start) / (PAGE_SIZE as int) < size / (PAGE_SIZE as int),
        ((addr - start) / PAGE_SIZE as int) * PAGE_SIZE as int == addr - start,
{
    let p = PAGE_SIZE as int;
    let d = addr - start;
    assert(d % p == 0) by {
        vstd::arithmetic::div_mod::lemma_sub_mod_noop(addr, start, p);
    }
    vstd::arithmetic::div_mod::lemma_fundamental_div_mod(d, p);
    vstd::arithmetic::div_mod::lemma_fundamental_div_mod(size, p);
    vstd::arithmetic::div_mod::lemma_div_pos_is_pos(d, p);
    assert(d / p < size / p) by (nonlinear_arith)
        requires
            d == p * (d / p),
            size == p * (size / p),
            d < size,
            p > 0,
    ;
}

impl BootConfig {
    /// Insert the mapping `virt -> phys` with `flags` into `pt`: find the
    /// root slot for `virt`; if it is empty, allocate and zero a new
    /// second-level table, record `owner` as that frame's owner, and
    /// install a pointer to it; then write the leaf entry.  A `phys` of
    /// zero with flags lacking the valid bit merely reserves the slot.
    ///
    /// Mapping the same virtual page twice overwrites the earlier entry:
    /// callers must keep virtual ranges disjoint, since enforcing that here
    /// would cost a full-table scan on every call.
    pub fn map_page(
        &mut self,
        pt: &mut PageTable,
        phys: usize,
        virt: usize,
        flags: usize,
        owner: XousPid,
    ) -> (r: Result<(), LoaderError>)
        requires
            old(self).wf_alloc(),
            pt_wf(old(pt)@),
            virt % PAGE_SIZE == 0,
            virt <= 0xffff_ffff,
            phys % PAGE_SIZE == 0,
            phys <= 0xffff_ffff,
            !(old(pt)@[vpn1_of(virt as int)] is Megapage),
        ensures
            final(self).wf_alloc(),
            old(self).wf() ==> final(self).wf(),
            pt_wf(final(pt)@),
            final(self).same_geometry(old(self)),
            final(self).processes@ == old(self).processes@,
            final(self).tables@ == old(self).tables@,
            match r {
                Ok(u) => {
                    &&& leaf_of(final(pt)@, vpn_of(virt as int)) == page_leaf(
                        ppn_of(phys as int),
                        flags,
                    )
                    &&& forall|v: int|
                        0 <= v < 0x100000 && v != vpn_of(virt as int) ==> leaf_of(
                            final(pt)@,
                            v,
                        ) == leaf_of(old(pt)@, v)
                    &&& forall|j: int|
                        0 <= j < 1024 && j != vpn1_of(virt as int) ==> final(pt)@[j] == old(
                            pt,
                        )@[j]
                    &&& final(pt)@[vpn1_of(virt as int)] is Table
                    &&& (old(pt)@[vpn1_of(virt as int)] is Table ==> {
                        &&& final(pt)@[vpn1_of(virt as int)]->Table_frame == old(
                            pt,
                        )@[vpn1_of(virt as int)]->Table_frame
                        &&& final(self).free_top == old(self).free_top
                        &&& final(self).runtime_page_tracker@ == old(self).runtime_page_tracker@
                    })
                    &&& (old(pt)@[vpn1_of(virt as int)] is Unmapped ==> {
                        &&& final(self).free_top == old(self).free_top - PAGE_SIZE
                        &&& final(pt)@[vpn1_of(virt as int)]->Table_frame == old(
                            self,
                        ).free_top - PAGE_SIZE
                        &&& final(self).runtime_page_tracker@ == old(
                            self,
                        ).runtime_page_tracker@.update(
                            old(self).page_index(old(self).free_top - PAGE_SIZE),
                            owner,
                        )
                    })
                },
                Err(e) => {
                    &&& e == LoaderError::OutOfMemory
                    &&& old(pt)@[vpn1_of(virt as int)] is Unmapped
                    &&& old(self).free_top < old(self).sram_start + PAGE_SIZE
                    &&& final(pt)@ == old(pt)@
                    &&& final(self).free_top == old(self).free_top
                    &&& final(self).runtime_page_tracker@ == old(self).runtime_page_tracker@
                },
            },
    {
        proof {
            lemma_vpn_split(virt as int);
        }
        let vpn1: usize = virt / (PAGE_SIZE * 1024);
        let vpn0: usize = (virt / PAGE_SIZE) % 1024;
        let ppn: usize = phys / PAGE_SIZE;
        proof {
            lemma_vpn_split(phys as int);
        }
        let needs_table: bool = match &pt.entries[vpn1] {
            RootEntry::Unmapped => true,
            _ => false,
        };
        if needs_table {
            let frame: usize = match self.alloc_page(owner) {
                Ok(f) => f,
                Err(e) => {
                    return Err(e);
                },
            };
            pt.install_table(vpn1, frame);
        }
        let leaf = LeafEntry::Page { ppn: ppn, flags: flags };
        pt.set_leaf(vpn1, vpn0, leaf);
        proof {
            assert forall|v: int| 0 <= v < 0x100000 && v != vpn_of(virt as int) implies leaf_of(
                pt@,
                v,
            ) == leaf_of(old(pt)@, v) by {
                vstd::arithmetic::div_mod::lemma_fundamental_div_mod(v, 1024);
                vstd::arithmetic::div_mod::lemma_div_pos_is_pos(v, 1024);
                vstd::arithmetic::div_mod::lemma_multiply_divide_lt(v, 1024, 1024);
                vstd::arithmetic::div_mod::lemma_mod_division_less_than_divisor(v, 1024);
                vstd::arithmetic::div_mod::lemma_fundamental_div_mod(vpn_of(virt as int), 1024);
            }
            assert(leaf_of(pt@, vpn_of(virt as int)) == page_leaf(ppn_of(phys as int), flags));
        }
        Ok(())
    }
}

/// One page down moves the tracker index one slot down.
pub proof fn lemma_page_index_minus(start: int, ft: int)
    requires
        start % PAGE_SIZE as int == 0,
        ft % PAGE_SIZE as int == 0,
        start + PAGE_SIZE <= ft,
    ensures
        (ft - PAGE_SIZE - start) / (PAGE_SIZE as int) == (ft - start) / (PAGE_SIZE as int) - 1,
        ((ft - start) / (PAGE_SIZE as int)) * (PAGE_SIZE as int) == ft - start,
{
    let p = PAGE_SIZE as int;
    let d = ft - start;
    assert(d % p == 0) by {
        vstd::arithmetic::div_mod::lemma_sub_mod_noop(ft, start, p);
    }
    vstd::arithmetic::div_mod::lemma_fundamental_div_mod(d, p);
    vstd::arithmetic::div_mod::lemma_div_pos_is_pos(d, p);
    vstd::arithmetic::mul::lemma_mul_is_distributive_sub(p, d / p, 1);
    vstd::arithmetic::div_mod::lemma_fundamental_div_mod_converse(d - p, p, d / p - 1, 0);
}

/// Tracker indexes respect address order.
pub proof fn lemma_page_index_ordered(start: int, a: int, b: int)
    requires
        a <= b,
    ensures
        (a - start) / (PAGE_SIZE as int) <= (b - start) / (PAGE_SIZE as int),
{
    vstd::arithmetic::div_mod::lemma_div_is_ordered(a - start, b - start, PAGE_SIZE as int);
}

/// A state that changed nothing has an empty ownership window.
pub proof fn lemma_window_refl(c: &BootConfig, pid: XousPid)
    ensures
        c.tracker_window(c, pid),
{
}

/// One allocation extends the ownership window by exactly the page just
/// handed out.
pub proof fn lemma_window_after_alloc(c2: &BootConfig, c1: &BootConfig, pid: XousPid)
    requires
        c1.wf(),
        c2.wf(),
        c2.same_geometry(c1),
        c2.free_top == c1.free_top - PAGE_SIZE,
        c2.runtime_page_tracker@ == c1.runtime_page_tracker@.update(
            c1.page_index(c1.free_top - PAGE_SIZE),
            pid,
        ),
    ensures
        c2.tracker_window(c1, pid),
{
    lemma_page_index_minus(c1.sram_start as int, c1.free_top as int);
    lemma_page_index(c1.sram_start as int, c1.sram_size as int, c2.free_top as int);
}

/// Ownership windows of consecutive steps join into one window.
pub proof fn lemma_window_trans(c2: &BootConfig, c1: &BootConfig, c0: &BootConfig, pid: XousPid)
    requires
        c0.wf(),
        c1.wf(),
        c2.wf(),
        c1.same_geometry(c0),
        c2.same_geometry(c1),
        c2.free_top <= c1.free_top,
        c1.free_top <= c0.free_top,
        c1.tracker_window(c0, pid),
        c2.tracker_window(c1, pid),
    ensures
        c2.tracker_window(c0, pid),
{
    lemma_page_index_ordered(c0.sram_start as int, c2.free_top as int, c1.free_top as int);
    lemma_page_index_ordered(c0.sram_start as int, c1.free_top as int, c0.free_top as int);
    assert forall|k: int| 0 <= k < c2.runtime_page_tracker@.len() implies c2.runtime_page_tracker@[k]
        == (if c0.page_index(c2.free_top as int) <= k && k < c0.page_index(c0.free_top as int) {
        pid
    } else {
        c0.runtime_page_tracker@[k]
    }) by {
        assert(c2.runtime_page_tracker@[k] == (if c1.page_index(c2.free_top as int) <= k && k
            < c1.page_index(c1.free_top as int) {
            pid
        } else {
            c1.runtime_page_tracker@[k]
        }));
    }
}

} // verus!
