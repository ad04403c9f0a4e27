//! The two-level page table, modeled as tagged slot values over typed frame
//! numbers rather than raw integers, so that byte addresses, frame numbers
//! and virtual addresses cannot be confused.

use vstd::prelude::*;

use crate::PAGE_SIZE;

verus! {

/// One slot of a second-level table.  An `Unmapped` slot is the all-zero
/// entry, which the hardware interprets as "not mapped"; a `Page` slot names
/// a physical frame together with its permission flags.  A `Page` whose
/// flags lack the valid bit only reserves the virtual address (used for
/// stack guard pages) and maps nothing.
#[derive(Clone, Copy, Debug, PartialEq, Eq, Structural)]
pub enum LeafEntry {
    Unmapped,
    Page { ppn: usize, flags: usize },
}

/// One slot of the root-level table: empty, a megapage leaf covering 4 MiB
/// directly, or a pointer to a second-level table of 1024 leaf slots.  The
/// `frame` of a `Table` records the physical frame that holds the
/// second-level table.
#[derive(Debug)]
pub enum RootEntry {
    Unmapped,
    Megapage { ppn: usize, flags: usize },
    Table { frame: usize, slots: Vec<LeafEntry> },
}

/// Mathematical image of a root-level slot.
#[verifier::ext_equal]
pub enum RootEntryView {
    Unmapped,
    Megapage { ppn: usize, flags: usize },
    Table { frame: usize, slots: Seq<LeafEntry> },
}

impl View for RootEntry {
    type V = RootEntryView;

    open spec fn view(&self) -> RootEntryView {
        match self {
            RootEntry::Unmapped => RootEntryView::Unmapped,
            RootEntry::Megapage { ppn, flags } => RootEntryView::Megapage {
                ppn: *ppn,
                flags: *flags,
            },
            RootEntry::Table { frame, slots } => RootEntryView::Table {
                frame: *frame,
                slots: slots@,
            },
        }
    }
}

/// A process's page table: the root level of 1024 slots, each possibly
/// holding its second-level table.  In physical memory the root occupies the
/// frame recorded in the process's `satp` value.
pub struct PageTable {
    pub entries: Vec<RootEntry>,
}

impl View for PageTable {
    type V = Seq<RootEntryView>;

    open spec fn view(&self) -> Seq<RootEntryView> {
        self.entries@.map_values(|e: RootEntry| e@)
    }
}

/// Well-formedness of a page table: exactly 1024 root slots, and every
/// second-level table holds exactly 1024 leaf slots.
pub open spec fn pt_wf(pt: Seq<RootEntryView>) -> bool {
    &&& pt.len() == 1024
    &&& forall|i: int|
        0 <= i < 1024 ==> (#[trigger] pt[i] matches RootEntryView::Table { slots, .. }
            ==> slots.len() == 1024)
}

/// The leaf slot that governs virtual page `vpn` (0 <= vpn < 2^20).  A
/// megapage or empty root slot yields no 4-KiB leaf.
pub open spec fn leaf_of(pt: Seq<RootEntryView>, vpn: int) -> LeafEntry {
    match pt[vpn / 1024] {
        RootEntryView::Table { slots, .. } => slots[vpn % 1024],
        _ => LeafEntry::Unmapped,
    }
}

/// A leaf entry that actually maps a frame: it is a `Page` and its flag word
/// has the valid bit (bit 0) set.
pub open spec fn leaf_is_valid(e: LeafEntry) -> bool {
    e matches LeafEntry::Page { flags, .. } && flags % 2 == 1
}

/// Virtual page `vpn` is backed by a valid mapping in `pt`.
pub open spec fn vpn_mapped(pt: Seq<RootEntryView>, vpn: int) -> bool {
    leaf_is_valid(leaf_of(pt, vpn))
}

/// The contents of a freshly zeroed second-level table: 1024 empty slots.
pub open spec fn zeroed_slots() -> Seq<LeafEntry> {
    Seq::new(1024, |i: int| LeafEntry::Unmapped)
}

/// Spec-level constructor for a root slot that points at a second-level
/// table.
pub open spec fn table_entry(frame: usize, slots: Seq<LeafEntry>) -> RootEntryView {
    RootEntryView::Table { frame, slots }
}

/// Spec-level constructor for a leaf page entry.
pub open spec fn page_leaf(ppn: usize, flags: usize) -> LeafEntry {
    LeafEntry::Page { ppn, flags }
}

/// Virtual page number of byte address `virt`.
pub open spec fn vpn_of(virt: int) -> int {
    virt / (PAGE_SIZE as int)
}

/// Root-table slot of byte address `virt` (its 4 MiB region).
pub open spec fn vpn1_of(virt: int) -> int {
    virt / (PAGE_SIZE as int * 1024)
}

/// Physical frame number of byte address `phys`.
pub open spec fn ppn_of(phys: int) -> usize {
    (phys / (PAGE_SIZE as int)) as usize
}

/// No root slot is a megapage leaf: user tables under construction hold
/// only empty slots and second-level tables.
pub open spec fn no_megapages(pt: Seq<RootEntryView>) -> bool {
    forall|j: int| 0 <= j < 1024 ==> !(#[trigger] pt[j] is Megapage)
}

/// Every validly mapped page names a frame at or above `bound` (the
/// allocator cursor): frames already handed out, never ones still free.
pub open spec fn frames_above(pt: Seq<RootEntryView>, bound: int) -> bool {
    forall|v: int|
        0 <= v < 0x100000 && vpn_mapped(pt, v) ==> PAGE_SIZE as int * (#[trigger] leaf_of(
            pt,
            v,
        )->Page_ppn as int) >= bound
}

/// No two validly mapped pages share a physical frame: nothing is mapped
/// twice.
pub open spec fn distinct_frames(pt: Seq<RootEntryView>) -> bool {
    forall|v1: int, v2: int|
        0 <= v1 < 0x100000 && 0 <= v2 < 0x100000 && v1 != v2 && vpn_mapped(pt, v1) && vpn_mapped(
            pt,
            v2,
        ) ==> #[trigger] leaf_of(pt, v1)->Page_ppn != #[trigger] leaf_of(pt, v2)->Page_ppn
}

impl PageTable {
    /// A freshly zeroed root table page: every slot empty.
    pub fn new() -> (r: PageTable)
        ensures
            pt_wf(r@),
            forall|i: int| 0 <= i < 1024 ==> r@[i] is Unmapped,
    {
        let mut entries: Vec<RootEntry> = Vec::new();
        while entries.len() < 1024
            invariant
                entries.len() <= 1024,
                forall|i: int| 0 <= i < entries@.len() ==> entries@[i] is Unmapped,
            decreases 1024 - entries.len(),
        {
            entries.push(RootEntry::Unmapped);
        }
        let r = PageTable { entries };
        assert(forall|i: int| 0 <= i < 1024 ==> r@[i] is Unmapped);
        r
    }

    /// The leaf entry governing byte address `virt`, as the hardware walker
    /// would find it.
    pub fn entry_at(&self, virt: usize) -> (r: LeafEntry)
        requires
            pt_wf(self@),
            virt < 0x1_0000_0000,
        ensures
            r == leaf_of(self@, virt as int / PAGE_SIZE as int),
    {
        let vpn1: usize = virt / (PAGE_SIZE * 1024);
        let vpn0: usize = (virt / PAGE_SIZE) % 1024;
        proof {
            lemma_vpn_split(virt as int);
        }
        match &self.entries[vpn1] {
            RootEntry::Table { slots, .. } => slots[vpn0],
            _ => LeafEntry::Unmapped,
        }
    }

    /// Install a freshly zeroed second-level table, held by physical frame
    /// `frame`, into empty root slot `vpn1`.
    pub fn install_table(&mut self, vpn1: usize, frame: usize)
        requires
            pt_wf(old(self)@),
            vpn1 < 1024,
            old(self)@[vpn1 as int] is Unmapped,
        ensures
            pt_wf(final(self)@),
            final(self)@ =~= old(self)@.update(vpn1 as int, table_entry(frame, zeroed_slots())),
    {
        let mut slots: Vec<LeafEntry> = Vec::new();
        while slots.len() < 1024
            invariant
                slots.len() <= 1024,
                (slots@ =~= zeroed_slots().take(slots@.len() as int)),
            decreases 1024 - slots.len(),
        {
            slots.push(LeafEntry::Unmapped);
        }
        assert(slots@ =~= zeroed_slots());
        let t = RootEntry::Table { frame: frame, slots: slots };
        self.entries[vpn1] = t;
        assert(self@ =~= old(self)@.update(vpn1 as int, table_entry(frame, zeroed_slots())));
    }

    /// Write leaf slot `vpn0` of the second-level table at root slot `vpn1`.
    pub fn set_leaf(&mut self, vpn1: usize, vpn0: usize, e: LeafEntry)
        requires
            pt_wf(old(self)@),
            vpn1 < 1024,
            vpn0 < 1024,
            old(self)@[vpn1 as int] is Table,
        ensures
            pt_wf(final(self)@),
            final(self)@ =~= old(self)@.update(
                vpn1 as int,
                table_entry(
                    old(self)@[vpn1 as int]->Table_frame,
                    old(self)@[vpn1 as int]->Table_slots.update(vpn0 as int, e),
                ),
            ),
    {
        let entry = &mut self.entries[vpn1];
        match entry {
            RootEntry::Table { slots, .. } => {
                slots[vpn0] = e;
            }
            _ => {
                proof {
                    assert(false);
                }
            }
        }
        assert(self@ =~= old(self)@.update(
            vpn1 as int,
            table_entry(
                old(self)@[vpn1 as int]->Table_frame,
                old(self)@[vpn1 as int]->Table_slots.update(vpn0 as int, e),
            ),
        ));
    }

    /// A value-identical copy of root slot `i`, used to propagate the shared
    /// kernel megapage slot into every other process's root table.
    pub fn root_entry_copy(&self, i: usize) -> (r: RootEntry)
        requires
            pt_wf(self@),
            i < 1024,
        ensures
            r@ =~= self@[i as int],
    {
        match &self.entries[i] {
            RootEntry::Unmapped => RootEntry::Unmapped,
            RootEntry::Megapage { ppn, flags } => RootEntry::Megapage { ppn: *ppn, flags: *flags },
            RootEntry::Table { frame, slots } => {
                let mut copy: Vec<LeafEntry> = Vec::new();
                let n: usize = slots.len();
                while copy.len() < n
                    invariant
                        copy.len() <= n,
                        n == slots@.len(),
                        (copy@ =~= slots@.take(copy@.len() as int)),
                    decreases n - copy.len(),
                {
                    copy.push(slots[copy.len()]);
                }
                assert(copy@ =~= slots@);
                RootEntry::Table { frame: *frame, slots: copy }
            }
        }
    }

    /// Overwrite root slot `i` with `e` (the megapage propagation step).
    pub fn set_root_entry(&mut self, i: usize, e: RootEntry)
        requires
            pt_wf(old(self)@),
            i < 1024,
            e@ matches RootEntryView::Table { slots, .. } ==> slots.len() == 1024,
        ensures
            pt_wf(final(self)@),
            final(self)@ =~= old(self)@.update(i as int, e@),
    {
        let ghost ev = e@;
        self.entries[i] = e;
        assert(self@ =~= old(self)@.update(i as int, ev));
    }
}

/// Splitting a 32-bit byte address into root slot and leaf slot agrees with
/// splitting its virtual page number.
pub proof fn lemma_vpn_split(virt: int)
    requires
        0 <= virt < 0x1_0000_0000,
    ensures
        virt / (PAGE_SIZE as int * 1024) == (virt / PAGE_SIZE as int) / 1024,
        0 <= virt / (PAGE_SIZE as int * 1024) < 1024,
        0 <= (virt / PAGE_SIZE as int) % 1024 < 1024,
        0 <= (virt / PAGE_SIZE as int) < 0x100000,
        (virt / PAGE_SIZE as int) % 1024 == (virt / PAGE_SIZE as int) - 1024 * ((virt
            / PAGE_SIZE as int) / 1024),
{
    vstd::arithmetic::div_mod::lemma_div_denominator(virt, PAGE_SIZE as int, 1024);
    vstd::arithmetic::div_mod::lemma_fundamental_div_mod(virt / PAGE_SIZE as int, 1024);
    vstd::arithmetic::div_mod::lemma_div_pos_is_pos(virt, PAGE_SIZE as int);
    vstd::arithmetic::div_mod::lemma_multiply_divide_lt(virt, PAGE_SIZE as int, 0x100000);
    vstd::arithmetic::div_mod::lemma_div_pos_is_pos(virt / PAGE_SIZE as int, 1024);
    vstd::arithmetic::div_mod::lemma_multiply_divide_lt(virt / PAGE_SIZE as int, 1024, 1024);
    vstd::arithmetic::div_mod::lemma_mod_division_less_than_divisor(virt / PAGE_SIZE as int, 1024);
}

} // verus!
