//! The phase-2 orchestrator: walks the boot image's tag list once,
//! assigning process identifiers in a fixed order and dispatching each tag
//! to the right loader, then performs the global fix-ups (kernel argument
//! mapping, shared kernel megapage propagation, ownership of the loader's
//! private pages) before control is handed to the kernel.

use vstd::prelude::*;

use crate::args::{KernelArgument, TAG_INIE, TAG_XKRN};
use crate::bootconfig::{BootConfig, InitialProcess};
use crate::minielf::{
    all_in_range, chain_pages, chain_vpns, flags_for_vpn, monotone_from, sections_of, MiniElf,
};
use crate::pagetable::{
    leaf_of, no_megapages, page_leaf, ppn_of, pt_wf, vpn_mapped, vpn_of, LeafEntry, PageTable,
};
use crate::program::{kernel_of, ProgramDescription};
use crate::{
    LoaderError, XousPid, EXCEPTION_STACK_TOP, FLG_R, FLG_VALID, FLG_W, GUARD_MEMORY_BYTES,
    KERNEL_ARGUMENT_OFFSET, PAGE_SIZE, USER_STACK_TOP,
};

verus! {

/// How many tags of the list carry the given name code.
pub open spec fn count_tags(args: Seq<KernelArgument>, name: u32) -> int
    decreases args.len(),
{
    if args.len() == 0 {
        0
    } else {
        count_tags(args.drop_last(), name) + (if args.last().name == name {
            1int
        } else {
            0int
        })
    }
}

/// Tag counts only grow along a prefix.
pub proof fn lemma_count_le(args: Seq<KernelArgument>, name: u32, i: int)
    requires
        0 <= i <= args.len(),
    ensures
        count_tags(args.take(i), name) <= count_tags(args, name),
        count_tags(args.take(i), name) >= 0,
    decreases args.len() - i,
{
    if i == args.len() {
        assert(args.take(i) =~= args);
        lemma_count_nonneg(args, name);
    } else {
        lemma_count_le(args, name, i + 1);
        assert(args.take(i + 1).drop_last() =~= args.take(i));
        assert(args.take(i + 1).last() == args[i]);
        lemma_count_nonneg(args.take(i), name);
    }
}

/// A tag the orchestrator can always process: an unknown tag (skipped), a
/// process tag whose payload parses into a monotone, in-range section
/// list, or a kernel tag whose seven words declare a layout inside the
/// fixed kernel windows.
pub open spec fn tag_loadable(tag: KernelArgument) -> bool {
    if tag.name == TAG_INIE {
        &&& tag.size_ok()
        &&& tag.data@.len() >= 2
        &&& (tag.data@.len() - 2) % 2 == 0
        &&& monotone_from(sections_of(tag), 0)
        &&& all_in_range(sections_of(tag))
    } else if tag.name == TAG_XKRN {
        &&& tag.size_ok()
        &&& tag.data@.len() == 7
        &&& kernel_of(tag).layout_ok()
    } else {
        true
    }
}

/// An upper bound on the pages one tag's load can consume.
pub open spec fn tag_pages(tag: KernelArgument) -> int {
    if tag.name == TAG_INIE {
        5 + 2 * chain_pages(sections_of(tag), 0)
    } else if tag.name == TAG_XKRN {
        5 + kernel_of(tag).text_pages() + kernel_of(tag).data_pages()
    } else {
        0
    }
}

/// An upper bound on the pages the whole tag list can consume.
pub open spec fn pages_needed(args: Seq<KernelArgument>) -> int
    decreases args.len(),
{
    if args.len() == 0 {
        0
    } else {
        pages_needed(args.drop_last()) + tag_pages(args.last())
    }
}

/// No tag can consume a negative number of pages.
pub proof fn lemma_tag_pages_nonneg(tag: KernelArgument)
    ensures
        tag_pages(tag) >= 0,
{
    if tag.name == TAG_INIE {
        crate::minielf::lemma_chain_pages_nonneg(sections_of(tag), 0);
    } else if tag.name == TAG_XKRN {
        vstd::arithmetic::div_mod::lemma_div_pos_is_pos(
            (kernel_of(tag).text_size + PAGE_SIZE - 1) as int,
            PAGE_SIZE as int,
        );
        vstd::arithmetic::div_mod::lemma_div_pos_is_pos(
            (kernel_of(tag).data_size + kernel_of(tag).bss_size + PAGE_SIZE - 1) as int,
            PAGE_SIZE as int,
        );
    }
}

/// The page budget of a prefix never exceeds the whole list's.
pub proof fn lemma_pages_needed_le(args: Seq<KernelArgument>, i: int)
    requires
        0 <= i <= args.len(),
    ensures
        pages_needed(args.take(i)) <= pages_needed(args),
        pages_needed(args.take(i)) >= 0,
    decreases args.len() - i,
{
    if i == args.len() {
        assert(args.take(i) =~= args);
        lemma_pages_needed_nonneg(args);
    } else {
        lemma_pages_needed_le(args, i + 1);
        assert(args.take(i + 1).drop_last() =~= args.take(i));
        assert(args.take(i + 1).last() == args[i]);
        lemma_tag_pages_nonneg(args[i]);
        lemma_pages_needed_nonneg(args.take(i));
    }
}

/// A page budget is never negative.
pub proof fn lemma_pages_needed_nonneg(args: Seq<KernelArgument>)
    ensures
        pages_needed(args) >= 0,
    decreases args.len(),
{
    if args.len() > 0 {
        lemma_pages_needed_nonneg(args.drop_last());
        lemma_tag_pages_nonneg(args.last());
    }
}

/// The `k`-th tag (0-based) carrying the given name code.
pub open spec fn nth_tag(args: Seq<KernelArgument>, name: u32, k: int) -> KernelArgument
    decreases args.len(),
{
    if args.len() == 0 {
        args[0]
    } else if args[0].name == name {
        if k == 0 {
            args[0]
        } else {
            nth_tag(args.subrange(1, args.len() as int), name, k - 1)
        }
    } else {
        nth_tag(args.subrange(1, args.len() as int), name, k)
    }
}

/// Counting from the front agrees with counting from the back.
pub proof fn lemma_count_split_first(args: Seq<KernelArgument>, name: u32, i: int)
    requires
        1 <= i <= args.len(),
    ensures
        count_tags(args.take(i), name) == (if args[0].name == name {
            1int
        } else {
            0int
        }) + count_tags(args.subrange(1, args.len() as int).take(i - 1), name),
    decreases i,
{
    let rest = args.subrange(1, args.len() as int);
    if i == 1 {
        assert(args.take(1).drop_last() =~= Seq::<KernelArgument>::empty());
        assert(args.take(1).last() == args[0]);
        assert(rest.take(0) =~= Seq::<KernelArgument>::empty());
    } else {
        lemma_count_split_first(args, name, i - 1);
        assert(args.take(i).drop_last() =~= args.take(i - 1));
        assert(args.take(i).last() == args[i - 1]);
        assert(rest.take(i - 1).drop_last() =~= rest.take(i - 2));
        assert(rest.take(i - 1).last() == rest[i - 2]);
        assert(rest[i - 2] == args[i - 1]);
    }
}

/// The tag at index `t` carrying `name` is the `c`-th such tag, where `c`
/// counts the earlier ones.
pub proof fn lemma_nth_tag_at(args: Seq<KernelArgument>, name: u32, t: int)
    requires
        0 <= t < args.len(),
        args[t].name == name,
    ensures
        nth_tag(args, name, count_tags(args.take(t), name)) == args[t],
    decreases t,
{
    let rest = args.subrange(1, args.len() as int);
    if t == 0 {
        assert(args.take(0) =~= Seq::<KernelArgument>::empty());
    } else {
        lemma_count_split_first(args, name, t);
        assert(rest[t - 1] == args[t]);
        lemma_nth_tag_at(rest, name, t - 1);
        lemma_count_nonneg(rest.take(t - 1), name);
    }
}

/// A count is never negative.
pub proof fn lemma_count_nonneg(args: Seq<KernelArgument>, name: u32)
    ensures
        count_tags(args, name) >= 0,
    decreases args.len(),
{
    if args.len() > 0 {
        lemma_count_nonneg(args.drop_last(), name);
    }
}

/// Walk the boot image's ordered tag list once: each initial-process tag
/// is loaded under the next sequential process identifier starting at 2,
/// the kernel image tag is loaded as process 1.  Afterwards the
/// boot-generated kernel structures are mapped into the kernel's argument
/// window, the kernel's top root-table slot is copied verbatim into every
/// other process's root table (so a trap from any process lands in valid
/// kernel code), the loader's own stack and signature scratch pages are
/// marked permanently reserved, and one page is left free for the
/// kernel's later suspend support.
#[verifier::rlimit(100)]
pub fn phase_2(cfg: &mut BootConfig) -> (r: Result<(), LoaderError>)
    requires
        old(cfg).wf(),
        old(cfg).sram_start >= PAGE_SIZE,
        old(cfg).processes@.len() == 0,
        old(cfg).tables@.len() == 0,
        GUARD_MEMORY_BYTES <= old(cfg).init_size,
        old(cfg).init_size - GUARD_MEMORY_BYTES <= 0x10_0000,
        old(cfg).sram_size >= 3 * PAGE_SIZE,
        count_tags(old(cfg).args@, TAG_INIE) <= 254,
        forall|t: int|
            0 <= t < old(cfg).args@.len() ==> (#[trigger] old(cfg).args@[t]).data@.len()
                <= 0x3fff_ffff,
    ensures
        final(cfg).wf(),
        final(cfg).same_geometry(old(cfg)),
        final(cfg).free_top <= old(cfg).free_top,
        count_tags(old(cfg).args@, TAG_XKRN) == 1 && (forall|t: int|
            0 <= t < old(cfg).args@.len() ==> tag_loadable(#[trigger] old(cfg).args@[t])) && old(
            cfg,
        ).free_top >= old(cfg).sram_start + PAGE_SIZE * pages_needed(old(cfg).args@) ==> r is Ok,
        match r {
            Ok(u) => {
                &&& count_tags(old(cfg).args@, TAG_XKRN) == 1
                &&& final(cfg).processes@.len() == 1 + count_tags(old(cfg).args@, TAG_INIE)
                &&& final(cfg).tables@.len() == final(cfg).processes@.len()
                &&& forall|t: int|
                    0 <= t < final(cfg).tables@.len() ==> #[trigger] final(cfg).tables@[t]@[1023] == final(cfg).tables@[0]@[1023]
                &&& forall|q: int|
                    0 <= q < final(cfg).processes@.len() ==> (#[trigger] final(cfg).processes@[q]).satp / 0x40_0000 == 0x200 + q + 1
                &&& final(cfg).processes@[0].entrypoint == nth_tag(
                    old(cfg).args@,
                    TAG_XKRN,
                    0,
                ).data@[6]
                &&& final(cfg).processes@[0].sp == EXCEPTION_STACK_TOP - 16
                &&& forall|q: int|
                    1 <= q < final(cfg).processes@.len() ==> (#[trigger] final(
                        cfg).processes@[q]).entrypoint == nth_tag(
                        old(cfg).args@,
                        TAG_INIE,
                        q - 1,
                    ).data@[1] && final(cfg).processes@[q].sp == USER_STACK_TOP - 16
                &&& forall|k: int|
                    0 <= k < (old(cfg).init_size - GUARD_MEMORY_BYTES) / (PAGE_SIZE as int)
                        ==> #[trigger] leaf_of(final(cfg).tables@[0]@, 0xffc00 + k) == page_leaf(
                        ppn_of(old(cfg).krn_struct_start() + PAGE_SIZE as int * k),
                        (FLG_R + FLG_W + FLG_VALID) as usize,
                    )
                &&& forall|q: int|
                    1 <= q < final(cfg).processes@.len() ==> all_in_range(
                        sections_of(#[trigger] nth_tag(old(cfg).args@, TAG_INIE, q - 1)),
                    ) && monotone_from(
                        sections_of(nth_tag(old(cfg).args@, TAG_INIE, q - 1)),
                        0,
                    )
                &&& forall|q: int, v: int|
                    1 <= q < final(cfg).processes@.len() && chain_vpns(
                        sections_of(nth_tag(old(cfg).args@, TAG_INIE, q - 1)),
                        0,
                    ).contains(v) ==> ((#[trigger] leaf_of(final(cfg).tables@[q]@, v))
                        matches LeafEntry::Page { ppn, flags } && flags == flags_for_vpn(
                        sections_of(nth_tag(old(cfg).args@, TAG_INIE, q - 1)),
                        0,
                        v,
                    ))
                &&& forall|t1: int, t2: int, v1: int, v2: int|
                    0 <= t1 < final(cfg).tables@.len() && 0 <= t2 < final(cfg).tables@.len()
                        && t1 != t2 && 0 <= v1 < 0x100000 && 0 <= v2 < 0x100000 && v1 / 1024
                        != 1023 && v2 / 1024 != 1023 && #[trigger] vpn_mapped(
                        final(cfg).tables@[t1]@,
                        v1,
                    ) && #[trigger] vpn_mapped(final(cfg).tables@[t2]@, v2) ==> leaf_of(
                        final(cfg).tables@[t1]@,
                        v1,
                    )->Page_ppn != leaf_of(final(cfg).tables@[t2]@, v2)->Page_ppn
                &&& forall|k: int|
                    0 <= k < (old(cfg).init_size - GUARD_MEMORY_BYTES) / (PAGE_SIZE as int)
                        ==> #[trigger] final(cfg).runtime_page_tracker@[old(cfg).page_index(
                        old(cfg).krn_struct_start() + PAGE_SIZE as int * k,
                    )] == (if old(cfg).page_index(
                        old(cfg).krn_struct_start() + PAGE_SIZE as int * k,
                    ) == final(cfg).runtime_page_tracker@.len() - 3 {
                        0u8
                    } else {
                        1u8
                    })
                &&& final(cfg).runtime_page_tracker@[final(cfg).runtime_page_tracker@.len() - 1]
                    == 1
                &&& final(cfg).runtime_page_tracker@[final(cfg).runtime_page_tracker@.len() - 2]
                    == 1
                &&& final(cfg).runtime_page_tracker@[final(cfg).runtime_page_tracker@.len() - 3]
                    == 0
            },
            Err(e) => {
                &&& (e == LoaderError::MissingKernel ==> count_tags(old(cfg).args@, TAG_XKRN)
                    == 0)
                &&& (e == LoaderError::DuplicateKernel ==> count_tags(old(cfg).args@, TAG_XKRN)
                    >= 2)
                &&& ((e == LoaderError::MalformedTag || e == LoaderError::KernelOutOfRange || e
                    == LoaderError::SectionsNotMonotone || e == LoaderError::SectionOutOfRange)
                    ==> !(forall|t: int|
                    0 <= t < old(cfg).args@.len() ==> tag_loadable(
                        #[trigger] old(cfg).args@[t],
                    )))
            },
        },
{
    let ghost argsv = cfg.args@;
    let ghost cfge = *cfg;

    // Count the tags so the process table can be sized up front, and so a
    // missing or duplicated kernel image is a detected fatal error.
    let mut n_inie: usize = 0;
    let mut n_xkrn: usize = 0;
    let total: usize = cfg.args.len();
    let mut t: usize = 0;
    while t < total
        invariant
            t <= total,
            total == argsv.len(),
            argsv == cfg.args@,
            n_inie == count_tags(argsv.take(t as int), TAG_INIE),
            n_xkrn == count_tags(argsv.take(t as int), TAG_XKRN),
            n_inie <= t,
            n_xkrn <= t,
        decreases total - t,
    {
        proof {
            assert(argsv.take(t as int + 1).drop_last() =~= argsv.take(t as int));
            assert(argsv.take(t as int + 1).last() == argsv[t as int]);
            lemma_count_nonneg(argsv.take(t as int), TAG_INIE);
            lemma_count_nonneg(argsv.take(t as int), TAG_XKRN);
        }
        let name: u32 = cfg.args[t].name;
        if name == TAG_INIE {
            n_inie = n_inie + 1;
        } else if name == TAG_XKRN {
            n_xkrn = n_xkrn + 1;
        }
        t = t + 1;
    }
    proof {
        assert(argsv.take(total as int) =~= argsv);
    }
    if n_xkrn == 0 {
        return Err(LoaderError::MissingKernel);
    }
    if n_xkrn > 1 {
        return Err(LoaderError::DuplicateKernel);
    }

    // One record and one root table per process; the kernel is index 0.
    let n_procs: usize = 1 + n_inie;
    let mut made: usize = 0;
    while made < n_procs
        invariant
            made <= n_procs,
            cfge == *old(cfg),
            cfg.wf_alloc(),
            cfg.same_geometry(&cfge),
            cfg.free_top == cfge.free_top,
            cfg.runtime_page_tracker@ == cfge.runtime_page_tracker@,
            cfg.args@ == cfge.args@,
            cfg.processes@.len() == made,
            cfg.tables@.len() == made,
            forall|u: int| 0 <= u < made ==> pt_wf(#[trigger] cfg.tables@[u]@),
            forall|u: int, v: int|
                0 <= u < made && 0 <= v < 0x100000 ==> !(#[trigger] vpn_mapped(
                    cfg.tables@[u]@,
                    v,
                )),
        decreases n_procs - made,
    {
        let blank = InitialProcess { satp: 0, entrypoint: 0, sp: 0 };
        cfg.processes.push(blank);
        let fresh_table = PageTable::new();
        let ghost tabs_b = cfg.tables@;
        cfg.tables.push(fresh_table);
        made = made + 1;
        proof {
            assert forall|u: int, v: int| 0 <= u < made && 0 <= v < 0x100000 implies !(
            #[trigger] vpn_mapped(cfg.tables@[u]@, v)) by {
                vstd::arithmetic::div_mod::lemma_div_pos_is_pos(v, 1024);
                vstd::arithmetic::div_mod::lemma_multiply_divide_lt(v, 1024, 1024);
                if u == made - 1 {
                    assert(cfg.tables@[u]@[v / 1024] is Unmapped);
                } else {
                    assert(cfg.tables@[u] == tabs_b[u]);
                    assert(!vpn_mapped(tabs_b[u]@, v));
                }
            }
        }
    }

    // Walk the tags, loading each program under its process identifier.
    let mut pid: usize = 2;
    let mut kernel_done: bool = false;
    let mut t2: usize = 0;
    while t2 < total
        invariant
            t2 <= total,
            total == argsv.len(),
            argsv == cfg.args@,
            cfge == *old(cfg),
            cfge.wf(),
            cfge.sram_start >= PAGE_SIZE,
            forall|u: int|
                0 <= u < argsv.len() ==> (#[trigger] argsv[u]).data@.len() <= 0x3fff_ffff,
            count_tags(argsv, TAG_INIE) <= 254,
            count_tags(argsv, TAG_XKRN) == 1,
            cfg.wf(),
            cfg.same_geometry(&cfge),
            cfg.free_top <= cfge.free_top,
            cfg.processes@.len() == 1 + count_tags(argsv, TAG_INIE),
            cfg.tables@.len() == cfg.processes@.len(),
            pid as int == 2 + count_tags(argsv.take(t2 as int), TAG_INIE),
            kernel_done <==> count_tags(argsv.take(t2 as int), TAG_XKRN) == 1,
            cfge.free_top - cfg.free_top <= PAGE_SIZE * pages_needed(argsv.take(t2 as int)),
            kernel_done ==> cfg.processes@[0].entrypoint == nth_tag(
                argsv,
                TAG_XKRN,
                0,
            ).data@[6] && cfg.processes@[0].sp == EXCEPTION_STACK_TOP - 16,
            forall|q: int|
                1 <= q < pid - 1 ==> (#[trigger] cfg.processes@[q]).entrypoint == nth_tag(
                    argsv,
                    TAG_INIE,
                    q - 1,
                ).data@[1] && cfg.processes@[q].sp == USER_STACK_TOP - 16,
            forall|q: int, v: int|
                0 <= q < cfg.tables@.len() && 0 <= v < 0x100000 && #[trigger] vpn_mapped(
                    cfg.tables@[q]@,
                    v,
                ) ==> cfg.free_top <= PAGE_SIZE as int * (leaf_of(
                    cfg.tables@[q]@,
                    v,
                )->Page_ppn as int) && PAGE_SIZE as int * (leaf_of(
                    cfg.tables@[q]@,
                    v,
                )->Page_ppn as int) < cfge.free_top,
            forall|q1: int, q2: int, v1: int, v2: int|
                0 <= q1 < cfg.tables@.len() && 0 <= q2 < cfg.tables@.len() && q1 != q2 && 0 <= v1
                    < 0x100000 && 0 <= v2 < 0x100000 && #[trigger] vpn_mapped(
                    cfg.tables@[q1]@,
                    v1,
                ) && #[trigger] vpn_mapped(cfg.tables@[q2]@, v2) ==> leaf_of(
                    cfg.tables@[q1]@,
                    v1,
                )->Page_ppn != leaf_of(cfg.tables@[q2]@, v2)->Page_ppn,
            kernel_done ==> no_megapages(cfg.tables@[0]@) && leaf_of(
                cfg.tables@[0]@,
                0xfffef,
            ) is Page,
            kernel_done ==> (cfg.processes@[0].satp / 0x40_0000 == 0x200 + 1),
            forall|q: int|
                1 <= q < pid - 1 ==> (#[trigger] cfg.processes@[q]).satp / 0x40_0000 == 0x200 + q
                    + 1,
            forall|q: int|
                1 <= q < pid - 1 ==> all_in_range(
                    sections_of(#[trigger] nth_tag(argsv, TAG_INIE, q - 1)),
                ) && monotone_from(sections_of(nth_tag(argsv, TAG_INIE, q - 1)), 0),
            forall|q: int, v: int|
                1 <= q < pid - 1 && chain_vpns(
                    sections_of(nth_tag(argsv, TAG_INIE, q - 1)),
                    0,
                ).contains(v) ==> ((#[trigger] leaf_of(cfg.tables@[q]@, v))
                    matches LeafEntry::Page { ppn, flags } && flags == flags_for_vpn(
                    sections_of(nth_tag(argsv, TAG_INIE, q - 1)),
                    0,
                    v,
                )),
        decreases total - t2,
    {
        proof {
            assert(argsv.take(t2 as int + 1).drop_last() =~= argsv.take(t2 as int));
            assert(argsv.take(t2 as int + 1).last() == argsv[t2 as int]);
            lemma_count_nonneg(argsv.take(t2 as int), TAG_INIE);
            lemma_count_nonneg(argsv.take(t2 as int), TAG_XKRN);
            lemma_count_le(argsv, TAG_INIE, t2 as int + 1);
            lemma_count_le(argsv, TAG_XKRN, t2 as int + 1);
            lemma_pages_needed_le(argsv, t2 as int + 1);
            lemma_tag_pages_nonneg(argsv[t2 as int]);
            lemma_pages_needed_nonneg(argsv.take(t2 as int));
        }
        let name: u32 = cfg.args[t2].name;
        if name == TAG_INIE {
            let elf: MiniElf = match MiniElf::new(&cfg.args[t2]) {
                Ok(e) => e,
                Err(e) => {
                    proof {
                        assert(!tag_loadable(argsv[t2 as int]));
                    }
                    return Err(e);
                },
            };
            proof {
                assert(elf.sections@ =~= sections_of(argsv[t2 as int]));
            }
            proof {
                assert(count_tags(argsv.take(t2 as int + 1), TAG_INIE) <= 254);
                assert(pid <= 255);
            }
            let pid8: XousPid = pid as u8;
            proof {
                assert(pid8 as int == pid as int);
            }
            let ghost cfg_b = *cfg;
            match elf.load(cfg, pid8) {
                Ok(m) => {},
                Err(e) => {
                    proof {
                        if e == LoaderError::SectionsNotMonotone || e
                            == LoaderError::SectionOutOfRange {
                            assert(!tag_loadable(argsv[t2 as int]));
                        }
                        if count_tags(argsv, TAG_XKRN) == 1 && (forall|u: int|
                            0 <= u < argsv.len() ==> tag_loadable(#[trigger] argsv[u]))
                            && cfge.free_top >= cfge.sram_start + PAGE_SIZE * pages_needed(
                            argsv,
                        ) {
                            assert(tag_loadable(argsv[t2 as int]));
                            assert(pages_needed(argsv.take(t2 as int + 1)) == pages_needed(
                                argsv.take(t2 as int),
                            ) + tag_pages(argsv[t2 as int]));
                            assert(cfg_b.free_top >= cfg_b.sram_start + PAGE_SIZE * (5 + 2
                                * chain_pages(elf.sections@, 0)));
                            assert(false);
                        }
                    }
                    return Err(e);
                },
            }
            proof {
                lemma_count_nonneg(argsv, TAG_INIE);
                assert(cfg_b.processes@.len() >= 1);
                assert forall|q: int| 0 <= q < cfg.processes@.len() && q != pid as int - 1
                    implies #[trigger] cfg.processes@[q] == cfg_b.processes@[q]
                    && cfg.tables@[q] == cfg_b.tables@[q] by {
                    assert(cfg.processes@[q] == cfg_b.processes@[q]);
                }
                assert(cfg.processes@[0] == cfg_b.processes@[0]);
                assert(cfg.tables@[0] == cfg_b.tables@[0]);
                assert(cfg.processes@[pid as int - 1].satp / 0x40_0000 == 0x200 + pid as int)
                    by {
                    let c = (cfg_b.free_top - PAGE_SIZE) as int / (PAGE_SIZE as int);
                    assert(0 <= c < 0x100000) by {
                        vstd::arithmetic::div_mod::lemma_div_pos_is_pos(
                            cfg_b.free_top - PAGE_SIZE,
                            PAGE_SIZE as int,
                        );
                        vstd::arithmetic::div_mod::lemma_multiply_divide_lt(
                            cfg_b.free_top - PAGE_SIZE,
                            PAGE_SIZE as int,
                            0x100000,
                        );
                    }
                    crate::minielf::lemma_div_interval(
                        cfg.processes@[pid as int - 1].satp as int,
                        0x40_0000,
                        0x200 + pid as int,
                    );
                }
                lemma_nth_tag_at(argsv, TAG_INIE, t2 as int);
                assert(cfg.processes@[pid as int - 1].entrypoint == nth_tag(
                    argsv,
                    TAG_INIE,
                    pid - 2,
                ).data@[1]);
                assert(sections_of(nth_tag(argsv, TAG_INIE, pid - 2)) =~= elf.sections@);
                assert forall|q: int|
                    1 <= q < pid implies all_in_range(
                    sections_of(#[trigger] nth_tag(argsv, TAG_INIE, q - 1)),
                ) && monotone_from(sections_of(nth_tag(argsv, TAG_INIE, q - 1)), 0) by {
                    if q == pid as int - 1 {
                        assert(sections_of(nth_tag(argsv, TAG_INIE, q - 1)) == elf.sections@);
                        assert(all_in_range(elf.sections@));
                        assert(monotone_from(elf.sections@, 0));
                    } else {
                        assert(all_in_range(sections_of(nth_tag(argsv, TAG_INIE, q - 1))));
                    }
                }
                assert forall|q: int, v: int|
                    1 <= q < pid && chain_vpns(
                        sections_of(nth_tag(argsv, TAG_INIE, q - 1)),
                        0,
                    ).contains(v) implies ((#[trigger] leaf_of(cfg.tables@[q]@, v))
                    matches LeafEntry::Page { ppn, flags } && flags == flags_for_vpn(
                    sections_of(nth_tag(argsv, TAG_INIE, q - 1)),
                    0,
                    v,
                )) by {
                    if q != pid as int - 1 {
                        assert(cfg.processes@[q] == cfg_b.processes@[q]);
                        assert(cfg.tables@[q] == cfg_b.tables@[q]);
                        assert(1 <= q < pid - 1);
                        let s0 = sections_of(nth_tag(argsv, TAG_INIE, q - 1));
                        assert(chain_vpns(s0, 0).contains(v));
                        assert((leaf_of(cfg_b.tables@[q]@, v)) matches LeafEntry::Page {
                            ppn,
                            flags,
                        } && flags == flags_for_vpn(s0, 0, v));
                    } else {
                        assert(sections_of(nth_tag(argsv, TAG_INIE, q - 1)) == elf.sections@);
                        assert(chain_vpns(elf.sections@, 0).contains(v));
                        assert((leaf_of(cfg.tables@[pid as int - 1]@, v))
                            matches LeafEntry::Page { ppn, flags } && flags == flags_for_vpn(
                            elf.sections@,
                            0,
                            v,
                        ));
                    }
                }
                assert forall|q: int, v: int|
                    0 <= q < cfg.tables@.len() && 0 <= v < 0x100000 && #[trigger] vpn_mapped(
                        cfg.tables@[q]@,
                        v,
                    ) implies cfg.free_top <= PAGE_SIZE as int * (leaf_of(
                    cfg.tables@[q]@,
                    v,
                )->Page_ppn as int) && PAGE_SIZE as int * (leaf_of(
                    cfg.tables@[q]@,
                    v,
                )->Page_ppn as int) < cfge.free_top by {
                    if q != pid as int - 1 {
                        assert(cfg.processes@[q] == cfg_b.processes@[q]);
                        assert(cfg.tables@[q] == cfg_b.tables@[q]);
                        assert(vpn_mapped(cfg_b.tables@[q]@, v));
                    }
                }
                assert forall|q1: int, q2: int, v1: int, v2: int|
                    0 <= q1 < cfg.tables@.len() && 0 <= q2 < cfg.tables@.len() && q1 != q2 && 0
                        <= v1 < 0x100000 && 0 <= v2 < 0x100000 && #[trigger] vpn_mapped(
                        cfg.tables@[q1]@,
                        v1,
                    ) && #[trigger] vpn_mapped(cfg.tables@[q2]@, v2) implies leaf_of(
                    cfg.tables@[q1]@,
                    v1,
                )->Page_ppn != leaf_of(cfg.tables@[q2]@, v2)->Page_ppn by {
                    if q1 != pid as int - 1 && q2 != pid as int - 1 {
                        assert(cfg.processes@[q1] == cfg_b.processes@[q1]);
                        assert(cfg.processes@[q2] == cfg_b.processes@[q2]);
                        assert(cfg.tables@[q1] == cfg_b.tables@[q1]);
                        assert(cfg.tables@[q2] == cfg_b.tables@[q2]);
                        assert(vpn_mapped(cfg_b.tables@[q1]@, v1));
                        assert(vpn_mapped(cfg_b.tables@[q2]@, v2));
                    } else if q1 == pid as int - 1 {
                        assert(cfg.processes@[q2] == cfg_b.processes@[q2]);
                        assert(cfg.tables@[q2] == cfg_b.tables@[q2]);
                        assert(vpn_mapped(cfg_b.tables@[q2]@, v2));
                        assert(PAGE_SIZE as int * (leaf_of(
                            cfg.tables@[q1]@,
                            v1,
                        )->Page_ppn as int) < cfg_b.free_top);
                        assert(PAGE_SIZE as int * (leaf_of(
                            cfg_b.tables@[q2]@,
                            v2,
                        )->Page_ppn as int) >= cfg_b.free_top);
                    } else {
                        assert(cfg.processes@[q1] == cfg_b.processes@[q1]);
                        assert(cfg.tables@[q1] == cfg_b.tables@[q1]);
                        assert(vpn_mapped(cfg_b.tables@[q1]@, v1));
                        assert(PAGE_SIZE as int * (leaf_of(
                            cfg.tables@[q2]@,
                            v2,
                        )->Page_ppn as int) < cfg_b.free_top);
                        assert(PAGE_SIZE as int * (leaf_of(
                            cfg_b.tables@[q1]@,
                            v1,
                        )->Page_ppn as int) >= cfg_b.free_top);
                    }
                }
            }
            pid = pid + 1;
        } else if name == TAG_XKRN {
            if cfg.args[t2].data.len() != 7 || !cfg.args[t2].check_size() {
                proof {
                    assert(!tag_loadable(argsv[t2 as int]));
                }
                return Err(LoaderError::MalformedTag);
            }
            let xkrn = ProgramDescription {
                load_offset: cfg.args[t2].data[0],
                text_offset: cfg.args[t2].data[1],
                text_size: cfg.args[t2].data[2],
                data_offset: cfg.args[t2].data[3],
                data_size: cfg.args[t2].data[4],
                bss_size: cfg.args[t2].data[5],
                entrypoint: cfg.args[t2].data[6],
            };
            proof {
                assert(xkrn == kernel_of(argsv[t2 as int]));
            }
            if !xkrn.check_layout() {
                proof {
                    assert(!tag_loadable(argsv[t2 as int]));
                }
                return Err(LoaderError::KernelOutOfRange);
            }
            let ghost cfg_b = *cfg;
            match xkrn.load(cfg) {
                Ok(u) => {},
                Err(e) => {
                    proof {
                        assert(cfg_b.free_top < cfg_b.sram_start + PAGE_SIZE * tag_pages(
                            argsv[t2 as int],
                        ));
                    }
                    return Err(e);
                },
            }
            proof {
                assert(leaf_of(cfg.tables@[0]@, 0xfffef) is Page);
                assert(cfg.processes@[0].satp / 0x40_0000 == 0x200 + 1) by {
                    let c = (cfg_b.free_top - PAGE_SIZE) as int / (PAGE_SIZE as int);
                    assert(0 <= c < 0x100000) by {
                        vstd::arithmetic::div_mod::lemma_div_pos_is_pos(
                            cfg_b.free_top - PAGE_SIZE,
                            PAGE_SIZE as int,
                        );
                        vstd::arithmetic::div_mod::lemma_multiply_divide_lt(
                            cfg_b.free_top - PAGE_SIZE,
                            PAGE_SIZE as int,
                            0x100000,
                        );
                    }
                    crate::minielf::lemma_div_interval(
                        cfg.processes@[0].satp as int,
                        0x40_0000,
                        0x200int + 1,
                    );
                }
                lemma_nth_tag_at(argsv, TAG_XKRN, t2 as int);
                assert(cfg.processes@[0].entrypoint == nth_tag(argsv, TAG_XKRN, 0).data@[6]);
                assert forall|q: int, v: int|
                    1 <= q < pid - 1 && chain_vpns(
                        sections_of(nth_tag(argsv, TAG_INIE, q - 1)),
                        0,
                    ).contains(v) implies ((#[trigger] leaf_of(cfg.tables@[q]@, v))
                    matches LeafEntry::Page { ppn, flags } && flags == flags_for_vpn(
                    sections_of(nth_tag(argsv, TAG_INIE, q - 1)),
                    0,
                    v,
                )) by {
                    assert(cfg.processes@[q] == cfg_b.processes@[q]);
                    assert(cfg.tables@[q] == cfg_b.tables@[q]);
                    assert(leaf_of(cfg_b.tables@[q]@, v) matches LeafEntry::Page {
                        ppn,
                        flags,
                    } && flags == flags_for_vpn(
                        sections_of(nth_tag(argsv, TAG_INIE, q - 1)),
                        0,
                        v,
                    ));
                }
                assert forall|q: int| 0 <= q < cfg.processes@.len() && q != 0 implies
                    #[trigger] cfg.processes@[q] == cfg_b.processes@[q] && cfg.tables@[q]
                    == cfg_b.tables@[q] by {
                    assert(cfg.processes@[q] == cfg_b.processes@[q]);
                }
                assert forall|q: int, v: int|
                    0 <= q < cfg.tables@.len() && 0 <= v < 0x100000 && #[trigger] vpn_mapped(
                        cfg.tables@[q]@,
                        v,
                    ) implies cfg.free_top <= PAGE_SIZE as int * (leaf_of(
                    cfg.tables@[q]@,
                    v,
                )->Page_ppn as int) && PAGE_SIZE as int * (leaf_of(
                    cfg.tables@[q]@,
                    v,
                )->Page_ppn as int) < cfge.free_top by {
                    if q != 0 {
                        assert(cfg.processes@[q] == cfg_b.processes@[q]);
                        assert(cfg.tables@[q] == cfg_b.tables@[q]);
                        assert(vpn_mapped(cfg_b.tables@[q]@, v));
                    }
                }
                assert forall|q1: int, q2: int, v1: int, v2: int|
                    0 <= q1 < cfg.tables@.len() && 0 <= q2 < cfg.tables@.len() && q1 != q2 && 0
                        <= v1 < 0x100000 && 0 <= v2 < 0x100000 && #[trigger] vpn_mapped(
                        cfg.tables@[q1]@,
                        v1,
                    ) && #[trigger] vpn_mapped(cfg.tables@[q2]@, v2) implies leaf_of(
                    cfg.tables@[q1]@,
                    v1,
                )->Page_ppn != leaf_of(cfg.tables@[q2]@, v2)->Page_ppn by {
                    if q1 != 0 && q2 != 0 {
                        assert(cfg.processes@[q1] == cfg_b.processes@[q1]);
                        assert(cfg.processes@[q2] == cfg_b.processes@[q2]);
                        assert(cfg.tables@[q1] == cfg_b.tables@[q1]);
                        assert(cfg.tables@[q2] == cfg_b.tables@[q2]);
                        assert(vpn_mapped(cfg_b.tables@[q1]@, v1));
                        assert(vpn_mapped(cfg_b.tables@[q2]@, v2));
                    } else if q1 == 0 {
                        assert(cfg.processes@[q2] == cfg_b.processes@[q2]);
                        assert(cfg.tables@[q2] == cfg_b.tables@[q2]);
                        assert(vpn_mapped(cfg_b.tables@[q2]@, v2));
                        assert(PAGE_SIZE as int * (leaf_of(
                            cfg.tables@[q1]@,
                            v1,
                        )->Page_ppn as int) < cfg_b.free_top);
                        assert(PAGE_SIZE as int * (leaf_of(
                            cfg_b.tables@[q2]@,
                            v2,
                        )->Page_ppn as int) >= cfg_b.free_top);
                    } else {
                        assert(cfg.processes@[q1] == cfg_b.processes@[q1]);
                        assert(cfg.tables@[q1] == cfg_b.tables@[q1]);
                        assert(vpn_mapped(cfg_b.tables@[q1]@, v1));
                        assert(PAGE_SIZE as int * (leaf_of(
                            cfg.tables@[q2]@,
                            v2,
                        )->Page_ppn as int) < cfg_b.free_top);
                        assert(PAGE_SIZE as int * (leaf_of(
                            cfg_b.tables@[q1]@,
                            v1,
                        )->Page_ppn as int) >= cfg_b.free_top);
                    }
                }
            }
            kernel_done = true;
        }
        t2 = t2 + 1;
    }
    proof {
        assert(argsv.take(total as int) =~= argsv);
        assert(kernel_done);
        assert(pid as int - 1 == cfg.processes@.len());
    }

    // Map the boot-generated kernel structures into the kernel's argument
    // window, and record the kernel as their owner.
    let krn_struct_start: usize = cfg.sram_start + cfg.sram_size - cfg.init_size;
    let arg_pages: usize = (cfg.init_size - GUARD_MEMORY_BYTES) / PAGE_SIZE;
    let ghost tables_full = cfg.tables@;
    let ghost procs_full = cfg.processes@;
    proof {
        assert forall|q1: int, q2: int, v1: int, v2: int|
            0 <= q1 < tables_full.len() && 0 <= q2 < tables_full.len() && q1 != q2 && 0 <= v1
                < 0x100000 && 0 <= v2 < 0x100000 && #[trigger] vpn_mapped(tables_full[q1]@, v1)
                && #[trigger] vpn_mapped(tables_full[q2]@, v2) implies leaf_of(
            tables_full[q1]@,
            v1,
        )->Page_ppn != leaf_of(tables_full[q2]@, v2)->Page_ppn by {
            assert(tables_full[q1] == cfg.tables@[q1]);
            assert(tables_full[q2] == cfg.tables@[q2]);
        }
        assert(pid as int - 1 == procs_full.len());
        assert forall|q: int, v: int|
            1 <= q < procs_full.len() && chain_vpns(
                sections_of(nth_tag(argsv, TAG_INIE, q - 1)),
                0,
            ).contains(v) implies ((#[trigger] leaf_of(tables_full[q]@, v))
            matches LeafEntry::Page { ppn, flags } && flags == flags_for_vpn(
            sections_of(nth_tag(argsv, TAG_INIE, q - 1)),
            0,
            v,
        )) by {
            assert(tables_full[q] == cfg.tables@[q]);
            assert(leaf_of(cfg.tables@[q]@, v) matches LeafEntry::Page { ppn, flags } && flags
                == flags_for_vpn(sections_of(nth_tag(argsv, TAG_INIE, q - 1)), 0, v));
        }
    }
    let mut ktable: PageTable = cfg.tables.remove(0);
    let ghost tbase = cfge.page_index(cfge.krn_struct_start());
    proof {
        assert(ktable == tables_full[0]);
        assert(cfg.tables@ =~= tables_full.subrange(1, tables_full.len() as int));
        assert(ktable@[1023] is Table) by {
            assert(leaf_of(ktable@, 0xfffef) is Page);
        }
        vstd::arithmetic::div_mod::lemma_fundamental_div_mod(
            cfg.init_size - GUARD_MEMORY_BYTES,
            PAGE_SIZE as int,
        );
        crate::bootconfig::lemma_page_index(
            cfge.sram_start as int,
            cfge.sram_size as int,
            cfge.krn_struct_start(),
        );
        assert(tbase * (PAGE_SIZE as int) == cfge.krn_struct_start() - cfge.sram_start);
        assert(tbase + arg_pages == cfge.sram_size as int / (PAGE_SIZE as int) - 2) by {
            vstd::arithmetic::div_mod::lemma_fundamental_div_mod(
                cfge.sram_size as int,
                PAGE_SIZE as int,
            );
            vstd::arithmetic::mul::lemma_mul_is_distributive_add(
                PAGE_SIZE as int,
                tbase,
                arg_pages as int,
            );
            vstd::arithmetic::mul::lemma_mul_is_distributive_sub(
                PAGE_SIZE as int,
                cfge.sram_size as int / (PAGE_SIZE as int),
                2,
            );
            vstd::arithmetic::mul::lemma_mul_equality_converse(
                PAGE_SIZE as int,
                tbase + arg_pages,
                cfge.sram_size as int / (PAGE_SIZE as int) - 2,
            );
        }
    }
    let mut a: usize = 0;
    while a < arg_pages
        invariant
            a <= arg_pages,
            cfge == *old(cfg),
            cfge.wf(),
            cfg.wf_alloc(),
            cfg.same_geometry(&cfge),
            cfg.free_top <= cfge.free_top,
            krn_struct_start == cfge.krn_struct_start(),
            krn_struct_start % PAGE_SIZE == 0,
            arg_pages == (cfge.init_size - GUARD_MEMORY_BYTES) / (PAGE_SIZE as int),
            PAGE_SIZE * arg_pages <= 0x10_0000,
            PAGE_SIZE * arg_pages == cfge.init_size - GUARD_MEMORY_BYTES,
            tbase == cfge.page_index(cfge.krn_struct_start()),
            tbase * (PAGE_SIZE as int) == cfge.krn_struct_start() - cfge.sram_start,
            tbase + arg_pages == cfge.sram_size as int / (PAGE_SIZE as int) - 2,
            0 <= tbase,
            forall|b: int|
                0 <= b < a ==> #[trigger] cfg.runtime_page_tracker@[tbase + b] == 1u8,
            cfg.processes@ == procs_full,
            cfg.tables@ == tables_full.subrange(1, tables_full.len() as int),
            tables_full.len() == procs_full.len(),
            pt_wf(ktable@),
            no_megapages(ktable@),
            ktable@[1023] is Table,
            forall|v: int|
                0 <= v < 0x100000 && v / 1024 != 1023 ==> #[trigger] leaf_of(ktable@, v)
                    == leaf_of(tables_full[0]@, v),
            forall|b: int|
                0 <= b < a ==> #[trigger] leaf_of(ktable@, 0xffc00 + b) == page_leaf(
                    ppn_of(krn_struct_start + PAGE_SIZE as int * b),
                    (FLG_R + FLG_W + FLG_VALID) as usize,
                ),
        decreases arg_pages - a,
    {
        proof {
            assert(PAGE_SIZE as int * (a as int + 1) <= PAGE_SIZE * arg_pages) by {
                vstd::arithmetic::mul::lemma_mul_left_inequality(
                    PAGE_SIZE as int,
                    a as int + 1,
                    arg_pages as int,
                );
            }
            vstd::arithmetic::mul::lemma_mul_is_distributive_add(PAGE_SIZE as int, a as int, 1);
        }
        let src: usize = krn_struct_start + PAGE_SIZE * a;
        let dst: usize = KERNEL_ARGUMENT_OFFSET + PAGE_SIZE * a;
        proof {
            crate::minielf::lemma_div_interval(dst as int, PAGE_SIZE as int * 1024, 1023);
            crate::minielf::lemma_div_interval(dst as int, PAGE_SIZE as int, 0xffc00 + a as int);
            vstd::arithmetic::div_mod::lemma_mod_multiples_basic(
                0xffc00 + a as int,
                PAGE_SIZE as int,
            );
            assert(src % PAGE_SIZE == 0) by {
                vstd::arithmetic::div_mod::lemma_mod_multiples_basic(a as int, PAGE_SIZE as int);
                vstd::arithmetic::div_mod::lemma_add_mod_noop(
                    krn_struct_start as int,
                    PAGE_SIZE as int * a as int,
                    PAGE_SIZE as int,
                );
            }
        }
        let ghost pt_b = ktable@;
        match cfg.map_page(&mut ktable, src, dst, FLG_R + FLG_W + FLG_VALID, 1) {
            Ok(u) => {},
            Err(e) => {
                proof {
                    assert(false);
                }
                cfg.tables.insert(0, ktable);
                return Err(e);
            },
        }
        let ghost tracker_m = cfg.runtime_page_tracker@;
        cfg.change_owner(1, src);
        proof {
            assert(cfge.page_index(src as int) == tbase + a as int) by {
                vstd::arithmetic::mul::lemma_mul_is_distributive_add(
                    PAGE_SIZE as int,
                    tbase,
                    a as int,
                );
                vstd::arithmetic::mul::lemma_mul_is_distributive_add(
                    PAGE_SIZE as int,
                    tbase + a as int,
                    1,
                );
                crate::minielf::lemma_div_interval(
                    src as int - cfge.sram_start,
                    PAGE_SIZE as int,
                    tbase + a as int,
                );
            }
            assert forall|b: int| 0 <= b < a + 1 implies
                #[trigger] cfg.runtime_page_tracker@[tbase + b] == 1u8 by {
                if b < a {
                    assert(cfg.runtime_page_tracker@[tbase + b] == tracker_m[tbase + b]);
                }
            }
            assert(vpn_of(dst as int) == 0xffc00 + a as int);
            assert((0xffc00 + a as int) / 1024 == 1023) by {
                crate::minielf::lemma_div_interval(0xffc00 + a as int, 1024, 1023);
            }
            assert forall|v: int| 0 <= v < 0x100000 && v / 1024 != 1023 implies
                #[trigger] leaf_of(ktable@, v) == leaf_of(tables_full[0]@, v) by {
                assert(v != 0xffc00 + a as int);
                assert(leaf_of(ktable@, v) == leaf_of(pt_b, v));
            }
            assert forall|b: int| 0 <= b < a + 1 implies #[trigger] leaf_of(ktable@, 0xffc00 + b)
                == page_leaf(
                ppn_of(krn_struct_start + PAGE_SIZE as int * b),
                (FLG_R + FLG_W + FLG_VALID) as usize,
            ) by {
                if b < a {
                    assert(leaf_of(ktable@, 0xffc00 + b) == leaf_of(pt_b, 0xffc00 + b));
                } else {
                    assert(ppn_of(src as int) as int == (krn_struct_start + PAGE_SIZE as int * (
                    a as int)) / (PAGE_SIZE as int));
                }
            }
        }
        a = a + 1;
    }
    cfg.tables.insert(0, ktable);
    proof {
        assert(cfg.tables@ =~= tables_full.update(0, cfg.tables@[0]));
    }

    // Copy the kernel's top root-table slot verbatim into every process:
    // a context switch into the kernel is then always possible, whatever
    // address space is live when the trap arrives.
    let n_all: usize = cfg.tables.len();
    let ghost tables_args = cfg.tables@;
    let ghost tracker_args = cfg.runtime_page_tracker@;
    let mut w: usize = 1;
    while w < n_all
        invariant
            1 <= w <= n_all,
            n_all == cfg.tables@.len(),
            cfge == *old(cfg),
            cfge.wf(),
            cfg.wf_alloc(),
            cfg.same_geometry(&cfge),
            cfg.free_top <= cfge.free_top,
            cfg.processes@ == procs_full,
            cfg.runtime_page_tracker@ == tracker_args,
            cfg.tables@.len() == tables_args.len(),
            cfg.tables@.len() == procs_full.len(),
            cfg.tables@[0] == tables_args[0],
            forall|u: int| 0 <= u < n_all ==> pt_wf(#[trigger] cfg.tables@[u]@),
            forall|u: int|
                1 <= u < w ==> #[trigger] cfg.tables@[u]@[1023] == cfg.tables@[0]@[1023],
            forall|u: int, v: int|
                0 <= u < n_all && 0 <= v < 0x100000 && v / 1024 != 1023 ==> #[trigger] leaf_of(
                    cfg.tables@[u]@,
                    v,
                ) == leaf_of(tables_args[u]@, v),
        decreases n_all - w,
    {
        let ecopy = cfg.tables[0].root_entry_copy(1023);
        proof {
            assert(ecopy@ == cfg.tables@[0]@[1023]);
        }
        let ghost before = cfg.tables@;
        cfg.tables[w].set_root_entry(1023, ecopy);
        proof {
            assert(cfg.tables@[w as int]@ =~= before[w as int]@.update(1023, before[0]@[1023]));
            assert forall|u: int| 1 <= u < w + 1 implies #[trigger] cfg.tables@[u]@[1023]
                == cfg.tables@[0]@[1023] by {
                if u < w {
                    assert(cfg.tables@[u] == before[u]);
                }
            }
            assert forall|u: int, v: int|
                0 <= u < n_all && 0 <= v < 0x100000 && v / 1024 != 1023 implies
                #[trigger] leaf_of(cfg.tables@[u]@, v) == leaf_of(tables_args[u]@, v) by {
                vstd::arithmetic::div_mod::lemma_div_pos_is_pos(v, 1024);
                vstd::arithmetic::div_mod::lemma_multiply_divide_lt(v, 1024, 1024);
                if u != w as int {
                    assert(cfg.tables@[u] == before[u]);
                } else {
                    assert(cfg.tables@[u]@[v / 1024] == before[u]@[v / 1024]);
                }
                assert(leaf_of(cfg.tables@[u]@, v) == leaf_of(before[u]@, v));
                assert(leaf_of(before[u]@, v) == leaf_of(tables_args[u]@, v));
            }
        }
        w = w + 1;
    }

    // Mark the loader's own stack and signature scratch pages as
    // permanently reserved, and leave one page free for a clean suspend
    // image.
    let ram_end: usize = cfg.sram_start + cfg.sram_size;
    proof {
        crate::bootconfig::lemma_page_index_minus(cfg.sram_start as int, ram_end as int);
        crate::bootconfig::lemma_page_index_minus(
            cfg.sram_start as int,
            ram_end as int - PAGE_SIZE,
        );
        crate::bootconfig::lemma_page_index_minus(
            cfg.sram_start as int,
            ram_end as int - 2 * PAGE_SIZE,
        );
    }
    cfg.change_owner(1, ram_end - PAGE_SIZE);
    cfg.change_owner(1, ram_end - 2 * PAGE_SIZE);
    cfg.change_owner(0, ram_end - 3 * PAGE_SIZE);
    proof {
        assert forall|k: int|
            0 <= k < (cfge.init_size - GUARD_MEMORY_BYTES) / (PAGE_SIZE as int) implies
            #[trigger] cfg.runtime_page_tracker@[cfge.page_index(
                cfge.krn_struct_start() + PAGE_SIZE as int * k,
            )] == (if cfge.page_index(cfge.krn_struct_start() + PAGE_SIZE as int * k)
                == cfg.runtime_page_tracker@.len() - 3 {
                0u8
            } else {
                1u8
            }) by {
            assert(cfge.page_index(cfge.krn_struct_start() + PAGE_SIZE as int * k) == tbase
                + k) by {
                vstd::arithmetic::mul::lemma_mul_is_distributive_add(PAGE_SIZE as int, tbase, k);
                vstd::arithmetic::mul::lemma_mul_is_distributive_add(
                    PAGE_SIZE as int,
                    tbase + k,
                    1,
                );
                crate::minielf::lemma_div_interval(
                    cfge.krn_struct_start() + PAGE_SIZE as int * k - cfge.sram_start,
                    PAGE_SIZE as int,
                    tbase + k,
                );
            }
            assert(tracker_args[tbase + k] == 1u8);
        }
        assert forall|q: int, v: int|
            1 <= q < cfg.processes@.len() && chain_vpns(
                sections_of(nth_tag(argsv, TAG_INIE, q - 1)),
                0,
            ).contains(v) implies ((#[trigger] leaf_of(cfg.tables@[q]@, v))
            matches LeafEntry::Page { ppn, flags } && flags == flags_for_vpn(
            sections_of(nth_tag(argsv, TAG_INIE, q - 1)),
            0,
            v,
        )) by {
            crate::minielf::lemma_chain_range_vpns(
                sections_of(nth_tag(argsv, TAG_INIE, q - 1)),
                0,
            );
            assert(0 <= v <= 0xff000);
            assert(v / 1024 != 1023) by {
                vstd::arithmetic::div_mod::lemma_div_is_ordered(v, 0xff000, 1024);
            }
            assert(leaf_of(cfg.tables@[q]@, v) == leaf_of(tables_args[q]@, v));
            assert(tables_args[q] == tables_full[q]);
        }
        assert forall|t1: int, t2: int, v1: int, v2: int|
            0 <= t1 < cfg.tables@.len() && 0 <= t2 < cfg.tables@.len() && t1 != t2 && 0 <= v1
                < 0x100000 && 0 <= v2 < 0x100000 && v1 / 1024 != 1023 && v2 / 1024 != 1023
                && #[trigger] vpn_mapped(cfg.tables@[t1]@, v1) && #[trigger] vpn_mapped(
                cfg.tables@[t2]@,
                v2,
            ) implies leaf_of(cfg.tables@[t1]@, v1)->Page_ppn != leaf_of(
            cfg.tables@[t2]@,
            v2,
        )->Page_ppn by {
            assert(leaf_of(cfg.tables@[t1]@, v1) == leaf_of(tables_args[t1]@, v1));
            assert(leaf_of(cfg.tables@[t2]@, v2) == leaf_of(tables_args[t2]@, v2));
            assert(leaf_of(tables_args[t1]@, v1) == leaf_of(tables_full[t1]@, v1)) by {
                if t1 != 0 {
                    assert(tables_args[t1] == tables_full[t1]);
                }
            }
            assert(leaf_of(tables_args[t2]@, v2) == leaf_of(tables_full[t2]@, v2)) by {
                if t2 != 0 {
                    assert(tables_args[t2] == tables_full[t2]);
                }
            }
            assert(vpn_mapped(tables_full[t1]@, v1));
            assert(vpn_mapped(tables_full[t2]@, v2));
        }
    }
    Ok(())
}

} // verus!
