//! Physical/virtual address translation.
//!
//! All physical memory is mapped at one fixed virtual offset, so the
//! physical-to-virtual direction is a single addition.  The reverse
//! direction consults the active page tables; this module works on a
//! flattened view of the translations they hold, rebuilt per use from
//! the page-table base register and the offset.

use vstd::prelude::*;

verus! {

/// The fixed virtual-address offset at which all physical memory is
/// mapped.  A value of this type exists only after the offset has been
/// recorded, so a read before initialization is impossible by
/// construction.
pub struct PhysicalMemoryOffset {
    offset: u64,
}

impl PhysicalMemoryOffset {
    /// The recorded offset.
    pub closed spec fn value(&self) -> int {
        self.offset as int
    }

    /// Records the boot-supplied physical-memory offset, once, during
    /// initialization.
    pub fn new(offset: u64) -> (s: Self)
        ensures
            s.value() == offset,
    {
        PhysicalMemoryOffset { offset }
    }

    /// Reads the recorded offset back.
    pub fn get(&self) -> (r: u64)
        ensures
            r as int == self.value(),
    {
        self.offset
    }
}

/// Computes the virtual address of a physical address: the physical
/// address plus the physical-memory offset.
pub fn phys_to_virt(offset: &PhysicalMemoryOffset, addr: u64) -> (virt: u64)
    requires
        addr + offset.value() <= u64::MAX,
    ensures
        virt as int == addr + offset.value(),
{
    addr + offset.get()
}

/// One translation the page tables hold: a 4 KiB virtual page mapped
/// to a physical frame.
#[derive(Clone, Copy, Debug, PartialEq, Eq, Structural)]
pub struct MappedPage {
    pub virt_page: u64,
    pub phys_frame: u64,
}

/// Flattened view of the active top-level page table: the
/// page-to-frame translations a walk can find.  Rebuilt per use; never
/// cached.
pub struct PageTableView {
    entries: Vec<MappedPage>,
}

/// The first translation recorded for `page`, if any.
pub open spec fn lookup(entries: Seq<MappedPage>, page: int) -> Option<int>
    decreases entries.len(),
{
    if entries.len() == 0 {
        None
    } else if entries[0].virt_page == page {
        Some(entries[0].phys_frame as int)
    } else {
        lookup(entries.drop_first(), page)
    }
}

/// Start of the 4 KiB page containing the address.
pub open spec fn page_base(addr: int) -> int {
    addr - (addr % 4096)
}

/// What a page-table walk returns for a virtual address: the frame its
/// page maps to plus the offset inside the page, or nothing when the
/// page is unmapped.
pub open spec fn walk_result(entries: Seq<MappedPage>, addr: int) -> Option<int> {
    match lookup(entries, page_base(addr)) {
        Some(frame) => Some(frame + (addr % 4096)),
        None => None,
    }
}

impl View for PageTableView {
    type V = Seq<MappedPage>;

    closed spec fn view(&self) -> Seq<MappedPage> {
        self.entries@
    }
}

impl PageTableView {
    /// Entries hold page-aligned values, and every mapped frame leaves
    /// room for a whole page below the top of the address space.
    pub open spec fn wf(&self) -> bool {
        forall|i: int|
            0 <= i < self@.len() ==> (#[trigger] self@[i]).virt_page % 4096 == 0
                && self@[i].phys_frame % 4096 == 0 && self@[i].phys_frame + 4095 <= u64::MAX
    }

    /// A view with no translations.
    pub fn new() -> (v: Self)
        ensures
            v@ == Seq::<MappedPage>::empty(),
            v.wf(),
    {
        PageTableView { entries: Vec::new() }
    }

    /// Records one page-to-frame translation in the view.
    pub fn map_page(&mut self, virt_page: u64, phys_frame: u64)
        requires
            old(self).wf(),
            virt_page % 4096 == 0,
            phys_frame % 4096 == 0,
            phys_frame + 4095 <= u64::MAX,
        ensures
            final(self)@ == old(self)@.push(MappedPage { virt_page, phys_frame }),
            final(self).wf(),
    {
        self.entries.push(MappedPage { virt_page, phys_frame });
        proof {
            assert forall|i: int| 0 <= i < self@.len() implies (#[trigger] self@[i]).virt_page
                % 4096 == 0 && self@[i].phys_frame % 4096 == 0 && self@[i].phys_frame + 4095
                <= u64::MAX by {
                if i < self@.len() - 1 {
                    assert(self@[i] == old(self)@[i]);
                }
            }
        }
    }
}

/// Translates a virtual address through the page-table view: the
/// mapped frame plus the in-page offset, or nothing when no
/// translation exists.  An unmapped address is a normal result, never
/// a failure.
#[verifier::loop_isolation(false)]
pub fn virt_to_phys(table: &PageTableView, addr: u64) -> (phys: Option<u64>)
    requires
        table.wf(),
    ensures
        match phys {
            Some(p) => walk_result(table@, addr as int) == Some(p as int),
            None => walk_result(table@, addr as int) is None,
        },
{
    let page = addr - addr % 4096;
    proof {
        assert(table@.skip(0) =~= table@);
    }
    let mut i: usize = 0;
    while i < table.entries.len()
        invariant
            0 <= i <= table@.len(),
            lookup(table@, page_base(addr as int)) == lookup(
                table@.skip(i as int),
                page_base(addr as int),
            ),
        decreases table@.len() - i,
    {
        let e = table.entries[i];
        proof {
            assert(table@.skip(i as int)[0] == table@[i as int]);
            assert(table@.skip(i as int).drop_first() =~= table@.skip(i + 1));
        }
        if e.virt_page == page {
            return Some(e.phys_frame + addr % 4096);
        }
        i = i + 1;
    }
    proof {
        assert(table@.skip(table@.len() as int) =~= Seq::<MappedPage>::empty());
    }
    None
}

/// The identity-offset mapping covers physical address `p`: the view
/// maps the virtual page `offset` above `p`'s page back to that page.
pub open spec fn identity_mapped_at(entries: Seq<MappedPage>, offset: int, p: int) -> bool {
    lookup(entries, page_base(p) + offset) == Some(page_base(p))
}

/// Round trip: wherever the identity-offset mapping is active,
/// translating the virtual address of a physical address yields that
/// physical address again.
pub proof fn lemma_translation_round_trip(entries: Seq<MappedPage>, offset: int, p: int)
    requires
        0 <= p,
        0 <= offset,
        offset % 4096 == 0,
        identity_mapped_at(entries, offset, p),
    ensures
        walk_result(entries, p + offset) == Some(p),
{
    vstd::arithmetic::div_mod::lemma_fundamental_div_mod(offset, 4096);
    vstd::arithmetic::div_mod::lemma_mod_multiples_vanish(offset / 4096, p, 4096);
    assert((p + offset) % 4096 == p % 4096);
    assert(page_base(p + offset) == page_base(p) + offset);
}

} // verus!
