//! The sections of the loaded kernel, and their mapping onto themselves.

use vstd::prelude::*;
use crate::machine::lemmas::{
    lemma_extended_keeps,
    lemma_grown_keeps,
    lemma_grown_more,
    lemma_grown_none,
    lemma_grown_path,
    lemma_maps_with,
    lemma_maps_with_alike,
    lemma_maps_with_kept,
    lemma_same_walk,
};
use crate::machine::MachineView;
use crate::memory::paging::space::{
    apart,
    entered,
    left,
    lemma_apart_separate,
    lemma_entered_empty,
    lemma_left_keeps,
    lemma_round_trip,
};
use crate::memory::paging::entry::{
    encode,
    lemma_encode_decode,
    lemma_flag_sets,
    EntryFlags,
    POINTABLE_LIMIT,
    PRESENT,
    WRITEABLE,
};
use crate::memory::paging::mapper::Mapper;
use crate::memory::paging::Page;
use crate::memory::{pointable, Frame, FrameAllocator, MapError};

verus! {

/// The end of the lower half of the virtual address space: the addresses
/// below it are their own canonical form.
pub const LOWER_HALF_END: u64 = 0x8000_0000_0000;

/// One section of the kernel image, as the boot loader reports it.
#[derive(Debug, Clone, Copy, PartialEq, Eq, Structural)]
pub struct KernelSection {
    /// The address at which the section starts.
    pub addr: u64,
    /// The size of the section in bytes.
    pub size: u64,
    /// Whether the section is loaded into memory.
    pub allocated: bool,
}

impl KernelSection {
    /// Whether the section, if it is loaded, starts at a page boundary, ends
    /// in the lower half of the address space, and does not end at address
    /// zero: there is an address before its end.
    pub open spec fn wf(&self) -> bool {
        self.allocated ==> self.addr % 4096 == 0 && 0 < self.addr + self.size && self.addr
            + self.size <= LOWER_HALF_END
    }

    /// Whether the section is loaded and `frame` holds part of it. An empty
    /// section holds no frame.
    pub open spec fn holds(&self, frame: int) -> bool {
        self.allocated && self.addr as int / 4096 <= frame <= (self.addr + self.size - 1) / 4096
    }

    /// Whether the section is loaded into memory.
    pub fn is_allocated(&self) -> (allocated: bool)
        ensures
            allocated == self.allocated,
    {
        self.allocated
    }

    /// The address at which the section starts.
    pub fn start_address(&self) -> (address: u64)
        ensures
            address == self.addr,
    {
        self.addr
    }

    /// The address just behind the section.
    pub fn end_address(&self) -> (address: u64)
        requires
            self.addr + self.size <= u64::MAX,
        ensures
            address == self.addr + self.size,
    {
        self.addr + self.size
    }
}

/// Whether the page with the number of `frame` is mapped to `frame`, as
/// present and writeable and with no other flag, by a leaf slot of the
/// address space below `root`.
pub open spec fn maps_onto_itself_from(m: MachineView, root: int, frame: int) -> bool {
    m.maps_with(root, Page { number: frame as u64 }, encode(frame, WRITEABLE | PRESENT))
}

/// Whether the page with the number of `frame` is mapped to `frame`, as
/// present and writeable and with no other flag, in the address space that
/// the recursive mapping of `m` shows.
pub open spec fn maps_onto_itself(m: MachineView, frame: int) -> bool {
    maps_onto_itself_from(m, m.root(), frame)
}

/// A page that is mapped onto itself translates to the frame of its number.
pub proof fn lemma_maps_onto_itself(m: MachineView, root: int, frame: int)
    requires
        maps_onto_itself_from(m, root, frame),
        0 <= frame < POINTABLE_LIMIT,
    ensures
        m.translate_page_from(root, Page { number: frame as u64 }) == Some(frame),
{
    lemma_flag_sets(WRITEABLE, 0);
    lemma_encode_decode(frame, WRITEABLE | PRESENT);
    lemma_maps_with(m, root, Page { number: frame as u64 }, encode(frame, WRITEABLE | PRESENT));
}

/// Whether every frame of every loaded section among the first `count` is
/// mapped onto itself in the address space that the recursive mapping of
/// `m` shows.
pub open spec fn sections_mapped(m: MachineView, sections: Seq<KernelSection>, count: int) -> bool {
    forall|i: int, frame: int|
        0 <= i < count && (#[trigger] sections[i].holds(frame)) ==> maps_onto_itself(m, frame)
}

/// Whether the page has the indices of a frame that one of the first
/// `count` sections holds.
pub open spec fn in_sections(sections: Seq<KernelSection>, count: int, page: Page) -> bool {
    exists|i: int, frame: int|
        0 <= i < count && (#[trigger] sections[i].holds(frame)) && page.alike(
            Page { number: frame as u64 },
        )
}

/// Whether the page is mapped in `m` otherwise than in `before`, or can be
/// mapped in one of them only.
#[verifier::opaque]
pub open spec fn differs(before: MachineView, m: MachineView, page: Page) -> bool {
    m.translate_page(page) != before.translate_page(page) || m.mappable(before.root(), page)
        != before.mappable(before.root(), page)
}

/// Whether every page outside the recursive region that is mapped in `m`
/// otherwise than in `before`, or can be mapped in one of them only, has the
/// indices of a frame of one of the first `count` sections.
pub open spec fn only_sections(
    before: MachineView,
    m: MachineView,
    sections: Seq<KernelSection>,
    count: int,
) -> bool {
    forall|page: Page|
        page.p4_index() != 511 && #[trigger] differs(before, m, page) ==> in_sections(
            sections,
            count,
            page,
        )
}

/// Whether two of the sections hold the same frame.
pub open spec fn overlapping(sections: Seq<KernelSection>) -> bool {
    exists|i: int, j: int, frame: int|
        0 <= i < j < sections.len() && (#[trigger] sections[i].holds(frame))
            && #[trigger] sections[j].holds(frame)
}

/// Whether a page of the sections cannot be mapped in `m`.
pub open spec fn blocked(m: MachineView, sections: Seq<KernelSection>) -> bool {
    exists|i: int, frame: int|
        0 <= i < sections.len() && (#[trigger] sections[i].holds(frame)) && !m.mappable(
            m.root(),
            Page { number: frame as u64 },
        )
}

/// Whether every page of the sections has its leaf table in `m`, so that
/// its mapping takes no frame.
pub open spec fn tabled(m: MachineView, sections: Seq<KernelSection>) -> bool {
    forall|i: int, frame: int|
        0 <= i < sections.len() && (#[trigger] sections[i].holds(frame)) ==> m.p1_frame(
            m.root(),
            Page { number: frame as u64 },
        ).is_some()
}

/// Whether the sections hold no frame: none is loaded, or those that are
/// are empty.
pub open spec fn vacant(sections: Seq<KernelSection>) -> bool {
    forall|i: int, frame: int| 0 <= i < sections.len() ==> !(#[trigger] sections[i].holds(frame))
}

/// In an address space in which every page outside the recursive region can
/// be mapped, no page of the sections is blocked.
pub proof fn lemma_empty_not_blocked(m: MachineView, sections: Seq<KernelSection>)
    requires
        forall|page: Page| page.p4_index() != 511 ==> #[trigger] m.mappable(m.root(), page),
        forall|i: int| 0 <= i < sections.len() ==> (#[trigger] sections[i]).wf(),
    ensures
        !blocked(m, sections),
{
    assert forall|i: int, frame: int|
        0 <= i < sections.len() && (#[trigger] sections[i].holds(frame)) implies m.mappable(
        m.root(),
        Page { number: frame as u64 },
    ) by {
        assert(sections[i].wf());
        (Page { number: frame as u64 }).lemma_lower_half();
    }
}

/// Whether the page has the indices of a frame of one of the first `count`
/// sections, or of one of the frames from `first` up to, but without,
/// `next`.
pub open spec fn in_sections_or_run(
    sections: Seq<KernelSection>,
    count: int,
    first: int,
    next: int,
    page: Page,
) -> bool {
    in_sections(sections, count, page) || exists|frame: int|
        first <= frame < next && #[trigger] page.alike(Page { number: frame as u64 })
}

/// Where the slots that the walk for the page reads below `root` hold the
/// same in two states, the page is mapped onto itself in both or in none.
pub proof fn lemma_mapped_alike(m: MachineView, n: MachineView, root: int, frame: int)
    requires
        m.same_walk(n, root, Page { number: frame as u64 }),
        maps_onto_itself_from(m, root, frame),
    ensures
        maps_onto_itself_from(n, root, frame),
{
    lemma_maps_with_alike(
        m,
        n,
        root,
        Page { number: frame as u64 },
        encode(frame, WRITEABLE | PRESENT),
    );
}

/// A page that is mapped onto itself stays so when another page is mapped
/// with tables from `free`.
pub proof fn lemma_still_mapped(
    m: MachineView,
    n: MachineView,
    page: Page,
    free: Set<int>,
    frame: int,
)
    requires
        m.recursive(),
        m.reserves(free),
        m.extended_by(n, page, free),
        maps_onto_itself(m, frame),
        0 <= frame < POINTABLE_LIMIT,
    ensures
        maps_onto_itself(n, frame),
{
    reveal(MachineView::extended_by);
    lemma_flag_sets(WRITEABLE, 0);
    lemma_encode_decode(frame, WRITEABLE | PRESENT);
    lemma_maps_with_kept(
        m,
        n,
        page,
        free,
        Page { number: frame as u64 },
        encode(frame, WRITEABLE | PRESENT),
    );
}

/// One more page mapped onto itself, after a growth: a growth again, in
/// which the page is mapped onto itself and every page that was stays so.
pub proof fn lemma_mapped_one_more(
    m0: MachineView,
    before: MachineView,
    after: MachineView,
    free0: Set<int>,
    free: Set<int>,
    frame: int,
)
    requires
        m0.grown_by(before, free0),
        before.recursive(),
        after.recursive(),
        before.reserves(free),
        free.subset_of(free0),
        before.extended_by(after, Page { number: frame as u64 }, free),
        (Page { number: frame as u64 }).p4_index() != 511,
        maps_onto_itself(after, frame),
    ensures
        m0.grown_by(after, free0),
        maps_onto_itself(after, frame),
        forall|n: int|
            0 <= n < POINTABLE_LIMIT && maps_onto_itself(before, n) ==> #[trigger] maps_onto_itself(
                after,
                n,
            ),
{
    let page = Page { number: frame as u64 };
    lemma_grown_more(m0, before, after, page, free0, free);
    assert forall|n: int|
        0 <= n < POINTABLE_LIMIT && maps_onto_itself(before, n) implies #[trigger] maps_onto_itself(
        after,
        n,
    ) by {
        lemma_still_mapped(before, after, page, free, n);
    }
}

/// A state differs from itself in no page.
pub proof fn lemma_differs_not(m: MachineView, sections: Seq<KernelSection>, count: int)
    ensures
        only_sections(m, m, sections, count),
{
    reveal(differs);
}

/// A page that is mapped in one state and not in another differs.
pub proof fn lemma_differs(before: MachineView, m: MachineView, page: Page)
    requires
        m.translate_page(page) != before.translate_page(page),
    ensures
        differs(before, m, page),
{
    reveal(differs);
}

/// Where only pages of the first sections and of a run of frames of the
/// next section are mapped otherwise than before, only pages of the sections
/// are.
pub proof fn lemma_run_in_section(
    m0: MachineView,
    m: MachineView,
    sections: Seq<KernelSection>,
    index: int,
    first: int,
    next: int,
)
    requires
        0 <= index < sections.len(),
        sections[index].allocated,
        sections[index].addr as int / 4096 <= first,
        next <= (sections[index].addr + sections[index].size - 1) / 4096 + 1,
        forall|page: Page|
            page.p4_index() != 511 && #[trigger] differs(m0, m, page) ==> in_sections_or_run(
                sections,
                index,
                first,
                next,
                page,
            ),
    ensures
        only_sections(m0, m, sections, index + 1),
        only_sections(m0, m, sections, sections.len() as int),
{
    assert forall|page: Page|
        page.p4_index() != 511 && #[trigger] differs(m0, m, page) implies in_sections(
        sections,
        index + 1,
        page,
    ) && in_sections(
        sections,
        sections.len() as int,
        page,
    ) by {
        assert(in_sections_or_run(sections, index, first, next, page));
        if in_sections(sections, index, page) {
            let (i, frame) = choose|i: int, frame: int|
                0 <= i < index && (#[trigger] sections[i].holds(frame)) && page.alike(
                    Page { number: frame as u64 },
                );
            assert(sections[i].holds(frame));
        } else {
            let frame = choose|frame: int|
                first <= frame < next && #[trigger] page.alike(Page { number: frame as u64 });
            assert(sections[index].holds(frame));
        }
    }
}

/// A page of a section that cannot be mapped, though only pages of the
/// sections before and of the frames of the section before it were mapped:
/// the page could not be mapped at first, or an earlier section holds its
/// frame too.
pub proof fn lemma_page_in_use(
    m0: MachineView,
    m: MachineView,
    sections: Seq<KernelSection>,
    index: int,
    first: int,
    frame: int,
)
    requires
        0 <= index < sections.len(),
        forall|i: int| 0 <= i < sections.len() ==> (#[trigger] sections[i]).wf(),
        sections[index].holds(frame),
        0 <= first <= frame,
        m.root() == m0.root(),
        !m.mappable(m.root(), Page { number: frame as u64 }),
        forall|page: Page|
            page.p4_index() != 511 && #[trigger] differs(m0, m, page) ==> in_sections_or_run(
                sections,
                index,
                first,
                frame,
                page,
            ),
    ensures
        overlapping(sections) || blocked(m0, sections),
{
    reveal(differs);
    let page = Page { number: frame as u64 };
    assert(sections[index].wf());
    (Page { number: frame as u64 }).lemma_lower_half();
    if m0.mappable(m0.root(), page) {
        assert(differs(m0, m, page));
        assert(in_sections_or_run(sections, index, first, frame, page));
        if in_sections(sections, index, page) {
            let (i, held) = choose|i: int, held: int|
                0 <= i < index && (#[trigger] sections[i].holds(held)) && page.alike(
                    Page { number: held as u64 },
                );
            assert(sections[i].wf());
            page.lemma_alike(Page { number: held as u64 });
            assert(held == frame);
            assert(sections[i].holds(frame) && sections[index].holds(frame));
            assert(overlapping(sections));
        } else {
            let held = choose|held: int|
                first <= held < frame && #[trigger] page.alike(Page { number: held as u64 });
            page.lemma_alike(Page { number: held as u64 });
        }
    } else {
        assert(sections[index].holds(frame));
        assert(blocked(m0, sections));
    }
}

/// A page of a section that can be mapped after only pages of the sections
/// before and of the frames of the section before it were mapped, and whose
/// frame no section before holds: the page could be mapped at first.
pub proof fn lemma_page_was_free(
    m0: MachineView,
    m: MachineView,
    sections: Seq<KernelSection>,
    index: int,
    first: int,
    frame: int,
)
    requires
        0 <= index < sections.len(),
        forall|i: int| 0 <= i < sections.len() ==> (#[trigger] sections[i]).wf(),
        sections[index].holds(frame),
        0 <= first <= frame,
        m.root() == m0.root(),
        m.mappable(m.root(), Page { number: frame as u64 }),
        forall|i: int| 0 <= i < index ==> !(#[trigger] sections[i]).holds(frame),
        forall|page: Page|
            page.p4_index() != 511 && #[trigger] differs(m0, m, page) ==> in_sections_or_run(
                sections,
                index,
                first,
                frame,
                page,
            ),
    ensures
        m0.mappable(m0.root(), Page { number: frame as u64 }),
{
    reveal(differs);
    let page = Page { number: frame as u64 };
    assert(sections[index].wf());
    (Page { number: frame as u64 }).lemma_lower_half();
    if !m0.mappable(m0.root(), page) {
        assert(differs(m0, m, page));
        assert(in_sections_or_run(sections, index, first, frame, page));
        if in_sections(sections, index, page) {
            let (i, held) = choose|i: int, held: int|
                0 <= i < index && (#[trigger] sections[i].holds(held)) && page.alike(
                    Page { number: held as u64 },
                );
            assert(sections[i].wf());
            page.lemma_alike(Page { number: held as u64 });
            assert(held == frame);
        } else {
            let held = choose|held: int|
                first <= held < frame && #[trigger] page.alike(Page { number: held as u64 });
            page.lemma_alike(Page { number: held as u64 });
        }
    }
}

/// What holds of the first sections holds of more of them.
pub proof fn lemma_more_sections(
    m0: MachineView,
    m: MachineView,
    sections: Seq<KernelSection>,
    count: int,
    more: int,
)
    requires
        only_sections(m0, m, sections, count) || only_sections(m0, m, sections, count - 1),
        count <= more,
    ensures
        only_sections(m0, m, sections, more),
{
    assert forall|page: Page|
        page.p4_index() != 511 && #[trigger] differs(m0, m, page) implies in_sections(
        sections,
        more,
        page,
    ) by {
        let (i, frame) = choose|i: int, frame: int|
            0 <= i < count && (#[trigger] sections[i].holds(frame)) && page.alike(
                Page { number: frame as u64 },
            );
        assert(sections[i].holds(frame));
    }
}

/// One more page mapped in a run: still only pages of the first sections
/// and of the run are mapped otherwise than before.
pub proof fn lemma_one_more_in_run(
    m0: MachineView,
    before: MachineView,
    after: MachineView,
    sections: Seq<KernelSection>,
    index: int,
    first: int,
    frame: int,
)
    requires
        first <= frame,
        before.root() == m0.root(),
        before.alone_changed(after, Page { number: frame as u64 }),
        forall|page: Page|
            page.p4_index() != 511 && #[trigger] differs(m0, before, page) ==> in_sections_or_run(
                sections,
                index,
                first,
                frame,
                page,
            ),
    ensures
        forall|page: Page|
            page.p4_index() != 511 && #[trigger] differs(m0, after, page) ==> in_sections_or_run(
                sections,
                index,
                first,
                frame + 1,
                page,
            ),
{
    reveal(differs);
    assert forall|page: Page|
        page.p4_index() != 511 && #[trigger] differs(m0, after, page) implies in_sections_or_run(
        sections,
        index,
        first,
        frame + 1,
        page,
    ) by {
        if page.alike(Page { number: frame as u64 }) {
        } else {
            assert(after.translate_page(page) == before.translate_page(page));
            assert(differs(m0, before, page));
            assert(in_sections_or_run(sections, index, first, frame, page));
            if !in_sections(sections, index, page) {
                let n = choose|n: int|
                    first <= n < frame && #[trigger] page.alike(Page { number: n as u64 });
                assert(first <= n < frame + 1);
            }
        }
    }
}

/// What the address space of `target` and the active one are like after
/// the sections were mapped in the first, which was empty and apart from the
/// active one, and it was left: the active address space maps every page
/// outside the recursive region as before; the other maps the pages of the
/// sections, where the work succeeded, and no page outside the recursive
/// region but those of the sections.
pub proof fn lemma_sections_left(
    s1: MachineView,
    inner: MachineView,
    after: MachineView,
    page: Page,
    kept: Set<int>,
    target: int,
    own: Set<int>,
    sections: Seq<KernelSection>,
)
    requires
        apart(s1, target, own),
        !kept.contains(target),
        own.disjoint(kept),
        entered(s1, inner, page, kept, target),
        inner.grown_by(after, own),
        after.recursive(),
        only_sections(inner, after, sections, sections.len() as int),
        forall|i: int| 0 <= i < sections.len() ==> (#[trigger] sections[i]).wf(),
    ensures
        left(after, page).child(target, 511) == Some(target),
        !blocked(inner, sections),
        forall|q: Page|
            q.p4_index() != 511 ==> #[trigger] left(after, page).translate_page(q)
                == s1.translate_page(q),
        forall|q: Page|
            q.p4_index() != 511 && (#[trigger] left(after, page).translate_page_from(
                target,
                q,
            )).is_some() ==> in_sections(sections, sections.len() as int, q),
        sections_mapped(after, sections, sections.len() as int) ==> forall|i: int, frame: int|
            0 <= i < sections.len() && (#[trigger] sections[i].holds(frame))
                ==> maps_onto_itself_from(left(after, page), target, frame),
{
    lemma_sections_left_active(s1, inner, after, page, kept, target, own);
    lemma_sections_left_other(s1, inner, after, page, kept, target, own, sections);
}

/// After the round trip through an empty address space apart from the
/// active one, the active address space maps every page outside the
/// recursive region as before.
proof fn lemma_sections_left_active(
    s1: MachineView,
    inner: MachineView,
    after: MachineView,
    page: Page,
    kept: Set<int>,
    target: int,
    own: Set<int>,
)
    requires
        apart(s1, target, own),
        !kept.contains(target),
        own.disjoint(kept),
        entered(s1, inner, page, kept, target),
        inner.grown_by(after, own),
        after.recursive(),
    ensures
        forall|q: Page|
            q.p4_index() != 511 ==> #[trigger] left(after, page).translate_page(q)
                == s1.translate_page(q),
{
    lemma_entered_empty(s1, inner, page, kept, target, own);
    lemma_apart_separate(s1, target, kept, own);
    lemma_round_trip(s1, inner, after, page, kept, Set::empty(), target, own, Set::empty());
}

/// After the sections were mapped in an address space that was empty, and
/// it was left, it maps the pages of the sections, where the work
/// succeeded, and no page outside the recursive region but those.
proof fn lemma_sections_left_other(
    s1: MachineView,
    inner: MachineView,
    after: MachineView,
    page: Page,
    kept: Set<int>,
    target: int,
    own: Set<int>,
    sections: Seq<KernelSection>,
)
    requires
        apart(s1, target, own),
        !kept.contains(target),
        own.disjoint(kept),
        entered(s1, inner, page, kept, target),
        inner.grown_by(after, own),
        after.recursive(),
        only_sections(inner, after, sections, sections.len() as int),
        forall|i: int| 0 <= i < sections.len() ==> (#[trigger] sections[i]).wf(),
    ensures
        left(after, page).child(target, 511) == Some(target),
        !blocked(inner, sections),
        forall|q: Page|
            q.p4_index() != 511 && (#[trigger] left(after, page).translate_page_from(
                target,
                q,
            )).is_some() ==> in_sections(sections, sections.len() as int, q),
        sections_mapped(after, sections, sections.len() as int) ==> forall|i: int, frame: int|
            0 <= i < sections.len() && (#[trigger] sections[i].holds(frame))
                ==> maps_onto_itself_from(left(after, page), target, frame),
{
    let s2 = left(after, page);
    lemma_entered_empty(s1, inner, page, kept, target, own);
    lemma_left_keeps(inner, after, page, own);
    lemma_grown_keeps(inner, after, own);
    assert forall|q: Page| q.p4_index() != 511 implies #[trigger] inner.mappable(
        inner.root(),
        q,
    ) by {
        assert(inner.translate_page(q).is_none());
    }
    lemma_empty_not_blocked(inner, sections);
    assert forall|q: Page|
        q.p4_index() != 511 && (#[trigger] s2.translate_page_from(target, q)).is_some() implies in_sections(
        sections,
        sections.len() as int,
        q,
    ) by {
        assert(inner.translate_page(q).is_none());
        assert(after.translate_page(q) == s2.translate_page_from(target, q));
        lemma_differs(inner, after, q);
    }
    if sections_mapped(after, sections, sections.len() as int) {
        assert forall|i: int, frame: int|
            0 <= i < sections.len() && (#[trigger] sections[i].holds(frame)) implies maps_onto_itself_from(
            s2,
            target,
            frame,
        ) by {
            assert(maps_onto_itself(after, frame));
            assert(after.same_walk(s2, target, Page { number: frame as u64 }));
            lemma_mapped_alike(after, s2, target, frame);
        }
    }
}

/// What the new address space is like after the change to it: the pages of
/// the sections are mapped onto themselves, no other page outside the
/// recursive region is mapped, and the address space that was active maps
/// every page outside the recursive region as before.
#[verifier::spinoff_prover]
pub proof fn lemma_sections_switched(
    s0: MachineView,
    s2: MachineView,
    s3: MachineView,
    target: int,
    sections: Seq<KernelSection>,
)
    requires
        s3.mem == s2.mem,
        s3.root() == target,
        s2.root() == s0.active(),
        forall|i: int| 0 <= i < sections.len() ==> (#[trigger] sections[i]).wf(),
        forall|q: Page| q.p4_index() != 511
            ==> #[trigger] s2.translate_page(q) == s0.translate_page(q),
        forall|q: Page|
            q.p4_index() != 511 && (#[trigger] s2.translate_page_from(target, q)).is_some()
                ==> in_sections(sections, sections.len() as int, q),
        forall|i: int, frame: int|
            0 <= i < sections.len() && (#[trigger] sections[i].holds(frame))
                ==> maps_onto_itself_from(s2, target, frame),
    ensures
        sections_mapped(s3, sections, sections.len() as int),
        forall|i: int, frame: int|
            0 <= i < sections.len() && (#[trigger] sections[i].holds(frame)) ==> s3.translate_page(
                Page { number: frame as u64 },
            ) == Some(frame),
        forall|q: Page|
            q.p4_index() != 511 && (#[trigger] s3.translate_page(q)).is_some() ==> in_sections(
                sections,
                sections.len() as int,
                q,
            ),
        forall|q: Page|
            q.p4_index() != 511 ==> #[trigger] s3.translate_page_from(s0.active(), q)
                == s0.translate_page(q),
{
    assert forall|q: Page| #[trigger] s2.same_walk(s3, target, q) && s2.same_walk(
        s3,
        s0.active(),
        q,
    ) by {}
    assert forall|i: int, frame: int|
        0 <= i < sections.len() && (#[trigger] sections[i].holds(frame)) implies maps_onto_itself(
        s3,
        frame,
    ) && s3.translate_page(Page { number: frame as u64 }) == Some(frame) by {
        assert(sections[i].wf());
        assert(s2.same_walk(s3, target, Page { number: frame as u64 }));
        lemma_mapped_alike(s2, s3, target, frame);
        lemma_maps_onto_itself(s3, target, frame);
    }
    assert forall|q: Page|
        q.p4_index() != 511 && (#[trigger] s3.translate_page(q)).is_some() implies in_sections(
        sections,
        sections.len() as int,
        q,
    ) by {
        assert(s2.same_walk(s3, target, q));
        lemma_same_walk(s2, s3, target, q);
    }
    assert forall|q: Page| q.p4_index() != 511 implies #[trigger] s3.translate_page_from(
        s0.active(),
        q,
    ) == s0.translate_page(q) by {
        assert(s2.same_walk(s3, s0.active(), q));
        lemma_same_walk(s2, s3, s0.active(), q);
        assert(s2.translate_page(q) == s0.translate_page(q));
    }
}

/// Maps every frame of every loaded section onto itself, as writeable, in
/// the address space that the mapper shows.
///
/// Fails with `PageInUse` at the first page that cannot be mapped: so it
/// does where two sections hold the same frame, and the page keeps its
/// first mapping. Fails as `Mapper::map_to` does on what the allocator hands
/// out, which can only be where a page lacks its leaf table. What was mapped
/// before the failure stays mapped. Sections that hold no frame make no
/// work and no failure.
pub fn map_sections<A: FrameAllocator>(
    mapper: &mut Mapper,
    sections: &Vec<KernelSection>,
    allocator: &mut A,
) -> (result: Result<(), MapError>)
    requires
        old(mapper).wf(),
        old(mapper)@.layered(),
        old(mapper)@.reserves(old(allocator).free_frames()),
        forall|i: int| 0 <= i < sections@.len() ==> (#[trigger] sections@[i]).wf(),
    ensures
        final(mapper).extends(old(mapper)),
        final(mapper).wf(),
        final(mapper)@.layered(),
        final(mapper)@.reserves(final(allocator).free_frames()),
        final(allocator).free_frames().subset_of(old(allocator).free_frames()),
        old(mapper)@.grown_by(final(mapper)@, old(allocator).free_frames()),
        result.is_ok() ==> sections_mapped(final(mapper)@, sections@, sections@.len() as int),
        old(mapper)@.unshared() ==> only_sections(
            old(mapper)@,
            final(mapper)@,
            sections@,
            sections@.len() as int,
        ),
        old(mapper)@.unshared() && result == Err::<(), MapError>(MapError::PageInUse) ==> overlapping(
            sections@,
        ) || blocked(old(mapper)@, sections@),
        result.is_ok() ==> !overlapping(sections@),
        old(mapper)@.unshared() && result.is_ok() ==> !blocked(old(mapper)@, sections@),
        result matches Err(error) ==> error != MapError::PageInUse ==> !tabled(
            old(mapper)@,
            sections@,
        ),
        vacant(sections@) ==> result.is_ok(),
        result == Err::<(), MapError>(MapError::OutOfFrames) ==> final(allocator).free_frames()
            == Set::<int>::empty(),
        result == Err::<(), MapError>(MapError::FrameOutOfRange) ==> !pointable(
            old(allocator).free_frames(),
        ),
        old(mapper)@.unshared() && tabled(old(mapper)@, sections@) ==> (result.is_ok()
            <==> !overlapping(sections@) && !blocked(old(mapper)@, sections@)),
        old(mapper)@.unshared() && tabled(old(mapper)@, sections@) && result.is_err() ==> result
            == Err::<(), MapError>(MapError::PageInUse),
{
    let ghost m0 = mapper@;
    let ghost free0 = allocator.free_frames();
    proof {
        lemma_grown_none(m0, free0);
        lemma_differs_not(m0, sections@, 0);
    }
    let mut index: usize = 0;
    while index < sections.len()
        invariant
            index <= sections@.len(),
            m0 == old(mapper)@,
            free0 == old(allocator).free_frames(),
            mapper.wf(),
            mapper@.layered(),
            mapper@.reserves(allocator.free_frames()),
            allocator.free_frames().subset_of(free0),
            m0.grown_by(mapper@, free0),
            m0.layered(),
            sections_mapped(mapper@, sections@, index as int),
            m0.unshared() ==> only_sections(m0, mapper@, sections@, index as int),
            forall|i: int| 0 <= i < sections@.len() ==> (#[trigger] sections@[i]).wf(),
            m0.reserves(free0),
            m0.recursive(),
            mapper.extends(old(mapper)),
            forall|i: int, j: int, frame: int|
                0 <= i < j < index && (#[trigger] sections@[i].holds(frame)) ==> !(
                #[trigger] sections@[j].holds(frame)),
            m0.unshared() ==> forall|i: int, frame: int|
                0 <= i < index && (#[trigger] sections@[i].holds(frame)) ==> m0.mappable(
                    m0.root(),
                    Page { number: frame as u64 },
                ),
        decreases sections@.len() - index,
    {
        let section = sections[index];
        if section.is_allocated() {
            // the section starts at a page boundary
            let start_frame = Frame::containing_address(section.start_address());
            let end_frame = Frame::containing_address(section.end_address() - 1);
            let mut frames = Frame::range_inclusive(start_frame, end_frame);
            let ghost section_start = mapper@;
            loop
                invariant
                    index < sections@.len(),
                    m0 == old(mapper)@,
                    free0 == old(allocator).free_frames(),
                    section == sections@[index as int],
                    section.wf(),
                    forall|i: int| 0 <= i < sections@.len() ==> (#[trigger] sections@[i]).wf(),
                    section.allocated,
                    start_frame.number == section.addr / 4096,
                    end_frame.number == (section.addr + section.size - 1) / 4096,
                    frames.end == end_frame,
                    start_frame.number <= frames.start.number <= end_frame.number + 1,
                    mapper.wf(),
                    mapper@.layered(),
                    mapper@.reserves(allocator.free_frames()),
                    allocator.free_frames().subset_of(free0),
                    m0.grown_by(mapper@, free0),
                    m0.layered(),
                    sections_mapped(mapper@, sections@, index as int),
                    m0.unshared() ==> forall|page: Page|
                        page.p4_index() != 511 && #[trigger] differs(m0, mapper@, page)
                            ==> in_sections_or_run(
                            sections@,
                            index as int,
                            start_frame.number as int,
                            frames.start.number as int,
                            page,
                        ),
                    forall|frame: int|
                        start_frame.number <= frame < frames.start.number
                            ==> #[trigger] maps_onto_itself(mapper@, frame),
                    m0.reserves(free0),
                    m0.recursive(),
                    mapper.extends(old(mapper)),
                    forall|i: int, j: int, frame: int|
                        0 <= i < j < index && (#[trigger] sections@[i].holds(frame)) ==> !(
                        #[trigger] sections@[j].holds(frame)),
                    forall|i: int, frame: int|
                        0 <= i < index && start_frame.number <= frame < frames.start.number ==> !(
                        #[trigger] sections@[i].holds(frame)),
                    m0.unshared() ==> forall|i: int, frame: int|
                        0 <= i < index && (#[trigger] sections@[i].holds(frame)) ==> m0.mappable(
                            m0.root(),
                            Page { number: frame as u64 },
                        ),
                    m0.unshared() ==> forall|frame: int|
                        start_frame.number <= frame < frames.start.number ==> #[trigger] m0.mappable(
                            m0.root(),
                            Page { number: frame as u64 },
                        ),
                ensures
                    frames.start.number == end_frame.number + 1,
                decreases end_frame.number + 1 - frames.start.number,
            {
                let frame = match frames.next() {
                    Some(frame) => frame,
                    None => {
                        break ;
                    },
                };
                let ghost before = mapper@;
                let ghost free_before = allocator.free_frames();
                proof {
                    (Page { number: frame.number }).lemma_lower_half();
                    lemma_grown_keeps(m0, before, free0);
                }
                let page = Page { number: frame.number };
                if !mapper.can_map(page) {
                    proof {
                        assert(sections@[index as int].holds(frame.number as int));
                        if m0.unshared() {
                            lemma_page_in_use(
                                m0,
                                mapper@,
                                sections@,
                                index as int,
                                start_frame.number as int,
                                frame.number as int,
                            );
                            lemma_run_in_section(
                                m0,
                                mapper@,
                                sections@,
                                index as int,
                                start_frame.number as int,
                                frame.number as int,
                            );
                        }
                    }
                    return Err(MapError::PageInUse);
                }
                proof {
                    assert(sections@[index as int].holds(frame.number as int));
                    assert forall|i: int| 0 <= i < index implies !(#[trigger] sections@[i]).holds(
                        frame.number as int,
                    ) by {
                        if sections@[i].holds(frame.number as int) {
                            assert(maps_onto_itself(before, frame.number as int));
                            lemma_maps_onto_itself(before, before.root(), frame.number as int);
                            crate::memory::paging::laws::law_mappable_page_is_unmapped(before, page);
                        }
                    }
                    if m0.unshared() {
                        lemma_page_was_free(
                            m0,
                            before,
                            sections@,
                            index as int,
                            start_frame.number as int,
                            frame.number as int,
                        );
                    }
                    lemma_grown_path(m0, before, free0, page);
                }
                let outcome = mapper.identity_map(frame, EntryFlags::writeable(), allocator);
                proof {
                    lemma_extended_keeps(before, mapper@, page, free_before);
                }
                match outcome {
                    Ok(()) => {},
                    Err(error) => {
                        proof {
                            lemma_grown_more(m0, before, mapper@, page, free0, free_before);
                            if m0.unshared() {
                                lemma_one_more_in_run(
                                    m0,
                                    before,
                                    mapper@,
                                    sections@,
                                    index as int,
                                    start_frame.number as int,
                                    frame.number as int,
                                );
                                lemma_run_in_section(
                                    m0,
                                    mapper@,
                                    sections@,
                                    index as int,
                                    start_frame.number as int,
                                    frame.number as int + 1,
                                );
                            }
                        }
                        return Err(error);
                    },
                }
                proof {
                    lemma_mapped_one_more(
                        m0,
                        before,
                        mapper@,
                        free0,
                        free_before,
                        frame.number as int,
                    );
                    if m0.unshared() {
                        lemma_one_more_in_run(
                            m0,
                            before,
                            mapper@,
                            sections@,
                            index as int,
                            start_frame.number as int,
                            frame.number as int,
                        );
                    }
                    assert forall|i: int, n: int|
                        0 <= i < index && (#[trigger] sections@[i].holds(n)) implies maps_onto_itself(
                        mapper@,
                        n,
                    ) by {
                        assert(sections@[i].wf());
                        assert(0 <= n < POINTABLE_LIMIT);
                        assert(maps_onto_itself(before, n));
                    }
                    assert forall|n: int|
                        start_frame.number <= n < frames.start.number implies #[trigger] maps_onto_itself(
                        mapper@,
                        n,
                    ) by {
                        if n < frame.number {
                            assert(maps_onto_itself(before, n));
                        }
                    }
                }
            }
            proof {
                assert forall|i: int, n: int|
                    0 <= i < index + 1 && (#[trigger] sections@[i].holds(n)) implies maps_onto_itself(
                    mapper@,
                    n,
                ) by {
                    if i == index {
                        assert(start_frame.number <= n < frames.start.number);
                    }
                }
                if m0.unshared() {
                    lemma_run_in_section(
                        m0,
                        mapper@,
                        sections@,
                        index as int,
                        start_frame.number as int,
                        frames.start.number as int,
                    );
                    lemma_more_sections(m0, mapper@, sections@, index as int + 1, index as int + 1);
                }
            }
        } else {
            proof {
                if m0.unshared() {
                    lemma_more_sections(m0, mapper@, sections@, index as int, index as int + 1);
                }
            }
        }
        index += 1;
    }
    Ok(())
}

} // verus!
