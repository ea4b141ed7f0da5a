//! Laws of the address spaces: what holds between mapping, unmapping,
//! translation and the change of the active address space.

use vstd::prelude::*;
use crate::machine::lemmas::{lemma_cleared, lemma_extended_grown, lemma_maps_with};
use crate::machine::MachineView;
use crate::memory::paging::entry::{
    lemma_word_basics,
    link_to,
    word_frame,
    word_huge,
    word_present,
};
use crate::memory::paging::space::{
    entered,
    left,
    lemma_round_trip,
    lemma_separate_entered,
    seen,
    separate,
};
use crate::memory::paging::Page;

verus! {

/// An address in a page whose leaf slot holds a present word is mapped to the
/// start of the frame of the word, plus the offset of the address in the
/// page. So it is after the page was mapped to a frame.
pub proof fn law_map_then_translate(m: MachineView, page: Page, word: u64, address: u64)
    requires
        m.maps_with(m.root(), page, word),
        word_present(word),
        address / 4096 == page.number,
    ensures
        m.translate(address) == Some(word_frame(word) * 4096 + address % 4096),
{
    lemma_maps_with(m, m.root(), page, word);
}

/// After the leaf slot of a page was cleared, no address in the page is
/// mapped, as long as the slot is not one that carries the recursive
/// mapping. So it is after the page was unmapped.
pub proof fn law_unmap_then_translate(m: MachineView, page: Page, address: u64)
    requires
        m.recursive(),
        m.p1_frame(m.root(), page).is_some(),
        !m.carries_recursion(m.p1_frame(m.root(), page).unwrap(), page.p1_index() as int),
        address / 4096 == page.number,
    ensures
        m.store(m.p1_frame(m.root(), page).unwrap(), page.p1_index() as int, 0).translate(address)
            == None::<int>,
{
    let table = m.p1_frame(m.root(), page).unwrap();
    let n = m.store(table, page.p1_index() as int, 0);
    lemma_word_basics(0);
    lemma_cleared(m, table, page.p1_index() as int);
    assert forall|y: int, s: int| (#[trigger] n.child(y, s)).is_some() implies n.child(y, s)
        == m.child(y, s) by {}
}

/// A page that is mapped cannot be mapped again: either its leaf slot is in
/// use, or a huge page lies on its path.
pub proof fn law_mapped_page_is_not_mappable(m: MachineView, page: Page)
    requires
        m.translate_page(page).is_some(),
    ensures
        !m.mappable(m.root(), page),
{
    lemma_word_basics(0);
}

/// A page that can be mapped is not mapped.
pub proof fn law_mappable_page_is_unmapped(m: MachineView, page: Page)
    requires
        m.mappable(m.root(), page),
    ensures
        m.translate_page(page).is_none(),
        forall|address: u64|
            address / 4096 == page.number ==> (#[trigger] m.translate(address)).is_none(),
{
    lemma_word_basics(0);
}

/// Where the upper slot on the path of an address maps a huge page of 1 GiB
/// that starts at the frame `start`, the address is mapped to the start of
/// that frame, plus the frames that the middle and the leaf index count,
/// plus the offset of the address in its page.
pub proof fn law_huge_page_of_upper_slot(m: MachineView, address: u64, start: int)
    requires
        m.p3_frame(m.root(), Page { number: address / 4096 }).is_some(),
        word_present(
            m.entry(
                m.p3_frame(m.root(), Page { number: address / 4096 }).unwrap(),
                (Page { number: address / 4096 }).p3_index() as int,
            ),
        ),
        word_huge(
            m.entry(
                m.p3_frame(m.root(), Page { number: address / 4096 }).unwrap(),
                (Page { number: address / 4096 }).p3_index() as int,
            ),
        ),
        word_frame(
            m.entry(
                m.p3_frame(m.root(), Page { number: address / 4096 }).unwrap(),
                (Page { number: address / 4096 }).p3_index() as int,
            ),
        ) == start,
    ensures
        m.translate(address) == Some(
            start * 4096 + ((Page { number: address / 4096 }).p2_index() * 512 + (Page {
                number: address / 4096,
            }).p1_index()) * 4096 + address % 4096,
        ),
{
}

/// Where the middle slot on the path of an address maps a huge page of
/// 2 MiB that starts at the frame `start`, the address is mapped to the
/// start of that frame, plus the frames that the leaf index counts, plus the
/// offset of the address in its page.
pub proof fn law_huge_page_of_middle_slot(m: MachineView, address: u64, start: int)
    requires
        m.p2_frame(m.root(), Page { number: address / 4096 }).is_some(),
        word_present(
            m.entry(
                m.p2_frame(m.root(), Page { number: address / 4096 }).unwrap(),
                (Page { number: address / 4096 }).p2_index() as int,
            ),
        ),
        word_huge(
            m.entry(
                m.p2_frame(m.root(), Page { number: address / 4096 }).unwrap(),
                (Page { number: address / 4096 }).p2_index() as int,
            ),
        ),
        word_frame(
            m.entry(
                m.p2_frame(m.root(), Page { number: address / 4096 }).unwrap(),
                (Page { number: address / 4096 }).p2_index() as int,
            ),
        ) == start,
    ensures
        m.translate(address) == Some(
            start * 4096 + (Page { number: address / 4096 }).p1_index() * 4096 + address % 4096,
        ),
{
}

/// Two changes of the active address space, the second back to the table
/// that was active at first, leave the memory as it was and the first table
/// active again; and the table-base register holds what it held, where that
/// was the address of the table without further bits.
pub proof fn law_switch_back(m: MachineView, other: int)
    requires
        0 <= other < 0x10_0000_0000_0000,
    ensures
        m.load_cr3((other * 4096) as u64).active() == other,
        m.load_cr3((other * 4096) as u64).load_cr3((m.active() * 4096) as u64).active()
            == m.active(),
        m.load_cr3((other * 4096) as u64).load_cr3((m.active() * 4096) as u64).mem == m.mem,
        m.load_cr3((other * 4096) as u64).load_cr3((m.active() * 4096) as u64).flushes
            == m.flushes,
        m.cr3 % 4096 == 0 ==> m.load_cr3((other * 4096) as u64).load_cr3(
            (m.active() * 4096) as u64,
        ) == m,
{
}

/// A round trip through another address space. The address space of
/// `target` is entered from the state `m0`, in which it is separate from the
/// active one; in it the page `mapped` is mapped to `frame` with tables from
/// `own`; then it is left. After that the last slot of the active table
/// points to the active table again, the recursive mapping shows the active
/// address space, that address space maps every page outside the recursive
/// region as before, and the address space of `target` maps the page to the
/// frame.
pub proof fn law_with_round_trip(
    m0: MachineView,
    inner: MachineView,
    after: MachineView,
    page: Page,
    free: Set<int>,
    target: int,
    own: Set<int>,
    mapped: Page,
    frame: int,
)
    requires
        separate(m0, target, free, own),
        entered(m0, inner, page, free, target),
        inner.extended_by(after, mapped, own),
        after.recursive(),
        after.translate_page(mapped) == Some(frame),
        mapped.p4_index() != 511,
    ensures
        left(after, page).recursive(),
        left(after, page).root() == left(after, page).active(),
        left(after, page).active() == m0.active(),
        left(after, page).entry(m0.active(), 511) == link_to(m0.active()),
        left(after, page).child(target, 511) == Some(target),
        left(after, page).translate_page_from(target, mapped) == Some(frame),
        forall|q: Page|
            q.p4_index() != 511 ==> #[trigger] left(after, page).translate_page(q)
                == m0.translate_page(q),
{
    lemma_separate_entered(m0, inner, page, free, target, own);
    lemma_extended_grown(inner, after, mapped, own);
    lemma_round_trip(
        m0,
        inner,
        after,
        page,
        free,
        Set::empty(),
        target,
        own,
        Set::empty(),
    );
}

/// After a round trip as in `law_with_round_trip`, entering the address
/// space of `target` again shows the mapping that was made in it: in the
/// state `again`, entered from the state after the round trip with the
/// frames `rest` that are still kept for the temporary page, the page
/// `mapped` is mapped to `frame`.
pub proof fn law_with_again(
    m0: MachineView,
    inner: MachineView,
    after: MachineView,
    again: MachineView,
    page: Page,
    free: Set<int>,
    rest: Set<int>,
    target: int,
    own: Set<int>,
    mapped: Page,
    frame: int,
)
    requires
        separate(m0, target, free, own),
        entered(m0, inner, page, free, target),
        inner.extended_by(after, mapped, own),
        after.recursive(),
        after.translate_page(mapped) == Some(frame),
        mapped.p4_index() != 511,
        rest.subset_of(free),
        inner.p3_frame(inner.active(), page) matches Some(table) ==> !rest.contains(table),
        inner.p2_frame(inner.active(), page) matches Some(table) ==> !rest.contains(table),
        inner.p1_frame(inner.active(), page) matches Some(table) ==> !rest.contains(table),
        entered(left(after, page), again, page, rest, target),
    ensures
        again.root() == target,
        again.translate_page(mapped) == Some(frame),
{
    let end = left(after, page);
    lemma_separate_entered(m0, inner, page, free, target, own);
    lemma_extended_grown(inner, after, mapped, own);
    lemma_round_trip(m0, inner, after, page, free, rest, target, own, Set::empty());
    lemma_separate_entered(end, again, page, rest, target, Set::empty());
    assert(again.translate_page(mapped) == seen(end, target).translate_page(mapped));
}

} // verus!
