//! What the steps that build and enter another address space do to the
//! tables, stated over the states of the machine.

use vstd::prelude::*;
use crate::machine::lemmas::{
    lemma_cleared,
    lemma_founded,
    lemma_kept_by_present,
    lemma_leaf_store,
    lemma_same_memory,
    lemma_table_prefix,
};
use crate::machine::{Flush, MachineView};
use crate::memory::paging::entry::{
    encode,
    lemma_link_to,
    lemma_word_basics,
    link_to,
    word_present,
    POINTABLE_LIMIT,
    PRESENT,
    WRITEABLE,
};
use crate::memory::paging::Page;

verus! {

/// Whether `m1` is the active address space `m0` after the unmapped page
/// `page` was mapped to the unused frame `frame`, as writeable, with tables
/// from `free`.
pub open spec fn shows_frame(
    m0: MachineView,
    m1: MachineView,
    page: Page,
    free: Set<int>,
    frame: int,
) -> bool {
    &&& m0.recursive()
    &&& m0.root() == m0.active()
    &&& m0.layered()
    &&& page.p4_index() != 511
    &&& m0.mappable(m0.root(), page)
    &&& m0.reserves(free)
    &&& m0.unused(frame)
    &&& !free.contains(frame)
    &&& 0 <= frame < POINTABLE_LIMIT
    &&& m1.recursive()
    &&& m0.extended_by(m1, page, free)
    &&& m1.maps_by(m0, page, encode(frame, WRITEABLE | PRESENT))
    &&& m1.translate_page(page) == Some(frame)
}

/// The state after the frame that the page shows was founded as an empty
/// address space and the page was unmapped again.
pub open spec fn founded_and_left(m1: MachineView, page: Page, frame: int) -> MachineView {
    m1.founded(frame).store(
        m1.p1_frame(m1.root(), page).unwrap(),
        page.p1_index() as int,
        0,
    ).flush(Flush::Page((page.number * 4096) as u64))
}

/// Founding an address space in the frame that the page shows leaves the
/// page mapped through the same tables, so that it can be unmapped.
#[verifier::spinoff_prover]
pub proof fn lemma_space_founded(
    m0: MachineView,
    m1: MachineView,
    page: Page,
    free: Set<int>,
    frame: int,
)
    requires
        shows_frame(m0, m1, page, free, frame),
    ensures
        m1.layered(),
        m1.unused(frame),
        m1.root() == m0.root(),
        m1.root() == m1.active(),
        m1.p1_frame(m1.root(), page).unwrap() != m1.root(),
        m1.p1_frame(m1.root(), page).unwrap() != frame,
        m1.founded(frame).recursive(),
        m1.founded(frame).root() == m1.root(),
        m1.founded(frame).root() == m1.founded(frame).active(),
        m1.founded(frame).layered(),
        m1.founded(frame).translate_page(page) == Some(frame),
        m1.founded(frame).p1_frame(m1.root(), page) == m1.p1_frame(m1.root(), page),
        m1.founded(frame).p2_frame(m1.root(), page) == m1.p2_frame(m1.root(), page),
        m1.founded(frame).p3_frame(m1.root(), page) == m1.p3_frame(m1.root(), page),
        !m1.founded(frame).carries_recursion(
            m1.p1_frame(m1.root(), page).unwrap(),
            page.p1_index() as int,
        ),
        forall|x: int, y: int|
            0 <= x < 512 && 0 <= y < 512 ==> #[trigger] m1.founded(frame).table(511, x, y) != Some(
                m1.p1_frame(m1.root(), page).unwrap(),
            ),
{
    reveal(MachineView::extended_by);
    let root = m0.root();
    let t1 = m1.p1_frame(root, page).unwrap();
    let m3 = m1.founded(frame);
    page.lemma_index_bounds();
    let i4 = page.p4_index() as int;
    let i3 = page.p3_index() as int;
    let i2 = page.p2_index() as int;
    assert(m1.idle(frame));
    lemma_founded(m1, frame);
    lemma_table_prefix(m1, i4, i3);
    assert(m1.table(i4, i3, i2) == Some(t1));
    assert(m1.table(511, 511, 511) == Some(root));
    assert(m1.table(i4, i3, i2) != m1.table(511, 511, 511));
    assert(m3.p1_frame(root, page) == m1.p1_frame(root, page));
    lemma_table_prefix(m3, i4, i3);
    assert(m3.table(i4, i3, i2) == Some(t1));
    assert forall|x: int, y: int| 0 <= x < 512 && 0 <= y < 512 implies #[trigger] m3.table(
        511,
        x,
        y,
    ) != Some(t1) by {
        assert(m3.table(i4, i3, i2) != m3.table(511, x, y));
    }
}

/// What founding an address space through the temporary page leaves behind:
/// the new top-level table with its self-reference, the tables that lead to
/// the temporary page, and nothing else changed.
#[verifier::spinoff_prover]
pub proof fn lemma_space_left(
    m0: MachineView,
    m1: MachineView,
    page: Page,
    free: Set<int>,
    frame: int,
)
    requires
        shows_frame(m0, m1, page, free, frame),
    ensures
        founded_and_left(m1, page, frame).recursive(),
        founded_and_left(m1, page, frame).root() == m0.root(),
        founded_and_left(m1, page, frame).cr3 == m0.cr3,
        founded_and_left(m1, page, frame).layered(),
        founded_and_left(m1, page, frame).child(frame, 511) == Some(frame),
        forall|s: int|
            0 <= s < 511 ==> #[trigger] founded_and_left(m1, page, frame).entry(frame, s) == 0,
        founded_and_left(m1, page, frame).p1_frame(m0.root(), page) == m1.p1_frame(m0.root(), page),
        founded_and_left(m1, page, frame).p2_frame(m0.root(), page) == m1.p2_frame(m0.root(), page),
        founded_and_left(m1, page, frame).p3_frame(m0.root(), page) == m1.p3_frame(m0.root(), page),
        founded_and_left(m1, page, frame).mappable(m0.root(), page),
        m0.kept_by(founded_and_left(m1, page, frame)),
        forall|q: Page|
            q.p4_index() != 511 ==> #[trigger] founded_and_left(m1, page, frame).translate_page(q)
                == m0.translate_page(q),
        forall|x: int|
            #![trigger founded_and_left(m1, page, frame).idle(x)]
            m0.idle(x) && !free.contains(x) ==> founded_and_left(m1, page, frame).idle(x),
        forall|x: int, s: int|
            word_present(m0.entry(x, s)) && !free.contains(x) && x != frame
                ==> #[trigger] founded_and_left(m1, page, frame).entry(x, s) == m0.entry(x, s),
        founded_and_left(m1, page, frame) == m0.prepared(
            m0.root(),
            page,
            m1.p3_frame(m0.root(), page).unwrap(),
            m1.p2_frame(m0.root(), page).unwrap(),
            m1.p1_frame(m0.root(), page).unwrap(),
        ).founded(frame).flush(Flush::Page((page.number * 4096) as u64)),
{
    reveal(MachineView::extended_by);
    let root = m0.root();
    let t3 = m1.p3_frame(root, page).unwrap();
    let t2 = m1.p2_frame(root, page).unwrap();
    let t1 = m1.p1_frame(root, page).unwrap();
    let i1 = page.p1_index() as int;
    let m3 = m1.founded(frame);
    let cleared = m3.store(t1, i1, 0);
    let m4 = founded_and_left(m1, page, frame);
    page.lemma_index_bounds();
    lemma_word_basics(0);
    lemma_link_to(frame);
    lemma_space_founded(m0, m1, page, free, frame);
    lemma_founded(m1, frame);
    lemma_cleared(m3, t1, i1);
    lemma_leaf_store(m3, t1, i1, 0);
    lemma_same_memory(cleared, m4);
    assert(m4.root() == root);
    assert(cleared.p1_frame(root, page) == m3.p1_frame(root, page));
    assert(m4.p1_frame(root, page) == Some(t1) && m4.p2_frame(root, page) == Some(t2)
        && m4.p3_frame(root, page) == Some(t3));
    assert(m4.mappable(root, page));
    assert(m4.child(frame, 511) == Some(frame));
    assert forall|x: int| #![trigger m4.idle(x)] m0.idle(x) && !free.contains(x) implies m4.idle(
        x,
    ) by {
        assert(m1.idle(x));
        assert(m3.idle(x));
        assert(cleared.idle(x));
    }
    assert forall|x: int, s: int|
        word_present(m0.entry(x, s)) && !free.contains(x) && x != frame implies #[trigger] m4.entry(
        x,
        s,
    ) == m0.entry(x, s) by {
        assert(m1.entry(x, s) == m0.entry(x, s));
        assert(m3.entry(x, s) == m1.entry(x, s));
    }
    lemma_kept_by_present(m0, m4, free, frame);
    let prepared = m0.prepared(root, page, t3, t2, t1);
    assert(m1 == prepared.store(t1, i1, encode(frame, WRITEABLE | PRESENT)));
    assert(prepared.entry(t1, i1) == 0);
    assert(m4.mem =~= prepared.founded(frame).mem);
    assert(prepared == with_path(m0, m1, page));
    lemma_path_made(m0, m1, page, free);
    assert(prepared.unused(frame));
    lemma_founded(prepared, frame);
    lemma_same_memory(prepared.founded(frame), m4);
    assert forall|q: Page| q.p4_index() != 511 implies #[trigger] m4.translate_page(q)
        == m0.translate_page(q) by {
        assert(prepared.founded(frame).translate_page(q) == prepared.translate_page(q));
        assert(prepared.translate_page(q) == m0.translate_page(q));
    }
}

/// Whether `later` is `m` after work on a mapping of `page`, a page outside
/// the recursive region that could be mapped, which has made the tables on
/// the path of the page from frames of `free`.
pub open spec fn path_made(m: MachineView, later: MachineView, page: Page, free: Set<int>) -> bool {
    &&& m.recursive()
    &&& m.layered()
    &&& page.p4_index() != 511
    &&& m.mappable(m.root(), page)
    &&& m.reserves(free)
    &&& later.recursive()
    &&& m.extended_by(later, page, free)
    &&& later.p1_frame(m.root(), page).is_some()
}

/// The state in which the tables on the path of `page` are those of
/// `later`, and nothing else differs from `m`.
pub open spec fn with_path(m: MachineView, later: MachineView, page: Page) -> MachineView {
    m.prepared(
        m.root(),
        page,
        later.p3_frame(m.root(), page).unwrap(),
        later.p2_frame(m.root(), page).unwrap(),
        later.p1_frame(m.root(), page).unwrap(),
    )
}

/// Making the tables on the path of a page changes the mapping of no page
/// outside the recursive region: the tables that are made are empty.
#[verifier::spinoff_prover]
pub proof fn lemma_path_made(m: MachineView, later: MachineView, page: Page, free: Set<int>)
    requires
        path_made(m, later, page, free),
    ensures
        with_path(m, later, page).recursive(),
        with_path(m, later, page).root() == m.root(),
        with_path(m, later, page).cr3 == m.cr3,
        with_path(m, later, page).flushes == m.flushes,
        with_path(m, later, page).layered(),
        with_path(m, later, page).p3_frame(m.root(), page) == later.p3_frame(m.root(), page),
        with_path(m, later, page).p2_frame(m.root(), page) == later.p2_frame(m.root(), page),
        with_path(m, later, page).p1_frame(m.root(), page) == later.p1_frame(m.root(), page),
        forall|q: Page|
            q.p4_index() != 511 ==> #[trigger] with_path(m, later, page).translate_page(q)
                == m.translate_page(q),
        forall|x: int|
            #![trigger with_path(m, later, page).idle(x)]
            m.idle(x) && Some(x) != later.p3_frame(m.root(), page) && Some(x) != later.p2_frame(
                m.root(),
                page,
            ) && Some(x) != later.p1_frame(m.root(), page) ==> with_path(m, later, page).idle(x),
        with_path(m, later, page).mappable(m.root(), page),
        later.p1_frame(m.root(), page) != Some(m.root()),
        later.p2_frame(m.root(), page) != Some(m.root()),
        later.p3_frame(m.root(), page) != Some(m.root()),
{
    reveal(MachineView::extended_by);
    let root = m.root();
    let t3 = later.p3_frame(root, page).unwrap();
    let t2 = later.p2_frame(root, page).unwrap();
    let t1 = later.p1_frame(root, page).unwrap();
    page.lemma_index_bounds();
    let i4 = page.p4_index() as int;
    let i3 = page.p3_index() as int;
    let i2 = page.p2_index() as int;
    lemma_word_basics(0);
    lemma_word_basics(later.entry(root, i4));
    lemma_word_basics(later.entry(t3, i3));
    lemma_word_basics(later.entry(t2, i2));
    lemma_table_prefix(m, i4, i3);
    lemma_table_prefix(later, i4, i3);
    // the tables on the path are three different frames, and none is the root
    assert(later.layered());
    assert(later.table(511, 511, 511) == Some(root));
    assert(later.child(root, i4) != Some(root));
    assert(later.step(later.child(root, i4), i3) != later.child(root, 511));
    assert(later.step(later.child(root, i4), i3) != later.child(root, i4));
    assert(later.table(i4, i3, i2) != later.table(511, 511, 511));
    assert(later.table(i4, i3, i2) != later.table(511, 511, i4));
    assert(later.table(i4, i3, i2) != later.table(511, i4, i3));
    assert(t3 != root && t2 != root && t1 != root && t3 != t2 && t3 != t1 && t2 != t1);
    // the upper table
    if m.child(root, i4).is_none() {
        assert(free.contains(t3));
        assert(m.unused(t3));
    }
    let m1 = m.ensured(root, i4, t3);
    crate::machine::lemmas::lemma_ensured(m, root, i4, t3, 511, 511);
    lemma_table_prefix(m1, i4, i3);
    // the middle table
    if m1.child(t3, i3).is_none() {
        assert(m.p2_frame(root, page).is_none());
        assert(free.contains(t2));
        assert(m.unused(t2));
        assert(m1.idle(t2));
    }
    let m2 = m1.ensured(t3, i3, t2);
    crate::machine::lemmas::lemma_ensured(m1, t3, i3, t2, 511, i4);
    lemma_table_prefix(m2, i4, i3);
    // the leaf table
    if m2.child(t2, i2).is_none() {
        assert(m.p1_frame(root, page).is_none());
        assert(free.contains(t1));
        assert(m.unused(t1));
        assert(m1.idle(t1));
        assert(m2.idle(t1));
    }
    let m3 = m2.ensured(t2, i2, t1);
    crate::machine::lemmas::lemma_ensured(m2, t2, i2, t1, i4, i3);
    assert(m3 == with_path(m, later, page));
    lemma_table_prefix(m3, i4, i3);
    assert forall|q: Page| q.p4_index() != 511 implies #[trigger] m3.translate_page(q)
        == m.translate_page(q) by {
        crate::machine::lemmas::lemma_ensured_exact(m, root, i4, t3, 511, 511, q);
        crate::machine::lemmas::lemma_ensured_exact(m1, t3, i3, t2, 511, i4, q);
        crate::machine::lemmas::lemma_ensured_exact(m2, t2, i2, t1, i4, i3, q);
    }
    assert forall|x: int|
        #![trigger m3.idle(x)]
        m.idle(x) && x != t3 && x != t2 && x != t1 implies m3.idle(x) by {
        assert(m1.idle(x));
        assert(m2.idle(x));
    }
    assert(m3.mappable(root, page)) by {
        assert(m3.child(root, i4) == Some(t3));
        assert(m3.child(t3, i3) == Some(t2));
        assert(m3.child(t2, i2) == Some(t1));
        if m.p1_frame(root, page).is_some() {
            assert(m.entry(t1, page.p1_index() as int) == 0);
        }
        assert(m3.entry(t1, page.p1_index() as int) == 0);
    }
}

/// Whether `mid` is the active address space `m0` after the unmapped page
/// `page` was mapped to the active top-level table itself, as writeable,
/// with tables from `free`.
pub open spec fn shows_active(
    m0: MachineView,
    mid: MachineView,
    page: Page,
    free: Set<int>,
) -> bool {
    &&& m0.recursive()
    &&& m0.root() == m0.active()
    &&& m0.layered()
    &&& page.p4_index() != 511
    &&& m0.mappable(m0.root(), page)
    &&& m0.reserves(free)
    &&& mid.recursive()
    &&& m0.extended_by(mid, page, free)
    &&& mid.maps_by(m0, page, encode(m0.active(), WRITEABLE | PRESENT))
    &&& mid.translate_page(page) == Some(m0.active())
}

/// Whether `inner` is the state in which work on the address space of the
/// top-level table in `target` goes on: the active address space `m0` with
/// the temporary page `page` showing the active table, and the last slot of
/// the active table pointing to `target`, after an invalidation of the whole
/// translation cache.
pub open spec fn entered(
    m0: MachineView,
    inner: MachineView,
    page: Page,
    free: Set<int>,
    target: int,
) -> bool {
    exists|mid: MachineView| #[trigger]
        shows_active(m0, mid, page, free) && inner == mid.store(
            m0.active(),
            511,
            link_to(target),
        ).flush(Flush::All)
}

/// Whether `page` shows the active top-level table through three tables
/// that are not the active table, from a slot of it that is not the last.
pub open spec fn window(m: MachineView, page: Page) -> bool {
    &&& page.p4_index() != 511
    &&& m.p1_frame(m.active(), page).is_some()
    &&& m.p3_frame(m.active(), page) != Some(m.active())
    &&& m.p2_frame(m.active(), page) != Some(m.active())
    &&& m.p1_frame(m.active(), page) != Some(m.active())
    &&& m.child(m.p1_frame(m.active(), page).unwrap(), page.p1_index() as int) == Some(m.active())
}

/// The state after the work on another address space is over: the last slot
/// of the active table points to the table itself again, the whole
/// translation cache was invalidated, and the temporary page is unmapped.
pub open spec fn left(m: MachineView, page: Page) -> MachineView {
    m.store(m.active(), 511, link_to(m.active())).flush(Flush::All).store(
        m.p1_frame(m.active(), page).unwrap(),
        page.p1_index() as int,
        0,
    ).flush(Flush::Page((page.number * 4096) as u64))
}

/// In the state in which work on another address space goes on, the
/// temporary page is a window onto the active table, and the recursive
/// mapping shows the other address space.
#[verifier::spinoff_prover]
pub proof fn lemma_entered(
    m0: MachineView,
    mid: MachineView,
    page: Page,
    free: Set<int>,
    target: int,
)
    requires
        shows_active(m0, mid, page, free),
        0 <= target < POINTABLE_LIMIT,
    ensures
        entered(m0, mid.store(m0.active(), 511, link_to(target)).flush(Flush::All), page, free, target),
        window(mid.store(m0.active(), 511, link_to(target)).flush(Flush::All), page),
        mid.store(m0.active(), 511, link_to(target)).flush(Flush::All).active() == m0.active(),
        mid.store(m0.active(), 511, link_to(target)).flush(Flush::All).root() == target,
        mid.store(m0.active(), 511, link_to(target)).flush(Flush::All).table_frame(
            (page.number * 4096) as u64,
        ) == Some(m0.active()) || page.number >= 0x10_0000_0000_0000,
{
    reveal(MachineView::extended_by);
    let c = m0.active();
    let inner = mid.store(c, 511, link_to(target)).flush(Flush::All);
    assert(shows_active(m0, mid, page, free));
    page.lemma_index_bounds();
    lemma_link_to(target);
    let i4 = page.p4_index() as int;
    let i3 = page.p3_index() as int;
    let i2 = page.p2_index() as int;
    let t3 = mid.p3_frame(c, page).unwrap();
    let t2 = mid.p2_frame(c, page).unwrap();
    let t1 = mid.p1_frame(c, page).unwrap();
    lemma_table_prefix(mid, i4, i3);
    assert(mid.layered());
    assert(mid.table(511, 511, 511) == Some(c));
    assert(mid.child(c, i4) != Some(c));
    assert(mid.step(mid.child(c, i4), i3) != mid.child(c, 511));
    assert(mid.table(i4, i3, i2) != mid.table(511, 511, 511));
    assert(t3 != c && t2 != c && t1 != c);
    lemma_word_basics(mid.entry(t1, page.p1_index() as int));
    lemma_flag_bits_of_window(c);
    assert(mid.child(t1, page.p1_index() as int) == Some(c));
    if page.number < 0x10_0000_0000_0000 {
        let address = (page.number * 4096) as u64;
        assert(Page { number: address / 4096 } == page);
    }
}

/// The slot value that maps the temporary page links to the frame.
proof fn lemma_flag_bits_of_window(frame: int)
    requires
        0 <= frame < POINTABLE_LIMIT,
    ensures
        encode(frame, WRITEABLE | PRESENT) == link_to(frame),
        crate::memory::paging::entry::word_links(link_to(frame)),
        crate::memory::paging::entry::word_frame(link_to(frame)) == frame,
{
    lemma_link_to(frame);
}

/// Where the work on another address space kept the table-base register and
/// the slots of the window, the active table can be restored through the
/// window, and the window can then be closed.
#[verifier::spinoff_prover]
pub proof fn lemma_left(inner: MachineView, after: MachineView, page: Page)
    requires
        window(inner, page),
        after.cr3 == inner.cr3,
        inner.same_walk(after, inner.active(), page),
        0 <= inner.active() < POINTABLE_LIMIT,
    ensures
        window(after, page),
        after.p1_frame(after.active(), page) == inner.p1_frame(inner.active(), page),
        page.number < 0x10_0000_0000_0000 ==> after.table_frame((page.number * 4096) as u64) == Some(
            after.active(),
        ),
        ({
            let restored = after.store(after.active(), 511, link_to(after.active())).flush(
                Flush::All,
            );
            &&& restored.recursive()
            &&& restored.root() == restored.active()
            &&& restored.active() == inner.active()
            &&& restored.translate_page(page) == Some(inner.active())
            &&& restored.p1_frame(restored.root(), page) == inner.p1_frame(inner.active(), page)
            &&& !restored.carries_recursion(
                inner.p1_frame(inner.active(), page).unwrap(),
                page.p1_index() as int,
            )
        }),
{
    let c = inner.active();
    page.lemma_index_bounds();
    lemma_link_to(c);
    let t1 = inner.p1_frame(c, page).unwrap();
    lemma_word_basics(inner.entry(t1, page.p1_index() as int));
    if page.number < 0x10_0000_0000_0000 {
        let address = (page.number * 4096) as u64;
        assert(Page { number: address / 4096 } == page);
    }
}

/// An address space whose top-level table holds nothing but its
/// self-reference has no table but that one: its levels are apart, every
/// other frame is idle, and every page outside the recursive region can be
/// mapped.
pub proof fn lemma_empty_space(m: MachineView)
    requires
        m.recursive(),
        forall|s: int| 0 <= s < 511 ==> #[trigger] m.entry(m.root(), s) == 0,
    ensures
        m.layered(),
        m.unshared(),
        forall|x: int| x != m.root() ==> #[trigger] m.idle(x),
        forall|free: Set<int>|
            !free.contains(m.root()) && !free.contains(m.active()) ==> #[trigger] m.reserves(free),
        forall|page: Page|
            page.p4_index() != 511 ==> (#[trigger] m.translate_page(page)).is_none() && m.mappable(
                m.root(),
                page,
            ),
{
    let root = m.root();
    lemma_word_basics(0);
    assert forall|page: Page| page.p4_index() != 511 implies (#[trigger] m.translate_page(
        page,
    )).is_none() && m.mappable(m.root(), page) by {
        page.lemma_index_bounds();
        assert(m.entry(root, page.p4_index() as int) == 0);
    }
    assert forall|a: int| 0 <= a < 511 implies #[trigger] m.child(root, a) == None::<int> by {
        assert(m.entry(root, a) == 0);
    }
    assert forall|i: int, j: int, k: int|
        0 <= i < 512 && 0 <= j < 512 && 0 <= k < 512 implies #[trigger] m.table(i, j, k) == (if i
        == 511 && j == 511 && k == 511 {
        Some(root)
    } else {
        None
    }) by {
        if i < 511 {
            assert(m.child(root, i) == None::<int>);
        } else if j < 511 {
            assert(m.child(root, j) == None::<int>);
        } else if k < 511 {
            assert(m.child(root, k) == None::<int>);
        }
    }
    assert forall|x: int| x != root implies #[trigger] m.idle(x) by {
        assert forall|i: int, j: int, k: int|
            0 <= i < 512 && 0 <= j < 512 && 0 <= k < 512 implies #[trigger] m.table(i, j, k)
            != Some(x) by {}
    }
    assert forall|free: Set<int>|
        !free.contains(root) && !free.contains(m.active()) implies #[trigger] m.reserves(free) by {
        assert forall|g: int| #[trigger] free.contains(g) implies m.unused(g) by {
            assert(m.idle(g));
        }
    }
    assert forall|a: int, b: int, x: int|
        0 <= a < 511 && 0 <= b < 512 && 0 <= x < 512 && (#[trigger] m.step(
            m.child(root, a),
            b,
        )).is_some() implies m.step(m.child(root, a), b) != #[trigger] m.child(root, x) by {
        assert(m.child(root, a) == None::<int>);
    }
    assert forall|a: int, b: int, c: int, x: int, y: int|
        0 <= a < 511 && 0 <= b < 512 && 0 <= c < 512 && 0 <= x < 512 && 0 <= y < 512 && (
        #[trigger] m.table(a, b, c)).is_some() implies m.table(a, b, c) != #[trigger] m.table(
        511,
        x,
        y,
    ) by {}
}

/// Whether the address space of the top-level table in `target` is empty
/// and apart from the active address space of `m`, and the frames of `free`
/// are used by neither.
pub open spec fn apart(m: MachineView, target: int, free: Set<int>) -> bool {
    &&& 0 <= target < POINTABLE_LIMIT
    &&& m.child(target, 511) == Some(target)
    &&& forall|s: int| 0 <= s < 511 ==> #[trigger] m.entry(target, s) == 0
    &&& m.unused(target)
    &&& m.reserves(free)
    &&& !free.contains(target)
}

/// The state as the recursive mapping would show it if the last slot of the
/// active table pointed to the top-level table in `target`.
pub open spec fn seen(m: MachineView, target: int) -> MachineView {
    m.store(m.active(), 511, link_to(target))
}

/// Whether the address space of the top-level table in `target` is apart
/// from the active address space of `m`: its levels are apart, no table of
/// the one is a table of the other, and neither the frames of `free` nor
/// those of `own` are tables of either.
pub open spec fn separate(m: MachineView, target: int, free: Set<int>, own: Set<int>) -> bool {
    &&& 0 <= target < POINTABLE_LIMIT
    &&& m.child(target, 511) == Some(target)
    &&& seen(m, target).layered()
    &&& forall|x: int| !m.idle(x) ==> #[trigger] seen(m, target).idle(x)
    &&& forall|x: int| free.contains(x) ==> #[trigger] seen(m, target).idle(x)
    &&& forall|x: int| own.contains(x) ==> #[trigger] seen(m, target).idle(x)
    &&& m.reserves(own)
    &&& own.disjoint(free)
}

/// An empty address space that is apart from the active one is separate
/// from it.
pub proof fn lemma_apart_separate(m: MachineView, target: int, free: Set<int>, own: Set<int>)
    requires
        m.recursive(),
        apart(m, target, own),
        !free.contains(target),
        own.disjoint(free),
    ensures
        separate(m, target, free, own),
{
    let other = seen(m, target);
    lemma_link_to(target);
    lemma_table_prefix(m, 0, 0);
    assert(m.table(511, 511, 511) != Some(target));
    assert(target != m.active()) by {
        assert(m.unused(target));
    }
    assert forall|s: int| 0 <= s < 511 implies #[trigger] other.entry(other.root(), s) == 0 by {
        assert(m.entry(target, s) == 0);
    }
    lemma_empty_space(other);
}

/// Entering an address space that is separate from the active one gives a
/// state in which the recursive mapping shows that address space as it was:
/// with the same tables and the same mappings. Mappings can be made in it
/// with frames of `own`, and the active table and the tables of the window
/// are neither tables of it nor in `own`.
#[verifier::spinoff_prover]
pub proof fn lemma_separate_entered(
    m0: MachineView,
    inner: MachineView,
    page: Page,
    free: Set<int>,
    target: int,
    own: Set<int>,
)
    requires
        entered(m0, inner, page, free, target),
        separate(m0, target, free, own),
    ensures
        inner.recursive(),
        inner.root() == target,
        inner.active() == m0.active(),
        inner.cr3 == m0.cr3,
        inner.layered(),
        inner.reserves(own),
        window(inner, page),
        shielded(inner, page, own),
        target != inner.active(),
        inner.p1_frame(inner.active(), page) != Some(target),
        inner.p2_frame(inner.active(), page) != Some(target),
        inner.p3_frame(inner.active(), page) != Some(target),
        inner.idle(inner.active()),
        inner.idle(inner.p3_frame(inner.active(), page).unwrap()),
        inner.idle(inner.p2_frame(inner.active(), page).unwrap()),
        inner.idle(inner.p1_frame(inner.active(), page).unwrap()),
        inner.unshared() == seen(m0, target).unshared(),
        forall|x: int| #[trigger] inner.idle(x) == seen(m0, target).idle(x),
        forall|q: Page| #[trigger] inner.translate_page(q) == seen(m0, target).translate_page(q),
        forall|q: Page| #[trigger] inner.mappable(target, q) == seen(m0, target).mappable(target, q),
        forall|q: Page| #[trigger] seen(m0, target).same_walk(inner, target, q),
{
    reveal(MachineView::extended_by);
    let c = m0.active();
    let other = seen(m0, target);
    let mid = choose|mid: MachineView| #[trigger]
        shows_active(m0, mid, page, free) && inner == mid.store(c, 511, link_to(target)).flush(
            Flush::All,
        );
    lemma_entered(m0, mid, page, free, target);
    lemma_link_to(target);
    page.lemma_index_bounds();
    let i4 = page.p4_index() as int;
    let i3 = page.p3_index() as int;
    let i2 = page.p2_index() as int;
    crate::machine::lemmas::lemma_not_free(m0, own, page);
    let t3 = mid.p3_frame(c, page).unwrap();
    let t2 = mid.p2_frame(c, page).unwrap();
    let t1 = mid.p1_frame(c, page).unwrap();
    lemma_table_prefix(m0, i4, i3);
    // the active table and the tables of the window are no tables of the other space
    assert(other.idle(c)) by {
        assert(m0.table(511, 511, 511) == Some(c));
        assert(!m0.idle(c));
    }
    assert(other.idle(t3)) by {
        if m0.p3_frame(c, page).is_some() {
            assert(m0.table(511, 511, i4) == Some(t3));
            assert(!m0.idle(t3));
        }
    }
    assert(other.idle(t2)) by {
        if m0.p2_frame(c, page).is_some() {
            assert(m0.table(511, i4, i3) == Some(t2));
            assert(!m0.idle(t2));
        }
    }
    assert(other.idle(t1)) by {
        if m0.p1_frame(c, page).is_some() {
            assert(m0.table(i4, i3, i2) == Some(t1));
            assert(!m0.idle(t1));
        }
    }
    assert(other.recursive());
    let changed = set![c, t3, t2, t1];
    assert forall|x: int, s: int| !changed.contains(x) implies #[trigger] inner.entry(x, s)
        == other.entry(x, s) by {
        assert(mid.entry(x, s) == m0.entry(x, s));
    }
    crate::machine::lemmas::lemma_idle_changes(other, inner, changed);
    assert forall|g: int| #[trigger] own.contains(g) implies inner.unused(g) by {
        assert(m0.unused(g));
        assert(other.idle(g));
    }
    // the frames of `own` are not among the tables of the window
    assert(!own.contains(t3) && !own.contains(t2) && !own.contains(t1)) by {
        if own.contains(t3) {
            assert(m0.unused(t3));
        }
        if own.contains(t2) {
            assert(m0.unused(t2));
        }
        if own.contains(t1) {
            assert(m0.unused(t1));
        }
    }
    lemma_table_prefix(inner, 0, 0);
    assert(inner.table(511, 511, 511) == Some(target));
}

/// Entering an empty address space that is apart from the active one gives
/// a state in which mappings can be made in it with frames of `own`, which
/// holds none of the frames kept for the temporary page: the recursive
/// mapping shows the empty space, and the frames of the window are neither
/// tables of it nor in `own`.
pub proof fn lemma_entered_empty(
    m0: MachineView,
    inner: MachineView,
    page: Page,
    free: Set<int>,
    target: int,
    own: Set<int>,
)
    requires
        entered(m0, inner, page, free, target),
        apart(m0, target, own),
        !free.contains(target),
        own.disjoint(free),
    ensures
        inner.recursive(),
        inner.root() == target,
        inner.active() == m0.active(),
        inner.cr3 == m0.cr3,
        inner.layered(),
        inner.reserves(own),
        window(inner, page),
        shielded(inner, page, own),
        inner.idle(inner.active()),
        inner.idle(inner.p1_frame(inner.active(), page).unwrap()),
        inner.unshared(),
        forall|q: Page|
            q.p4_index() != 511 ==> (#[trigger] inner.translate_page(q)).is_none() && inner.mappable(
                inner.root(),
                q,
            ),
{
    lemma_apart_separate(m0, target, free, own);
    lemma_separate_entered(m0, inner, page, free, target, own);
    let other = seen(m0, target);
    lemma_link_to(target);
    assert(target != m0.active()) by {
        assert(m0.unused(target));
    }
    assert forall|s: int| 0 <= s < 511 implies #[trigger] other.entry(other.root(), s) == 0 by {
        assert(m0.entry(target, s) == 0);
    }
    lemma_empty_space(other);
    assert forall|q: Page| q.p4_index() != 511 implies (#[trigger] inner.translate_page(
        q,
    )).is_none() && inner.mappable(inner.root(), q) by {
        assert(other.translate_page(q).is_none());
        assert(inner.mappable(target, q) == other.mappable(target, q));
    }
}

/// Whether the active table and the three tables of the window are outside
/// `own`.
pub open spec fn shielded(m: MachineView, page: Page, own: Set<int>) -> bool {
    &&& !own.contains(m.active())
    &&& m.p3_frame(m.active(), page) matches Some(table) ==> !own.contains(table)
    &&& m.p2_frame(m.active(), page) matches Some(table) ==> !own.contains(table)
    &&& m.p1_frame(m.active(), page) matches Some(table) ==> !own.contains(table)
}

/// Growth of the address space that is shown, with tables from `own`,
/// leaves a window alone whose tables are outside `own`.
pub proof fn lemma_window_kept(inner: MachineView, after: MachineView, page: Page, own: Set<int>)
    requires
        window(inner, page),
        shielded(inner, page, own),
        inner.grown_by(after, own),
    ensures
        after.cr3 == inner.cr3,
        inner.same_walk(after, inner.active(), page),
{
    reveal(MachineView::grown_by);
    let c = inner.active();
    let t1 = inner.p1_frame(c, page).unwrap();
    page.lemma_index_bounds();
}

/// After work on an empty address space with tables from `own`, leaving
/// changes nothing of what was built: every page is mapped in the address
/// space of the target as it was when the work ended, and the target keeps
/// its self-reference.
#[verifier::spinoff_prover]
pub proof fn lemma_left_keeps(inner: MachineView, after: MachineView, page: Page, own: Set<int>)
    requires
        window(inner, page),
        shielded(inner, page, own),
        inner.recursive(),
        inner.layered(),
        inner.idle(inner.active()),
        inner.idle(inner.p1_frame(inner.active(), page).unwrap()),
        inner.grown_by(after, own),
        after.recursive(),
    ensures
        left(after, page).active() == inner.active(),
        left(after, page).cr3 == inner.cr3,
        left(after, page).child(inner.root(), 511) == Some(inner.root()),
        forall|q: Page| #[trigger]
            left(after, page).translate_page_from(inner.root(), q) == after.translate_page(q),
        forall|q: Page| #[trigger] after.same_walk(left(after, page), inner.root(), q),
{
    reveal(MachineView::grown_by);
    let c = inner.active();
    let root = inner.root();
    let t1 = inner.p1_frame(c, page).unwrap();
    let end = left(after, page);
    page.lemma_index_bounds();
    lemma_window_kept(inner, after, page, own);
    crate::machine::lemmas::lemma_same_walk(inner, after, c, page);
    assert(after.p1_frame(c, page) == Some(t1));
    assert(after.idle(c) && after.idle(t1));
    lemma_table_prefix(inner, 0, 0);
    assert(inner.table(511, 511, 511) != Some(c));
    assert(inner.table(511, 511, 511) != Some(t1));
    lemma_table_prefix(after, 0, 0);
    assert(after.table(511, 511, 511) != Some(c));
    assert(after.table(511, 511, 511) != Some(t1));
    assert forall|q: Page| #[trigger] end.translate_page_from(root, q) == after.translate_page(q) by {
        q.lemma_index_bounds();
        let i4 = q.p4_index() as int;
        let i3 = q.p3_index() as int;
        let i2 = q.p2_index() as int;
        lemma_table_prefix(after, i4, i3);
        assert(after.table(511, 511, i4) != Some(c));
        assert(after.table(511, i4, i3) != Some(c));
        assert(after.table(i4, i3, i2) != Some(c));
        assert(after.table(511, 511, i4) != Some(t1));
        assert(after.table(511, i4, i3) != Some(t1));
        assert(after.table(i4, i3, i2) != Some(t1));
        crate::machine::lemmas::lemma_same_walk(after, end, root, q);
    }
    assert forall|q: Page| #[trigger] after.same_walk(end, root, q) by {
        q.lemma_index_bounds();
        let i4 = q.p4_index() as int;
        let i3 = q.p3_index() as int;
        let i2 = q.p2_index() as int;
        lemma_table_prefix(after, i4, i3);
        assert(after.table(511, 511, i4) != Some(c));
        assert(after.table(511, i4, i3) != Some(c));
        assert(after.table(i4, i3, i2) != Some(c));
        assert(after.table(511, 511, i4) != Some(t1));
        assert(after.table(511, i4, i3) != Some(t1));
        assert(after.table(i4, i3, i2) != Some(t1));
    }
}

/// The round trip through another address space, separate from the active
/// one: entered from the state `m0`, worked on with tables from `own` up to
/// the state `after`, and left. Afterwards the recursive mapping shows the
/// active address space again, which maps every page outside the recursive
/// region as before; the other address space maps every page as at the end
/// of the work; and the two are separate as before, for the frames `rest`
/// that are still kept for the temporary page and the frames `left_own`
/// that are still free.
#[verifier::spinoff_prover]
pub proof fn lemma_round_trip(
    m0: MachineView,
    inner: MachineView,
    after: MachineView,
    page: Page,
    free: Set<int>,
    rest: Set<int>,
    target: int,
    own: Set<int>,
    left_own: Set<int>,
)
    requires
        separate(m0, target, free, own),
        entered(m0, inner, page, free, target),
        inner.grown_by(after, own),
        after.recursive(),
        rest.subset_of(free),
        left_own.subset_of(own),
        after.reserves(left_own),
        inner.p3_frame(inner.active(), page) matches Some(table) ==> !rest.contains(table),
        inner.p2_frame(inner.active(), page) matches Some(table) ==> !rest.contains(table),
        inner.p1_frame(inner.active(), page) matches Some(table) ==> !rest.contains(table),
    ensures
        left(after, page).recursive(),
        left(after, page).root() == left(after, page).active(),
        left(after, page).active() == m0.active(),
        left(after, page).cr3 == m0.cr3,
        left(after, page).layered(),
        left(after, page).entry(m0.active(), 511) == link_to(m0.active()),
        left(after, page).mappable(m0.active(), page),
        left(after, page).reserves(rest),
        left(after, page).reserves(left_own),
        forall|q: Page|
            q.p4_index() != 511 ==> #[trigger] left(after, page).translate_page(q)
                == m0.translate_page(q),
        forall|q: Page| #[trigger]
            left(after, page).translate_page_from(target, q) == after.translate_page(q),
        forall|q: Page| #[trigger]
            seen(left(after, page), target).translate_page(q) == after.translate_page(q),
        separate(left(after, page), target, rest, left_own),
{
    reveal(MachineView::grown_by);
    let c = m0.active();
    let end = left(after, page);
    let other = seen(m0, target);
    let mid = choose|mid: MachineView| #[trigger]
        shows_active(m0, mid, page, free) && inner == mid.store(c, 511, link_to(target)).flush(
            Flush::All,
        );
    page.lemma_index_bounds();
    let i1 = page.p1_index() as int;
    lemma_word_basics(0);
    lemma_word_basics(m0.entry(c, 511));
    lemma_link_to(c);
    lemma_link_to(target);
    lemma_separate_entered(m0, inner, page, free, target, own);
    lemma_window_kept(inner, after, page, own);
    lemma_left(inner, after, page);
    lemma_left_keeps(inner, after, page, own);
    crate::machine::lemmas::lemma_same_walk(inner, after, c, page);
    let t3 = inner.p3_frame(c, page).unwrap();
    let t2 = inner.p2_frame(c, page).unwrap();
    let t1 = inner.p1_frame(c, page).unwrap();
    assert(mid.p3_frame(c, page) == Some(t3) && mid.p2_frame(c, page) == Some(t2) && mid.p1_frame(
        c,
        page,
    ) == Some(t1));
    assert(after.p1_frame(c, page) == Some(t1));
    assert(after.idle(c) && after.idle(t3) && after.idle(t2) && after.idle(t1));
    // the active address space with the path to the temporary page
    let path = with_path(m0, mid, page);
    lemma_path_made(m0, mid, page, free);
    assert(mid == path.store(t1, i1, mid.entry(t1, i1)));
    assert(path.entry(t1, i1) == 0);
    let relinked = path.store(c, 511, link_to(c));
    crate::machine::lemmas::lemma_relinked(path, link_to(c));
    // what is a table of the other address space is no table of the active one
    let changed = Set::new(|x: int| !after.idle(x));
    assert forall|x: int| changed.contains(x) implies #[trigger] relinked.idle(x) by {
        if own.contains(x) {
            assert(m0.unused(x));
        } else {
            assert(!inner.idle(x));
            assert(!other.idle(x));
        }
        assert(path.idle(x));
    }
    assert forall|x: int, s: int| !changed.contains(x) implies #[trigger] end.entry(x, s)
        == relinked.entry(x, s) by {
        assert(after.entry(x, s) == inner.entry(x, s));
    }
    crate::machine::lemmas::lemma_idle_changes(relinked, end, changed);
    assert forall|q: Page| q.p4_index() != 511 implies #[trigger] end.translate_page(q)
        == m0.translate_page(q) by {
        assert(relinked.translate_page(q) == path.translate_page(q));
        assert(path.translate_page(q) == m0.translate_page(q));
    }
    assert(end.mappable(c, page)) by {
        assert(relinked.mappable(c, page) == path.mappable(c, page));
    }
    assert forall|x: int| #[trigger] rest.contains(x) implies end.unused(x) by {
        assert(m0.unused(x));
        assert(path.idle(x));
        assert(relinked.idle(x));
    }
    assert forall|x: int| #[trigger] left_own.contains(x) implies end.unused(x) by {
        assert(m0.unused(x));
        assert(path.idle(x));
        assert(relinked.idle(x));
    }
    // the other address space, as it would be seen from the state at the end
    let again = seen(end, target);
    assert forall|x: int, s: int| x != t1 implies #[trigger] again.entry(x, s) == after.entry(x, s) by {
        if x == c && s == 511 {
            assert(after.entry(c, 511) == inner.entry(c, 511));
        }
    }
    assert(again.entry(c, 511) == after.entry(c, 511)) by {
        assert(after.entry(c, 511) == inner.entry(c, 511));
    }
    crate::machine::lemmas::lemma_idle_changes(after, again, set![t1]);
    assert forall|x: int| !end.idle(x) implies #[trigger] again.idle(x) by {
        assert(!relinked.idle(x));
        assert(!changed.contains(x));
    }
    assert forall|x: int| rest.contains(x) implies #[trigger] again.idle(x) by {
        assert(other.idle(x));
        assert(inner.idle(x));
        assert(after.idle(x));
    }
    assert forall|x: int| left_own.contains(x) implies #[trigger] again.idle(x) by {
        assert(after.unused(x));
    }
}

} // verus!
