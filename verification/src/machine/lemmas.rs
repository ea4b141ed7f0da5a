//! What the changes of the memory do to the tables and the mappings of an
//! address space: the lemmas behind the contracts of the page-table code.

use vstd::prelude::*;
use crate::machine::MachineView;
use crate::memory::paging::entry::{
    lemma_link_to,
    lemma_word_basics,
    link_to,
    word_frame,
    word_huge,
    word_links,
    word_present,
    POINTABLE_LIMIT,
};
use crate::memory::paging::Page;

verus! {

/// With the recursive mapping, a table address whose first index is 511
/// resolves to the table that the root reaches over the other three.
pub proof fn lemma_table_frame(m: MachineView, address: u64)
    requires
        m.recursive(),
        (Page { number: address / 4096 }).p4_index() == 511,
    ensures
        m.table_frame(address) == m.table(
            (Page { number: address / 4096 }).p3_index() as int,
            (Page { number: address / 4096 }).p2_index() as int,
            (Page { number: address / 4096 }).p1_index() as int,
        ),
{
}

/// With the recursive mapping, index 511 in front of a path from the root
/// changes nothing: the root stands below its own last slot.
pub proof fn lemma_table_prefix(m: MachineView, i: int, j: int)
    requires
        m.recursive(),
    ensures
        m.table(511, 511, 511) == Some(m.root()),
        m.table(511, 511, i) == m.child(m.root(), i),
        m.table(511, i, j) == m.step(m.child(m.root(), i), j),
{
}

/// Linking an unused frame as a cleared child table keeps the recursive
/// mapping. Of the links between tables only the new one is added, and the
/// new table has none.
pub proof fn lemma_grown_links(
    m: MachineView,
    frame: int,
    index: int,
    child: int,
    i: int,
    j: int,
    k: int,
)
    requires
        m.recursive(),
        m.unused(child),
        0 <= child < POINTABLE_LIMIT,
        0 <= i < 512 && 0 <= j < 512 && 0 <= k < 512,
        m.table(i, j, k) == Some(frame),
        0 <= index < 512,
        !word_present(m.entry(frame, index)),
    ensures
        m.grown(frame, index, child).recursive(),
        m.grown(frame, index, child).root() == m.root(),
        m.grown(frame, index, child).active() == m.active(),
        frame != child,
        forall|y: int, s: int|
            0 <= s < 512 ==> #[trigger] m.grown(frame, index, child).child(y, s) == (if y == child {
                None
            } else if y == frame && s == index {
                Some(child)
            } else {
                m.child(y, s)
            }),
{
    let n = m.grown(frame, index, child);
    lemma_link_to(child);
    lemma_word_basics(0);
    lemma_table_prefix(m, 0, 0);
    assert(m.table(i, j, k) != Some(child));
    assert(m.table(511, 511, 511) != Some(child));
}

/// Linking a free frame as a cleared child table leaves the other free
/// frames unused.
pub proof fn lemma_grown_reserves(
    m: MachineView,
    frame: int,
    index: int,
    child: int,
    free: Set<int>,
    i: int,
    j: int,
    k: int,
)
    requires
        m.recursive(),
        m.reserves(free),
        free.contains(child),
        0 <= child < POINTABLE_LIMIT,
        0 <= i < 512 && 0 <= j < 512 && 0 <= k < 512,
        m.table(i, j, k) == Some(frame),
        0 <= index < 512,
        !word_present(m.entry(frame, index)),
    ensures
        m.grown(frame, index, child).reserves(free.remove(child)),
{
    let n = m.grown(frame, index, child);
    assert(m.unused(child));
    lemma_grown_links(m, frame, index, child, i, j, k);
    assert forall|x: int| #[trigger] free.remove(child).contains(x) implies n.unused(x) by {
        assert(free.contains(x));
        assert(m.unused(x));
        assert forall|a: int, b: int, c: int|
            0 <= a < 512 && 0 <= b < 512 && 0 <= c < 512 implies #[trigger] n.table(a, b, c)
            != Some(x) by {
            lemma_table_prefix(m, a, b);
            assert(m.table(511, 511, a) != Some(child));
            assert(m.table(511, a, b) != Some(child));
            assert(m.table(a, b, c) != Some(x));
            assert(m.table(a, b, c) != Some(child));
        }
    }
}

/// Linking an unused frame as a cleared child of a table of a higher level
/// keeps the levels apart.
pub proof fn lemma_grown_layered(m: MachineView, frame: int, index: int, child: int, j: int, k: int)
    requires
        m.recursive(),
        m.layered(),
        m.unused(child),
        0 <= child < POINTABLE_LIMIT,
        0 <= j < 512 && 0 <= k < 512,
        m.table(511, j, k) == Some(frame),
        0 <= index < 512,
        !word_present(m.entry(frame, index)),
    ensures
        m.grown(frame, index, child).layered(),
{
    let n = m.grown(frame, index, child);
    let root = m.root();
    lemma_grown_links(m, frame, index, child, 511, j, k);
    lemma_table_prefix(m, j, k);
    assert forall|a: int| 0 <= a < 511 implies #[trigger] n.child(root, a) != Some(root) by {
        lemma_table_prefix(m, a, 0);
        assert(m.child(root, a) != Some(root));
    }
    assert forall|a: int, b: int, x: int|
        0 <= a < 511 && 0 <= b < 512 && 0 <= x < 512 && (#[trigger] n.step(
            n.child(root, a),
            b,
        )).is_some() implies n.step(n.child(root, a), b) != #[trigger] n.child(root, x) by {
        lemma_table_prefix(m, a, b);
        lemma_table_prefix(m, x, 0);
        assert(m.table(511, a, b) != Some(child));
        assert(m.table(511, 511, a) != Some(child));
        assert(m.table(511, 511, x) != Some(child));
        assert(m.child(root, a) != Some(root));
        if m.step(m.child(root, a), b).is_some() {
            assert(m.step(m.child(root, a), b) != m.child(root, x));
        }
    }
    assert forall|a: int, b: int, c: int, x: int, y: int|
        0 <= a < 511 && 0 <= b < 512 && 0 <= c < 512 && 0 <= x < 512 && 0 <= y < 512 && (
        #[trigger] n.table(a, b, c)).is_some() implies n.table(a, b, c) != #[trigger] n.table(
        511,
        x,
        y,
    ) by {
        lemma_table_prefix(m, a, b);
        lemma_table_prefix(m, x, y);
        assert(m.table(a, b, c) != Some(child));
        assert(m.table(511, a, b) != Some(child));
        assert(m.table(511, 511, a) != Some(child));
        assert(m.table(511, x, y) != Some(child));
        assert(m.table(511, 511, x) != Some(child));
        assert(m.child(root, a) != Some(root));
        if m.step(m.child(root, a), b).is_some() {
            assert(m.step(m.child(root, a), b) != m.child(root, x));
        }
        if m.table(a, b, c).is_some() {
            assert(m.table(a, b, c) != m.table(511, x, y));
        }
    }
}

/// Linking an unused frame as a cleared child of a table of a higher level
/// leaves every table reached over one path only.
#[verifier::spinoff_prover]
pub proof fn lemma_grown_unshared(
    m: MachineView,
    frame: int,
    index: int,
    child: int,
    j: int,
    k: int,
)
    requires
        m.recursive(),
        m.layered(),
        m.unshared(),
        m.unused(child),
        0 <= child < POINTABLE_LIMIT,
        0 <= j < 512 && 0 <= k < 512,
        m.table(511, j, k) == Some(frame),
        0 <= index < 512,
        !word_present(m.entry(frame, index)),
    ensures
        m.grown(frame, index, child).unshared(),
{
    let n = m.grown(frame, index, child);
    let root = m.root();
    lemma_grown_links(m, frame, index, child, 511, j, k);
    lemma_table_prefix(m, j, k);
    // how the tables of the grown state come from those before
    assert forall|a: int, b: int, c: int|
        0 <= a < 512 && 0 <= b < 512 && 0 <= c < 512 implies #[trigger] n.table(a, b, c) == (
    if m.step(m.child(root, a), b) == Some(frame) && c == index {
        Some(child)
    } else {
        m.table(a, b, c)
    }) by {
        lemma_table_prefix(m, a, b);
        assert(m.table(511, 511, a) != Some(child));
        assert(m.table(511, a, b) != Some(child));
        assert(m.table(a, b, c) != Some(child));
    }
    assert forall|a: int, b: int, c: int|
        0 <= a < 512 && 0 <= b < 512 && 0 <= c < 512 implies #[trigger] m.table(a, b, c) != Some(
        child,
    ) by {}
    assert forall|a: int, x: int|
        0 <= a < 511 && 0 <= x < 511 && (#[trigger] n.table(511, 511, a)).is_some() && n.table(
            511,
            511,
            a,
        ) == #[trigger] n.table(511, 511, x) implies a == x by {
        lemma_table_prefix(m, 511, 511);
        assert(m.table(511, 511, a) != Some(child) && m.table(511, 511, x) != Some(child));
        if n.table(511, 511, a) == Some(child) {
            assert(m.step(m.child(root, 511), 511) == Some(frame));
        } else {
            assert(m.table(511, 511, a) == m.table(511, 511, x));
        }
    }
    assert forall|a: int, b: int, x: int, y: int|
        0 <= a < 511 && 0 <= x < 511 && 0 <= b < 512 && 0 <= y < 512 && (#[trigger] n.table(
            511,
            a,
            b,
        )).is_some() && n.table(511, a, b) == #[trigger] n.table(511, x, y) implies a == x && b
        == y by {
        lemma_table_prefix(m, a, 0);
        lemma_table_prefix(m, x, 0);
        assert(m.table(511, a, b) != Some(child) && m.table(511, x, y) != Some(child));
        if n.table(511, a, b) == Some(child) {
            // both are the new table: behind the slot of an upper table
            assert(m.table(511, 511, a) == Some(frame) && m.table(511, 511, x) == Some(frame));
        } else {
            assert(m.table(511, a, b) == m.table(511, x, y));
        }
    }
    assert forall|a: int, b: int, c: int, x: int, y: int, z: int|
        0 <= a < 511 && 0 <= x < 511 && 0 <= b < 512 && 0 <= y < 512 && 0 <= c < 512 && 0 <= z
            < 512 && (#[trigger] n.table(a, b, c)).is_some() && n.table(a, b, c)
            == #[trigger] n.table(x, y, z) implies a == x && b == y && c == z by {
        lemma_table_prefix(m, a, b);
        lemma_table_prefix(m, x, y);
        assert(m.table(a, b, c) != Some(child) && m.table(x, y, z) != Some(child));
        if n.table(a, b, c) == Some(child) {
            // both are the new table: behind the slot of a middle table
            assert(m.table(511, a, b) == Some(frame) && m.table(511, x, y) == Some(frame));
        } else {
            assert(m.table(a, b, c) == m.table(x, y, z));
        }
    }
}

/// A store to a slot of a table that is not of a higher level leaves every
/// table reached over one path only.
proof fn lemma_leaf_store_unshared(m: MachineView, frame: int, index: int, word: u64)
    requires
        m.recursive(),
        !m.carries_recursion(frame, index),
        forall|x: int, y: int| 0 <= x < 512 && 0 <= y < 512
            ==> #[trigger] m.table(511, x, y) != Some(frame),
    ensures
        m.unshared() ==> m.store(frame, index, word).unshared(),
{
    let n = m.store(frame, index, word);
    assert forall|i: int, j: int, k: int|
        0 <= i < 512 && 0 <= j < 512 && 0 <= k < 512 implies #[trigger] n.table(i, j, k) == m.table(
        i,
        j,
        k,
    ) by {
        lemma_table_prefix(m, i, j);
        assert(m.table(511, 511, 511) != Some(frame));
        assert(m.table(511, 511, i) != Some(frame));
        assert(m.table(511, i, j) != Some(frame));
    }
    lemma_unshared_of_same_tables(m, n);
}

/// A store to the leaf slot of a page changes the mapping of no page
/// outside the recursive region that has another index, where the levels
/// are apart and no table is reached twice.
pub proof fn lemma_leaf_store_exact(m: MachineView, page: Page, word: u64, other: Page)
    requires
        m.recursive(),
        m.layered(),
        m.unshared(),
        page.p4_index() != 511,
        other.p4_index() != 511,
        !other.alike(page),
        m.p1_frame(m.root(), page).is_some(),
        !m.carries_recursion(m.p1_frame(m.root(), page).unwrap(), page.p1_index() as int),
    ensures
        m.store(m.p1_frame(m.root(), page).unwrap(), page.p1_index() as int, word).translate_page(
            other,
        ) == m.translate_page(other),
        m.store(m.p1_frame(m.root(), page).unwrap(), page.p1_index() as int, word).mappable(
            m.root(),
            other,
        ) == m.mappable(m.root(), other),
{
    let root = m.root();
    let table = m.p1_frame(root, page).unwrap();
    let n = m.store(table, page.p1_index() as int, word);
    page.lemma_index_bounds();
    other.lemma_index_bounds();
    let i4 = page.p4_index() as int;
    let i3 = page.p3_index() as int;
    let i2 = page.p2_index() as int;
    let o4 = other.p4_index() as int;
    let o3 = other.p3_index() as int;
    let o2 = other.p2_index() as int;
    lemma_table_prefix(m, i4, i3);
    lemma_table_prefix(m, o4, o3);
    assert(m.table(i4, i3, i2) == Some(table));
    assert(m.table(i4, i3, i2) != m.table(511, 511, 511));
    assert(m.table(i4, i3, i2) != m.table(511, 511, o4));
    assert(m.table(i4, i3, i2) != m.table(511, o4, o3));
    if m.table(o4, o3, o2) == Some(table) {
        assert(m.table(i4, i3, i2) == m.table(o4, o3, o2));
    }
    lemma_same_walk(m, n, root, other);
}

/// A store to a slot of a table that is not of a higher level changes no
/// table of the address space, as long as the slot is not one that carries
/// the recursive mapping.
pub proof fn lemma_leaf_store(m: MachineView, frame: int, index: int, word: u64)
    requires
        m.recursive(),
        !m.carries_recursion(frame, index),
        forall|x: int, y: int| 0 <= x < 512 && 0 <= y < 512
            ==> #[trigger] m.table(511, x, y) != Some(frame),
    ensures
        m.store(frame, index, word).recursive(),
        m.store(frame, index, word).root() == m.root(),
        forall|i: int, j: int, k: int|
            0 <= i < 512 && 0 <= j < 512 && 0 <= k < 512 ==> #[trigger] m.store(
                frame,
                index,
                word,
            ).table(i, j, k) == m.table(i, j, k),
        m.layered() ==> m.store(frame, index, word).layered(),
        m.unshared() ==> m.store(frame, index, word).unshared(),
        forall|free: Set<int>| #[trigger] m.reserves(free)
            ==> m.store(frame, index, word).reserves(free),
        forall|x: int| #[trigger] m.idle(x) ==> m.store(frame, index, word).idle(x),
        forall|page: Page|
            m.store(frame, index, word).p1_frame(m.root(), page) == #[trigger] m.p1_frame(
                m.root(),
                page,
            ) && m.store(frame, index, word).p2_frame(m.root(), page) == m.p2_frame(m.root(), page)
                && m.store(frame, index, word).p3_frame(m.root(), page) == m.p3_frame(
                m.root(),
                page,
            ),
{
    let n = m.store(frame, index, word);
    lemma_leaf_store_unshared(m, frame, index, word);
    assert forall|page: Page|
        n.p1_frame(m.root(), page) == #[trigger] m.p1_frame(m.root(), page) && n.p2_frame(
            m.root(),
            page,
        ) == m.p2_frame(m.root(), page) && n.p3_frame(m.root(), page) == m.p3_frame(
            m.root(),
            page,
        ) by {
        page.lemma_index_bounds();
        lemma_table_prefix(m, page.p4_index() as int, page.p3_index() as int);
        assert(m.table(511, 511, 511) != Some(frame));
        assert(m.table(511, 511, page.p4_index() as int) != Some(frame));
        assert(m.table(511, page.p4_index() as int, page.p3_index() as int) != Some(frame));
    }
    assert forall|i: int, j: int, k: int|
        0 <= i < 512 && 0 <= j < 512 && 0 <= k < 512 implies #[trigger] n.table(i, j, k) == m.table(
        i,
        j,
        k,
    ) by {
        lemma_table_prefix(m, i, j);
        assert(m.table(511, 511, 511) != Some(frame));
        assert(m.table(511, 511, i) != Some(frame));
        assert(m.table(511, i, j) != Some(frame));
    }
    if m.layered() {
        assert forall|a: int| 0 <= a < 511 implies #[trigger] n.child(n.root(), a) != Some(n.root()) by {
            lemma_table_prefix(m, a, 0);
            lemma_table_prefix(n, a, 0);
            assert(n.table(511, 511, a) == m.table(511, 511, a));
        }
        assert forall|a: int, b: int, x: int|
            0 <= a < 511 && 0 <= b < 512 && 0 <= x < 512 && (#[trigger] n.step(
                n.child(n.root(), a),
                b,
            )).is_some() implies n.step(n.child(n.root(), a), b) != #[trigger] n.child(
            n.root(),
            x,
        ) by {
            lemma_table_prefix(m, a, b);
            lemma_table_prefix(n, a, b);
            lemma_table_prefix(m, x, 0);
            lemma_table_prefix(n, x, 0);
            assert(n.table(511, a, b) == m.table(511, a, b));
            assert(n.table(511, 511, x) == m.table(511, 511, x));
        }
        assert forall|a: int, b: int, c: int, x: int, y: int|
            0 <= a < 511 && 0 <= b < 512 && 0 <= c < 512 && 0 <= x < 512 && 0 <= y < 512 && (
            #[trigger] n.table(a, b, c)).is_some() implies n.table(a, b, c) != #[trigger] n.table(
            511,
            x,
            y,
        ) by {
            assert(n.table(a, b, c) == m.table(a, b, c));
            assert(n.table(511, x, y) == m.table(511, x, y));
        }
    }
    assert forall|x: int| #[trigger] m.idle(x) implies n.idle(x) by {
        assert forall|i: int, j: int, k: int|
            0 <= i < 512 && 0 <= j < 512 && 0 <= k < 512 implies #[trigger] n.table(i, j, k)
            != Some(x) by {
            assert(n.table(i, j, k) == m.table(i, j, k));
        }
    }
    assert forall|free: Set<int>| #[trigger] m.reserves(free) implies n.reserves(free) by {
        assert forall|g: int| #[trigger] free.contains(g) implies n.unused(g) by {
            assert(m.unused(g));
        }
    }
}

/// Where the slots that the walk for `page` below `root` reads hold the
/// same in two states, the page is mapped to the same frame in both.
pub proof fn lemma_same_walk(m: MachineView, n: MachineView, root: int, page: Page)
    requires
        m.same_walk(n, root, page),
    ensures
        n.translate_page_from(root, page) == m.translate_page_from(root, page),
        n.p3_frame(root, page) == m.p3_frame(root, page),
        n.p2_frame(root, page) == m.p2_frame(root, page),
        n.p1_frame(root, page) == m.p1_frame(root, page),
        n.mappable(root, page) == m.mappable(root, page),
{
}

/// Linking an unused frame as a cleared child table keeps every page
/// mapped that was mapped, to the same frame.
pub proof fn lemma_grown_translations(
    m: MachineView,
    frame: int,
    index: int,
    child: int,
    i: int,
    j: int,
    k: int,
    page: Page,
)
    requires
        m.recursive(),
        m.unused(child),
        0 <= child < POINTABLE_LIMIT,
        0 <= i < 512 && 0 <= j < 512 && 0 <= k < 512,
        m.table(i, j, k) == Some(frame),
        0 <= index < 512,
        !word_present(m.entry(frame, index)),
        m.translate_page(page).is_some(),
    ensures
        m.grown(frame, index, child).translate_page(page) == m.translate_page(page),
{
    let n = m.grown(frame, index, child);
    lemma_grown_links(m, frame, index, child, i, j, k);
    page.lemma_index_bounds();
    lemma_table_prefix(m, page.p4_index() as int, page.p3_index() as int);
    assert(m.table(511, 511, 511) != Some(child));
    assert(m.table(511, 511, page.p4_index() as int) != Some(child));
    assert(m.table(511, page.p4_index() as int, page.p3_index() as int) != Some(child));
    assert(m.table(page.p4_index() as int, page.p3_index() as int, page.p2_index() as int) != Some(
        child,
    ));
    lemma_same_walk(m, n, m.root(), page);
}

/// What making sure of a child table behind a slot of a table of a higher
/// level does: the recursive mapping, the links that were there, the pages
/// that were mapped and the separation of the levels are kept, and behind the
/// slot there is a table.
pub proof fn lemma_ensured(m: MachineView, frame: int, index: int, child: int, j: int, k: int)
    requires
        m.recursive(),
        0 <= j < 512 && 0 <= k < 512,
        m.table(511, j, k) == Some(frame),
        0 <= index < 512,
        !word_huge(m.entry(frame, index)),
        m.child(frame, index).is_none() ==> m.unused(child) && 0 <= child < POINTABLE_LIMIT,
        m.child(frame, index).is_some() ==> m.child(frame, index) == Some(child),
    ensures
        m.ensured(frame, index, child).recursive(),
        m.ensured(frame, index, child).root() == m.root(),
        m.ensured(frame, index, child).cr3 == m.cr3,
        m.ensured(frame, index, child).flushes == m.flushes,
        m.ensured(frame, index, child).child(frame, index) == Some(child),
        m.kept_by(m.ensured(frame, index, child)),
        m.layered() ==> m.ensured(frame, index, child).layered(),
        m.layered() && m.unshared() ==> m.ensured(frame, index, child).unshared(),
        m.layered() ==> forall|page: Page|
            page.p4_index() != 511 ==> #[trigger] m.ensured(frame, index, child).translate_page(page)
                == m.translate_page(page) && m.ensured(frame, index, child).mappable(
                m.root(),
                page,
            ) == m.mappable(m.root(), page),
        forall|x: int| #[trigger]
            m.idle(x) && (m.child(frame, index).is_some() || x != child) ==> m.ensured(
                frame,
                index,
                child,
            ).idle(x),
        forall|y: int, s: int|
            0 <= s < 512 && (#[trigger] m.child(y, s)).is_some() && (m.child(frame, index).is_some()
                || y != child) ==> m.ensured(frame, index, child).child(y, s) == m.child(y, s),
        forall|y: int, s: int|
            y != child && !(y == frame && s == index) ==> #[trigger] m.ensured(
                frame,
                index,
                child,
            ).entry(y, s) == m.entry(y, s),
        m.child(frame, index).is_none() ==> forall|s: int|
            0 <= s < 512 ==> #[trigger] m.ensured(frame, index, child).entry(child, s) == 0,
{
    let n = m.ensured(frame, index, child);
    if m.child(frame, index).is_none() {
        lemma_grown_links(m, frame, index, child, 511, j, k);
        assert forall|page: Page| (#[trigger] m.translate_page(page)).is_some() implies n.translate_page(
            page,
        ) == m.translate_page(page) by {
            lemma_grown_translations(m, frame, index, child, 511, j, k, page);
        }
        if m.layered() {
            lemma_grown_layered(m, frame, index, child, j, k);
            if m.unshared() {
                lemma_grown_unshared(m, frame, index, child, j, k);
            }
        }
        assert forall|x: int| #[trigger] m.idle(x) && x != child implies n.idle(x) by {
            lemma_grown_idle(m, frame, index, child, j, k, x);
        }
    }
    if m.layered() {
        assert forall|page: Page| page.p4_index() != 511 implies #[trigger] n.translate_page(page)
            == m.translate_page(page) && n.mappable(m.root(), page) == m.mappable(m.root(), page) by {
            lemma_ensured_exact(m, frame, index, child, j, k, page);
        }
    }
}

/// Linking an unused frame as a cleared child table makes no other frame a
/// table.
pub proof fn lemma_grown_idle(
    m: MachineView,
    frame: int,
    index: int,
    child: int,
    j: int,
    k: int,
    other: int,
)
    requires
        m.recursive(),
        m.unused(child),
        0 <= child < POINTABLE_LIMIT,
        0 <= j < 512 && 0 <= k < 512,
        m.table(511, j, k) == Some(frame),
        0 <= index < 512,
        !word_present(m.entry(frame, index)),
        m.idle(other),
        other != child,
    ensures
        m.grown(frame, index, child).idle(other),
{
    let n = m.grown(frame, index, child);
    lemma_grown_links(m, frame, index, child, 511, j, k);
    assert forall|a: int, b: int, c: int|
        0 <= a < 512 && 0 <= b < 512 && 0 <= c < 512 implies #[trigger] n.table(a, b, c) != Some(
        other,
    ) by {
        lemma_table_prefix(m, a, b);
        assert(m.table(511, 511, a) != Some(child));
        assert(m.table(511, a, b) != Some(child));
        assert(m.table(a, b, c) != Some(other));
        assert(m.table(a, b, c) != Some(child));
    }
}

/// Making sure of a child table behind a slot of a table of a higher level
/// changes the mapping of no page outside the recursive region, where the
/// levels are apart: a table that is made is empty.
pub proof fn lemma_ensured_exact(
    m: MachineView,
    frame: int,
    index: int,
    child: int,
    j: int,
    k: int,
    page: Page,
)
    requires
        m.recursive(),
        m.layered(),
        0 <= j < 512 && 0 <= k < 512,
        m.table(511, j, k) == Some(frame),
        0 <= index < 512,
        !word_huge(m.entry(frame, index)),
        m.child(frame, index).is_none() ==> m.unused(child) && 0 <= child < POINTABLE_LIMIT,
        m.child(frame, index).is_some() ==> m.child(frame, index) == Some(child),
        page.p4_index() != 511,
    ensures
        m.ensured(frame, index, child).translate_page(page) == m.translate_page(page),
        m.ensured(frame, index, child).mappable(m.root(), page) == m.mappable(m.root(), page),
{
    let n = m.ensured(frame, index, child);
    if m.child(frame, index).is_none() {
        let root = m.root();
        lemma_grown_links(m, frame, index, child, 511, j, k);
        lemma_word_basics(0);
        page.lemma_index_bounds();
        let i4 = page.p4_index() as int;
        let i3 = page.p3_index() as int;
        let i2 = page.p2_index() as int;
        let i1 = page.p1_index() as int;
        lemma_table_prefix(m, i4, i3);
        lemma_table_prefix(m, j, k);
        assert(m.table(511, 511, 511) != Some(child));
        assert(m.table(511, 511, i4) != Some(child));
        assert(m.table(511, i4, i3) != Some(child));
        assert(m.table(i4, i3, i2) != Some(child));
        // the leaf table of the page is no table of a higher level
        if m.table(i4, i3, i2).is_some() {
            assert(m.table(i4, i3, i2) != m.table(511, j, k));
        }
        lemma_link_to(child);
        assert forall|s: int| 0 <= s < 512 implies #[trigger] n.entry(child, s) == 0 by {}
        assert forall|x: int, s: int| x != child implies #[trigger] n.entry(x, s) == (if x == frame
            && s == index {
            link_to(child)
        } else {
            m.entry(x, s)
        }) by {}
        assert(n.entry(child, i3) == 0 && n.entry(child, i2) == 0 && n.entry(child, i1) == 0);
        assert(!word_present(m.entry(frame, index)));
        if m.child(root, i4).is_some() {
            let x3 = m.child(root, i4).unwrap();
            assert(x3 != child);
            if m.child(x3, i3).is_some() {
                let x2 = m.child(x3, i3).unwrap();
                assert(x2 != child);
                if m.child(x2, i2).is_some() {
                    let x1 = m.child(x2, i2).unwrap();
                    assert(x1 != child);
                    assert(x1 != frame);
                }
            }
        }
    }
}

/// A store to a slot that is not present keeps the recursive mapping, the
/// links between tables and the pages that were mapped.
pub proof fn lemma_store_kept(m: MachineView, frame: int, index: int, word: u64)
    requires
        m.recursive(),
        !word_present(m.entry(frame, index)),
    ensures
        m.store(frame, index, word).recursive(),
        m.store(frame, index, word).root() == m.root(),
        m.kept_by(m.store(frame, index, word)),
        forall|y: int, s: int|
            (#[trigger] m.child(y, s)).is_some() ==> m.store(frame, index, word).child(y, s)
                == m.child(y, s),
{
    let n = m.store(frame, index, word);
    assert forall|page: Page| (#[trigger] m.translate_page(page)).is_some() implies n.translate_page(
        page,
    ) == m.translate_page(page) by {
        lemma_same_walk(m, n, m.root(), page);
    }
}

/// Two states with the same memory and the same table-base register have
/// the same tables and the same mappings.
pub proof fn lemma_same_memory(m: MachineView, n: MachineView)
    requires
        n.mem == m.mem,
        n.cr3 == m.cr3,
    ensures
        n.root() == m.root(),
        n.recursive() == m.recursive(),
        n.layered() == m.layered(),
        forall|free: Set<int>| #[trigger] n.reserves(free) == m.reserves(free),
        forall|frame: int| #[trigger] n.unused(frame) == m.unused(frame),
        forall|frame: int| #[trigger] n.idle(frame) == m.idle(frame),
        forall|page: Page| #[trigger] n.translate_page(page) == m.translate_page(page),
        forall|root: int, page: Page| #[trigger]
            n.translate_page_from(root, page) == m.translate_page_from(root, page),
        forall|root: int, page: Page| #[trigger] n.mappable(root, page) == m.mappable(root, page),
        m.kept_by(n),
        n.kept_by(m),
{
    assert forall|i: int, j: int, k: int| #[trigger] n.table(i, j, k) == m.table(i, j, k) by {}
    assert forall|y: int, s: int| #[trigger] n.child(y, s) == m.child(y, s) by {}
    assert forall|frame: int| #[trigger] n.idle(frame) == m.idle(frame) by {
        if m.idle(frame) {
            assert forall|i: int, j: int, k: int|
                0 <= i < 512 && 0 <= j < 512 && 0 <= k < 512 implies #[trigger] n.table(i, j, k)
                != Some(frame) by {
                assert(m.table(i, j, k) != Some(frame));
            }
        }
        if n.idle(frame) {
            assert forall|i: int, j: int, k: int|
                0 <= i < 512 && 0 <= j < 512 && 0 <= k < 512 implies #[trigger] m.table(i, j, k)
                != Some(frame) by {
                assert(n.table(i, j, k) != Some(frame));
            }
        }
    }
    assert forall|free: Set<int>| #[trigger] n.reserves(free) == m.reserves(free) by {
        if m.reserves(free) {
            assert forall|g: int| #[trigger] free.contains(g) implies n.unused(g) by {
                assert(m.unused(g));
            }
        }
        if n.reserves(free) {
            assert forall|g: int| #[trigger] free.contains(g) implies m.unused(g) by {
                assert(n.unused(g));
            }
        }
    }
    lemma_same_layers(m, n);
    lemma_same_layers(n, m);
}

/// Where two states have the same memory and the same table-base register
/// and the levels are apart in one, they are apart in the other.
proof fn lemma_same_layers(m: MachineView, n: MachineView)
    requires
        n.mem == m.mem,
        n.cr3 == m.cr3,
    ensures
        m.layered() ==> n.layered(),
{
    if m.layered() {
        assert forall|a: int| 0 <= a < 511 implies #[trigger] n.child(n.root(), a) != Some(n.root()) by {
            assert(m.child(m.root(), a) != Some(m.root()));
        }
        assert forall|a: int, b: int, x: int|
            0 <= a < 511 && 0 <= b < 512 && 0 <= x < 512 && (#[trigger] n.step(
                n.child(n.root(), a),
                b,
            )).is_some() implies n.step(n.child(n.root(), a), b) != #[trigger] n.child(
            n.root(),
            x,
        ) by {
            assert(m.step(m.child(m.root(), a), b) != m.child(m.root(), x));
        }
        assert forall|a: int, b: int, c: int, x: int, y: int|
            0 <= a < 511 && 0 <= b < 512 && 0 <= c < 512 && 0 <= x < 512 && 0 <= y < 512 && (
            #[trigger] n.table(a, b, c)).is_some() implies n.table(a, b, c) != #[trigger] n.table(
            511,
            x,
            y,
        ) by {
            assert(m.table(a, b, c) != m.table(511, x, y));
        }
    }
}

/// Clearing a slot adds no table to the address space: free frames stay
/// unused and the levels stay apart, as long as the slot is neither the last
/// of the active table nor the last of the root.
pub proof fn lemma_cleared(m: MachineView, frame: int, index: int)
    requires
        m.recursive(),
        !m.carries_recursion(frame, index),
    ensures
        m.store(frame, index, 0).recursive(),
        m.store(frame, index, 0).root() == m.root(),
        forall|i: int, j: int, k: int| #[trigger]
            m.store(frame, index, 0).table(i, j, k).is_some() ==> m.store(frame, index, 0).table(
                i,
                j,
                k,
            ) == m.table(i, j, k),
        m.layered() ==> m.store(frame, index, 0).layered(),
        forall|free: Set<int>| #[trigger] m.reserves(free)
            ==> m.store(frame, index, 0).reserves(free),
        forall|x: int| #[trigger] m.idle(x) ==> m.store(frame, index, 0).idle(x),
{
    let n = m.store(frame, index, 0);
    lemma_word_basics(0);
    assert forall|y: int, s: int| (#[trigger] n.child(y, s)).is_some() implies n.child(y, s) == m.child(
        y,
        s,
    ) by {}
    assert forall|i: int, j: int, k: int| #[trigger] n.table(i, j, k).is_some() implies n.table(
        i,
        j,
        k,
    ) == m.table(i, j, k) by {
        assert(n.child(n.root(), i).is_some());
        assert(n.step(n.child(n.root(), i), j).is_some());
    }
    if m.layered() {
        assert forall|a: int| 0 <= a < 511 implies #[trigger] n.child(n.root(), a) != Some(n.root()) by {
            assert(m.child(m.root(), a) != Some(m.root()));
        }
        assert forall|a: int, b: int, x: int|
            0 <= a < 511 && 0 <= b < 512 && 0 <= x < 512 && (#[trigger] n.step(
                n.child(n.root(), a),
                b,
            )).is_some() implies n.step(n.child(n.root(), a), b) != #[trigger] n.child(
            n.root(),
            x,
        ) by {
            assert(n.child(n.root(), a).is_some());
            assert(m.step(m.child(m.root(), a), b).is_some());
            assert(m.step(m.child(m.root(), a), b) != m.child(m.root(), x));
        }
        assert forall|a: int, b: int, c: int, x: int, y: int|
            0 <= a < 511 && 0 <= b < 512 && 0 <= c < 512 && 0 <= x < 512 && 0 <= y < 512 && (
            #[trigger] n.table(a, b, c)).is_some() implies n.table(a, b, c) != #[trigger] n.table(
            511,
            x,
            y,
        ) by {
            assert(m.table(a, b, c) != m.table(511, x, y));
        }
    }
    assert forall|x: int| #[trigger] m.idle(x) implies n.idle(x) by {
        assert forall|i: int, j: int, k: int|
            0 <= i < 512 && 0 <= j < 512 && 0 <= k < 512 implies #[trigger] n.table(i, j, k)
            != Some(x) by {
            assert(m.table(i, j, k) != Some(x));
        }
    }
    assert forall|free: Set<int>| #[trigger] m.reserves(free) implies n.reserves(free) by {
        assert forall|g: int| #[trigger] free.contains(g) implies n.unused(g) by {
            assert(m.unused(g));
        }
    }
}

/// A change of memory in an unused frame changes nothing of the address
/// space: not its tables, not its mappings.
pub proof fn lemma_outside_change(m: MachineView, n: MachineView, frame: int)
    requires
        m.recursive(),
        m.unused(frame),
        n.cr3 == m.cr3,
        forall|x: int, s: int| x != frame ==> #[trigger] n.entry(x, s) == m.entry(x, s),
    ensures
        n.recursive(),
        n.root() == m.root(),
        forall|i: int, j: int, k: int|
            0 <= i < 512 && 0 <= j < 512 && 0 <= k < 512 ==> #[trigger] n.table(i, j, k) == m.table(
                i,
                j,
                k,
            ),
        m.layered() ==> n.layered(),
        forall|x: int| #[trigger] m.idle(x) ==> n.idle(x),
        forall|free: Set<int>| #[trigger] m.reserves(free) ==> n.reserves(free),
        forall|page: Page| #[trigger] n.translate_page(page) == m.translate_page(page),
        forall|page: Page|
            n.p1_frame(n.root(), page) == #[trigger] m.p1_frame(m.root(), page) && n.p2_frame(
                n.root(),
                page,
            ) == m.p2_frame(m.root(), page) && n.p3_frame(n.root(), page) == m.p3_frame(
                m.root(),
                page,
            ),
        forall|page: Page| #[trigger] n.mappable(n.root(), page) == m.mappable(m.root(), page),
        m.kept_by(n),
{
    let root = m.root();
    lemma_table_prefix(m, 0, 0);
    assert(m.table(511, 511, 511) != Some(frame));
    assert(n.root() == root);
    assert forall|i: int, j: int, k: int|
        0 <= i < 512 && 0 <= j < 512 && 0 <= k < 512 implies #[trigger] n.table(i, j, k) == m.table(
        i,
        j,
        k,
    ) by {
        lemma_table_prefix(m, i, j);
        assert(m.table(511, 511, i) != Some(frame));
        assert(m.table(511, i, j) != Some(frame));
    }
    assert forall|page: Page|
        n.p1_frame(root, page) == #[trigger] m.p1_frame(root, page) && n.p2_frame(root, page)
            == m.p2_frame(root, page) && n.p3_frame(root, page) == m.p3_frame(root, page)
            && n.translate_page(page) == m.translate_page(page) && n.mappable(root, page)
            == m.mappable(root, page) by {
        page.lemma_index_bounds();
        lemma_table_prefix(m, page.p4_index() as int, page.p3_index() as int);
        assert(m.table(511, 511, page.p4_index() as int) != Some(frame));
        assert(m.table(511, page.p4_index() as int, page.p3_index() as int) != Some(frame));
        assert(m.table(page.p4_index() as int, page.p3_index() as int, page.p2_index() as int)
            != Some(frame));
        lemma_same_walk(m, n, root, page);
    }
    assert forall|page: Page| #[trigger] n.translate_page(page) == m.translate_page(page) by {
        assert(n.p1_frame(root, page) == m.p1_frame(root, page));
    }
    assert forall|page: Page| #[trigger] n.mappable(n.root(), page) == m.mappable(m.root(), page) by {
        assert(n.p1_frame(root, page) == m.p1_frame(root, page));
    }
    if m.layered() {
        assert forall|a: int| 0 <= a < 511 implies #[trigger] n.child(n.root(), a) != Some(n.root()) by {
            lemma_table_prefix(m, a, 0);
            lemma_table_prefix(n, a, 0);
            assert(n.table(511, 511, a) == m.table(511, 511, a));
        }
        assert forall|a: int, b: int, x: int|
            0 <= a < 511 && 0 <= b < 512 && 0 <= x < 512 && (#[trigger] n.step(
                n.child(n.root(), a),
                b,
            )).is_some() implies n.step(n.child(n.root(), a), b) != #[trigger] n.child(
            n.root(),
            x,
        ) by {
            lemma_table_prefix(m, a, b);
            lemma_table_prefix(n, a, b);
            lemma_table_prefix(m, x, 0);
            lemma_table_prefix(n, x, 0);
            assert(n.table(511, a, b) == m.table(511, a, b));
            assert(n.table(511, 511, x) == m.table(511, 511, x));
        }
        assert forall|a: int, b: int, c: int, x: int, y: int|
            0 <= a < 511 && 0 <= b < 512 && 0 <= c < 512 && 0 <= x < 512 && 0 <= y < 512 && (
            #[trigger] n.table(a, b, c)).is_some() implies n.table(a, b, c) != #[trigger] n.table(
            511,
            x,
            y,
        ) by {
            assert(n.table(a, b, c) == m.table(a, b, c));
            assert(n.table(511, x, y) == m.table(511, x, y));
        }
    }
    assert forall|x: int| #[trigger] m.idle(x) implies n.idle(x) by {
        assert forall|i: int, j: int, k: int|
            0 <= i < 512 && 0 <= j < 512 && 0 <= k < 512 implies #[trigger] n.table(i, j, k)
            != Some(x) by {
            assert(n.table(i, j, k) == m.table(i, j, k));
        }
    }
    assert forall|free: Set<int>| #[trigger] m.reserves(free) implies n.reserves(free) by {
        assert forall|g: int| #[trigger] free.contains(g) implies n.unused(g) by {
            assert(m.unused(g));
        }
    }
}

/// A change of memory in frames that are no tables of the address space,
/// which leaves alone the last slot of the active table, changes nothing of
/// the address space: not its tables, not its mappings.
pub proof fn lemma_idle_changes(m: MachineView, n: MachineView, changed: Set<int>)
    requires
        m.recursive(),
        forall|x: int| changed.contains(x) ==> #[trigger] m.idle(x),
        n.cr3 == m.cr3,
        n.entry(m.active(), 511) == m.entry(m.active(), 511),
        forall|x: int, s: int| !changed.contains(x) ==> #[trigger] n.entry(x, s) == m.entry(x, s),
    ensures
        n.recursive(),
        n.root() == m.root(),
        forall|i: int, j: int, k: int|
            0 <= i < 512 && 0 <= j < 512 && 0 <= k < 512 ==> #[trigger] n.table(i, j, k) == m.table(
                i,
                j,
                k,
            ),
        m.layered() == n.layered(),
        m.unshared() == n.unshared(),
        forall|x: int| #[trigger] n.idle(x) == m.idle(x),
        forall|page: Page| #[trigger] n.translate_page(page) == m.translate_page(page),
        forall|page: Page|
            n.p1_frame(n.root(), page) == #[trigger] m.p1_frame(m.root(), page) && n.p2_frame(
                n.root(),
                page,
            ) == m.p2_frame(m.root(), page) && n.p3_frame(n.root(), page) == m.p3_frame(
                m.root(),
                page,
            ),
        forall|page: Page| #[trigger] n.mappable(n.root(), page) == m.mappable(m.root(), page),
        forall|page: Page| #[trigger] m.same_walk(n, m.root(), page),
{
    let root = m.root();
    lemma_table_prefix(m, 0, 0);
    assert(!changed.contains(root)) by {
        if changed.contains(root) {
            assert(m.idle(root));
            assert(m.table(511, 511, 511) != Some(root));
        }
    }
    assert(n.root() == root);
    assert forall|i: int, j: int| 0 <= i < 512 && 0 <= j < 512 implies !(#[trigger] m.table(
        511,
        i,
        j,
    ) matches Some(x) && changed.contains(x)) by {
        if m.table(511, i, j).is_some() {
            let x = m.table(511, i, j).unwrap();
            if changed.contains(x) {
                assert(m.idle(x));
            }
        }
    }
    assert forall|i: int, j: int, k: int|
        0 <= i < 512 && 0 <= j < 512 && 0 <= k < 512 implies #[trigger] n.table(i, j, k) == m.table(
        i,
        j,
        k,
    ) by {
        lemma_table_prefix(m, i, j);
        assert(!(m.table(511, 511, i) matches Some(x) && changed.contains(x)));
        assert(!(m.table(511, i, j) matches Some(x) && changed.contains(x)));
    }
    assert forall|page: Page|
        n.p1_frame(root, page) == #[trigger] m.p1_frame(root, page) && n.p2_frame(root, page)
            == m.p2_frame(root, page) && n.p3_frame(root, page) == m.p3_frame(root, page)
            && n.translate_page(page) == m.translate_page(page) && n.mappable(root, page)
            == m.mappable(root, page) && m.same_walk(n, root, page) by {
        page.lemma_index_bounds();
        let i4 = page.p4_index() as int;
        let i3 = page.p3_index() as int;
        let i2 = page.p2_index() as int;
        lemma_table_prefix(m, i4, i3);
        assert(!(m.table(511, 511, i4) matches Some(x) && changed.contains(x)));
        assert(!(m.table(511, i4, i3) matches Some(x) && changed.contains(x)));
        if m.table(i4, i3, i2).is_some() {
            let x = m.table(i4, i3, i2).unwrap();
            if changed.contains(x) {
                assert(m.idle(x));
            }
        }
        lemma_same_walk(m, n, root, page);
    }
    assert forall|page: Page| #[trigger] n.translate_page(page) == m.translate_page(page) by {
        assert(n.p1_frame(root, page) == m.p1_frame(root, page));
    }
    assert forall|page: Page| #[trigger] n.mappable(n.root(), page) == m.mappable(m.root(), page) by {
        assert(n.p1_frame(root, page) == m.p1_frame(root, page));
    }
    assert forall|page: Page| #[trigger] m.same_walk(n, m.root(), page) by {
        assert(n.p1_frame(root, page) == m.p1_frame(root, page));
    }
    assert forall|x: int| #[trigger] n.idle(x) == m.idle(x) by {
        if m.idle(x) {
            assert forall|i: int, j: int, k: int|
                0 <= i < 512 && 0 <= j < 512 && 0 <= k < 512 implies #[trigger] n.table(i, j, k)
                != Some(x) by {
                assert(n.table(i, j, k) == m.table(i, j, k));
            }
        }
        if n.idle(x) {
            assert forall|i: int, j: int, k: int|
                0 <= i < 512 && 0 <= j < 512 && 0 <= k < 512 implies #[trigger] m.table(i, j, k)
                != Some(x) by {
                assert(n.table(i, j, k) == m.table(i, j, k));
            }
        }
    }
    lemma_layers_of_same_tables(m, n);
    lemma_layers_of_same_tables(n, m);
    lemma_unshared_of_same_tables(m, n);
    lemma_unshared_of_same_tables(n, m);
}

/// Two states with the same tables have no table reached twice together.
proof fn lemma_unshared_of_same_tables(m: MachineView, n: MachineView)
    requires
        forall|i: int, j: int, k: int|
            0 <= i < 512 && 0 <= j < 512 && 0 <= k < 512 ==> #[trigger] n.table(i, j, k) == m.table(
                i,
                j,
                k,
            ),
    ensures
        m.unshared() ==> n.unshared(),
{
    if m.unshared() {
        assert forall|a: int, x: int|
            0 <= a < 511 && 0 <= x < 511 && (#[trigger] n.table(511, 511, a)).is_some() && n.table(
                511,
                511,
                a,
            ) == #[trigger] n.table(511, 511, x) implies a == x by {
            assert(m.table(511, 511, a) == m.table(511, 511, x));
        }
        assert forall|a: int, b: int, x: int, y: int|
            0 <= a < 511 && 0 <= x < 511 && 0 <= b < 512 && 0 <= y < 512 && (#[trigger] n.table(
                511,
                a,
                b,
            )).is_some() && n.table(511, a, b) == #[trigger] n.table(511, x, y) implies a == x && b
            == y by {
            assert(m.table(511, a, b) == m.table(511, x, y));
        }
        assert forall|a: int, b: int, c: int, x: int, y: int, z: int|
            0 <= a < 511 && 0 <= x < 511 && 0 <= b < 512 && 0 <= y < 512 && 0 <= c < 512 && 0 <= z
                < 512 && (#[trigger] n.table(a, b, c)).is_some() && n.table(a, b, c)
                == #[trigger] n.table(x, y, z) implies a == x && b == y && c == z by {
            assert(m.table(a, b, c) == m.table(x, y, z));
        }
    }
}

/// Two states with the same root and the same tables have their levels
/// apart together.
proof fn lemma_layers_of_same_tables(m: MachineView, n: MachineView)
    requires
        m.recursive(),
        n.recursive(),
        n.root() == m.root(),
        forall|i: int, j: int, k: int|
            0 <= i < 512 && 0 <= j < 512 && 0 <= k < 512 ==> #[trigger] n.table(i, j, k) == m.table(
                i,
                j,
                k,
            ),
    ensures
        m.layered() ==> n.layered(),
{
    if m.layered() {
        assert forall|a: int| 0 <= a < 511 implies #[trigger] n.child(n.root(), a) != Some(n.root()) by {
            lemma_table_prefix(m, a, 0);
            lemma_table_prefix(n, a, 0);
            assert(n.table(511, 511, a) == m.table(511, 511, a));
        }
        assert forall|a: int, b: int, x: int|
            0 <= a < 511 && 0 <= b < 512 && 0 <= x < 512 && (#[trigger] n.step(
                n.child(n.root(), a),
                b,
            )).is_some() implies n.step(n.child(n.root(), a), b) != #[trigger] n.child(
            n.root(),
            x,
        ) by {
            lemma_table_prefix(m, a, b);
            lemma_table_prefix(n, a, b);
            lemma_table_prefix(m, x, 0);
            lemma_table_prefix(n, x, 0);
            assert(n.table(511, a, b) == m.table(511, a, b));
            assert(n.table(511, 511, x) == m.table(511, 511, x));
        }
        assert forall|a: int, b: int, c: int, x: int, y: int|
            0 <= a < 511 && 0 <= b < 512 && 0 <= c < 512 && 0 <= x < 512 && 0 <= y < 512 && (
            #[trigger] n.table(a, b, c)).is_some() implies n.table(a, b, c) != #[trigger] n.table(
            511,
            x,
            y,
        ) by {
            assert(n.table(a, b, c) == m.table(a, b, c));
            assert(n.table(511, x, y) == m.table(511, x, y));
        }
    }
}

/// Writing another link to the root into the last slot of the active table
/// changes nothing of the address space that is shown: not its tables, and,
/// where the levels are apart, not the mapping of a page outside the
/// recursive region.
pub proof fn lemma_relinked(m: MachineView, word: u64)
    requires
        m.recursive(),
        m.root() == m.active(),
        word_links(word),
        word_frame(word) == m.root(),
    ensures
        m.store(m.active(), 511, word).recursive(),
        m.store(m.active(), 511, word).root() == m.root(),
        forall|i: int, j: int, k: int|
            0 <= i < 512 && 0 <= j < 512 && 0 <= k < 512 ==> #[trigger] m.store(
                m.active(),
                511,
                word,
            ).table(i, j, k) == m.table(i, j, k),
        forall|x: int| #[trigger] m.store(m.active(), 511, word).idle(x) == m.idle(x),
        m.layered() == m.store(m.active(), 511, word).layered(),
        m.layered() ==> forall|page: Page|
            page.p4_index() != 511 ==> #[trigger] m.store(m.active(), 511, word).translate_page(page)
                == m.translate_page(page) && m.store(m.active(), 511, word).mappable(
                m.root(),
                page,
            ) == m.mappable(m.root(), page) && m.store(m.active(), 511, word).p1_frame(
                m.root(),
                page,
            ) == m.p1_frame(m.root(), page),
{
    let n = m.store(m.active(), 511, word);
    let root = m.root();
    assert forall|y: int, s: int| #[trigger] n.child(y, s) == m.child(y, s) by {}
    assert forall|i: int, j: int, k: int|
        0 <= i < 512 && 0 <= j < 512 && 0 <= k < 512 implies #[trigger] n.table(i, j, k) == m.table(
        i,
        j,
        k,
    ) by {}
    assert forall|x: int| #[trigger] n.idle(x) == m.idle(x) by {
        if m.idle(x) {
            assert forall|i: int, j: int, k: int|
                0 <= i < 512 && 0 <= j < 512 && 0 <= k < 512 implies #[trigger] n.table(i, j, k)
                != Some(x) by {
                assert(n.table(i, j, k) == m.table(i, j, k));
            }
        }
        if n.idle(x) {
            assert forall|i: int, j: int, k: int|
                0 <= i < 512 && 0 <= j < 512 && 0 <= k < 512 implies #[trigger] m.table(i, j, k)
                != Some(x) by {
                assert(n.table(i, j, k) == m.table(i, j, k));
            }
        }
    }
    lemma_layers_of_same_tables(m, n);
    lemma_layers_of_same_tables(n, m);
    if m.layered() {
        assert forall|page: Page| page.p4_index() != 511 implies #[trigger] n.translate_page(page)
            == m.translate_page(page) && n.mappable(root, page) == m.mappable(root, page)
            && n.p1_frame(root, page) == m.p1_frame(root, page) by {
            page.lemma_index_bounds();
            let i4 = page.p4_index() as int;
            let i3 = page.p3_index() as int;
            let i2 = page.p2_index() as int;
            lemma_table_prefix(m, i4, i3);
            assert(m.table(511, 511, 511) == Some(root));
            assert(m.child(root, i4) != Some(root));
            if m.step(m.child(root, i4), i3).is_some() {
                assert(m.step(m.child(root, i4), i3) != m.child(root, 511));
            }
            if m.table(i4, i3, i2).is_some() {
                assert(m.table(i4, i3, i2) != m.table(511, 511, 511));
            }
            lemma_same_walk(m, n, root, page);
        }
    }
}

/// A page whose leaf slot holds a present word is mapped to the frame of
/// the word.
pub proof fn lemma_maps_with(m: MachineView, root: int, page: Page, word: u64)
    requires
        m.maps_with(root, page, word),
    ensures
        m.leaf_word(root, page) == Some(word),
        word_present(word) ==> m.translate_page_from(root, page) == Some(word_frame(word)),
{
    reveal(MachineView::maps_with);
}

/// Where the slots that the walk for a page reads hold the same in two
/// states, the leaf slot of the page holds the same word in both.
pub proof fn lemma_maps_with_alike(m: MachineView, n: MachineView, root: int, page: Page, word: u64)
    requires
        m.same_walk(n, root, page),
        m.maps_with(root, page, word),
    ensures
        n.maps_with(root, page, word),
{
    reveal(MachineView::maps_with);
    lemma_same_walk(m, n, root, page);
}

/// A page that is mapped by a present word is mapped by the same word after
/// work on a mapping of another page with tables from `free`.
pub proof fn lemma_maps_with_kept(
    m: MachineView,
    n: MachineView,
    other: Page,
    free: Set<int>,
    page: Page,
    word: u64,
)
    requires
        m.recursive(),
        m.reserves(free),
        m.extended_by(n, other, free),
        m.maps_with(m.root(), page, word),
        word_present(word),
    ensures
        n.maps_with(m.root(), page, word),
{
    reveal(MachineView::extended_by);
    reveal(MachineView::maps_with);
    lemma_not_free(m, free, page);
    lemma_same_walk(m, n, m.root(), page);
}

/// The tables on the path of a page are not among frames that the address
/// space reserves.
pub proof fn lemma_not_free(m: MachineView, free: Set<int>, page: Page)
    requires
        m.recursive(),
        m.reserves(free),
    ensures
        !free.contains(m.root()),
        m.p3_frame(m.root(), page) matches Some(table) ==> !free.contains(table),
        m.p2_frame(m.root(), page) matches Some(table) ==> !free.contains(table),
        m.p1_frame(m.root(), page) matches Some(table) ==> !free.contains(table),
{
    page.lemma_index_bounds();
    lemma_table_prefix(m, page.p4_index() as int, page.p3_index() as int);
    let i4 = page.p4_index() as int;
    let i3 = page.p3_index() as int;
    let i2 = page.p2_index() as int;
    if free.contains(m.root()) {
        assert(m.unused(m.root()));
        assert(m.table(511, 511, 511) != Some(m.root()));
    }
    if m.p3_frame(m.root(), page).is_some() {
        let table = m.p3_frame(m.root(), page).unwrap();
        if free.contains(table) {
            assert(m.unused(table));
            assert(m.table(511, 511, i4) != Some(table));
        }
    }
    if m.p2_frame(m.root(), page).is_some() {
        let table = m.p2_frame(m.root(), page).unwrap();
        if free.contains(table) {
            assert(m.unused(table));
            assert(m.table(511, i4, i3) != Some(table));
        }
    }
    if m.p1_frame(m.root(), page).is_some() {
        let table = m.p1_frame(m.root(), page).unwrap();
        if free.contains(table) {
            assert(m.unused(table));
            assert(m.table(i4, i3, i2) != Some(table));
        }
    }
}

/// Where every present slot outside the frames of `free` and outside
/// `frame` holds in `n` what it holds in `m`, every page that is mapped in
/// `m` is mapped to the same frame in `n`.
pub proof fn lemma_kept_by_present(m: MachineView, n: MachineView, free: Set<int>, frame: int)
    requires
        m.recursive(),
        m.reserves(free),
        m.idle(frame),
        n.root() == m.root(),
        forall|x: int, s: int|
            word_present(m.entry(x, s)) && !free.contains(x) && x != frame ==> #[trigger] n.entry(
                x,
                s,
            ) == m.entry(x, s),
    ensures
        m.kept_by(n),
{
    assert forall|q: Page| (#[trigger] m.translate_page(q)).is_some() implies n.translate_page(q)
        == m.translate_page(q) by {
        q.lemma_index_bounds();
        lemma_table_prefix(m, q.p4_index() as int, q.p3_index() as int);
        assert(m.table(511, 511, 511) != Some(frame));
        assert(m.table(511, 511, q.p4_index() as int) != Some(frame));
        assert(m.table(511, q.p4_index() as int, q.p3_index() as int) != Some(frame));
        assert(m.table(q.p4_index() as int, q.p3_index() as int, q.p2_index() as int) != Some(
            frame,
        ));
        lemma_not_free(m, free, q);
        lemma_same_walk(m, n, m.root(), q);
    }
}

/// Founding an empty address space in an unused frame changes nothing of
/// the address space that is shown, and gives the frame its self-reference.
pub proof fn lemma_founded(m: MachineView, frame: int)
    requires
        m.recursive(),
        m.unused(frame),
        0 <= frame < POINTABLE_LIMIT,
    ensures
        m.founded(frame).recursive(),
        m.founded(frame).root() == m.root(),
        m.founded(frame).cr3 == m.cr3,
        m.founded(frame).flushes == m.flushes,
        m.founded(frame).child(frame, 511) == Some(frame),
        m.founded(frame).entry(frame, 511) == link_to(frame),
        forall|s: int| 0 <= s < 511 ==> #[trigger] m.founded(frame).entry(frame, s) == 0,
        forall|x: int, s: int| x != frame
            ==> #[trigger] m.founded(frame).entry(x, s) == m.entry(x, s),
        m.layered() ==> m.founded(frame).layered(),
        forall|x: int| #[trigger] m.idle(x) ==> m.founded(frame).idle(x),
        forall|free: Set<int>| #[trigger] m.reserves(free) ==> m.founded(frame).reserves(free),
        forall|page: Page| #[trigger] m.founded(frame).translate_page(page)
            == m.translate_page(page),
        forall|page: Page|
            m.founded(frame).p1_frame(m.root(), page) == #[trigger] m.p1_frame(m.root(), page)
                && m.founded(frame).p2_frame(m.root(), page) == m.p2_frame(m.root(), page)
                && m.founded(frame).p3_frame(m.root(), page) == m.p3_frame(m.root(), page),
        forall|page: Page| #[trigger]
            m.founded(frame).mappable(m.root(), page) == m.mappable(m.root(), page),
{
    lemma_link_to(frame);
    lemma_outside_change(m, m.founded(frame), frame);
}

/// Every table of an address space is reached over the same indices in a
/// later state in which the present slots outside `free` hold what they
/// held, where the address space reserves `free`.
pub proof fn lemma_tables_kept(m: MachineView, n: MachineView, free: Set<int>)
    requires
        m.recursive(),
        m.reserves(free),
        n.root() == m.root(),
        forall|x: int, s: int|
            word_present(m.entry(x, s)) && !free.contains(x) ==> #[trigger] n.entry(x, s) == m.entry(
                x,
                s,
            ),
    ensures
        forall|i: int, j: int, k: int|
            0 <= i < 512 && 0 <= j < 512 && 0 <= k < 512 && (#[trigger] m.table(i, j, k)).is_some()
                ==> n.table(i, j, k) == m.table(i, j, k),
        forall|x: int| #[trigger] n.idle(x) ==> m.idle(x),
{
    let root = m.root();
    assert forall|i: int, j: int, k: int|
        0 <= i < 512 && 0 <= j < 512 && 0 <= k < 512 && (#[trigger] m.table(i, j, k)).is_some() implies n.table(
        i,
        j,
        k,
    ) == m.table(i, j, k) by {
        lemma_table_prefix(m, i, j);
        let first = m.child(root, i).unwrap();
        let second = m.child(first, j).unwrap();
        if free.contains(root) {
            assert(m.unused(root));
            assert(m.table(511, 511, 511) != Some(root));
        }
        if free.contains(first) {
            assert(m.unused(first));
            assert(m.table(511, 511, i) != Some(first));
        }
        if free.contains(second) {
            assert(m.unused(second));
            assert(m.table(511, i, j) != Some(second));
        }
        assert(n.entry(root, i) == m.entry(root, i));
        assert(n.entry(first, j) == m.entry(first, j));
        assert(n.entry(second, k) == m.entry(second, k));
    }
    assert forall|x: int| #[trigger] n.idle(x) implies m.idle(x) by {
        assert forall|i: int, j: int, k: int|
            0 <= i < 512 && 0 <= j < 512 && 0 <= k < 512 implies #[trigger] m.table(i, j, k)
            != Some(x) by {
            if m.table(i, j, k) == Some(x) {
                assert(n.table(i, j, k) == Some(x));
            }
        }
    }
}

/// One mapping of a page outside the recursive region is a growth.
pub proof fn lemma_extended_grown(m: MachineView, n: MachineView, page: Page, free: Set<int>)
    requires
        m.recursive(),
        n.recursive(),
        m.reserves(free),
        m.extended_by(n, page, free),
        page.p4_index() != 511,
    ensures
        m.grown_by(n, free),
{
    reveal(MachineView::extended_by);
    reveal(MachineView::grown_by);
    lemma_tables_kept(m, n, free);
    let root = m.root();
    page.lemma_index_bounds();
    let i4 = page.p4_index() as int;
    let i3 = page.p3_index() as int;
    let i2 = page.p2_index() as int;
    lemma_table_prefix(n, i4, i3);
    assert forall|x: int, s: int| n.idle(x) implies #[trigger] n.entry(x, s) == m.entry(x, s) by {
        assert(n.table(511, 511, 511) != Some(x));
        assert(n.table(511, 511, i4) != Some(x));
        assert(n.table(511, i4, i3) != Some(x));
        assert(n.table(i4, i3, i2) != Some(x));
    }
}

/// Growths follow one another.
pub proof fn lemma_grown_twice(
    a: MachineView,
    b: MachineView,
    c: MachineView,
    free: Set<int>,
    later_free: Set<int>,
)
    requires
        a.grown_by(b, free),
        b.grown_by(c, later_free),
        later_free.subset_of(free),
    ensures
        a.grown_by(c, free),
{
    reveal(MachineView::grown_by);
    assert forall|x: int, s: int| word_present(a.entry(x, s)) && !free.contains(x) implies #[trigger] c.entry(
        x,
        s,
    ) == a.entry(x, s) by {
        assert(b.entry(x, s) == a.entry(x, s));
    }
    assert forall|q: Page| (#[trigger] a.translate_page(q)).is_some() implies c.translate_page(q)
        == a.translate_page(q) by {
        assert(b.translate_page(q) == a.translate_page(q));
    }
    assert forall|x: int| #[trigger] c.idle(x) implies a.idle(x) by {
        assert(b.idle(x));
    }
    assert forall|x: int, s: int| c.idle(x) implies #[trigger] c.entry(x, s) == a.entry(x, s) by {
        assert(b.idle(x));
        assert(c.entry(x, s) == b.entry(x, s));
        assert(b.entry(x, s) == a.entry(x, s));
    }
    if a.layered() {
        assert forall|x: int| #![trigger c.idle(x)] a.idle(x) && !free.contains(x) implies c.idle(
            x,
        ) by {
            assert(b.idle(x));
        }
    }
}

/// One more mapping of a page outside the recursive region after a growth
/// is a growth.
pub proof fn lemma_grown_more(
    a: MachineView,
    b: MachineView,
    c: MachineView,
    page: Page,
    free: Set<int>,
    later_free: Set<int>,
)
    requires
        a.grown_by(b, free),
        b.recursive(),
        c.recursive(),
        b.reserves(later_free),
        b.extended_by(c, page, later_free),
        page.p4_index() != 511,
        later_free.subset_of(free),
    ensures
        a.grown_by(c, free),
{
    lemma_extended_grown(b, c, page, later_free);
    lemma_grown_twice(a, b, c, free, later_free);
}

/// A state is its own extension.
pub proof fn lemma_extended_none(a: MachineView, page: Page, free: Set<int>)
    ensures
        a.extended_by(a, page, free),
{
    reveal(MachineView::extended_by);
}

/// An extension with tables from some frames is one with tables from more
/// frames.
pub proof fn lemma_extended_wider(
    a: MachineView,
    b: MachineView,
    page: Page,
    free: Set<int>,
    wider: Set<int>,
)
    requires
        a.extended_by(b, page, free),
        free.subset_of(wider),
    ensures
        a.extended_by(b, page, wider),
{
    reveal(MachineView::extended_by);
}

/// What an extension keeps: the registers, the root and the mapped pages.
pub proof fn lemma_extended_keeps(a: MachineView, b: MachineView, page: Page, free: Set<int>)
    requires
        a.extended_by(b, page, free),
    ensures
        b.root() == a.root(),
        b.cr3 == a.cr3,
        b.flushes == a.flushes,
        a.kept_by(b),
        a.layered() && page.p4_index() != 511 ==> b.layered(),
        a.layered() && a.unshared() && page.p4_index() != 511 ==> b.unshared(),
{
    reveal(MachineView::extended_by);
}

/// What a growth keeps: the registers, the root and the mapped pages.
pub proof fn lemma_grown_keeps(a: MachineView, b: MachineView, free: Set<int>)
    requires
        a.grown_by(b, free),
    ensures
        b.root() == a.root(),
        b.cr3 == a.cr3,
        b.flushes == a.flushes,
        a.kept_by(b),
        a.layered() ==> b.layered(),
        a.layered() && a.unshared() ==> b.unshared(),
{
    reveal(MachineView::grown_by);
}

/// A state has grown to itself.
pub proof fn lemma_grown_none(a: MachineView, free: Set<int>)
    ensures
        a.grown_by(a, free),
{
    reveal(MachineView::grown_by);
}

/// A growth keeps the tables on the path of a page: one that was there is
/// there still, so no more tables are missing than were.
pub proof fn lemma_grown_path(a: MachineView, b: MachineView, free: Set<int>, page: Page)
    requires
        a.grown_by(b, free),
        a.recursive(),
        a.reserves(free),
    ensures
        a.p3_frame(a.root(), page).is_some() ==> b.p3_frame(a.root(), page) == a.p3_frame(
            a.root(),
            page,
        ),
        a.p2_frame(a.root(), page).is_some() ==> b.p2_frame(a.root(), page) == a.p2_frame(
            a.root(),
            page,
        ),
        a.p1_frame(a.root(), page).is_some() ==> b.p1_frame(a.root(), page) == a.p1_frame(
            a.root(),
            page,
        ),
        b.missing(a.root(), page) <= a.missing(a.root(), page),
{
    reveal(MachineView::grown_by);
    page.lemma_index_bounds();
    let root = a.root();
    let i4 = page.p4_index() as int;
    let i3 = page.p3_index() as int;
    let i2 = page.p2_index() as int;
    lemma_table_prefix(a, i4, i3);
    assert(a.table(511, 511, 511) == Some(root));
    assert(!free.contains(root));
    if a.p3_frame(root, page).is_some() {
        let t3 = a.p3_frame(root, page).unwrap();
        assert(a.table(511, 511, i4) == Some(t3));
        assert(!free.contains(t3));
        assert(b.entry(root, i4) == a.entry(root, i4));
        if a.p2_frame(root, page).is_some() {
            let t2 = a.p2_frame(root, page).unwrap();
            assert(a.table(511, i4, i3) == Some(t2));
            assert(!free.contains(t2));
            assert(b.entry(t3, i3) == a.entry(t3, i3));
            if a.p1_frame(root, page).is_some() {
                assert(b.entry(t2, i2) == a.entry(t2, i2));
            }
        }
    }
}

} // verus!
