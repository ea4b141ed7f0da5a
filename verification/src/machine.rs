//! The machine that the page tables live in: physical memory as 64-bit
//! words, the table-base register, and a journal of what was done on both
//! and of the translation-cache invalidations that were issued.
//!
//! Memory is addressed by frame and by slot within the frame. A word that was
//! never stored to holds the fill value that the machine was made with, so
//! nothing can be taken for granted of a frame before it is cleared.

use vstd::prelude::*;
use std::collections::HashMap;
use crate::memory::Frame;
use crate::memory::paging::Page;
use crate::memory::paging::entry::{
    lemma_word_basics,
    link_to,
    word_present,
    word_frame,
    word_huge,
    word_links,
    Entry,
    POINTABLE_LIMIT,
};

pub mod lemmas;

verus! {

/// One invalidation of the translation cache.
#[derive(Debug, Clone, Copy, PartialEq, Eq, Structural)]
pub enum Flush {
    /// The whole cache.
    All,
    /// The cached translation of the page at this virtual address.
    Page(u64),
}

/// One operation on the machine.
#[derive(Debug, Clone, Copy, PartialEq, Eq, Structural)]
pub enum Operation {
    /// A store of `word` to slot `index` of `frame`.
    Store { frame: u64, index: usize, word: u64 },
    /// An invalidation of the translation cache.
    Invalidate(Flush),
    /// A write of the value to the table-base register.
    LoadCr3(u64),
}

/// The state of a machine on which nothing was done yet: every word of its
/// memory holds `fill`, the table-base register holds zero.
pub open spec fn blank(fill: u64) -> MachineView {
    MachineView {
        mem: Map::new(|k: (int, int)| true, |k: (int, int)| fill),
        cr3: 0,
        flushes: Seq::empty(),
    }
}

/// The state of a machine on which the operations were done in turn, from
/// the blank state.
pub open spec fn replayed(fill: u64, operations: Seq<Operation>) -> MachineView
    decreases operations.len(),
{
    if operations.len() == 0 {
        blank(fill)
    } else {
        replayed(fill, operations.drop_last()).apply(operations.last())
    }
}

/// The state of the machine as mathematics.
pub struct MachineView {
    /// The word in each slot of each frame.
    pub mem: Map<(int, int), u64>,
    /// The table-base register: the physical address of the active
    /// top-level table.
    pub cr3: u64,
    /// The invalidations issued so far, oldest first.
    pub flushes: Seq<Flush>,
}

impl MachineView {
    /// Whether every slot of every frame holds a word.
    pub open spec fn total(self) -> bool {
        self.mem.dom() =~= Set::full()
    }

    /// The word in slot `index` of `frame`.
    pub open spec fn entry(self, frame: int, index: int) -> u64 {
        self.mem[(frame, index)]
    }

    /// The state after a store of `word` to slot `index` of `frame`.
    pub open spec fn store(self, frame: int, index: int, word: u64) -> MachineView {
        MachineView { mem: self.mem.insert((frame, index), word), ..self }
    }

    /// The state after the first `count` slots of `frame` were cleared.
    pub open spec fn zero_prefix(self, frame: int, count: int) -> MachineView {
        MachineView {
            mem: Map::new(
                |k: (int, int)| true,
                |k: (int, int)|
                    if k.0 == frame && 0 <= k.1 < count {
                        0u64
                    } else {
                        self.mem[k]
                    },
            ),
            ..self
        }
    }

    /// The state after all 512 slots of `frame` were cleared.
    pub open spec fn zero_frame(self, frame: int) -> MachineView {
        self.zero_prefix(frame, 512)
    }

    /// The state after slot `index` of the table in `frame` was made a link
    /// to `child` and the 512 slots of `child` were cleared.
    pub open spec fn grown(self, frame: int, index: int, child: int) -> MachineView {
        self.store(frame, index, link_to(child)).zero_frame(child)
    }

    /// The state in which slot `index` of the table in `frame` links to a
    /// child table: as it is where the slot links to one, else with `child`
    /// linked there and cleared.
    pub open spec fn ensured(self, frame: int, index: int, child: int) -> MachineView {
        if self.child(frame, index).is_some() {
            self
        } else {
            self.grown(frame, index, child)
        }
    }

    /// The state after `page` was mapped below `root` by the leaf slot value
    /// `word`, where `p3`, `p2` and `p1` are the tables on the path of the
    /// page afterwards: those that were there, and cleared new ones where
    /// none was.
    pub open spec fn mapped(
        self,
        root: int,
        page: Page,
        word: u64,
        p3: int,
        p2: int,
        p1: int,
    ) -> MachineView {
        self.prepared(root, page, p3, p2, p1).store(p1, page.p1_index() as int, word)
    }

    /// The state after the tables on the path of `page` below `root` were
    /// made sure of, where `p3`, `p2` and `p1` are those tables afterwards.
    pub open spec fn prepared(
        self,
        root: int,
        page: Page,
        p3: int,
        p2: int,
        p1: int,
    ) -> MachineView {
        self.ensured(root, page.p4_index() as int, p3).ensured(
            p3,
            page.p3_index() as int,
            p2,
        ).ensured(p2, page.p2_index() as int, p1)
    }

    /// Whether this state is `before` after `page` was mapped below the root
    /// by the leaf slot value `word`: the tables on the path of the page are
    /// there, and the memory is that of `before` with the tables made that
    /// were missing and the leaf slot, which was unused, stored.
    pub open spec fn maps_by(self, before: MachineView, page: Page, word: u64) -> bool {
        &&& self.p1_frame(self.root(), page).is_some()
        &&& before.prepared(
            before.root(),
            page,
            self.p3_frame(self.root(), page).unwrap(),
            self.p2_frame(self.root(), page).unwrap(),
            self.p1_frame(self.root(), page).unwrap(),
        ).entry(self.p1_frame(self.root(), page).unwrap(), page.p1_index() as int) == 0
        &&& self == before.mapped(
            before.root(),
            page,
            word,
            self.p3_frame(self.root(), page).unwrap(),
            self.p2_frame(self.root(), page).unwrap(),
            self.p1_frame(self.root(), page).unwrap(),
        )
    }

    /// The state after `frame` was made the top-level table of an empty
    /// address space: cleared, with its last slot a link to itself.
    pub open spec fn founded(self, frame: int) -> MachineView {
        self.zero_frame(frame).store(frame, 511, link_to(frame))
    }

    /// The state after the operation.
    pub open spec fn apply(self, operation: Operation) -> MachineView {
        match operation {
            Operation::Store { frame, index, word } => self.store(frame as int, index as int, word),
            Operation::Invalidate(flush) => self.flush(flush),
            Operation::LoadCr3(value) => self.load_cr3(value),
        }
    }

    /// The state after `value` was written to the table-base register.
    pub open spec fn load_cr3(self, value: u64) -> MachineView {
        MachineView { cr3: value, ..self }
    }

    /// The state after one more invalidation.
    pub open spec fn flush(self, flush: Flush) -> MachineView {
        MachineView { flushes: self.flushes.push(flush), ..self }
    }

    /// The frame of the active top-level table, which the table-base register
    /// names.
    pub open spec fn active(self) -> int {
        self.cr3 as int / 4096
    }

    /// The child table that slot `index` of the table in `frame` links to.
    pub open spec fn child(self, frame: int, index: int) -> Option<int> {
        if word_links(self.entry(frame, index)) {
            Some(word_frame(self.entry(frame, index)))
        } else {
            None
        }
    }

    /// One step down from a table that was reached, or not.
    pub open spec fn step(self, from: Option<int>, index: int) -> Option<int> {
        match from {
            Some(frame) => self.child(frame, index),
            None => None,
        }
    }

    /// The frame in which accesses to the table at the virtual address
    /// `address` land: the walk of the hardware from the active table over
    /// the four indices of the address, each step through a link.
    pub open spec fn table_frame(self, address: u64) -> Option<int> {
        let page = Page { number: address / 4096 };
        self.step(
            self.step(
                self.step(self.child(self.active(), page.p4_index() as int), page.p3_index() as int),
                page.p2_index() as int,
            ),
            page.p1_index() as int,
        )
    }

    /// The frame that the last slot of the active table points to. Through
    /// it the tables of an address space are reached: it is the top-level
    /// table that the recursive addresses resolve to.
    pub open spec fn root(self) -> int {
        word_frame(self.entry(self.active(), 511))
    }

    /// The recursive mapping: the last slot of the active table links to the
    /// root, and the last slot of the root links to the root itself.
    pub open spec fn recursive(self) -> bool {
        &&& self.child(self.active(), 511) == Some(self.root())
        &&& self.child(self.root(), 511) == Some(self.root())
    }

    /// Whether slot `index` of `frame` is one of the two slots that make the
    /// recursive mapping: the last of the active table, the last of the root.
    pub open spec fn carries_recursion(self, frame: int, index: int) -> bool {
        index == 511 && (frame == self.active() || frame == self.root())
    }

    /// The table reached from the root over three indices. With the
    /// recursive mapping these are all tables of the address space: the
    /// root itself over (511, 511, 511), the upper tables over (511, 511, i),
    /// the middle tables over (511, i, j), the leaf tables over (i, j, k).
    pub open spec fn table(self, i: int, j: int, k: int) -> Option<int> {
        self.step(self.step(self.child(self.root(), i), j), k)
    }

    /// The upper table on the path of `page` below the top-level table in
    /// `root`.
    pub open spec fn p3_frame(self, root: int, page: Page) -> Option<int> {
        self.child(root, page.p4_index() as int)
    }

    /// The middle table on the path of `page` below `root`.
    pub open spec fn p2_frame(self, root: int, page: Page) -> Option<int> {
        self.step(self.p3_frame(root, page), page.p3_index() as int)
    }

    /// The leaf table on the path of `page` below `root`.
    pub open spec fn p1_frame(self, root: int, page: Page) -> Option<int> {
        self.step(self.p2_frame(root, page), page.p2_index() as int)
    }

    /// The number of tables that are missing on the path of `page` below
    /// `root`: as many as a mapping of the page has to make.
    pub open spec fn missing(self, root: int, page: Page) -> int {
        if self.p3_frame(root, page).is_none() {
            3
        } else if self.p2_frame(root, page).is_none() {
            2
        } else if self.p1_frame(root, page).is_none() {
            1
        } else {
            0
        }
    }

    /// The value of the leaf slot of `page` below `root`, if the walk gets to
    /// a leaf table.
    pub open spec fn leaf_word(self, root: int, page: Page) -> Option<u64> {
        match self.p1_frame(root, page) {
            Some(table) => Some(self.entry(table, page.p1_index() as int)),
            None => None,
        }
    }

    /// Whether the walk for `page` below `root` gets to a leaf slot, and the
    /// slot holds `word`.
    #[verifier::opaque]
    pub open spec fn maps_with(self, root: int, page: Page, word: u64) -> bool {
        self.leaf_word(root, page) == Some(word)
    }

    /// The frame that `page` is mapped to in the address space whose
    /// top-level table is in `root`: the target of the leaf slot if the walk
    /// gets there, or a frame inside a huge page where an upper or middle
    /// slot maps one.
    pub open spec fn translate_page_from(self, root: int, page: Page) -> Option<int> {
        match self.p3_frame(root, page) {
            None => None,
            Some(p3) => {
                let upper = self.entry(p3, page.p3_index() as int);
                if !word_present(upper) {
                    None
                } else if word_huge(upper) {
                    Some(word_frame(upper) + page.p2_index() * 512 + page.p1_index())
                } else {
                    let middle = self.entry(word_frame(upper), page.p2_index() as int);
                    if !word_present(middle) {
                        None
                    } else if word_huge(middle) {
                        Some(word_frame(middle) + page.p1_index())
                    } else {
                        let leaf = self.entry(word_frame(middle), page.p1_index() as int);
                        if word_present(leaf) {
                            Some(word_frame(leaf))
                        } else {
                            None
                        }
                    }
                }
            },
        }
    }

    /// The frame inside a huge page that `page` is mapped to below `root`,
    /// where an upper or middle slot on its path maps a huge page.
    pub open spec fn huge_frame(self, root: int, page: Page) -> Option<int> {
        match self.p3_frame(root, page) {
            None => None,
            Some(p3) => {
                let upper = self.entry(p3, page.p3_index() as int);
                if word_present(upper) && word_huge(upper) {
                    Some(word_frame(upper) + page.p2_index() * 512 + page.p1_index())
                } else if word_links(upper) {
                    let middle = self.entry(word_frame(upper), page.p2_index() as int);
                    if word_present(middle) && word_huge(middle) {
                        Some(word_frame(middle) + page.p1_index())
                    } else {
                        None
                    }
                } else {
                    None
                }
            },
        }
    }

    /// Whether the huge pages on the path of `page` below `root` start at a
    /// frame that their size divides: 512 * 512 frames at the upper level,
    /// 512 frames at the middle level.
    pub open spec fn huge_aligned(self, root: int, page: Page) -> bool {
        match self.p3_frame(root, page) {
            None => true,
            Some(p3) => {
                let upper = self.entry(p3, page.p3_index() as int);
                if word_present(upper) && word_huge(upper) {
                    word_frame(upper) % 262144 == 0
                } else if word_links(upper) {
                    let middle = self.entry(word_frame(upper), page.p2_index() as int);
                    word_present(middle) && word_huge(middle) ==> word_frame(middle) % 512 == 0
                } else {
                    true
                }
            },
        }
    }

    /// Whether `page` can be mapped below `root`: no slot on its path has the
    /// huge-page flag, and its leaf slot, if the path reaches one, is unused.
    pub open spec fn mappable(self, root: int, page: Page) -> bool {
        &&& !word_huge(self.entry(root, page.p4_index() as int))
        &&& self.p3_frame(root, page) matches Some(p3) ==> {
            &&& !word_huge(self.entry(p3, page.p3_index() as int))
            &&& self.p2_frame(root, page) matches Some(p2) ==> {
                &&& !word_huge(self.entry(p2, page.p2_index() as int))
                &&& self.p1_frame(root, page) matches Some(p1) ==> self.entry(
                    p1,
                    page.p1_index() as int,
                ) == 0
            }
        }
    }

    /// The frame that `page` is mapped to in the address space that the
    /// recursive mapping shows.
    pub open spec fn translate_page(self, page: Page) -> Option<int> {
        self.translate_page_from(self.root(), page)
    }

    /// The physical address that the virtual address is mapped to: the start
    /// of the frame of its page, plus the offset of the address in the page.
    pub open spec fn translate(self, address: u64) -> Option<int> {
        match self.translate_page(Page { number: address / 4096 }) {
            Some(frame) => Some(frame * 4096 + address % 4096),
            None => None,
        }
    }

    /// Whether `frame` is no table of the address space.
    pub open spec fn idle(self, frame: int) -> bool {
        forall|i: int, j: int, k: int|
            0 <= i < 512 && 0 <= j < 512 && 0 <= k < 512 ==> #[trigger] self.table(i, j, k)
                != Some(frame)
    }

    /// Whether `frame` is neither the active table nor a table of the
    /// address space.
    pub open spec fn unused(self, frame: int) -> bool {
        frame != self.active() && self.idle(frame)
    }

    /// Whether the levels of the address space are apart: below a slot other
    /// than the last of the root, no upper table is the root, no middle table
    /// is an upper table or the root, and no leaf table is a table of a
    /// higher level.
    pub open spec fn layered(self) -> bool {
        &&& forall|a: int| 0 <= a < 511 ==> #[trigger] self.child(self.root(), a) != Some(self.root())
        &&& forall|a: int, b: int, x: int|
            0 <= a < 511 && 0 <= b < 512 && 0 <= x < 512 && (#[trigger] self.step(
                self.child(self.root(), a),
                b,
            )).is_some() ==> self.step(self.child(self.root(), a), b) != #[trigger] self.child(
                self.root(),
                x,
            )
        &&& forall|a: int, b: int, c: int, x: int, y: int|
            0 <= a < 511 && 0 <= b < 512 && 0 <= c < 512 && 0 <= x < 512 && 0 <= y < 512 && (
            #[trigger] self.table(a, b, c)).is_some() ==> self.table(a, b, c)
                != #[trigger] self.table(511, x, y)
    }

    /// Whether the slots that the walk for `page` below `root` reads here
    /// hold the same in the state `later`.
    pub open spec fn same_walk(self, later: MachineView, root: int, page: Page) -> bool {
        &&& later.entry(root, page.p4_index() as int) == self.entry(root, page.p4_index() as int)
        &&& self.p3_frame(root, page) matches Some(p3) ==> later.entry(p3, page.p3_index() as int)
            == self.entry(p3, page.p3_index() as int)
        &&& self.p2_frame(root, page) matches Some(p2) ==> later.entry(p2, page.p2_index() as int)
            == self.entry(p2, page.p2_index() as int)
        &&& self.p1_frame(root, page) matches Some(p1) ==> later.entry(p1, page.p1_index() as int)
            == self.entry(p1, page.p1_index() as int)
    }

    /// Whether no table of the address space is reached twice: below slots
    /// other than the last of the root, two different paths lead to two
    /// different upper tables, middle tables and leaf tables.
    pub open spec fn unshared(self) -> bool {
        &&& forall|a: int, x: int|
            0 <= a < 511 && 0 <= x < 511 && (#[trigger] self.table(511, 511, a)).is_some()
                && self.table(511, 511, a) == #[trigger] self.table(511, 511, x) ==> a == x
        &&& forall|a: int, b: int, x: int, y: int|
            0 <= a < 511 && 0 <= x < 511 && 0 <= b < 512 && 0 <= y < 512 && (#[trigger] self.table(
                511,
                a,
                b,
            )).is_some() && self.table(511, a, b) == #[trigger] self.table(511, x, y) ==> a == x
                && b == y
        &&& forall|a: int, b: int, c: int, x: int, y: int, z: int|
            0 <= a < 511 && 0 <= x < 511 && 0 <= b < 512 && 0 <= y < 512 && 0 <= c < 512 && 0 <= z
                < 512 && (#[trigger] self.table(a, b, c)).is_some() && self.table(a, b, c)
                == #[trigger] self.table(x, y, z) ==> a == x && b == y && c == z
    }

    /// Whether every page outside the recursive region, but for those with
    /// the indices of `page`, is mapped in the state `later` as it is here,
    /// and can be mapped there if and only if it can here.
    pub open spec fn alone_changed(self, later: MachineView, page: Page) -> bool {
        forall|other: Page|
            other.p4_index() != 511 && !other.alike(page) ==> #[trigger] later.translate_page(other)
                == self.translate_page(other) && later.mappable(self.root(), other)
                == self.mappable(self.root(), other)
    }

    /// Whether every page that is mapped here is mapped to the same frame in
    /// the state `later`.
    pub open spec fn kept_by(self, later: MachineView) -> bool {
        forall|page: Page| (#[trigger] self.translate_page(page)).is_some() ==> later.translate_page(page)
            == self.translate_page(page)
    }

    /// Whether the state `later` can have come from this one by work on a
    /// mapping of `page` that took the tables it made from `free`: the
    /// registers, the root and the mapped pages are kept; a present slot
    /// outside `free` holds what it held; every slot outside the tables on
    /// the path of the page holds what it held; where the levels were apart
    /// and the page lies outside the recursive region, they still are, and no
    /// frame outside `free` has become a table; where moreover no table was
    /// reached twice, none is; and a table on the path of the page is the
    /// one that was there, or else was in `free`.
    #[verifier::opaque]
    pub open spec fn extended_by(self, later: MachineView, page: Page, free: Set<int>) -> bool {
        &&& later.root() == self.root()
        &&& later.cr3 == self.cr3
        &&& later.flushes == self.flushes
        &&& self.kept_by(later)
        &&& forall|x: int, s: int|
            word_present(self.entry(x, s)) && !free.contains(x) ==> #[trigger] later.entry(x, s)
                == self.entry(x, s)
        &&& forall|x: int, s: int|
            x != self.root() && Some(x) != later.p3_frame(self.root(), page) && Some(x)
                != later.p2_frame(self.root(), page) && Some(x) != later.p1_frame(
                self.root(),
                page,
            ) ==> #[trigger] later.entry(x, s) == self.entry(x, s)
        &&& self.layered() && page.p4_index() != 511 ==> later.layered() && forall|x: int|
            #![trigger later.idle(x)]
            self.idle(x) && !free.contains(x) ==> later.idle(x)
        &&& self.layered() && self.unshared() && page.p4_index() != 511 ==> later.unshared()
        &&& self.p3_frame(self.root(), page).is_none() ==> (later.p3_frame(self.root(), page) matches Some(
            table,
        ) ==> free.contains(table))
        &&& self.p2_frame(self.root(), page).is_none() ==> (later.p2_frame(self.root(), page) matches Some(
            table,
        ) ==> free.contains(table))
        &&& self.p1_frame(self.root(), page).is_none() ==> (later.p1_frame(self.root(), page) matches Some(
            table,
        ) ==> free.contains(table))
        &&& self.p3_frame(self.root(), page).is_some() ==> later.p3_frame(self.root(), page)
            == self.p3_frame(self.root(), page)
        &&& self.p2_frame(self.root(), page).is_some() ==> later.p2_frame(self.root(), page)
            == self.p2_frame(self.root(), page)
        &&& self.p1_frame(self.root(), page).is_some() ==> later.p1_frame(self.root(), page)
            == self.p1_frame(self.root(), page)
    }

    /// Whether the state `later` can have come from this one by mappings of
    /// pages outside the recursive region that took the tables they made
    /// from `free`: the registers, the root and the mapped pages are kept; a
    /// present slot outside `free` holds what it held; every table is still a
    /// table, and a frame that is no table afterwards holds what it held;
    /// where the levels were apart they still are, and no frame outside
    /// `free` has become a table; and where moreover no table was reached
    /// twice, none is.
    #[verifier::opaque]
    pub open spec fn grown_by(self, later: MachineView, free: Set<int>) -> bool {
        &&& later.root() == self.root()
        &&& later.cr3 == self.cr3
        &&& later.flushes == self.flushes
        &&& self.kept_by(later)
        &&& forall|x: int, s: int|
            word_present(self.entry(x, s)) && !free.contains(x) ==> #[trigger] later.entry(x, s)
                == self.entry(x, s)
        &&& forall|x: int| #[trigger] later.idle(x) ==> self.idle(x)
        &&& forall|x: int, s: int| later.idle(x) ==> #[trigger] later.entry(x, s) == self.entry(x, s)
        &&& self.layered() ==> later.layered() && forall|x: int|
            #![trigger later.idle(x)]
            self.idle(x) && !free.contains(x) ==> later.idle(x)
        &&& self.layered() && self.unshared() ==> later.unshared()
    }

    /// Whether every frame of `free` is unused.
    pub open spec fn reserves(self, free: Set<int>) -> bool {
        forall|frame: int| #[trigger] free.contains(frame) ==> self.unused(frame)
    }
}

/// The machine: what the page-table code reads and writes.
pub struct Machine {
    words: HashMap<u64, u64>,
    fill: u64,
    cr3: u64,
    flushes: Vec<Flush>,
    journal: Vec<Operation>,
}

/// The state that is held as the words that were stored, the fill word for
/// all others, the register and the invalidations.
spec fn state_of(words: Map<u64, u64>, fill: u64, cr3: u64, flushes: Seq<Flush>) -> MachineView {
    MachineView {
        mem: Map::new(
            |k: (int, int)| true,
            |k: (int, int)|
                if 0 <= k.0 < 0x10_0000_0000_0000 && 0 <= k.1 < 512 && words.contains_key(
                    (k.0 * 512 + k.1) as u64,
                ) {
                    words[(k.0 * 512 + k.1) as u64]
                } else {
                    fill
                },
        ),
        cr3,
        flushes,
    }
}

impl View for Machine {
    type V = MachineView;

    closed spec fn view(&self) -> MachineView {
        state_of(self.words@, self.fill, self.cr3, self.flushes@)
    }
}

impl Machine {
    #[verifier::type_invariant]
    spec fn journal_kept(&self) -> bool {
        self.view() == replayed(self.fill, self.journal@)
    }

    /// The word that the memory held everywhere when the machine was made.
    pub closed spec fn fill(&self) -> u64 {
        self.fill
    }

    /// The operations that were done on the machine, oldest first.
    pub closed spec fn operations(&self) -> Seq<Operation> {
        self.journal@
    }

    /// Whether this machine is what `before` has become by further
    /// operations: the fill word is the same, and the operations done on
    /// `before` are the first of those done on this one.
    pub open spec fn extends(&self, before: &Machine) -> bool {
        self.fill() == before.fill() && before.operations().is_prefix_of(self.operations())
    }

    /// A machine whose memory holds `fill` in every word, with the
    /// table-base register at zero, no invalidation issued and no operation
    /// done.
    pub fn new(fill: u64) -> (machine: Machine)
        ensures
            machine@ == blank(fill),
            machine.fill() == fill,
            machine.operations() == Seq::<Operation>::empty(),
    {
        let words = HashMap::new();
        let flushes = Vec::new();
        let journal = Vec::new();
        proof {
            assert(state_of(words@, fill, 0, flushes@).mem =~= blank(fill).mem);
        }
        Machine { words, fill, cr3: 0, flushes, journal }
    }

    /// The operations that were done on the machine, oldest first. Done in
    /// turn on a machine whose memory holds the fill word everywhere, they
    /// lead to the state of this machine.
    pub fn journal(&self) -> (operations: &Vec<Operation>)
        ensures
            operations@ == self.operations(),
            self@ == replayed(self.fill(), operations@),
    {
        proof {
            use_type_invariant(self);
        }
        &self.journal
    }

    /// The memory of a machine holds a word in every slot.
    pub proof fn lemma_total(&self)
        ensures
            self@.total(),
    {
    }

    /// Reads the word in slot `index` of `frame`.
    pub fn load(&self, frame: Frame, index: usize) -> (word: u64)
        requires
            frame.wf(),
            index < 512,
        ensures
            word == self@.entry(frame.number as int, index as int),
    {
        let key: u64 = frame.number * 512 + index as u64;
        match self.words.get(&key) {
            Some(word) => *word,
            None => self.fill,
        }
    }

    /// Writes `word` to slot `index` of `frame`.
    pub fn store(&mut self, frame: Frame, index: usize, word: u64)
        requires
            frame.wf(),
            index < 512,
        ensures
            final(self)@ == old(self)@.store(frame.number as int, index as int, word),
            final(self).fill() == old(self).fill(),
            final(self).operations() == old(self).operations().push(
                Operation::Store { frame: frame.number, index, word },
            ),
    {
        let key: u64 = frame.number * 512 + index as u64;
        let Machine { mut words, fill, cr3, flushes, mut journal } = self.take();
        let ghost before = journal@;
        words.insert(key, word);
        journal.push(Operation::Store { frame: frame.number, index, word });
        proof {
            assert(state_of(words@, fill, cr3, flushes@).mem =~= old(self)@.store(
                frame.number as int,
                index as int,
                word,
            ).mem);
            assert(journal@.drop_last() =~= before);
        }
        *self = Machine { words, fill, cr3, flushes, journal };
    }

    /// Takes the machine out of its place and leaves a blank one there.
    fn take(&mut self) -> (machine: Machine)
        ensures
            machine == *old(self),
            machine@ == replayed(machine.fill, machine.journal@),
    {
        let mut machine = Machine::new(0);
        core::mem::swap(self, &mut machine);
        proof {
            use_type_invariant(&machine);
        }
        machine
    }

    /// Reads the table-base register.
    pub fn cr3(&self) -> (value: u64)
        ensures
            value == self@.cr3,
    {
        self.cr3
    }

    /// Writes the table-base register.
    pub fn cr3_write(&mut self, value: u64)
        ensures
            final(self)@ == old(self)@.load_cr3(value),
            final(self).fill() == old(self).fill(),
            final(self).operations() == old(self).operations().push(Operation::LoadCr3(value)),
    {
        let Machine { words, fill, cr3: _, flushes, mut journal } = self.take();
        let ghost before = journal@;
        journal.push(Operation::LoadCr3(value));
        proof {
            assert(journal@.drop_last() =~= before);
        }
        *self = Machine { words, fill, cr3: value, flushes, journal };
    }

    /// Invalidates the cached translation of the page at `address`.
    pub fn flush(&mut self, address: u64)
        ensures
            final(self)@ == old(self)@.flush(Flush::Page(address)),
            final(self).fill() == old(self).fill(),
            final(self).operations() == old(self).operations().push(
                Operation::Invalidate(Flush::Page(address)),
            ),
    {
        let Machine { words, fill, cr3, mut flushes, mut journal } = self.take();
        let ghost before = journal@;
        flushes.push(Flush::Page(address));
        journal.push(Operation::Invalidate(Flush::Page(address)));
        proof {
            assert(journal@.drop_last() =~= before);
        }
        *self = Machine { words, fill, cr3, flushes, journal };
    }

    /// Invalidates the whole translation cache.
    pub fn flush_all(&mut self)
        ensures
            final(self)@ == old(self)@.flush(Flush::All),
            final(self).fill() == old(self).fill(),
            final(self).operations() == old(self).operations().push(
                Operation::Invalidate(Flush::All),
            ),
    {
        let Machine { words, fill, cr3, mut flushes, mut journal } = self.take();
        let ghost before = journal@;
        flushes.push(Flush::All);
        journal.push(Operation::Invalidate(Flush::All));
        proof {
            assert(journal@.drop_last() =~= before);
        }
        *self = Machine { words, fill, cr3, flushes, journal };
    }

    /// The invalidations issued so far, oldest first.
    pub fn flushes(&self) -> (journal: &Vec<Flush>)
        ensures
            journal@ == self@.flushes,
    {
        &self.flushes
    }

    /// The frame in which accesses to the table at the virtual address
    /// `address` land.
    pub fn resolve(&self, address: u64) -> (frame: Frame)
        requires
            self@.table_frame(address).is_some(),
        ensures
            self@.table_frame(address) == Some(frame.number as int),
            frame.number < POINTABLE_LIMIT,
    {
        let page = Page { number: address / 4096 };
        let p4 = Frame::containing_address(self.cr3);
        let p3 = self.follow(p4, page.p4_index());
        let p2 = self.follow(p3, page.p3_index());
        let p1 = self.follow(p2, page.p2_index());
        self.follow(p1, page.p1_index())
    }

    /// The frame that slot `index` of the table in `frame` links to.
    fn follow(&self, frame: Frame, index: usize) -> (next: Frame)
        requires
            frame.wf(),
            index < 512,
            self@.child(frame.number as int, index as int).is_some(),
        ensures
            self@.child(frame.number as int, index as int) == Some(next.number as int),
            next.number < POINTABLE_LIMIT,
    {
        let entry = Entry::from_bits(self.load(frame, index));
        proof {
            lemma_word_basics(entry@);
        }
        match entry.pointed_frame() {
            Some(next) => next,
            None => frame,
        }
    }
}

} // verus!
