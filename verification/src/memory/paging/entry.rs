//! One slot of a page table: the frame it points to and its flags.

use vstd::prelude::*;
use crate::memory::Frame;

verus! {

pub const PRESENT: u64 = 0x1;

pub const WRITEABLE: u64 = 0x2;

pub const USER_ACCESSIBLE: u64 = 0x4;

pub const WRITE_THROUGH: u64 = 0x8;

pub const NO_CACHE: u64 = 0x10;

pub const ACCESSED: u64 = 0x20;

pub const DIRTY: u64 = 0x40;

pub const HUGE_PAGE: u64 = 0x80;

pub const GLOBAL: u64 = 0x100;

pub const NO_EXECUTE: u64 = 0x8000_0000_0000_0000;

/// Every bit that is a flag.
pub const ALL_FLAGS: u64 = 0x8000_0000_0000_01ff;

/// The bits of a slot that hold the physical address of the frame.
pub const ADDRESS_MASK: u64 = 0x000f_ffff_ffff_f000;

/// Frames that a slot can point to have a number of at most 40 bits.
pub const POINTABLE_LIMIT: u64 = 0x100_0000_0000;

/// Whether the slot value has the present bit.
pub open spec fn word_present(word: u64) -> bool {
    word & PRESENT == PRESENT
}

/// Whether the slot value has the huge-page bit.
pub open spec fn word_huge(word: u64) -> bool {
    word & HUGE_PAGE == HUGE_PAGE
}

/// Whether the slot value leads to a child table: present and no huge page.
pub open spec fn word_links(word: u64) -> bool {
    word_present(word) && !word_huge(word)
}

/// The number of the frame whose address the slot value holds.
pub open spec fn word_frame(word: u64) -> int {
    ((word & ADDRESS_MASK) >> 12) as int
}

/// The flag bits of the slot value.
pub open spec fn word_flags(word: u64) -> u64 {
    word & ALL_FLAGS
}

/// The slot value that points to `frame` with the flag bits `flags`.
pub open spec fn encode(frame: int, flags: u64) -> u64 {
    (((frame as u64) << 12) | flags)
}

/// The slot value of a link to a child table in `frame`.
pub open spec fn link_to(frame: int) -> u64 {
    encode(frame, PRESENT | WRITEABLE)
}

/// Decoding an encoded slot gives back the frame and the flags.
pub proof fn lemma_encode_decode(frame: int, flags: u64)
    requires
        0 <= frame < POINTABLE_LIMIT,
        flags & !ALL_FLAGS == 0,
    ensures
        word_frame(encode(frame, flags)) == frame,
        word_flags(encode(frame, flags)) == flags,
        word_present(encode(frame, flags)) == word_present(flags),
        word_huge(encode(frame, flags)) == word_huge(flags),
        encode(frame, flags) == ((frame * 4096) as u64) | flags,
        flags == 0 ==> encode(frame, flags) == frame * 4096,
{
    let n = frame as u64;
    assert({
        &&& n * 4096 == n << 12
        &&& (n << 12) | 0u64 == n << 12
        &&& (((n << 12) | flags) & 0x000f_ffff_ffff_f000u64) >> 12 == n
        &&& ((n << 12) | flags) & 0x8000_0000_0000_01ffu64 == flags
        &&& ((n << 12) | flags) & 1u64 == flags & 1u64
        &&& ((n << 12) | flags) & 0x80u64 == flags & 0x80u64
    }) by (bit_vector)
        requires
            n < 0x100_0000_0000u64,
            flags & !0x8000_0000_0000_01ffu64 == 0,
    ;
}

/// What a link to a child table decodes to.
pub proof fn lemma_link_to(frame: int)
    requires
        0 <= frame < POINTABLE_LIMIT,
    ensures
        word_links(link_to(frame)),
        word_frame(link_to(frame)) == frame,
        word_flags(link_to(frame)) == PRESENT | WRITEABLE,
        WRITEABLE | PRESENT == PRESENT | WRITEABLE,
        link_to(frame) != 0,
{
    let flags: u64 = PRESENT | WRITEABLE;
    assert(flags == 3 && flags & !0x8000_0000_0000_01ffu64 == 0 && flags & 1u64 == 1u64 && flags
        & 0x80u64 == 0u64 && 2u64 | 1u64 == 1u64 | 2u64) by (bit_vector)
        requires
            flags == 1u64 | 2u64,
    ;
    lemma_word_basics(link_to(frame));
    lemma_encode_decode(frame, flags);
}

/// An all-zero slot is not present, and the frame in any slot value can be
/// pointed to.
pub proof fn lemma_word_basics(word: u64)
    ensures
        0 <= word_frame(word) < POINTABLE_LIMIT,
        word == 0 ==> !word_present(word) && !word_huge(word) && word_flags(word) == 0,
        word_flags(word) & !ALL_FLAGS == 0,
        word_present(word) == word_present(word_flags(word)),
        word_huge(word) == word_huge(word_flags(word)),
        word_frame(word) == (word & ADDRESS_MASK) / 4096,
{
    assert({
        &&& (word & 0x000f_ffff_ffff_f000u64) >> 12 == (word & 0x000f_ffff_ffff_f000u64) / 4096
        &&& (word & 0x000f_ffff_ffff_f000u64) >> 12 < 0x100_0000_0000u64
        &&& (word == 0 ==> word & 1u64 != 1u64 && word & 0x80u64 != 0x80u64 && word & 0x8000_0000_0000_01ffu64 == 0)
        &&& (word & 0x8000_0000_0000_01ffu64) & !0x8000_0000_0000_01ffu64 == 0
        &&& (word & 0x8000_0000_0000_01ffu64) & 1u64 == word & 1u64
        &&& (word & 0x8000_0000_0000_01ffu64) & 0x80u64 == word & 0x80u64
    }) by (bit_vector);
}

/// Which bit patterns hold flag bits only: the constants, and what the set
/// operations make of such patterns.
pub proof fn lemma_flag_sets(a: u64, b: u64)
    ensures
        0u64 & !ALL_FLAGS == 0,
        ALL_FLAGS & !ALL_FLAGS == 0,
        PRESENT & !ALL_FLAGS == 0,
        WRITEABLE & !ALL_FLAGS == 0,
        HUGE_PAGE & !ALL_FLAGS == 0,
        (PRESENT | WRITEABLE) & !ALL_FLAGS == 0,
        (a & ALL_FLAGS) & !ALL_FLAGS == 0,
        a & !ALL_FLAGS == 0 ==> (a & !b) & !ALL_FLAGS == 0,
        a & !ALL_FLAGS == 0 ==> (a | PRESENT) & !ALL_FLAGS == 0,
        word_present(a | PRESENT),
        word_huge(a | PRESENT) == word_huge(a),
        a & !ALL_FLAGS == 0 && b & !ALL_FLAGS == 0 ==> (a | b) & !ALL_FLAGS == 0,
{
    assert({
        &&& 0u64 & !0x8000_0000_0000_01ffu64 == 0
        &&& 0x8000_0000_0000_01ffu64 & !0x8000_0000_0000_01ffu64 == 0
        &&& 0x1u64 & !0x8000_0000_0000_01ffu64 == 0
        &&& 0x2u64 & !0x8000_0000_0000_01ffu64 == 0
        &&& 0x80u64 & !0x8000_0000_0000_01ffu64 == 0
        &&& (0x1u64 | 0x2u64) & !0x8000_0000_0000_01ffu64 == 0
        &&& (a & 0x8000_0000_0000_01ffu64) & !0x8000_0000_0000_01ffu64 == 0
        &&& (a & !0x8000_0000_0000_01ffu64 == 0 ==> (a & !b) & !0x8000_0000_0000_01ffu64 == 0)
        &&& (a & !0x8000_0000_0000_01ffu64 == 0 ==> (a | 0x1u64) & !0x8000_0000_0000_01ffu64 == 0)
        &&& (a | 0x1u64) & 0x1u64 == 0x1u64
        &&& (a | 0x1u64) & 0x80u64 == a & 0x80u64
        &&& (a & !0x8000_0000_0000_01ffu64 == 0 && b & !0x8000_0000_0000_01ffu64 == 0 ==> (a | b)
            & !0x8000_0000_0000_01ffu64 == 0)
    }) by (bit_vector);
}

/// A set of the flag bits of a slot. Only bits of `ALL_FLAGS` can be in it.
#[derive(Debug, Clone, Copy, PartialEq, Eq, Structural)]
pub struct EntryFlags {
    bits: u64,
}

impl View for EntryFlags {
    type V = u64;

    closed spec fn view(&self) -> u64 {
        self.bits
    }
}

impl EntryFlags {
    #[verifier::type_invariant]
    spec fn only_flag_bits(&self) -> bool {
        self.bits & !ALL_FLAGS == 0
    }

    /// The set without any flag.
    pub fn empty() -> (flags: EntryFlags)
        ensures
            flags@ == 0,
    {
        proof {
            lemma_flag_sets(0, 0);
        }
        EntryFlags { bits: 0 }
    }

    /// The set of every flag.
    pub fn all() -> (flags: EntryFlags)
        ensures
            flags@ == ALL_FLAGS,
    {
        proof {
            lemma_flag_sets(0, 0);
        }
        EntryFlags { bits: ALL_FLAGS }
    }

    /// The flags as a bit pattern.
    pub fn bits(&self) -> (bits: u64)
        ensures
            bits == self@,
            bits & !ALL_FLAGS == 0,
    {
        proof {
            use_type_invariant(self);
        }
        self.bits
    }

    /// The set with exactly these bits, if all of them are flag bits.
    pub fn from_bits(bits: u64) -> (flags: Option<EntryFlags>)
        ensures
            flags.is_some() <==> bits & !ALL_FLAGS == 0,
            flags matches Some(f) ==> f@ == bits,
    {
        if bits & !ALL_FLAGS == 0 {
            Some(EntryFlags { bits })
        } else {
            None
        }
    }

    /// The set of those of the bits that are flag bits.
    pub fn from_bits_truncate(bits: u64) -> (flags: EntryFlags)
        ensures
            flags@ == bits & ALL_FLAGS,
    {
        proof {
            lemma_flag_sets(bits, 0);
        }
        EntryFlags { bits: bits & ALL_FLAGS }
    }

    /// The set that holds only the present flag.
    pub fn present() -> (flags: EntryFlags)
        ensures
            flags@ == PRESENT,
    {
        proof {
            lemma_flag_sets(0, 0);
        }
        EntryFlags { bits: PRESENT }
    }

    /// The set that holds only the writeable flag.
    pub fn writeable() -> (flags: EntryFlags)
        ensures
            flags@ == WRITEABLE,
    {
        proof {
            lemma_flag_sets(0, 0);
        }
        EntryFlags { bits: WRITEABLE }
    }

    /// The set that holds only the huge-page flag.
    pub fn huge_page() -> (flags: EntryFlags)
        ensures
            flags@ == HUGE_PAGE,
    {
        proof {
            lemma_flag_sets(0, 0);
        }
        EntryFlags { bits: HUGE_PAGE }
    }

    /// The flags of a link to a child table: present and writeable.
    pub fn table_link() -> (flags: EntryFlags)
        ensures
            flags@ == PRESENT | WRITEABLE,
    {
        proof {
            lemma_flag_sets(0, 0);
        }
        EntryFlags { bits: PRESENT | WRITEABLE }
    }

    /// Whether no flag is in the set.
    pub fn is_empty(&self) -> (empty: bool)
        ensures
            empty == (self@ == 0),
    {
        self.bits == 0
    }

    /// Whether every flag of `other` is in the set.
    pub fn contains(&self, other: EntryFlags) -> (all_in: bool)
        ensures
            all_in == (self@ & other@ == other@),
    {
        self.bits & other.bits == other.bits
    }

    /// Whether some flag of `other` is in the set.
    pub fn intersects(&self, other: EntryFlags) -> (some_in: bool)
        ensures
            some_in == (self@ & other@ != 0),
    {
        self.bits & other.bits != 0
    }

    /// Puts the flags of `other` into the set.
    pub fn insert(&mut self, other: EntryFlags)
        ensures
            final(self)@ == old(self)@ | other@,
    {
        let joined = self.union(other);
        *self = joined;
    }

    /// Takes the flags of `other` out of the set.
    pub fn remove(&mut self, other: EntryFlags)
        ensures
            final(self)@ == old(self)@ & !other@,
    {
        proof {
            use_type_invariant(&*self);
        }
        let mine: u64 = self.bits;
        let theirs: u64 = other.bits;
        proof {
            lemma_flag_sets(mine, theirs);
        }
        *self = EntryFlags { bits: mine & !theirs };
    }

    /// The flags that are in either set.
    pub fn union(self, other: EntryFlags) -> (flags: EntryFlags)
        ensures
            flags@ == self@ | other@,
            flags@ & !ALL_FLAGS == 0,
    {
        proof {
            use_type_invariant(&self);
            use_type_invariant(&other);
        }
        let mine: u64 = self.bits;
        let theirs: u64 = other.bits;
        proof {
            lemma_flag_sets(mine, theirs);
        }
        EntryFlags { bits: mine | theirs }
    }
}

/// One slot of a page table: the address of a frame together with flags.
/// The all-zero value is the unused slot.
#[derive(Debug, Clone, Copy, PartialEq, Eq, Structural)]
pub struct Entry(u64);

impl View for Entry {
    type V = u64;

    closed spec fn view(&self) -> u64 {
        self.0
    }
}

impl Entry {
    /// The slot with this value.
    pub fn from_bits(word: u64) -> (entry: Entry)
        ensures
            entry@ == word,
    {
        Entry(word)
    }

    /// The value of the slot.
    pub fn bits(&self) -> (word: u64)
        ensures
            word == self@,
    {
        self.0
    }

    /// Whether the slot is the all-zero value.
    pub fn is_unused(&self) -> (unused: bool)
        ensures
            unused == (self@ == 0),
    {
        self.0 == 0
    }

    /// Makes the slot the all-zero value.
    pub fn set_unused(&mut self)
        ensures
            final(self)@ == 0,
    {
        self.0 = 0;
    }

    /// The flags of the slot.
    pub fn flags(&self) -> (flags: EntryFlags)
        ensures
            flags@ == word_flags(self@),
    {
        EntryFlags::from_bits_truncate(self.0)
    }

    /// The frame that the slot points to, if the slot is present.
    pub fn pointed_frame(&self) -> (frame: Option<Frame>)
        ensures
            frame == (if word_present(self@) {
                Some(Frame { number: word_frame(self@) as u64 })
            } else {
                None
            }),
            frame matches Some(f) ==> f.number < POINTABLE_LIMIT,
    {
        proof {
            lemma_word_basics(self.0);
        }
        if self.flags().contains(EntryFlags::present()) {
            Some(Frame::containing_address(self.0 & ADDRESS_MASK))
        } else {
            None
        }
    }

    /// Makes the slot point to `frame` with exactly the flags `flags`.
    pub fn set(&mut self, frame: Frame, flags: EntryFlags)
        requires
            frame.number < POINTABLE_LIMIT,
        ensures
            final(self)@ == encode(frame.number as int, flags@),
    {
        let bits = flags.bits();
        proof {
            lemma_encode_decode(frame.number as int, bits);
        }
        self.0 = frame.start_address() | bits;
    }
}

impl core::ops::BitOr for EntryFlags {
    type Output = EntryFlags;

    fn bitor(self, other: EntryFlags) -> (flags: EntryFlags)
        ensures
            flags@ == self@ | other@,
            flags@ & !ALL_FLAGS == 0,
    {
        self.union(other)
    }
}

impl vstd::std_specs::ops::BitOrSpecImpl for EntryFlags {
    open spec fn obeys_bitor_spec() -> bool {
        true
    }

    open spec fn bitor_req(self, other: EntryFlags) -> bool {
        true
    }

    closed spec fn bitor_spec(self, other: EntryFlags) -> EntryFlags {
        EntryFlags { bits: self.bits | other.bits }
    }
}

} // verus!
