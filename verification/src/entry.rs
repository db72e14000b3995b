//! One page-table entry: 64 bits holding a frame number and flag bits.
//!
//! The layout matches the hardware encoding: the frame number sits in
//! bits 12..=51, the flag bits in the low 12 bits, and everything else
//! is kept zero.

use vstd::prelude::*;

verus! {

/// The entry references a frame and takes part in translation.
pub const PRESENT: u64 = 0x1;

/// The mapped page may be written through.
pub const WRITABLE: u64 = 0x2;

/// The mapped page is reachable from user mode.
pub const USER_ACCESSIBLE: u64 = 0x4;

/// The entry terminates the walk early and maps a larger region.
pub const HUGE: u64 = 0x80;

/// Flag bits must fit in the low twelve bits of an entry.
pub const FLAGS_LIMIT: u64 = 0x1000;

/// Frame numbers must fit in the forty frame-number bits of an entry.
pub const FRAME_LIMIT: u64 = 0x100_0000_0000;

/// A set of page-table-entry flag bits.
#[derive(Copy, Clone, Debug, PartialEq, Eq, Structural)]
pub struct EntryFlags {
    /// The raw flag bits.
    pub bits: u64,
}

impl EntryFlags {
    /// No flag set.
    pub fn empty() -> (r: EntryFlags)
        ensures
            r.bits == 0,
    {
        EntryFlags { bits: 0 }
    }

    /// Flags from raw bits.
    pub fn from_bits(bits: u64) -> (r: EntryFlags)
        ensures
            r.bits == bits,
    {
        EntryFlags { bits }
    }

    /// The union of two flag sets.
    pub fn union(self, other: EntryFlags) -> (r: EntryFlags)
        ensures
            r.bits == self.bits | other.bits,
    {
        EntryFlags { bits: self.bits | other.bits }
    }
}

/// The entry takes part in translation.
pub open spec fn entry_present(e: u64) -> bool {
    e & PRESENT == PRESENT
}

/// The entry maps a larger-than-one-page region directly.
pub open spec fn entry_huge(e: u64) -> bool {
    e & HUGE == HUGE
}

/// The frame number an entry references.
pub open spec fn entry_frame(e: u64) -> u64 {
    (e >> 12) & 0xff_ffff_ffff
}

/// The flag bits of an entry.
pub open spec fn entry_flags(e: u64) -> u64 {
    e & 0xfff
}

/// The encoding of a frame number together with flag bits.
pub open spec fn entry_encode(frame: u64, flags: u64) -> u64 {
    (frame << 12) | flags
}

/// Build an entry from a frame number and flag bits.
pub fn encode_entry(frame: u64, flags: u64) -> (e: u64)
    requires
        frame < FRAME_LIMIT,
        flags < FLAGS_LIMIT,
    ensures
        e == entry_encode(frame, flags),
        entry_frame(e) == frame,
        entry_flags(e) == flags,
        entry_present(e) == (flags & PRESENT == PRESENT),
        entry_huge(e) == (flags & HUGE == HUGE),
{
    proof {
        lemma_entry_encode(frame, flags);
    }
    (frame << 12) | flags
}

/// Read the frame number out of an entry.
pub fn decode_frame(e: u64) -> (frame: u64)
    ensures
        frame == entry_frame(e),
        frame < FRAME_LIMIT,
{
    proof {
        lemma_entry_bounds(e);
    }
    (e >> 12) & 0xff_ffff_ffff
}

/// Decoding inverts encoding, field by field.
pub proof fn lemma_entry_encode(frame: u64, flags: u64)
    by (bit_vector)
    requires
        frame < 0x100_0000_0000,
        flags < 0x1000,
    ensures
        entry_frame(entry_encode(frame, flags)) == frame,
        entry_flags(entry_encode(frame, flags)) == flags,
        entry_present(entry_encode(frame, flags)) == (flags & 0x1 == 0x1),
        entry_huge(entry_encode(frame, flags)) == (flags & 0x80 == 0x80),
{
}

/// Decoded fields stay within their bit widths; the all-zero entry is
/// the unused entry.
pub proof fn lemma_entry_bounds(e: u64)
    by (bit_vector)
    ensures
        entry_frame(e) < 0x100_0000_0000,
        entry_flags(e) < 0x1000,
        !entry_present(0),
        !entry_huge(0),
        entry_frame(0) == 0,
{
}

/// The flag combinations written by the library itself.
pub proof fn lemma_flag_bits()
    by (bit_vector)
    ensures
        0x1u64 | 0x1u64 == 0x1u64,
        0x1u64 & 0x80u64 == 0u64,
        (0x1u64 | 0x2u64) & 0x1u64 == 0x1u64,
        (0x1u64 | 0x2u64) & 0x80u64 == 0u64,
        0x1u64 | 0x2u64 == 0x3u64,
        0x3u64 | 0x1u64 == 0x3u64,
        forall|f: u64| f < 0x1000 ==> (#[trigger] (f | 0x1)) < 0x1000 && (f | 0x1) & 0x1 == 0x1,
{
}

} // verus!
