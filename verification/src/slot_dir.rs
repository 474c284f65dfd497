//! The slot directory of a page, as a view into the page's own bytes.

use vstd::prelude::*;
use crate::error::PageError;
use crate::ids::SlotID;
use crate::layout::{put_u16, read_u16, u16_at, write_u16, SLOT_ENTRY_SIZE};
use crate::page::SlotEntry;

verus! {

/// The entry stored at position `i` of a directory's bytes.
pub open spec fn dir_entry(s: Seq<u8>, i: int) -> SlotEntry {
    SlotEntry {
        offset: u16_at(s, SLOT_ENTRY_SIZE * i) as u16,
        len: u16_at(s, SLOT_ENTRY_SIZE * i + 2) as u16,
    }
}

/// The entries that a directory's bytes hold.
pub open spec fn dir_entries(s: Seq<u8>) -> Seq<SlotEntry> {
    Seq::new((s.len() / SLOT_ENTRY_SIZE as nat) as nat, |i: int| dir_entry(s, i))
}

/// The entry that marks a removed slot.
pub open spec fn tombstone_entry() -> SlotEntry {
    SlotEntry { offset: 0, len: 0 }
}

/// The first position at or after `from` where `entries` holds `e`, or the
/// length of `entries` if there is none.
pub open spec fn first_match(entries: Seq<SlotEntry>, e: SlotEntry, from: int) -> int
    decreases entries.len() - from,
{
    if from >= entries.len() {
        entries.len() as int
    } else if entries[from] == e {
        from
    } else {
        first_match(entries, e, from + 1)
    }
}

/// The slot directory of a page. It borrows the directory's bytes from the
/// page: what is changed through it is changed in the page.
pub struct SlotDir<'a> {
    /// The bytes of the directory, four to an entry.
    pub se: &'a mut [u8],
}

impl<'a> SlotDir<'a> {
    /// The directory's bytes as they are now.
    pub open spec fn view(&self) -> Seq<u8> {
        self.se@
    }

    /// The directory covers a whole number of entries.
    pub open spec fn wf(&self) -> bool {
        self@.len() % SLOT_ENTRY_SIZE as nat == 0
    }

    /// The entries of the directory by slot number.
    pub open spec fn entries(&self) -> Seq<SlotEntry> {
        dir_entries(self@)
    }

    /// Takes `bytes` as a directory of `slot_count` entries.
    pub fn from_raw_bytes_mut(slot_count: usize, bytes: &'a mut [u8]) -> (dir: SlotDir<'a>)
        requires
            old(bytes).len() == slot_count * SLOT_ENTRY_SIZE,
        ensures
            dir.wf(),
            dir@ == old(bytes)@,
            dir.entries().len() == slot_count,
            final(bytes)@ == final(dir.se)@,
    {
        SlotDir { se: bytes }
    }

    /// Number of entries.
    pub fn len(&self) -> (n: usize)
        requires
            self.wf(),
        ensures
            n == self.entries().len(),
    {
        self.se.len() / SLOT_ENTRY_SIZE
    }

    /// The entry of `slot`, or `None` when the directory has no such slot.
    pub fn get(&self, slot: SlotID) -> (r: Option<SlotEntry>)
        requires
            self.wf(),
        ensures
            r == if slot.0 < self.entries().len() {
                Some(self.entries()[slot.0 as int])
            } else {
                None
            },
    {
        let i = slot.0 as usize;
        if i >= self.se.len() / SLOT_ENTRY_SIZE {
            return None;
        }
        let at = SLOT_ENTRY_SIZE * i;
        Some(SlotEntry { offset: read_u16(self.se, at), len: read_u16(self.se, at + 2) })
    }

    /// The first slot whose entry equals `entry`, found by scanning the
    /// directory from slot 0 up.
    pub fn find(&self, entry: SlotEntry) -> (r: Option<SlotID>)
        requires
            self.wf(),
            self.entries().len() <= 0x1_0000,
        ensures
            r == if first_match(self.entries(), entry, 0) < self.entries().len() {
                Some(SlotID(first_match(self.entries(), entry, 0) as u16))
            } else {
                None
            },
    {
        let n = self.se.len() / SLOT_ENTRY_SIZE;
        let mut i: usize = 0;
        while i < n
            invariant
                self.wf(),
                n == self.entries().len(),
                n <= 0x1_0000,
                i <= n,
                first_match(self.entries(), entry, 0) == first_match(
                    self.entries(),
                    entry,
                    i as int,
                ),
            decreases n - i,
        {
            let at = SLOT_ENTRY_SIZE * i;
            let offset = read_u16(self.se, at);
            let len = read_u16(self.se, at + 2);
            if offset == entry.offset && len == entry.len {
                return Some(SlotID(i as u16));
            }
            i = i + 1;
        }
        None
    }

    /// Turns the entry of `slot` into the tombstone. Fails, leaving the
    /// directory as it was, when it has no such slot or the slot already
    /// holds the tombstone.
    pub fn tombstone(&mut self, slot: SlotID) -> (r: Result<(), PageError>)
        requires
            old(self).wf(),
        ensures
            final(self).wf(),
            final(final(self).se)@ == final(old(self).se)@,
            r is Ok <==> slot.0 < old(self).entries().len() && old(self).entries()[slot.0 as int]
                != tombstone_entry(),
            r is Err ==> r == Err::<(), PageError>(PageError::InvalidSlot) && final(self)@ == old(
                self,
            )@,
            r is Ok ==> final(self)@ == put_u16(
                put_u16(old(self)@, SLOT_ENTRY_SIZE * slot.0, 0),
                SLOT_ENTRY_SIZE * slot.0 + 2,
                0,
            ) && final(self).entries() == old(self).entries().update(
                slot.0 as int,
                tombstone_entry(),
            ),
    {
        let i = slot.0 as usize;
        if i >= self.se.len() / SLOT_ENTRY_SIZE {
            return Err(PageError::InvalidSlot);
        }
        let at = SLOT_ENTRY_SIZE * i;
        if read_u16(self.se, at) == 0 && read_u16(self.se, at + 2) == 0 {
            return Err(PageError::InvalidSlot);
        }
        write_u16(self.se, at, 0);
        write_u16(self.se, at + 2, 0);
        assert(self.entries() =~= old(self).entries().update(slot.0 as int, tombstone_entry()));
        Ok(())
    }
}

} // verus!
