//! The slotted page: a fixed-size buffer with a header, a slot directory
//! that grows upward and a cell region that grows downward.

use vstd::prelude::*;
pub use crate::ids::{PageID, PageType, RowID, SlotID};
use crate::compaction::{
    compacted, lemma_compacted, lemma_packing_done, lemma_packing_place, lemma_packing_skip,
    lemma_packing_start, packing,
};
use crate::error::PageError;
use crate::ids::{page_type_byte, page_type_of_byte};
use crate::layout::{
    read_u16, read_u64, splice, write_bytes, write_u16, write_u64, HEADER_FREE_END_OFFSET,
    HEADER_FREE_START_OFFSET, HEADER_SIZE, MAX_SLOTS, PAGE_HEADER_FLAG_OFFSET,
    PAGE_HEADER_ID_OFFSET, PAGE_SIZE, PAGE_SLOT_COUNT_OFFSET, PAGE_TYPE_OFFSET, SLOT_ENTRY_SIZE,
};
use crate::model::{
    can_append, can_insert, cells_ok, dead_bytes, decoded, fresh_page, hdr_flags, hdr_free_end,
    hdr_free_start, hdr_page_id, hdr_page_type, hdr_slot_count, inserted, layout_ok,
    lemma_fresh_page, lemma_inserted, lemma_payload_bytes_prefix, lemma_with_flags, lemma_with_slot,
    lemma_with_slot_records, lemma_with_tombstone, live_bytes, payload_bytes, record, records,
    same_identity, slot_fits, slot_is_tombstone, slot_len, slot_live, slot_offset, with_cell,
    with_flags, with_slot, with_tombstone,
};
use crate::slot_dir::{dir_entry, SlotDir};

verus! {

/// One entry of the slot directory: where a cell starts and how long it is.
#[derive(Clone, Copy, Debug, PartialEq, Eq, Structural)]
pub struct SlotEntry {
    /// Where the cell starts in the page.
    pub offset: u16,
    /// How many bytes the cell has.
    pub len: u16,
}

/// The bytes of a slot entry: the offset, then the length, each in two
/// bytes, little-endian.
pub open spec fn entry_image(e: SlotEntry) -> Seq<u8> {
    seq![
        (e.offset % 256) as u8,
        (e.offset / 256) as u8,
        (e.len % 256) as u8,
        (e.len / 256) as u8,
    ]
}

impl SlotEntry {
    /// The bytes of the entry as they stand in a slot directory.
    pub fn to_bytes(&self) -> (bytes: [u8; SLOT_ENTRY_SIZE])
        ensures
            bytes@ == entry_image(*self),
            dir_entry(bytes@, 0) == *self,
    {
        let bytes = [
            (self.offset % 256) as u8,
            (self.offset / 256) as u8,
            (self.len % 256) as u8,
            (self.len / 256) as u8,
        ];
        assert(bytes@ =~= entry_image(*self));
        bytes
    }

    /// The entry that four bytes of a slot directory stand for.
    pub fn from_bytes(bytes: &[u8; SLOT_ENTRY_SIZE]) -> (e: SlotEntry)
        ensures
            e == dir_entry(bytes@, 0),
            entry_image(e) == bytes@,
    {
        let e = SlotEntry { offset: read_u16(bytes, 0), len: read_u16(bytes, 2) };
        assert(entry_image(e) =~= bytes@);
        e
    }
}

/// The fields of a page header.
#[derive(Clone, Copy, Debug, PartialEq, Eq, Structural)]
pub struct Header {
    /// Identifier of the page.
    pub page_id: u64,
    /// Flags of the page.
    pub flags: u16,
    /// The byte that stands for the type of the page.
    pub page_type: u8,
    /// Number of slots in the directory, removed ones included.
    pub slot_count: u8,
    /// Where the free region starts.
    pub free_start: u16,
    /// Where the free region ends.
    pub free_end: u16,
}

/// A page of `PAGE_SIZE` bytes in the slotted format.
#[derive(Debug)]
pub struct Page {
    slotted_page: [u8; PAGE_SIZE],
}

impl View for Page {
    type V = Seq<u8>;

    /// The bytes of the page.
    closed spec fn view(&self) -> Seq<u8> {
        self.slotted_page@
    }
}

impl Page {
    /// The layout invariant holds of the page.
    pub open spec fn wf(&self) -> bool {
        layout_ok(self@)
    }

    /// The layout invariant and the cell invariant hold of the page.
    pub open spec fn cells_wf(&self) -> bool {
        cells_ok(self@)
    }

    /// The records of the page by slot number.
    pub open spec fn records(&self) -> Seq<Option<Seq<u8>>> {
        records(self@)
    }

    /// Number of slots in the directory, removed ones included.
    pub open spec fn spec_slot_count(&self) -> u8 {
        hdr_slot_count(self@) as u8
    }

    /// Where the free region starts.
    pub open spec fn spec_free_start(&self) -> usize {
        hdr_free_start(self@) as usize
    }

    /// Where the free region ends.
    pub open spec fn spec_free_end(&self) -> usize {
        hdr_free_end(self@) as usize
    }

    /// Makes an empty page: all bytes zero but the header, which holds the
    /// identifier, the type, no slots, and a free region from the end of
    /// the header to the end of the page.
    pub fn new(page_id: PageID, page_type: PageType) -> (page: Page)
        ensures
            page@ == fresh_page(page_id.0, page_type),
            page.cells_wf(),
            page.records() == Seq::<Option<Seq<u8>>>::empty(),
            hdr_page_id(page@) == page_id.0,
            hdr_flags(page@) == 0,
            hdr_page_type(page@) == page_type_byte(page_type),
            hdr_slot_count(page@) == 0,
            hdr_free_start(page@) == HEADER_SIZE,
            hdr_free_end(page@) == PAGE_SIZE,
    {
        let mut slotted_page = [0u8; PAGE_SIZE];
        assert(slotted_page@ =~= Seq::new(PAGE_SIZE as nat, |i: int| 0u8));
        write_u64(&mut slotted_page, PAGE_HEADER_ID_OFFSET, page_id.0);
        slotted_page[PAGE_TYPE_OFFSET] = u8::from(page_type);
        write_u16(&mut slotted_page, HEADER_FREE_START_OFFSET, HEADER_SIZE as u16);
        write_u16(&mut slotted_page, HEADER_FREE_END_OFFSET, PAGE_SIZE as u16);
        proof {
            lemma_fresh_page(page_id.0, page_type);
        }
        Page { slotted_page }
    }

    /// The bytes of the page, as they are stored.
    pub fn as_bytes(&self) -> (bytes: &[u8; PAGE_SIZE])
        ensures
            bytes@ == self@,
    {
        &self.slotted_page
    }

    /// Takes `bytes` as a page if the layout invariant holds of them.
    pub fn from_bytes(bytes: [u8; PAGE_SIZE]) -> (r: Option<Page>)
        ensures
            match r {
                Some(page) => decoded(bytes@) == Some(page@) && page.wf(),
                None => decoded(bytes@) is None,
            },
    {
        let t = bytes[PAGE_TYPE_OFFSET];
        let n: usize = bytes[PAGE_SLOT_COUNT_OFFSET] as usize;
        let fs: usize = read_u16(&bytes, HEADER_FREE_START_OFFSET) as usize;
        let fe: usize = read_u16(&bytes, HEADER_FREE_END_OFFSET) as usize;
        if (t == 1 || t == 2) && fs == HEADER_SIZE + SLOT_ENTRY_SIZE * n && fs <= fe && fe
            <= PAGE_SIZE {
            Some(Page { slotted_page: bytes })
        } else {
            None
        }
    }

    /// Identifier of the page.
    pub fn page_id(&self) -> (id: PageID)
        ensures
            id.0 == hdr_page_id(self@),
    {
        PageID(read_u64(&self.slotted_page, PAGE_HEADER_ID_OFFSET))
    }

    /// Flags of the page.
    pub fn flags(&self) -> (f: u16)
        ensures
            f == hdr_flags(self@),
    {
        read_u16(&self.slotted_page, PAGE_HEADER_FLAG_OFFSET)
    }

    /// Gives the page new flags. Nothing else changes.
    pub fn set_flags(&mut self, flags: u16)
        requires
            old(self).wf(),
        ensures
            final(self).wf(),
            final(self)@ == with_flags(old(self)@, flags as int),
            hdr_flags(final(self)@) == flags,
            hdr_page_id(final(self)@) == hdr_page_id(old(self)@),
            hdr_page_type(final(self)@) == hdr_page_type(old(self)@),
            hdr_slot_count(final(self)@) == hdr_slot_count(old(self)@),
            hdr_free_start(final(self)@) == hdr_free_start(old(self)@),
            hdr_free_end(final(self)@) == hdr_free_end(old(self)@),
            final(self).records() == old(self).records(),
            old(self).cells_wf() ==> final(self).cells_wf(),
    {
        proof {
            lemma_with_flags(self@, flags as int);
        }
        write_u16(&mut self.slotted_page, PAGE_HEADER_FLAG_OFFSET, flags);
    }

    /// Type of the page.
    pub fn page_type(&self) -> (t: PageType)
        requires
            self.wf(),
        ensures
            Some(t) == page_type_of_byte(hdr_page_type(self@)),
    {
        if self.slotted_page[PAGE_TYPE_OFFSET] == 1 {
            PageType::Internal
        } else {
            PageType::Leaf
        }
    }

    /// Number of slots in the directory, removed ones included.
    #[verifier::when_used_as_spec(spec_slot_count)]
    pub fn slot_count(&self) -> (n: u8)
        ensures
            n == hdr_slot_count(self@),
            n == self.spec_slot_count(),
    {
        self.slotted_page[PAGE_SLOT_COUNT_OFFSET]
    }

    /// Where the free region starts: the end of the slot directory.
    #[verifier::when_used_as_spec(spec_free_start)]
    pub fn free_start(&self) -> (at: usize)
        ensures
            at == hdr_free_start(self@),
            at == self.spec_free_start(),
    {
        read_u16(&self.slotted_page, HEADER_FREE_START_OFFSET) as usize
    }

    /// Where the free region ends: the start of the lowest cell.
    #[verifier::when_used_as_spec(spec_free_end)]
    pub fn free_end(&self) -> (at: usize)
        ensures
            at == hdr_free_end(self@),
            at == self.spec_free_end(),
    {
        read_u16(&self.slotted_page, HEADER_FREE_END_OFFSET) as usize
    }

    /// The header, field by field.
    pub fn header(&self) -> (h: Header)
        ensures
            h.page_id == hdr_page_id(self@),
            h.flags == hdr_flags(self@),
            h.page_type == hdr_page_type(self@),
            h.slot_count == hdr_slot_count(self@),
            h.free_start == hdr_free_start(self@),
            h.free_end == hdr_free_end(self@),
    {
        Header {
            page_id: read_u64(&self.slotted_page, PAGE_HEADER_ID_OFFSET),
            flags: read_u16(&self.slotted_page, PAGE_HEADER_FLAG_OFFSET),
            page_type: self.slotted_page[PAGE_TYPE_OFFSET],
            slot_count: self.slotted_page[PAGE_SLOT_COUNT_OFFSET],
            free_start: read_u16(&self.slotted_page, HEADER_FREE_START_OFFSET),
            free_end: read_u16(&self.slotted_page, HEADER_FREE_END_OFFSET),
        }
    }

    /// Appends `slot` to the slot directory as it is, without storing a
    /// cell. Fails, leaving the page as it was, when the free region is
    /// smaller than an entry or the directory already holds `MAX_SLOTS`
    /// entries.
    ///
    /// The layout invariant is kept. The cell invariant is kept when `slot`
    /// is the tombstone, or addresses a cell inside the cell region whose
    /// length the cell region still has to spare: the bytes that the entry
    /// addresses are then the record of the new slot.
    pub fn insert_slot(&mut self, slot: SlotEntry) -> (r: Result<(), PageError>)
        requires
            old(self).wf(),
        ensures
            final(self).wf(),
            r is Ok <==> can_append(old(self)@),
            r is Err ==> r == Err::<(), PageError>(PageError::InsufficientSpace) && final(self)@
                == old(self)@,
            r is Ok ==> {
                &&& final(self)@ == with_slot(old(self)@, slot.offset as int, slot.len as int)
                &&& same_identity(old(self)@, final(self)@)
                &&& hdr_slot_count(final(self)@) == hdr_slot_count(old(self)@) + 1
                &&& hdr_free_start(final(self)@) == hdr_free_start(old(self)@) + SLOT_ENTRY_SIZE
                &&& hdr_free_end(final(self)@) == hdr_free_end(old(self)@)
                &&& slot_offset(final(self)@, hdr_slot_count(old(self)@)) == slot.offset
                &&& slot_len(final(self)@, hdr_slot_count(old(self)@)) == slot.len
                &&& old(self).cells_wf() && slot_fits(
                    old(self)@,
                    slot.offset as int,
                    slot.len as int,
                ) ==> final(self).cells_wf() && final(self).records() == old(self).records().push(
                    if slot.offset == 0 && slot.len == 0 {
                        None
                    } else {
                        Some(
                            old(self)@.subrange(
                                slot.offset as int,
                                slot.offset as int + slot.len as int,
                            ),
                        )
                    },
                )
            },
    {
        let free_start = self.free_start();
        let free_end = self.free_end();
        let count = self.slot_count();
        if free_end - free_start < SLOT_ENTRY_SIZE || count as usize >= MAX_SLOTS {
            return Err(PageError::InsufficientSpace);
        }
        proof {
            lemma_with_slot(self@, slot.offset as int, slot.len as int);
            if self.cells_wf() && slot_fits(self@, slot.offset as int, slot.len as int) {
                lemma_with_slot_records(self@, slot.offset as int, slot.len as int);
            }
        }
        write_u16(&mut self.slotted_page, free_start, slot.offset);
        write_u16(&mut self.slotted_page, free_start + 2, slot.len);
        self.slotted_page[PAGE_SLOT_COUNT_OFFSET] = count + 1;
        write_u16(
            &mut self.slotted_page,
            HEADER_FREE_START_OFFSET,
            (free_start + SLOT_ENTRY_SIZE) as u16,
        );
        Ok(())
    }

    /// Stores `payload` as a new record and returns its slot. The cell is
    /// taken from the top of the free region, the slot entry from its
    /// bottom. Fails, leaving the page as it was, when the free region is
    /// smaller than an entry and the payload together, or the directory
    /// already holds `MAX_SLOTS` entries.
    pub fn insert(&mut self, payload: &[u8]) -> (r: Result<SlotID, PageError>)
        requires
            old(self).wf(),
        ensures
            final(self).wf(),
            r is Ok <==> can_insert(old(self)@, payload@.len() as int),
            r is Err ==> r == Err::<SlotID, PageError>(PageError::InsufficientSpace)
                && final(self)@ == old(self)@,
            r is Ok ==> {
                &&& r->Ok_0.0 == hdr_slot_count(old(self)@)
                &&& final(self)@ == inserted(old(self)@, payload@)
                &&& same_identity(old(self)@, final(self)@)
                &&& hdr_slot_count(final(self)@) == hdr_slot_count(old(self)@) + 1
                &&& hdr_free_start(final(self)@) == hdr_free_start(old(self)@) + SLOT_ENTRY_SIZE
                &&& hdr_free_end(final(self)@) == hdr_free_end(old(self)@) - payload@.len()
                &&& record(final(self)@, hdr_slot_count(old(self)@)) == Some(payload@)
                &&& old(self).cells_wf() ==> final(self).cells_wf() && final(self).records()
                    == old(self).records().push(Some(payload@))
            },
    {
        let len = payload.len();
        let free_start = self.free_start();
        let free_end = self.free_end();
        let count = self.slot_count();
        if count as usize >= MAX_SLOTS || free_end - free_start < SLOT_ENTRY_SIZE || free_end
            - free_start - SLOT_ENTRY_SIZE < len {
            return Err(PageError::InsufficientSpace);
        }
        proof {
            lemma_inserted(self@, payload@);
        }
        let offset = free_end - len;
        write_bytes(&mut self.slotted_page, offset, payload);
        write_u16(&mut self.slotted_page, HEADER_FREE_END_OFFSET, offset as u16);
        assert(self@ == with_cell(old(self)@, payload@));
        let _ = self.insert_slot(SlotEntry { offset: offset as u16, len: len as u16 });
        Ok(SlotID(count as u16))
    }

    /// The bytes stored under `slot_id`, or `None` when the slot does not
    /// exist or is not live.
    pub fn get(&self, slot_id: SlotID) -> (r: Option<&[u8]>)
        requires
            self.wf(),
        ensures
            r is Some <==> slot_live(self@, slot_id.0 as int),
            match r {
                Some(bytes) => record(self@, slot_id.0 as int) == Some(bytes@),
                None => record(self@, slot_id.0 as int) is None,
            },
    {
        let i = slot_id.0 as usize;
        if i >= self.slot_count() as usize {
            return None;
        }
        let entry = self.entry_at(i);
        let offset = entry.offset as usize;
        let len = entry.len as usize;
        if offset < self.free_end() || offset + len > PAGE_SIZE {
            return None;
        }
        Some(vstd::slice::slice_subrange(self.slotted_page.as_slice(), offset, offset + len))
    }

    /// Removes the record under `slot_id`: its entry becomes the tombstone.
    /// The slot keeps its number and the cell's bytes stay where they are.
    /// Fails, leaving the page as it was, when the slot does not exist or is
    /// not live.
    pub fn remove(&mut self, slot_id: SlotID) -> (r: Result<(), PageError>)
        requires
            old(self).wf(),
        ensures
            final(self).wf(),
            r is Ok <==> slot_live(old(self)@, slot_id.0 as int),
            r is Err ==> r == Err::<(), PageError>(PageError::InvalidSlot) && final(self)@ == old(
                self,
            )@,
            r is Ok ==> {
                &&& final(self)@ == with_tombstone(old(self)@, slot_id.0 as int)
                &&& same_identity(old(self)@, final(self)@)
                &&& hdr_slot_count(final(self)@) == hdr_slot_count(old(self)@)
                &&& hdr_free_start(final(self)@) == hdr_free_start(old(self)@)
                &&& hdr_free_end(final(self)@) == hdr_free_end(old(self)@)
                &&& final(self).records() == old(self).records().update(slot_id.0 as int, None)
                &&& old(self).cells_wf() ==> final(self).cells_wf()
            },
    {
        let i = slot_id.0 as usize;
        if i >= self.slot_count() as usize {
            return Err(PageError::InvalidSlot);
        }
        let entry = self.entry_at(i);
        if (entry.offset as usize) < self.free_end() || entry.offset as usize + entry.len as usize
            > PAGE_SIZE {
            return Err(PageError::InvalidSlot);
        }
        proof {
            lemma_with_tombstone(self@, i as int);
        }
        let at = HEADER_SIZE + SLOT_ENTRY_SIZE * i;
        write_u16(&mut self.slotted_page, at, 0);
        write_u16(&mut self.slotted_page, at + 2, 0);
        Ok(())
    }

    /// The entry of slot `i` as it is stored.
    pub fn entry_at(&self, i: usize) -> (e: SlotEntry)
        requires
            self.wf(),
            i < hdr_slot_count(self@),
        ensures
            e.offset == slot_offset(self@, i as int),
            e.len == slot_len(self@, i as int),
    {
        let at = HEADER_SIZE + SLOT_ENTRY_SIZE * i;
        SlotEntry {
            offset: read_u16(&self.slotted_page, at),
            len: read_u16(&self.slotted_page, at + 2),
        }
    }

    /// The slot directory as a view into the page. Entries that are
    /// changed through the view are changed in the page; the header and
    /// the cells are out of its reach, so the layout invariant holds
    /// whatever is done through the view.
    pub fn slot_dir_mut(&mut self) -> (dir: SlotDir<'_>)
        requires
            old(self).wf(),
        ensures
            dir.wf(),
            dir@ == old(self)@.subrange(HEADER_SIZE as int, hdr_free_start(old(self)@)),
            dir.entries().len() == hdr_slot_count(old(self)@),
            forall|i: int|
                0 <= i < hdr_slot_count(old(self)@) ==> #[trigger] dir.entries()[i] == (SlotEntry {
                    offset: slot_offset(old(self)@, i) as u16,
                    len: slot_len(old(self)@, i) as u16,
                }),
            final(self)@ == splice(old(self)@, HEADER_SIZE as int, final(dir.se)@),
            final(self).wf(),
            same_identity(old(self)@, final(self)@),
            hdr_slot_count(final(self)@) == hdr_slot_count(old(self)@),
            hdr_free_start(final(self)@) == hdr_free_start(old(self)@),
            hdr_free_end(final(self)@) == hdr_free_end(old(self)@),
    {
        let lower = self.free_start();
        let sc = self.slot_count() as usize;
        let all: &mut [u8] = &mut self.slotted_page;
        let (header, rest) = all.split_at_mut(HEADER_SIZE);
        let (slot_bytes, cells) = rest.split_at_mut(lower - HEADER_SIZE);
        let dir = SlotDir::from_raw_bytes_mut(sc, slot_bytes);
        proof {
            assert(dir@ =~= old(self)@.subrange(HEADER_SIZE as int, lower as int));
            assert forall|i: int| 0 <= i < sc implies #[trigger] dir.entries()[i] == (SlotEntry {
                offset: slot_offset(old(self)@, i) as u16,
                len: slot_len(old(self)@, i) as u16,
            }) by {
                assert(dir.entries()[i] == dir_entry(dir@, i));
            }
        }
        dir
    }

    /// Packs the live cells against the end of the page in slot order and
    /// zeroes the free region. Slots keep their numbers and their records;
    /// afterwards the cell region holds live cells only.
    pub fn compact(&mut self)
        requires
            old(self).cells_wf(),
        ensures
            final(self)@ == compacted(old(self)@),
            final(self).cells_wf(),
            final(self).records() == old(self).records(),
            same_identity(old(self)@, final(self)@),
            hdr_slot_count(final(self)@) == hdr_slot_count(old(self)@),
            hdr_free_start(final(self)@) == hdr_free_start(old(self)@),
            hdr_free_end(final(self)@) == PAGE_SIZE - live_bytes(old(self)@),
            hdr_free_end(old(self)@) <= hdr_free_end(final(self)@),
    {
        let count = self.slot_count() as usize;
        let free_start = self.free_start();
        let free_end = self.free_end();
        let ghost s = self@;
        let mut fresh = [0u8; PAGE_SIZE];
        assert(fresh@ =~= Seq::new(PAGE_SIZE as nat, |x: int| 0u8));
        write_bytes(
            &mut fresh,
            0,
            vstd::slice::slice_subrange(self.slotted_page.as_slice(), 0, free_start),
        );
        let mut top: usize = PAGE_SIZE;
        let mut i: usize = 0;
        proof {
            lemma_packing_start(s, fresh@);
        }
        while i < count
            invariant
                self@ == s,
                cells_ok(s),
                count == hdr_slot_count(s),
                free_end == hdr_free_end(s),
                top <= PAGE_SIZE,
                packing(s, fresh@, i as int, top as int),
            decreases count - i,
        {
            let entry = self.entry_at(i);
            let offset = entry.offset as usize;
            let len = entry.len as usize;
            if offset >= free_end && offset + len <= PAGE_SIZE {
                proof {
                    lemma_packing_place(s, fresh@, i as int, top as int);
                }
                top = top - len;
                write_bytes(
                    &mut fresh,
                    top,
                    vstd::slice::slice_subrange(self.slotted_page.as_slice(), offset, offset + len),
                );
                write_u16(&mut fresh, HEADER_SIZE + SLOT_ENTRY_SIZE * i, top as u16);
            } else {
                proof {
                    lemma_packing_skip(s, fresh@, i as int, top as int);
                }
            }
            i = i + 1;
        }
        proof {
            lemma_packing_done(s, fresh@, top as int);
            lemma_compacted(s);
        }
        write_u16(&mut fresh, HEADER_FREE_END_OFFSET, top as u16);
        self.slotted_page = fresh;
    }

    /// A copy of the page.
    pub fn duplicate(&self) -> (copy: Page)
        ensures
            copy@ == self@,
    {
        Page { slotted_page: self.slotted_page }
    }

    /// Bytes held by the live cells.
    pub fn live_bytes(&self) -> (n: usize)
        requires
            self.wf(),
        ensures
            n == live_bytes(self@),
            n <= MAX_SLOTS * PAGE_SIZE,
    {
        let count = self.slot_count() as usize;
        let free_end = self.free_end();
        let ghost r = records(self@);
        let mut total: usize = 0;
        let mut i: usize = 0;
        proof {
            assert(r.take(0) =~= Seq::<Option<Seq<u8>>>::empty());
        }
        while i < count
            invariant
                self.wf(),
                r == records(self@),
                count == hdr_slot_count(self@),
                free_end == hdr_free_end(self@),
                i <= count,
                total == payload_bytes(r.take(i as int)),
                total <= i * PAGE_SIZE,
            decreases count - i,
        {
            let entry = self.entry_at(i);
            proof {
                lemma_payload_bytes_prefix(r, i as int);
                assert(r[i as int] == record(self@, i as int));
            }
            if entry.offset as usize >= free_end && entry.offset as usize + entry.len as usize
                <= PAGE_SIZE {
                total = total + entry.len as usize;
            }
            i = i + 1;
        }
        proof {
            assert(r.take(count as int) =~= r);
        }
        total
    }

    /// Whether the cell invariant holds of the page.
    pub fn check_cells(&self) -> (ok: bool)
        requires
            self.wf(),
        ensures
            ok == self.cells_wf(),
    {
        let count = self.slot_count() as usize;
        let free_end = self.free_end();
        let mut i: usize = 0;
        while i < count
            invariant
                self.wf(),
                count == hdr_slot_count(self@),
                free_end == hdr_free_end(self@),
                i <= count,
                forall|j: int|
                    0 <= j < i ==> #[trigger] slot_live(self@, j) || slot_is_tombstone(self@, j),
            decreases count - i,
        {
            let entry = self.entry_at(i);
            let live = entry.offset as usize >= free_end && entry.offset as usize
                + entry.len as usize <= PAGE_SIZE;
            if !live && !(entry.offset == 0 && entry.len == 0) {
                assert(!(slot_live(self@, i as int) || slot_is_tombstone(self@, i as int)));
                return false;
            }
            i = i + 1;
        }
        self.live_bytes() <= PAGE_SIZE - free_end
    }

    /// Bytes of the cell region that no live cell holds.
    pub fn dead_bytes(&self) -> (n: usize)
        requires
            self.cells_wf(),
        ensures
            n == dead_bytes(self@),
    {
        PAGE_SIZE - self.free_end() - self.live_bytes()
    }
}

} // verus!
