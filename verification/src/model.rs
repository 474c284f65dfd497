//! What the bytes of a page mean: header fields, slot entries, records.
//!
//! A page is `PAGE_SIZE` bytes. The header takes the first `HEADER_SIZE`
//! bytes, the slot directory follows it up to `free_start`, the free region
//! runs from `free_start` to `free_end`, and the cells fill the rest.
//!
//! A slot entry is four bytes: the 16-bit offset of its cell and the cell's
//! 16-bit length. A slot is live when its entry addresses bytes inside the
//! cell region. A removed slot holds the tombstone entry, offset 0 and
//! length 0, which addresses the header and so is never live.

use vstd::prelude::*;
use crate::ids::{page_type_byte, page_type_of_byte, PageType};
use crate::layout::{
    lemma_put_u64, put_u16, put_u64, splice, u16_at, u64_at, HEADER_FREE_END_OFFSET,
    HEADER_FREE_START_OFFSET, HEADER_SIZE, MAX_SLOTS, PAGE_HEADER_FLAG_OFFSET,
    PAGE_HEADER_ID_OFFSET, PAGE_SIZE, PAGE_SLOT_COUNT_OFFSET, PAGE_TYPE_OFFSET, SLOT_ENTRY_SIZE,
};

verus! {

/// The page identifier in the header of page `s`.
pub open spec fn hdr_page_id(s: Seq<u8>) -> int {
    u64_at(s, PAGE_HEADER_ID_OFFSET as int)
}

/// The flags in the header of page `s`.
pub open spec fn hdr_flags(s: Seq<u8>) -> int {
    u16_at(s, PAGE_HEADER_FLAG_OFFSET as int)
}

/// The byte for the page type in the header of page `s`.
pub open spec fn hdr_page_type(s: Seq<u8>) -> u8 {
    s[PAGE_TYPE_OFFSET as int]
}

/// The number of slots in the directory of page `s`, removed ones
/// included.
pub open spec fn hdr_slot_count(s: Seq<u8>) -> int {
    s[PAGE_SLOT_COUNT_OFFSET as int] as int
}

/// Where the free region of page `s` starts.
pub open spec fn hdr_free_start(s: Seq<u8>) -> int {
    u16_at(s, HEADER_FREE_START_OFFSET as int)
}

/// Where the free region of page `s` ends.
pub open spec fn hdr_free_end(s: Seq<u8>) -> int {
    u16_at(s, HEADER_FREE_END_OFFSET as int)
}

/// The layout invariant of a page: the page type is a known one, the slot
/// directory ends where the free region starts, and the free region lies
/// inside the page.
pub open spec fn layout_ok(s: Seq<u8>) -> bool {
    &&& s.len() == PAGE_SIZE
    &&& page_type_of_byte(hdr_page_type(s)) is Some
    &&& hdr_free_start(s) == HEADER_SIZE + SLOT_ENTRY_SIZE * hdr_slot_count(s)
    &&& hdr_free_start(s) <= hdr_free_end(s) <= PAGE_SIZE
}

/// Where the entry of slot `i` starts.
pub open spec fn slot_pos(i: int) -> int {
    HEADER_SIZE + SLOT_ENTRY_SIZE * i
}

/// The offset that the entry of slot `i` holds.
pub open spec fn slot_offset(s: Seq<u8>, i: int) -> int {
    u16_at(s, slot_pos(i))
}

/// The length that the entry of slot `i` holds.
pub open spec fn slot_len(s: Seq<u8>, i: int) -> int {
    u16_at(s, slot_pos(i) + 2)
}

/// Slot `i` exists and its entry addresses bytes inside the cell region.
pub open spec fn slot_live(s: Seq<u8>, i: int) -> bool {
    &&& 0 <= i < hdr_slot_count(s)
    &&& hdr_free_end(s) <= slot_offset(s, i)
    &&& slot_offset(s, i) + slot_len(s, i) <= PAGE_SIZE
}

/// The entry of slot `i` is the tombstone.
pub open spec fn slot_is_tombstone(s: Seq<u8>, i: int) -> bool {
    slot_offset(s, i) == 0 && slot_len(s, i) == 0
}

/// The bytes stored under slot `i`, if it is live.
pub open spec fn record(s: Seq<u8>, i: int) -> Option<Seq<u8>> {
    if slot_live(s, i) {
        Some(s.subrange(slot_offset(s, i), slot_offset(s, i) + slot_len(s, i)))
    } else {
        None
    }
}

/// The records of a page by slot number: `None` where the slot is not live.
pub open spec fn records(s: Seq<u8>) -> Seq<Option<Seq<u8>>> {
    Seq::new(hdr_slot_count(s) as nat, |i: int| record(s, i))
}

/// The bytes of a record, none where there is no record.
pub open spec fn bytes_of(x: Option<Seq<u8>>) -> Seq<u8> {
    match x {
        Some(b) => b,
        None => Seq::<u8>::empty(),
    }
}

/// Total length of the records that are present.
pub open spec fn payload_bytes(r: Seq<Option<Seq<u8>>>) -> nat
    decreases r.len(),
{
    if r.len() == 0 {
        0
    } else {
        payload_bytes(r.drop_last()) + bytes_of(r.last()).len()
    }
}

/// Number of records that are present.
pub open spec fn live_count(r: Seq<Option<Seq<u8>>>) -> nat
    decreases r.len(),
{
    if r.len() == 0 {
        0
    } else {
        live_count(r.drop_last()) + if r.last() is Some {
            1nat
        } else {
            0nat
        }
    }
}

/// Bytes held by the live cells of a page.
pub open spec fn live_bytes(s: Seq<u8>) -> nat {
    payload_bytes(records(s))
}

/// The cell invariant of a page, over the layout invariant: every slot is
/// live or a tombstone, and the live cells together fit in the cell region.
pub open spec fn cells_ok(s: Seq<u8>) -> bool {
    &&& layout_ok(s)
    &&& forall|i: int|
        0 <= i < hdr_slot_count(s) ==> #[trigger] slot_live(s, i) || slot_is_tombstone(s, i)
    &&& live_bytes(s) <= PAGE_SIZE - hdr_free_end(s)
}

/// The bytes of a new, empty page.
pub open spec fn fresh_page(id: u64, t: PageType) -> Seq<u8> {
    put_u16(
        put_u16(
            put_u64(
                Seq::new(PAGE_SIZE as nat, |i: int| 0u8),
                PAGE_HEADER_ID_OFFSET as int,
                id as int,
            ).update(PAGE_TYPE_OFFSET as int, page_type_byte(t)),
            HEADER_FREE_START_OFFSET as int,
            HEADER_SIZE as int,
        ),
        HEADER_FREE_END_OFFSET as int,
        PAGE_SIZE as int,
    )
}

/// A new page is empty and well formed, and its header holds what it was
/// made with.
pub proof fn lemma_fresh_page(id: u64, t: PageType)
    ensures
        cells_ok(fresh_page(id, t)),
        hdr_page_id(fresh_page(id, t)) == id,
        hdr_flags(fresh_page(id, t)) == 0,
        hdr_page_type(fresh_page(id, t)) == page_type_byte(t),
        hdr_slot_count(fresh_page(id, t)) == 0,
        hdr_free_start(fresh_page(id, t)) == HEADER_SIZE,
        hdr_free_end(fresh_page(id, t)) == PAGE_SIZE,
        records(fresh_page(id, t)) == Seq::<Option<Seq<u8>>>::empty(),
{
    let z = Seq::new(PAGE_SIZE as nat, |i: int| 0u8);
    let a = put_u64(z, 0, id as int);
    lemma_put_u64(z, 0, id as int);
    let b = a.update(10, page_type_byte(t));
    assert(u64_at(b, 0) == u64_at(a, 0));
    let c = put_u16(b, 12, 16);
    let d = put_u16(c, 14, 4096);
    assert(d == fresh_page(id, t));
    assert(u64_at(d, 0) == u64_at(b, 0));
    assert(records(d) =~= Seq::<Option<Seq<u8>>>::empty());
}

/// A slot entry can be appended: the directory has a number left for it
/// and the free region has room for it.
pub open spec fn can_append(s: Seq<u8>) -> bool {
    hdr_slot_count(s) < MAX_SLOTS && hdr_free_end(s) - hdr_free_start(s) >= SLOT_ENTRY_SIZE
}

/// A record of `len` bytes can be inserted: there is a slot number left and
/// the free region has room for the slot entry and the cell.
pub open spec fn can_insert(s: Seq<u8>, len: int) -> bool {
    hdr_slot_count(s) < MAX_SLOTS && hdr_free_end(s) - hdr_free_start(s) >= SLOT_ENTRY_SIZE + len
}

/// `s` with the entry `(off, len)` appended to the slot directory.
pub open spec fn with_slot(s: Seq<u8>, off: int, len: int) -> Seq<u8> {
    let fs = hdr_free_start(s);
    put_u16(
        put_u16(put_u16(s, fs, off), fs + 2, len).update(
            PAGE_SLOT_COUNT_OFFSET as int,
            (hdr_slot_count(s) + 1) as u8,
        ),
        HEADER_FREE_START_OFFSET as int,
        fs + SLOT_ENTRY_SIZE,
    )
}

/// `s` with `payload` stored as a new cell at the low end of the cell
/// region, and `free_end` lowered to where the cell starts.
pub open spec fn with_cell(s: Seq<u8>, payload: Seq<u8>) -> Seq<u8> {
    let off = hdr_free_end(s) - payload.len();
    put_u16(splice(s, off, payload), HEADER_FREE_END_OFFSET as int, off)
}

/// `s` after `payload` was inserted as a new record.
pub open spec fn inserted(s: Seq<u8>, payload: Seq<u8>) -> Seq<u8> {
    with_slot(with_cell(s, payload), hdr_free_end(s) - payload.len(), payload.len() as int)
}

/// `s` with the entry of slot `i` turned into the tombstone.
pub open spec fn with_tombstone(s: Seq<u8>, i: int) -> Seq<u8> {
    put_u16(put_u16(s, slot_pos(i), 0), slot_pos(i) + 2, 0)
}

/// The header fields other than the slot count and the free region's bounds
/// are the same in `a` and `b`.
pub open spec fn same_identity(a: Seq<u8>, b: Seq<u8>) -> bool {
    &&& hdr_page_id(a) == hdr_page_id(b)
    &&& hdr_flags(a) == hdr_flags(b)
    &&& hdr_page_type(a) == hdr_page_type(b)
}

/// What appending a slot entry does to a page.
pub proof fn lemma_with_slot(s: Seq<u8>, off: int, len: int)
    requires
        layout_ok(s),
        can_append(s),
        0 <= off < 0x1_0000,
        0 <= len < 0x1_0000,
    ensures
        layout_ok(with_slot(s, off, len)),
        same_identity(s, with_slot(s, off, len)),
        hdr_slot_count(with_slot(s, off, len)) == hdr_slot_count(s) + 1,
        hdr_free_start(with_slot(s, off, len)) == hdr_free_start(s) + SLOT_ENTRY_SIZE,
        hdr_free_end(with_slot(s, off, len)) == hdr_free_end(s),
        slot_offset(with_slot(s, off, len), hdr_slot_count(s)) == off,
        slot_len(with_slot(s, off, len), hdr_slot_count(s)) == len,
        forall|j: int|
            0 <= j < hdr_slot_count(s) ==> slot_offset(with_slot(s, off, len), j) == slot_offset(
                s,
                j,
            ) && slot_len(with_slot(s, off, len), j) == slot_len(s, j),
        forall|x: int|
            hdr_free_start(s) + SLOT_ENTRY_SIZE <= x < PAGE_SIZE ==> with_slot(s, off, len)[x]
                == s[x],
{
    let fs = hdr_free_start(s);
    let a = put_u16(s, fs, off);
    let b = put_u16(a, fs + 2, len);
    let c = b.update(PAGE_SLOT_COUNT_OFFSET as int, (hdr_slot_count(s) + 1) as u8);
    let d = put_u16(c, HEADER_FREE_START_OFFSET as int, fs + SLOT_ENTRY_SIZE);
    assert(d == with_slot(s, off, len));
    assert(u64_at(d, 0) == u64_at(s, 0));
}

/// Appending a record adds its length to the total.
pub proof fn lemma_payload_bytes_push(r: Seq<Option<Seq<u8>>>, x: Option<Seq<u8>>)
    ensures
        payload_bytes(r.push(x)) == payload_bytes(r) + bytes_of(x).len(),
        live_count(r.push(x)) == live_count(r) + if x is Some {
            1nat
        } else {
            0nat
        },
{
    assert(r.push(x).drop_last() =~= r);
}

/// Removing the record at `i` takes its length off the total.
pub proof fn lemma_payload_bytes_remove(r: Seq<Option<Seq<u8>>>, i: int)
    requires
        0 <= i < r.len(),
    ensures
        payload_bytes(r) == payload_bytes(r.update(i, None)) + bytes_of(r[i]).len(),
        live_count(r) == live_count(r.update(i, None)) + if r[i] is Some {
            1nat
        } else {
            0nat
        },
    decreases r.len(),
{
    let u = r.update(i, None);
    if i == r.len() - 1 {
        assert(u.drop_last() =~= r.drop_last());
    } else {
        lemma_payload_bytes_remove(r.drop_last(), i);
        assert(u.drop_last() =~= r.drop_last().update(i, None));
    }
}

/// What storing a cell does to a page.
pub proof fn lemma_with_cell(s: Seq<u8>, payload: Seq<u8>)
    requires
        layout_ok(s),
        hdr_free_end(s) - hdr_free_start(s) >= payload.len(),
    ensures
        layout_ok(with_cell(s, payload)),
        same_identity(s, with_cell(s, payload)),
        hdr_slot_count(with_cell(s, payload)) == hdr_slot_count(s),
        hdr_free_start(with_cell(s, payload)) == hdr_free_start(s),
        hdr_free_end(with_cell(s, payload)) == hdr_free_end(s) - payload.len(),
        with_cell(s, payload).subrange(
            hdr_free_end(s) - payload.len(),
            hdr_free_end(s),
        ) == payload,
        forall|j: int|
            0 <= j < hdr_slot_count(s) ==> slot_offset(with_cell(s, payload), j) == slot_offset(
                s,
                j,
            ) && slot_len(with_cell(s, payload), j) == slot_len(s, j),
        forall|x: int| hdr_free_end(s) <= x < PAGE_SIZE ==> with_cell(s, payload)[x] == s[x],
{
    let off = hdr_free_end(s) - payload.len();
    let c = with_cell(s, payload);
    assert(u64_at(c, 0) == u64_at(s, 0));
    assert(c.subrange(off, hdr_free_end(s)) =~= payload);
}

/// What inserting a record does to a page.
pub proof fn lemma_inserted(s: Seq<u8>, payload: Seq<u8>)
    requires
        layout_ok(s),
        can_insert(s, payload.len() as int),
    ensures
        layout_ok(inserted(s, payload)),
        same_identity(s, inserted(s, payload)),
        hdr_slot_count(inserted(s, payload)) == hdr_slot_count(s) + 1,
        hdr_free_start(inserted(s, payload)) == hdr_free_start(s) + SLOT_ENTRY_SIZE,
        hdr_free_end(inserted(s, payload)) == hdr_free_end(s) - payload.len(),
        record(inserted(s, payload), hdr_slot_count(s)) == Some(payload),
        cells_ok(s) ==> cells_ok(inserted(s, payload)) && records(inserted(s, payload))
            == records(s).push(Some(payload)),
{
    let n = hdr_slot_count(s);
    let fe = hdr_free_end(s);
    let len = payload.len() as int;
    let off = fe - len;
    let c = with_cell(s, payload);
    let d = with_slot(c, off, len);
    lemma_with_cell(s, payload);
    lemma_with_slot(c, off, len);
    assert(d == inserted(s, payload));
    assert(slot_live(d, n));
    assert(d.subrange(off, off + len) =~= c.subrange(off, fe));
    assert forall|j: int| 0 <= j < n && slot_live(s, j) implies record(d, j) == record(s, j) by {
        let o = slot_offset(s, j);
        let l = slot_len(s, j);
        assert(slot_offset(d, j) == o && slot_len(d, j) == l);
        assert(d.subrange(o, o + l) =~= s.subrange(o, o + l));
    }
    if cells_ok(s) {
        assert forall|j: int| 0 <= j < n implies record(d, j) == record(s, j) by {
            assert(slot_live(s, j) || slot_is_tombstone(s, j));
            assert(slot_offset(d, j) == slot_offset(s, j) && slot_len(d, j) == slot_len(s, j));
        }
        assert(records(d) =~= records(s).push(Some(payload)));
        lemma_payload_bytes_push(records(s), Some(payload));
        assert forall|j: int| 0 <= j < hdr_slot_count(d) implies #[trigger] slot_live(d, j)
            || slot_is_tombstone(d, j) by {
            if j < n {
                assert(slot_live(s, j) || slot_is_tombstone(s, j));
                assert(slot_offset(d, j) == slot_offset(s, j) && slot_len(d, j) == slot_len(s, j));
            }
        }
    }
}

/// What removing a live slot does to a page.
pub proof fn lemma_with_tombstone(s: Seq<u8>, i: int)
    requires
        layout_ok(s),
        slot_live(s, i),
    ensures
        layout_ok(with_tombstone(s, i)),
        same_identity(s, with_tombstone(s, i)),
        hdr_slot_count(with_tombstone(s, i)) == hdr_slot_count(s),
        hdr_free_start(with_tombstone(s, i)) == hdr_free_start(s),
        hdr_free_end(with_tombstone(s, i)) == hdr_free_end(s),
        records(with_tombstone(s, i)) == records(s).update(i, None),
        cells_ok(s) ==> cells_ok(with_tombstone(s, i)),
{
    let d = with_tombstone(s, i);
    let n = hdr_slot_count(s);
    assert(u64_at(d, 0) == u64_at(s, 0));
    assert forall|j: int| 0 <= j < n && j != i implies record(d, j) == record(s, j)
        && slot_offset(d, j) == slot_offset(s, j) && slot_len(d, j) == slot_len(s, j) by {
        if slot_live(s, j) {
            let o = slot_offset(s, j);
            let l = slot_len(s, j);
            assert(d.subrange(o, o + l) =~= s.subrange(o, o + l));
        }
    }
    assert(slot_is_tombstone(d, i));
    assert(records(d) =~= records(s).update(i, None));
    lemma_payload_bytes_remove(records(s), i);
    if cells_ok(s) {
        assert forall|j: int| 0 <= j < hdr_slot_count(d) implies #[trigger] slot_live(d, j)
            || slot_is_tombstone(d, j) by {
            if j != i {
                assert(slot_live(s, j) || slot_is_tombstone(s, j));
            }
        }
    }
}

/// What reading `bytes` as a page gives: the same bytes where the layout
/// invariant holds of them, nothing where it does not.
pub open spec fn decoded(bytes: Seq<u8>) -> Option<Seq<u8>> {
    if layout_ok(bytes) {
        Some(bytes)
    } else {
        None
    }
}

/// Bytes of the cell region that no live cell holds. They come back as
/// free space when the page is compacted.
pub open spec fn dead_bytes(s: Seq<u8>) -> int {
    PAGE_SIZE - hdr_free_end(s) - live_bytes(s)
}

/// A prefix of the records grows by the record that comes next: by its
/// length in bytes, and by one in number if it is present.
pub proof fn lemma_payload_bytes_prefix(r: Seq<Option<Seq<u8>>>, i: int)
    requires
        0 <= i < r.len(),
    ensures
        payload_bytes(r.take(i + 1)) == payload_bytes(r.take(i)) + bytes_of(r[i]).len(),
        live_count(r.take(i + 1)) == live_count(r.take(i)) + if r[i] is Some {
            1nat
        } else {
            0nat
        },
{
    assert(r.take(i + 1).drop_last() =~= r.take(i));
}

/// The entry `(off, len)` can join the slots of page `s` without harm
/// to the cell invariant: it is the tombstone, or it addresses bytes
/// inside the cell region and the live cells still fit the cell region
/// with its cell among them.
pub open spec fn slot_fits(s: Seq<u8>, off: int, len: int) -> bool {
    ||| off == 0 && len == 0
    ||| hdr_free_end(s) <= off && off + len <= PAGE_SIZE && live_bytes(s) + len <= PAGE_SIZE
        - hdr_free_end(s)
}

/// What appending a slot entry does to the records of a page.
pub proof fn lemma_with_slot_records(s: Seq<u8>, off: int, len: int)
    requires
        cells_ok(s),
        can_append(s),
        0 <= off < 0x1_0000,
        0 <= len < 0x1_0000,
        slot_fits(s, off, len),
    ensures
        cells_ok(with_slot(s, off, len)),
        records(with_slot(s, off, len)) == records(s).push(
            if off == 0 && len == 0 {
                None
            } else {
                Some(s.subrange(off, off + len))
            },
        ),
{
    let n = hdr_slot_count(s);
    let d = with_slot(s, off, len);
    lemma_with_slot(s, off, len);
    assert forall|j: int| 0 <= j < n implies record(d, j) == record(s, j) by {
        assert(slot_offset(d, j) == slot_offset(s, j) && slot_len(d, j) == slot_len(s, j));
        if slot_live(s, j) {
            let o = slot_offset(s, j);
            let l = slot_len(s, j);
            assert(d.subrange(o, o + l) =~= s.subrange(o, o + l));
        }
    }
    let added = if off == 0 && len == 0 {
        None
    } else {
        Some(s.subrange(off, off + len))
    };
    if !(off == 0 && len == 0) {
        assert(slot_live(d, n));
        assert(d.subrange(off, off + len) =~= s.subrange(off, off + len));
    }
    assert(record(d, n) == added);
    assert(records(d) =~= records(s).push(added));
    lemma_payload_bytes_push(records(s), added);
    assert forall|j: int| 0 <= j < hdr_slot_count(d) implies #[trigger] slot_live(d, j)
        || slot_is_tombstone(d, j) by {
        if j < n {
            assert(slot_live(s, j) || slot_is_tombstone(s, j));
            assert(slot_offset(d, j) == slot_offset(s, j) && slot_len(d, j) == slot_len(s, j));
        }
    }
}

/// `s` with `flags` for its flags.
pub open spec fn with_flags(s: Seq<u8>, flags: int) -> Seq<u8> {
    put_u16(s, PAGE_HEADER_FLAG_OFFSET as int, flags)
}

/// New flags change the flags and nothing else.
pub proof fn lemma_with_flags(s: Seq<u8>, flags: int)
    requires
        layout_ok(s),
        0 <= flags < 0x1_0000,
    ensures
        layout_ok(with_flags(s, flags)),
        hdr_flags(with_flags(s, flags)) == flags,
        hdr_page_id(with_flags(s, flags)) == hdr_page_id(s),
        hdr_page_type(with_flags(s, flags)) == hdr_page_type(s),
        hdr_slot_count(with_flags(s, flags)) == hdr_slot_count(s),
        hdr_free_start(with_flags(s, flags)) == hdr_free_start(s),
        hdr_free_end(with_flags(s, flags)) == hdr_free_end(s),
        records(with_flags(s, flags)) == records(s),
        cells_ok(s) ==> cells_ok(with_flags(s, flags)),
{
    let d = with_flags(s, flags);
    assert(u64_at(d, 0) == u64_at(s, 0));
    assert forall|j: int| 0 <= j < hdr_slot_count(s) implies record(d, j) == record(s, j)
        && slot_offset(d, j) == slot_offset(s, j) && slot_len(d, j) == slot_len(s, j) by {
        if slot_live(s, j) {
            let o = slot_offset(s, j);
            let l = slot_len(s, j);
            assert(d.subrange(o, o + l) =~= s.subrange(o, o + l));
        }
    }
    assert(records(d) =~= records(s));
    if cells_ok(s) {
        assert forall|j: int| 0 <= j < hdr_slot_count(d) implies #[trigger] slot_live(d, j)
            || slot_is_tombstone(d, j) by {
            assert(slot_live(s, j) || slot_is_tombstone(s, j));
        }
    }
}

} // verus!
