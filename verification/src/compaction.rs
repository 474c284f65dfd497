//! What compaction makes of a page.
//!
//! Compaction packs the live cells against the end of the page in slot
//! order, slot 0 highest, and zeroes the free region. Slots keep their
//! numbers, tombstones stay tombstones, and only `free_end` changes in the
//! header.

use vstd::prelude::*;
use crate::layout::{
    put_u16, splice, u64_at, HEADER_FREE_END_OFFSET, HEADER_SIZE, PAGE_SIZE, SLOT_ENTRY_SIZE,
};
use crate::model::{
    bytes_of, cells_ok, hdr_free_end, hdr_free_start, hdr_slot_count, live_bytes, payload_bytes,
    record, records, same_identity, slot_is_tombstone, slot_len, slot_live, slot_offset, slot_pos,
};

verus! {

/// The present records laid end to end, the last one first.
pub open spec fn packed_cells(r: Seq<Option<Seq<u8>>>) -> Seq<u8>
    decreases r.len(),
{
    if r.len() == 0 {
        Seq::<u8>::empty()
    } else {
        bytes_of(r.last()) + packed_cells(r.drop_last())
    }
}

/// Where the cell of slot `i` starts once the cells are packed.
pub open spec fn packed_offset(s: Seq<u8>, i: int) -> int {
    PAGE_SIZE - payload_bytes(records(s).take(i + 1))
}

/// The offset that the entry of slot `i` holds after compaction.
pub open spec fn packed_entry_offset(s: Seq<u8>, i: int) -> int {
    if slot_live(s, i) {
        packed_offset(s, i)
    } else {
        slot_offset(s, i)
    }
}

/// Byte `k` of a slot entry that holds `off` and `len`.
pub open spec fn entry_byte(off: int, len: int, k: int) -> u8 {
    if k == 0 {
        (off % 256) as u8
    } else if k == 1 {
        (off / 256) as u8
    } else if k == 2 {
        (len % 256) as u8
    } else {
        (len / 256) as u8
    }
}

/// The bytes of page `s` after compaction.
pub open spec fn compacted(s: Seq<u8>) -> Seq<u8> {
    let top = PAGE_SIZE - live_bytes(s);
    Seq::new(
        PAGE_SIZE as nat,
        |x: int|
            if x < HEADER_FREE_END_OFFSET {
                s[x]
            } else if x < HEADER_SIZE {
                put_u16(s, HEADER_FREE_END_OFFSET as int, top)[x]
            } else if x < hdr_free_start(s) {
                entry_byte(
                    packed_entry_offset(s, (x - HEADER_SIZE) / SLOT_ENTRY_SIZE as int),
                    slot_len(s, (x - HEADER_SIZE) / SLOT_ENTRY_SIZE as int),
                    (x - HEADER_SIZE) % SLOT_ENTRY_SIZE as int,
                )
            } else if x < top {
                0u8
            } else {
                packed_cells(records(s))[x - top]
            },
    )
}

/// The packed cells are as long as the records they hold.
pub proof fn lemma_packed_cells_len(r: Seq<Option<Seq<u8>>>)
    ensures
        packed_cells(r).len() == payload_bytes(r),
    decreases r.len(),
{
    if r.len() > 0 {
        lemma_packed_cells_len(r.drop_last());
    }
}

/// A longer prefix of the records holds at least as many bytes.
pub proof fn lemma_payload_bytes_take(r: Seq<Option<Seq<u8>>>, i: int, j: int)
    requires
        0 <= i <= j <= r.len(),
    ensures
        payload_bytes(r.take(i)) <= payload_bytes(r.take(j)),
        payload_bytes(r.take(j)) <= payload_bytes(r),
    decreases r.len() - i,
{
    if i < j {
        assert(r.take(i + 1).drop_last() =~= r.take(i));
        lemma_payload_bytes_take(r, i + 1, j);
    } else if j < r.len() {
        assert(r.take(j + 1).drop_last() =~= r.take(j));
        lemma_payload_bytes_take(r, j + 1, j + 1);
    } else {
        assert(r.take(j) =~= r);
    }
}

/// One more record of the prefix adds its length.
pub proof fn lemma_payload_bytes_step(r: Seq<Option<Seq<u8>>>, i: int)
    requires
        0 <= i < r.len(),
    ensures
        payload_bytes(r.take(i + 1)) == payload_bytes(r.take(i)) + bytes_of(r[i]).len(),
        packed_cells(r.take(i + 1)) == bytes_of(r[i]) + packed_cells(r.take(i)),
{
    assert(r.take(i + 1).drop_last() =~= r.take(i));
}

/// The packed cells of a prefix are the tail of the packed cells of the
/// whole.
pub proof fn lemma_packed_cells_tail(r: Seq<Option<Seq<u8>>>, i: int)
    requires
        0 <= i <= r.len(),
    ensures
        payload_bytes(r.take(i)) <= payload_bytes(r),
        packed_cells(r).subrange(
            payload_bytes(r) - payload_bytes(r.take(i)),
            payload_bytes(r) as int,
        ) == packed_cells(r.take(i)),
    decreases r.len() - i,
{
    lemma_packed_cells_len(r);
    lemma_packed_cells_len(r.take(i));
    if i == r.len() {
        assert(r.take(i) =~= r);
        assert(packed_cells(r).subrange(0, payload_bytes(r) as int) =~= packed_cells(r));
    } else {
        lemma_packed_cells_tail(r, i + 1);
        lemma_payload_bytes_step(r, i);
        lemma_packed_cells_len(r.take(i + 1));
        let whole = packed_cells(r);
        let l = payload_bytes(r) as int;
        let a = payload_bytes(r.take(i + 1)) as int;
        let b = payload_bytes(r.take(i)) as int;
        let longer = packed_cells(r.take(i + 1));
        assert(whole.subrange(l - a, l) == longer);
        assert(longer.subrange(a - b, a) =~= packed_cells(r.take(i)));
        assert(whole.subrange(l - b, l) =~= whole.subrange(l - a, l).subrange(a - b, a));
    }
}

/// In the packed cells, a present record lies where its slot's packed
/// offset says.
pub proof fn lemma_packed_cells_record(r: Seq<Option<Seq<u8>>>, i: int)
    requires
        0 <= i < r.len(),
        r[i] is Some,
    ensures
        payload_bytes(r.take(i + 1)) <= payload_bytes(r),
        payload_bytes(r.take(i + 1)) == payload_bytes(r.take(i)) + r[i]->0.len(),
        packed_cells(r).subrange(
            payload_bytes(r) - payload_bytes(r.take(i + 1)),
            payload_bytes(r) - payload_bytes(r.take(i)),
        ) == r[i]->0,
{
    lemma_packed_cells_tail(r, i + 1);
    lemma_payload_bytes_step(r, i);
    lemma_packed_cells_len(r);
    lemma_packed_cells_len(r.take(i + 1));
    lemma_packed_cells_len(r.take(i));
    let whole = packed_cells(r);
    let l = payload_bytes(r) as int;
    let a = payload_bytes(r.take(i + 1)) as int;
    let b = payload_bytes(r.take(i)) as int;
    let longer = packed_cells(r.take(i + 1));
    assert(longer.subrange(0, a - b) =~= r[i]->0);
    assert(whole.subrange(l - a, l - b) =~= whole.subrange(l - a, l).subrange(0, a - b));
}

/// After compaction every entry holds its packed offset and the length
/// it had.
pub proof fn lemma_compacted_entries(s: Seq<u8>, i: int)
    requires
        cells_ok(s),
        0 <= i < hdr_slot_count(s),
    ensures
        slot_offset(compacted(s), i) == packed_entry_offset(s, i),
        slot_len(compacted(s), i) == slot_len(s, i),
        0 <= packed_entry_offset(s, i) <= PAGE_SIZE,
        slot_live(s, i) ==> PAGE_SIZE - live_bytes(s) <= packed_offset(s, i) && packed_offset(s, i)
            + slot_len(s, i) == PAGE_SIZE - payload_bytes(records(s).take(i)),
{
    let c = compacted(s);
    let at = slot_pos(i);
    let r = records(s);
    lemma_payload_bytes_take(r, i, i + 1);
    lemma_payload_bytes_step(r, i);
    assert(r[i] == record(s, i));
    assert((at - HEADER_SIZE) / SLOT_ENTRY_SIZE as int == i);
    assert((at + 1 - HEADER_SIZE) / SLOT_ENTRY_SIZE as int == i);
    assert((at + 2 - HEADER_SIZE) / SLOT_ENTRY_SIZE as int == i);
    assert((at + 3 - HEADER_SIZE) / SLOT_ENTRY_SIZE as int == i);
    let off = packed_entry_offset(s, i);
    let len = slot_len(s, i);
    assert(c[at] == entry_byte(off, len, 0));
    assert(c[at + 1] == entry_byte(off, len, 1));
    assert(c[at + 2] == entry_byte(off, len, 2));
    assert(c[at + 3] == entry_byte(off, len, 3));
}

/// What compaction does to a page: the records stay under their slots, the
/// live cells fill the cell region with nothing between them, and of the
/// header only `free_end` changes.
pub proof fn lemma_compacted(s: Seq<u8>)
    requires
        cells_ok(s),
    ensures
        cells_ok(compacted(s)),
        same_identity(s, compacted(s)),
        hdr_slot_count(compacted(s)) == hdr_slot_count(s),
        hdr_free_start(compacted(s)) == hdr_free_start(s),
        hdr_free_end(compacted(s)) == PAGE_SIZE - live_bytes(s),
        hdr_free_end(s) <= hdr_free_end(compacted(s)),
        records(compacted(s)) == records(s),
        live_bytes(compacted(s)) == PAGE_SIZE - hdr_free_end(compacted(s)),
{
    let c = compacted(s);
    let n = hdr_slot_count(s);
    let r = records(s);
    let top = PAGE_SIZE - live_bytes(s);
    assert(u64_at(c, 0) == u64_at(s, 0));
    assert(hdr_free_end(c) == top);
    lemma_packed_cells_len(r);
    assert forall|i: int| 0 <= i < n implies record(c, i) == record(s, i) && (#[trigger] slot_live(
        c,
        i,
    ) || slot_is_tombstone(c, i)) by {
        lemma_compacted_entries(s, i);
        assert(slot_live(s, i) || slot_is_tombstone(s, i));
        if slot_live(s, i) {
            assert(r[i] == record(s, i));
            lemma_packed_cells_record(r, i);
            let po = packed_offset(s, i);
            let len = slot_len(s, i);
            assert(c.subrange(po, po + len) =~= packed_cells(r).subrange(po - top, po + len - top));
        }
    }
    assert(records(c) =~= r);
}

/// Compacting a compacted page changes nothing.
pub proof fn lemma_compacted_twice(s: Seq<u8>)
    requires
        cells_ok(s),
    ensures
        compacted(compacted(s)) == compacted(s),
{
    let c = compacted(s);
    lemma_compacted(s);
    let n = hdr_slot_count(s);
    assert forall|x: int| 0 <= x < PAGE_SIZE implies compacted(c)[x] == c[x] by {
        if HEADER_SIZE <= x < hdr_free_start(s) {
            let i = (x - HEADER_SIZE) / SLOT_ENTRY_SIZE as int;
            lemma_compacted_entries(s, i);
            assert(slot_live(s, i) || slot_is_tombstone(s, i));
            assert(records(c)[i] == record(c, i));
            assert(records(s)[i] == record(s, i));
        }
    }
    assert(compacted(c) =~= c);
}

/// The state of a page that is being packed into the buffer `f`: the
/// slots below `i` are done, and `top` is where the lowest packed cell
/// starts.
pub(crate) open spec fn packing(s: Seq<u8>, f: Seq<u8>, i: int, top: int) -> bool {
    &&& f.len() == PAGE_SIZE
    &&& 0 <= i <= hdr_slot_count(s)
    &&& top == PAGE_SIZE - payload_bytes(records(s).take(i))
    &&& hdr_free_end(s) <= top
    &&& forall|x: int| 0 <= x < HEADER_SIZE ==> f[x] == s[x]
    &&& forall|j: int|
        0 <= j < i ==> #[trigger] slot_offset(f, j) == packed_entry_offset(s, j) && slot_len(f, j)
            == slot_len(s, j)
    &&& forall|x: int| slot_pos(i) <= x < hdr_free_start(s) ==> f[x] == s[x]
    &&& forall|x: int| hdr_free_start(s) <= x < top ==> f[x] == 0
    &&& f.subrange(top, PAGE_SIZE as int) == packed_cells(records(s).take(i))
}

/// Packing starts from a zeroed buffer that holds the header and the
/// directory of the page.
pub(crate) proof fn lemma_packing_start(s: Seq<u8>, f: Seq<u8>)
    requires
        cells_ok(s),
        f == splice(
            Seq::new(PAGE_SIZE as nat, |x: int| 0u8),
            0,
            s.subrange(0, hdr_free_start(s)),
        ),
    ensures
        packing(s, f, 0, PAGE_SIZE as int),
{
    assert(records(s).take(0) =~= Seq::<Option<Seq<u8>>>::empty());
    assert(f.subrange(PAGE_SIZE as int, PAGE_SIZE as int) =~= Seq::<u8>::empty());
}

/// A slot that is not live is passed over.
pub(crate) proof fn lemma_packing_skip(s: Seq<u8>, f: Seq<u8>, i: int, top: int)
    requires
        cells_ok(s),
        packing(s, f, i, top),
        i < hdr_slot_count(s),
        !slot_live(s, i),
    ensures
        packing(s, f, i + 1, top),
{
    let r = records(s);
    lemma_payload_bytes_step(r, i);
    assert(r[i] == record(s, i));
    assert(bytes_of(r[i]) =~= Seq::<u8>::empty());
    assert(packed_cells(r.take(i + 1)) =~= packed_cells(r.take(i)));
    assert forall|j: int| 0 <= j < i + 1 implies #[trigger] slot_offset(f, j)
        == packed_entry_offset(s, j) && slot_len(f, j) == slot_len(s, j) by {
        if j == i {
            assert(f[slot_pos(i)] == s[slot_pos(i)]);
            assert(f[slot_pos(i) + 1] == s[slot_pos(i) + 1]);
            assert(f[slot_pos(i) + 2] == s[slot_pos(i) + 2]);
            assert(f[slot_pos(i) + 3] == s[slot_pos(i) + 3]);
        }
    }
}

/// The cell of a live slot is put below the cells packed so far, and the
/// slot's entry is given the cell's new offset.
pub(crate) proof fn lemma_packing_place(s: Seq<u8>, f: Seq<u8>, i: int, top: int)
    requires
        cells_ok(s),
        packing(s, f, i, top),
        i < hdr_slot_count(s),
        slot_live(s, i),
    ensures
        hdr_free_end(s) <= top - slot_len(s, i),
        packing(
            s,
            put_u16(
                splice(
                    f,
                    top - slot_len(s, i),
                    s.subrange(slot_offset(s, i), slot_offset(s, i) + slot_len(s, i)),
                ),
                slot_pos(i),
                top - slot_len(s, i),
            ),
            i + 1,
            top - slot_len(s, i),
        ),
{
    let r = records(s);
    let len = slot_len(s, i);
    let off = slot_offset(s, i);
    let cell = s.subrange(off, off + len);
    let nt = top - len;
    let placed = splice(f, nt, cell);
    let g = put_u16(placed, slot_pos(i), nt);
    lemma_payload_bytes_step(r, i);
    lemma_payload_bytes_take(r, i + 1, i + 1);
    assert(r[i] == record(s, i));
    assert(bytes_of(r[i]) == cell);
    assert(g.subrange(nt, PAGE_SIZE as int) =~= cell + f.subrange(top, PAGE_SIZE as int));
    assert forall|j: int| 0 <= j < i + 1 implies #[trigger] slot_offset(g, j)
        == packed_entry_offset(s, j) && slot_len(g, j) == slot_len(s, j) by {
        if j == i {
            assert(g[slot_pos(i) + 2] == s[slot_pos(i) + 2]);
            assert(g[slot_pos(i) + 3] == s[slot_pos(i) + 3]);
        } else {
            assert(slot_offset(g, j) == slot_offset(f, j));
            assert(slot_len(g, j) == slot_len(f, j));
        }
    }
}

/// A byte of an entry that holds its packed offset and its length is the
/// byte that the compacted page has there.
proof fn lemma_packing_entry_byte(s: Seq<u8>, f: Seq<u8>, j: int, k: int)
    requires
        cells_ok(s),
        f.len() == PAGE_SIZE,
        0 <= j < hdr_slot_count(s),
        0 <= k < SLOT_ENTRY_SIZE,
        slot_offset(f, j) == packed_entry_offset(s, j),
        slot_len(f, j) == slot_len(s, j),
    ensures
        f[slot_pos(j) + k] == compacted(s)[slot_pos(j) + k],
{
    let x = slot_pos(j) + k;
    assert((x - HEADER_SIZE) / SLOT_ENTRY_SIZE as int == j);
    assert((x - HEADER_SIZE) % SLOT_ENTRY_SIZE as int == k);
    assert(compacted(s)[x] == entry_byte(packed_entry_offset(s, j), slot_len(s, j), k));
}

/// When every slot is done, writing the new `free_end` completes the
/// compacted page.
pub(crate) proof fn lemma_packing_done(s: Seq<u8>, f: Seq<u8>, top: int)
    requires
        cells_ok(s),
        packing(s, f, hdr_slot_count(s), top),
    ensures
        top == PAGE_SIZE - live_bytes(s),
        put_u16(f, HEADER_FREE_END_OFFSET as int, top) == compacted(s),
{
    let r = records(s);
    let n = hdr_slot_count(s);
    let g = put_u16(f, HEADER_FREE_END_OFFSET as int, top);
    let c = compacted(s);
    assert(r.take(n) =~= r);
    lemma_packed_cells_len(r);
    assert forall|x: int| 0 <= x < PAGE_SIZE implies g[x] == c[x] by {
        if x < HEADER_SIZE {
        } else if x < hdr_free_start(s) {
            let j = (x - HEADER_SIZE) / SLOT_ENTRY_SIZE as int;
            let k = (x - HEADER_SIZE) % SLOT_ENTRY_SIZE as int;
            assert(hdr_free_start(s) == HEADER_SIZE + SLOT_ENTRY_SIZE * n);
            assert(0 <= j < n);
            assert(x == slot_pos(j) + k);
            assert(slot_offset(f, j) == packed_entry_offset(s, j) && slot_len(f, j) == slot_len(
                s,
                j,
            ));
            lemma_packing_entry_byte(s, f, j, k);
        } else if x < top {
        } else {
            assert(f[x] == f.subrange(top, PAGE_SIZE as int)[x - top]);
        }
    }
    assert(g =~= c);
}

} // verus!
