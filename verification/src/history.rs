//! Histories of operations on a page, and what holds after any of them.

use vstd::prelude::*;
use crate::compaction::{compacted, lemma_compacted};
use crate::ids::PageType;
use crate::model::{
    can_insert, cells_ok, decoded, fresh_page, hdr_slot_count, inserted, layout_ok,
    lemma_fresh_page, lemma_inserted, lemma_payload_bytes_push, lemma_payload_bytes_remove,
    lemma_with_tombstone, live_count, records, slot_live, with_tombstone,
};
use crate::page::Page;

verus! {

/// One operation on a page.
pub enum PageOp {
    /// Insert a record with these bytes.
    Insert(Seq<u8>),
    /// Remove the record under this slot.
    Remove(nat),
    /// Compact the page.
    Compact,
}

/// The operation succeeds on page `s`.
pub open spec fn op_applies(s: Seq<u8>, op: PageOp) -> bool {
    match op {
        PageOp::Insert(payload) => can_insert(s, payload.len() as int),
        PageOp::Remove(slot) => slot_live(s, slot as int),
        PageOp::Compact => true,
    }
}

/// Page `s` after the operation: changed where the operation succeeds, as
/// it was where it fails.
pub open spec fn apply_op(s: Seq<u8>, op: PageOp) -> Seq<u8> {
    if !op_applies(s, op) {
        s
    } else {
        match op {
            PageOp::Insert(payload) => inserted(s, payload),
            PageOp::Remove(slot) => with_tombstone(s, slot as int),
            PageOp::Compact => compacted(s),
        }
    }
}

/// Page `s` after the operations were applied in turn.
pub open spec fn replay(s: Seq<u8>, ops: Seq<PageOp>) -> Seq<u8>
    decreases ops.len(),
{
    if ops.len() == 0 {
        s
    } else {
        apply_op(replay(s, ops.drop_last()), ops.last())
    }
}

/// Every operation succeeds when they are applied to `s` in turn.
pub open spec fn all_apply(s: Seq<u8>, ops: Seq<PageOp>) -> bool
    decreases ops.len(),
{
    ops.len() == 0 || (all_apply(s, ops.drop_last()) && op_applies(
        replay(s, ops.drop_last()),
        ops.last(),
    ))
}

/// What the operations leave under each slot, told from the operations
/// alone: an insert takes the next slot, a remove empties its slot.
pub open spec fn ledger(ops: Seq<PageOp>) -> Seq<Option<Seq<u8>>>
    decreases ops.len(),
{
    if ops.len() == 0 {
        Seq::<Option<Seq<u8>>>::empty()
    } else {
        let before = ledger(ops.drop_last());
        match ops.last() {
            PageOp::Insert(payload) => before.push(Some(payload)),
            PageOp::Remove(slot) => before.update(slot as int, None),
            PageOp::Compact => before,
        }
    }
}

/// Number of inserts among the operations.
pub open spec fn inserts(ops: Seq<PageOp>) -> nat
    decreases ops.len(),
{
    if ops.len() == 0 {
        0
    } else {
        inserts(ops.drop_last()) + if ops.last() is Insert {
            1nat
        } else {
            0nat
        }
    }
}

/// Number of removes among the operations.
pub open spec fn removes(ops: Seq<PageOp>) -> nat
    decreases ops.len(),
{
    if ops.len() == 0 {
        0
    } else {
        removes(ops.drop_last()) + if ops.last() is Remove {
            1nat
        } else {
            0nat
        }
    }
}

/// Whatever is done to a new page, and whether or not each operation
/// succeeds, the layout invariant and the cell invariant hold of it: the
/// free region lies inside the page and starts where the slot directory
/// ends.
pub proof fn lemma_invariants_kept(id: u64, t: PageType, ops: Seq<PageOp>)
    ensures
        layout_ok(replay(fresh_page(id, t), ops)),
        cells_ok(replay(fresh_page(id, t), ops)),
    decreases ops.len(),
{
    lemma_fresh_page(id, t);
    if ops.len() > 0 {
        lemma_invariants_kept(id, t, ops.drop_last());
        let s = replay(fresh_page(id, t), ops.drop_last());
        if op_applies(s, ops.last()) {
            match ops.last() {
                PageOp::Insert(payload) => lemma_inserted(s, payload),
                PageOp::Remove(slot) => lemma_with_tombstone(s, slot as int),
                PageOp::Compact => lemma_compacted(s),
            }
        }
    }
}

/// After operations that all succeed on a new page, the page holds under
/// each slot what the ledger holds there, it has as many slots as there
/// were inserts, and as many records as inserts less removes.
pub proof fn lemma_history(id: u64, t: PageType, ops: Seq<PageOp>)
    requires
        all_apply(fresh_page(id, t), ops),
    ensures
        records(replay(fresh_page(id, t), ops)) == ledger(ops),
        hdr_slot_count(replay(fresh_page(id, t), ops)) == inserts(ops),
        live_count(records(replay(fresh_page(id, t), ops))) + removes(ops) == inserts(ops),
    decreases ops.len(),
{
    lemma_fresh_page(id, t);
    if ops.len() > 0 {
        let earlier = ops.drop_last();
        lemma_history(id, t, earlier);
        lemma_invariants_kept(id, t, earlier);
        let s = replay(fresh_page(id, t), earlier);
        match ops.last() {
            PageOp::Insert(payload) => {
                lemma_inserted(s, payload);
                lemma_payload_bytes_push(records(s), Some(payload));
            },
            PageOp::Remove(slot) => {
                lemma_with_tombstone(s, slot as int);
                lemma_payload_bytes_remove(records(s), slot as int);
            },
            PageOp::Compact => {
                lemma_compacted(s);
            },
        }
    }
}

/// A page that is written out and read back is the same page, byte for
/// byte, and so has the same header, slot directory and records.
pub proof fn lemma_round_trip(page: Page)
    requires
        page.wf(),
    ensures
        decoded(page@) == Some(page@),
{
}

} // verus!
