//! The page manager: how an edit of a tree page is carried out so that a
//! page that other readers may see is never changed.
//!
//! A transaction owns the pages it created. An edit of a page that the
//! transaction owns and holds `Exclusive` is made in the page itself, if
//! the page has room for it: directly, or after a compaction where the
//! room is there but not in one piece. Bytes of removed cells count as
//! room, since a compaction gives them back; slots of removed cells do
//! not, since slots keep their numbers.
//!
//! Every other edit leaves the page as it is and builds its cells anew,
//! in key order and with the edit applied, in one new page, or in two
//! where one cannot take them. The new pages belong to the transaction
//! and the old page is noted as superseded. Of two pages the left one
//! takes the shortest run of cells from the start that makes up at least
//! half of what all the cells take, and the split key is the first key of
//! the right one.

use vstd::prelude::*;
use vstd::seq_lib::{lemma_multiset_commutative, to_multiset_build};
use vstd::slice::slice_to_vec;
use crate::cells::{cell_key, key_le, key_of};
use crate::compaction::{compacted, lemma_compacted};
use crate::error::PageError;
use crate::ids::{PageID, PageType, SlotID};
use crate::latch::LatchMode;
use crate::layout::{MAX_SLOTS, PAGE_SIZE, SLOT_ENTRY_SIZE};
use crate::meta::{MetaPageSwitch, Roots};
use crate::model::{
    can_insert, fresh_page, hdr_flags, hdr_free_start, hdr_slot_count, inserted,
    lemma_payload_bytes_remove, lemma_with_tombstone, live_bytes, records, with_flags,
    with_tombstone,
};
use crate::node::{
    all_present, as_records, cell_view, cells_of, fill, filled, find_key, first_with_key, fits_page,
    footprint_of, in_key_order, lemma_first_with_key, lemma_live_cells_of_records,
    lemma_live_cells_push, lemma_live_cells_remove, lemma_sort_cells, lemma_split_point, live_cells,
    slot_index, sort_cells, sorted_order, split_index, split_point, staged, staged_cell,
    NODE_CAPACITY,
};
use crate::page::Page;
use crate::pool::{guard_holds, ticks_on, BufferPool, PageFrame, PageGuard};

verus! {

/// A change to the cells of a page.
#[derive(Debug, PartialEq, Eq)]
pub enum Edit {
    /// Put this cell into the page, in place of the cell with the same
    /// key if there is one.
    Insert(Vec<u8>),
    /// Put this cell into the page in place of the cell with the same
    /// key, if there is one.
    Update(Vec<u8>),
    /// Take the cell with this key out of the page, if there is one.
    Delete(Vec<u8>),
}

/// How an edit was carried out.
#[derive(Debug, PartialEq, Eq)]
pub enum EditOutcome {
    /// The page itself holds the edit now, or the edit asked for nothing.
    InPlace,
    /// A new page holds the cells with the edit applied.
    Rebuilt(PageID),
    /// Two new pages hold the cells with the edit applied: the left
    /// page, the right page, and the first key of the right page.
    Split(PageID, PageID, Vec<u8>),
}

/// What a transaction has written so far.
#[derive(Debug)]
pub struct Transaction {
    /// The pages that the transaction created. Nobody else has seen them.
    pub created: Vec<PageID>,
    /// The pages in whose place the transaction put new ones.
    pub superseded: Vec<PageID>,
}

/// The ways an edit can go.
pub enum Path {
    /// The guard is not good.
    Missing,
    /// The cell to insert is too long for any page.
    TooLong,
    /// The key to update or to delete is not in the page.
    Nothing,
    /// The edit is made in the page itself.
    InPlace,
    /// The cells go to one new page.
    Rebuild,
    /// The cells go to two new pages.
    Split,
    /// The pool has no frames or identifiers for the new pages, or the
    /// cells do not fit two pages either.
    Full,
}

impl Edit {
    /// The key that the edit is about.
    pub open spec fn key(&self) -> Seq<u8> {
        match self {
            Edit::Insert(cell) => cell_key(cell@),
            Edit::Update(cell) => cell_key(cell@),
            Edit::Delete(key) => key@,
        }
    }

    /// The cell that the edit puts in, if it puts one in.
    pub open spec fn cell(&self) -> Option<Seq<u8>> {
        match self {
            Edit::Insert(cell) => Some(cell@),
            Edit::Update(cell) => Some(cell@),
            Edit::Delete(_) => None,
        }
    }

    /// The cell that the edit puts in is too long for any page.
    pub open spec fn too_long(&self) -> bool {
        self.cell() is Some && self.cell()->0.len() > NODE_CAPACITY - SLOT_ENTRY_SIZE
    }
}

impl Transaction {
    /// The transaction created page `id`.
    pub open spec fn spec_owns(&self, id: PageID) -> bool {
        self.created@.contains(id)
    }

    /// A transaction that has written nothing yet.
    pub fn new() -> (txn: Transaction)
        ensures
            txn.created@ == Seq::<PageID>::empty(),
            txn.superseded@ == Seq::<PageID>::empty(),
    {
        Transaction { created: Vec::new(), superseded: Vec::new() }
    }

    /// Whether the transaction created page `id`.
    #[verifier::when_used_as_spec(spec_owns)]
    pub fn owns(&self, id: PageID) -> (b: bool)
        ensures
            b == self.spec_owns(id),
    {
        let mut i: usize = 0;
        while i < self.created.len()
            invariant
                i <= self.created@.len(),
                forall|j: int| 0 <= j < i ==> self.created@[j] != id,
            decreases self.created@.len() - i,
        {
            if self.created[i].0 == id.0 {
                return true;
            }
            i = i + 1;
        }
        false
    }
}

/// The slot of the cell that an edit takes out of records `r`: the first
/// with the key of the edit, if there is one.
pub open spec fn hit_slot(r: Seq<Option<Seq<u8>>>, key: Seq<u8>) -> Option<int> {
    if first_with_key(r, key, 0) < r.len() {
        Some(first_with_key(r, key, 0))
    } else {
        None
    }
}

/// The records with the edit applied: the cell with the key of the edit
/// removed, the new cell appended.
pub open spec fn edited(r: Seq<Option<Seq<u8>>>, edit: Edit) -> Seq<Option<Seq<u8>>> {
    staged(r, hit_slot(r, edit.key()), edit.cell())
}

/// Page `s` with the record under `skip` removed.
pub open spec fn cleared(s: Seq<u8>, skip: Option<int>) -> Seq<u8> {
    match skip {
        Some(i) => with_tombstone(s, i),
        None => s,
    }
}

/// Page `s` has room for `extra` once the record under `skip` is removed
/// and the page is compacted.
pub open spec fn has_room(s: Seq<u8>, skip: Option<int>, extra: Option<Seq<u8>>) -> bool {
    match extra {
        Some(cell) => hdr_slot_count(s) < MAX_SLOTS && PAGE_SIZE - hdr_free_start(s) - live_bytes(
            cleared(s, skip),
        ) >= cell.len() + SLOT_ENTRY_SIZE,
        None => true,
    }
}

/// Page `s` after the record under `skip` was removed and `extra` was
/// inserted, with a compaction before the insert where the free region
/// was too small for it.
pub open spec fn placed(s: Seq<u8>, skip: Option<int>, extra: Option<Seq<u8>>) -> Seq<u8> {
    let t = cleared(s, skip);
    match extra {
        Some(cell) => if can_insert(t, cell.len() as int) {
            inserted(t, cell)
        } else {
            inserted(compacted(t), cell)
        },
        None => t,
    }
}

/// The cells of page `s` with the edit applied, in key order.
pub open spec fn sorted_cells(s: Seq<u8>, edit: Edit) -> Seq<Seq<u8>> {
    sort_cells(live_cells(edited(records(s), edit)))
}

/// The way that an edit goes in a given state.
pub open spec fn path_of(
    pool: &BufferPool,
    txn: &Transaction,
    guard: PageGuard,
    edit: Edit,
) -> Path {
    if !guard_holds(pool@, guard) {
        Path::Missing
    } else {
        let s = pool@[guard.page_id.0].page@;
        let skip = hit_slot(records(s), edit.key());
        if edit.too_long() {
            Path::TooLong
        } else if !(edit is Insert) && skip is None {
            Path::Nothing
        } else if txn.spec_owns(guard.page_id) && guard.mode == LatchMode::Exclusive && has_room(
            s,
            skip,
            edit.cell(),
        ) {
            Path::InPlace
        } else {
            rebuild_path(pool, sorted_cells(s, edit))
        }
    }
}

/// The way that building the cells `cells` anew goes: into one page if
/// they fit one, into two if the two parts fit one each, and not at all
/// if they do not or the pool lacks the frames or the identifiers.
pub open spec fn rebuild_path(pool: &BufferPool, cells: Seq<Seq<u8>>) -> Path {
    let m = split_point(cells, 0);
    if fits_page(cells) {
        if pool.spec_len() < pool.spec_capacity() && pool.spec_next_page_id() < u64::MAX {
            Path::Rebuild
        } else {
            Path::Full
        }
    } else if 0 < m < cells.len() && fits_page(cells.take(m)) && fits_page(cells.skip(m))
        && pool.spec_len() + 2 <= pool.spec_capacity() && pool.spec_next_page_id() + 2
        <= u64::MAX {
        Path::Split
    } else {
        Path::Full
    }
}

/// The frame of a page that was built anew: a new page with the given
/// type and flags and the cells `cells` one to a slot, unpinned,
/// unlatched and dirty, stamped with `tick`.
pub open spec fn built_frame(
    frame: PageFrame,
    id: u64,
    page_type: PageType,
    flags: u16,
    cells: Seq<Seq<u8>>,
    tick: u64,
) -> bool {
    &&& frame.last_used == tick
    &&& frame.page@ == filled(with_flags(fresh_page(id, page_type), flags as int), cells)
    &&& frame.page.records() == as_records(cells)
    &&& frame.page_id == PageID(id)
    &&& frame.page_type == page_type
    &&& frame.pin_count == 0
    &&& frame.latch.is_free()
    &&& frame.dirty
}

/// What building cells anew left behind, where it was done.
pub open spec fn rebuilt(
    before: &BufferPool,
    after: &BufferPool,
    page_type: PageType,
    flags: u16,
    cells: Seq<Seq<u8>>,
    r: Result<EditOutcome, PageError>,
) -> bool {
    match rebuild_path(before, cells) {
        Path::Rebuild => {
            let id = before.spec_next_page_id();
            &&& r == Ok::<EditOutcome, PageError>(EditOutcome::Rebuilt(PageID(id)))
            &&& after.spec_next_page_id() == id + 1
            &&& after.spec_len() == before.spec_len() + 1
            &&& after@.dom() == before@.dom().insert(id)
            &&& after.spec_capacity() == before.spec_capacity()
            &&& after.spec_clock() == ticks_on(before.spec_clock(), 1)
            &&& built_frame(after@[id], id, page_type, flags, cells, before.spec_clock())
        },
        Path::Split => {
            let left = before.spec_next_page_id();
            let right = (left + 1) as u64;
            let m = split_point(cells, 0);
            &&& r is Ok
            &&& r->Ok_0 is Split
            &&& r->Ok_0->Split_0 == PageID(left)
            &&& r->Ok_0->Split_1 == PageID(right)
            &&& r->Ok_0->Split_2@ == cell_key(cells[m])
            &&& after.spec_next_page_id() == left + 2
            &&& after.spec_len() == before.spec_len() + 2
            &&& after@.dom() == before@.dom().insert(left).insert(right)
            &&& after.spec_capacity() == before.spec_capacity()
            &&& after.spec_clock() == ticks_on(before.spec_clock(), 2)
            &&& built_frame(
                after@[left],
                left,
                page_type,
                flags,
                cells.take(m),
                before.spec_clock(),
            )
            &&& built_frame(
                after@[right],
                right,
                page_type,
                flags,
                cells.skip(m),
                ticks_on(before.spec_clock(), 1),
            )
        },
        _ => {
            &&& r == Err::<EditOutcome, PageError>(PageError::InsufficientSpace)
            &&& after@ == before@
            &&& after.same_settings(before)
            &&& after.spec_len() == before.spec_len()
        },
    }
}

/// What a transaction has noted after an edit that came out as `r`: the
/// new pages among those it created, the page behind the guard among
/// those it superseded.
pub open spec fn noted(
    before: &Transaction,
    after: &Transaction,
    page: PageID,
    r: Result<EditOutcome, PageError>,
) -> bool {
    match r {
        Ok(EditOutcome::Rebuilt(id)) => after.created@ == before.created@.push(id)
            && after.superseded@ == before.superseded@.push(page),
        Ok(EditOutcome::Split(left, right, _)) => after.created@ == before.created@.push(left).push(
            right,
        ) && after.superseded@ == before.superseded@.push(page),
        _ => after.created@ == before.created@ && after.superseded@ == before.superseded@,
    }
}

/// What an edit that came out as `r` made of the pool and of the
/// transaction.
///
/// Every page that the transaction does not own is in the pool as it was:
/// its bytes, its pins and its latch. On the path `InPlace` the page behind
/// the guard holds the edit. On the paths `Rebuild` and `Split` the pool
/// has one or two new pages, built of the cells in key order. On every
/// other path nothing has changed.
pub open spec fn applied(
    before: &BufferPool,
    txn_before: &Transaction,
    guard: PageGuard,
    edit: Edit,
    after: &BufferPool,
    txn_after: &Transaction,
    r: Result<EditOutcome, PageError>,
) -> bool {
    &&& forall|k: u64| #[trigger]
        before@.contains_key(k) && !txn_before.spec_owns(PageID(k)) ==> after@.contains_key(k)
            && after@[k] == before@[k]
    &&& forall|k: u64| #[trigger]
        before@.contains_key(k) && k != guard.page_id.0 ==> after@.contains_key(k) && after@[k]
            == before@[k]
    &&& noted(txn_before, txn_after, guard.page_id, r)
    &&& match path_of(before, txn_before, guard, edit) {
        Path::Missing => r == Err::<EditOutcome, PageError>(PageError::PageNotFound) && after@
            == before@ && after.same_settings(before),
        Path::TooLong => r == Err::<EditOutcome, PageError>(PageError::InsufficientSpace)
            && after@ == before@ && after.same_settings(before),
        Path::Nothing => r == Ok::<EditOutcome, PageError>(EditOutcome::InPlace) && after@
            == before@ && after.same_settings(before),
        Path::InPlace => {
            let id = guard.page_id.0;
            let s = before@[id].page@;
            let skip = hit_slot(records(s), edit.key());
            &&& r == Ok::<EditOutcome, PageError>(EditOutcome::InPlace)
            &&& after.same_settings(before)
            &&& after.spec_len() == before.spec_len()
            &&& after@.dom() == before@.dom()
            &&& after@[id] == (PageFrame { page: after@[id].page, dirty: true, ..before@[id] })
            &&& after@[id].page@ == placed(s, skip, edit.cell())
            &&& after@[id].page.records() == edited(records(s), edit)
        },
        _ => {
            &&& after@[guard.page_id.0] == before@[guard.page_id.0]
            &&& rebuilt(
                before,
                after,
                before@[guard.page_id.0].page_type,
                hdr_flags(before@[guard.page_id.0].page@) as u16,
                sorted_cells(before@[guard.page_id.0].page@, edit),
                r,
            )
        },
    }
}

/// Makes a new page of the cells in the slots `order[from..to]` of the
/// staged records, and leaves it unpinned.
fn build_page(
    pool: &mut BufferPool,
    page_type: PageType,
    flags: u16,
    source: &Page,
    skip: Option<SlotID>,
    extra: Option<&[u8]>,
    order: &Vec<u16>,
    from: usize,
    to: usize,
) -> (id: u64)
    requires
        old(pool).wf(),
        old(pool).spec_len() < old(pool).spec_capacity(),
        old(pool).spec_next_page_id() < u64::MAX,
        source.wf(),
        slot_index(skip) is Some ==> slot_index(skip)->0 < source.records().len(),
        all_present(order@, staged(source.records(), slot_index(skip), cell_view(extra))),
        from <= to <= order@.len(),
        fits_page(
            cells_of(order@, staged(source.records(), slot_index(skip), cell_view(extra))).subrange(
                from as int,
                to as int,
            ),
        ),
    ensures
        final(pool).wf(),
        final(pool).spec_capacity() == old(pool).spec_capacity(),
        final(pool).spec_len() == old(pool).spec_len() + 1,
        final(pool).spec_next_page_id() == old(pool).spec_next_page_id() + 1,
        id == old(pool).spec_next_page_id(),
        !old(pool)@.contains_key(id),
        final(pool)@.dom() == old(pool)@.dom().insert(id),
        forall|k: u64| #[trigger]
            old(pool)@.contains_key(k) ==> final(pool)@.contains_key(k) && final(pool)@[k] == old(
                pool,
            )@[k],
        final(pool).spec_clock() == ticks_on(old(pool).spec_clock(), 1),
        built_frame(
            final(pool)@[id],
            id,
            page_type,
            flags,
            cells_of(order@, staged(source.records(), slot_index(skip), cell_view(extra))).subrange(
                from as int,
                to as int,
            ),
            old(pool).spec_clock(),
        ),
{
    let guard = pool.allocate(page_type).unwrap();
    let id = guard.page_id.0;
    let target = pool.as_writable(&guard).unwrap();
    target.set_flags(flags);
    fill(target, source, skip, extra, order, from, to);
    let _ = pool.release(guard);
    proof {
        assert(pool@.dom() =~= old(pool)@.dom().insert(id));
    }
    id
}

/// Makes an edit in the page behind `guard`: removes the record under
/// `skip`, compacts the page if the free region is too small for `extra`,
/// and inserts `extra`.
fn place(pool: &mut BufferPool, guard: &PageGuard, skip: Option<SlotID>, extra: Option<&[u8]>)
    requires
        old(pool).wf(),
        guard_holds(old(pool)@, *guard),
        guard.mode == LatchMode::Exclusive,
        slot_index(skip) is Some ==> slot_index(skip)->0 < hdr_slot_count(
            old(pool)@[guard.page_id.0].page@,
        ) && old(pool)@[guard.page_id.0].page.records()[slot_index(skip)->0] is Some,
        has_room(old(pool)@[guard.page_id.0].page@, slot_index(skip), cell_view(extra)),
    ensures
        final(pool).wf(),
        final(pool).same_settings(old(pool)),
        final(pool).spec_len() == old(pool).spec_len(),
        final(pool)@.dom() == old(pool)@.dom(),
        forall|k: u64| #[trigger]
            old(pool)@.contains_key(k) && k != guard.page_id.0 ==> final(pool)@[k] == old(pool)@[k],
        final(pool)@[guard.page_id.0] == (PageFrame {
            page: final(pool)@[guard.page_id.0].page,
            dirty: true,
            ..old(pool)@[guard.page_id.0]
        }),
        final(pool)@[guard.page_id.0].page@ == placed(
            old(pool)@[guard.page_id.0].page@,
            slot_index(skip),
            cell_view(extra),
        ),
        final(pool)@[guard.page_id.0].page.records() == staged(
            old(pool)@[guard.page_id.0].page.records(),
            slot_index(skip),
            cell_view(extra),
        ),
{
    let ghost s = pool@[guard.page_id.0].page@;
    assert(pool@[guard.page_id.0].wf());
    let page = pool.as_writable(guard).unwrap();
    match skip {
        Some(slot) => {
            proof {
                lemma_with_tombstone(s, slot.0 as int);
                lemma_payload_bytes_remove(records(s), slot.0 as int);
            }
            let _ = page.remove(slot);
        },
        None => {},
    }
    match extra {
        Some(cell) => {
            let ghost t = page@;
            assert(t == cleared(s, slot_index(skip)));
            let room = page.free_end() - page.free_start();
            if room < SLOT_ENTRY_SIZE || room - SLOT_ENTRY_SIZE < cell.len() {
                proof {
                    lemma_compacted(t);
                }
                page.compact();
            }
            let _ = page.insert(cell);
        },
        None => {},
    }
    proof {
        assert(pool@.dom() =~= old(pool)@.dom());
    }
}

/// How cells are to be built anew.
enum Plan {
    /// In one page.
    One,
    /// In two pages, split at this cell.
    Two(usize),
    /// Not at all: they do not fit two pages.
    Neither,
}

/// Decides how the cells in the slots `order` are to be built anew.
fn plan(source: &Page, skip: Option<SlotID>, extra: Option<&[u8]>, order: &Vec<u16>) -> (p: Plan)
    requires
        source.wf(),
        slot_index(skip) is Some ==> slot_index(skip)->0 < source.records().len(),
        extra is Some ==> extra->0@.len() <= PAGE_SIZE,
        all_present(order@, staged(source.records(), slot_index(skip), cell_view(extra))),
        order@.len() <= MAX_SLOTS + 1,
    ensures
        ({
            let cells = cells_of(
                order@,
                staged(source.records(), slot_index(skip), cell_view(extra)),
            );
            let m = split_point(cells, 0);
            match p {
                Plan::One => fits_page(cells),
                Plan::Two(at) => !fits_page(cells) && at == m && 0 < m < cells.len() && fits_page(
                    cells.take(m),
                ) && fits_page(cells.skip(m)),
                Plan::Neither => !fits_page(cells) && !(0 < m < cells.len() && fits_page(
                    cells.take(m),
                ) && fits_page(cells.skip(m))),
            }
        }),
{
    let ghost cells = cells_of(
        order@,
        staged(source.records(), slot_index(skip), cell_view(extra)),
    );
    let count = order.len();
    let total = footprint_of(source, skip, extra, order, 0, count);
    proof {
        assert(cells.subrange(0, count as int) =~= cells);
        lemma_split_point(cells, 0);
    }
    if total <= NODE_CAPACITY && count <= MAX_SLOTS {
        return Plan::One;
    }
    let m = split_index(source, skip, extra, order, total);
    if m == 0 || m >= count {
        return Plan::Neither;
    }
    let left_size = footprint_of(source, skip, extra, order, 0, m);
    let right_size = footprint_of(source, skip, extra, order, m, count);
    proof {
        assert(cells.subrange(0, m as int) =~= cells.take(m as int));
        assert(cells.subrange(m as int, count as int) =~= cells.skip(m as int));
    }
    if left_size > NODE_CAPACITY || m > MAX_SLOTS || right_size > NODE_CAPACITY || count - m
        > MAX_SLOTS {
        return Plan::Neither;
    }
    Plan::Two(m)
}

/// Makes two new pages of the cells in the slots `order`: one of those
/// before `m` and one of the rest.
fn build_two(
    pool: &mut BufferPool,
    page_type: PageType,
    flags: u16,
    source: &Page,
    skip: Option<SlotID>,
    extra: Option<&[u8]>,
    order: &Vec<u16>,
    m: usize,
) -> (ids: (u64, u64))
    requires
        old(pool).wf(),
        old(pool).spec_len() + 2 <= old(pool).spec_capacity(),
        old(pool).spec_next_page_id() + 2 <= u64::MAX,
        source.wf(),
        slot_index(skip) is Some ==> slot_index(skip)->0 < source.records().len(),
        all_present(order@, staged(source.records(), slot_index(skip), cell_view(extra))),
        m <= order@.len(),
        fits_page(
            cells_of(order@, staged(source.records(), slot_index(skip), cell_view(extra))).take(
                m as int,
            ),
        ),
        fits_page(
            cells_of(order@, staged(source.records(), slot_index(skip), cell_view(extra))).skip(
                m as int,
            ),
        ),
    ensures
        final(pool).wf(),
        final(pool).spec_capacity() == old(pool).spec_capacity(),
        final(pool).spec_len() == old(pool).spec_len() + 2,
        final(pool).spec_next_page_id() == old(pool).spec_next_page_id() + 2,
        ids.0 == old(pool).spec_next_page_id(),
        ids.1 == old(pool).spec_next_page_id() + 1,
        final(pool)@.dom() == old(pool)@.dom().insert(ids.0).insert(ids.1),
        forall|k: u64| #[trigger]
            old(pool)@.contains_key(k) ==> final(pool)@.contains_key(k) && final(pool)@[k] == old(
                pool,
            )@[k],
        final(pool).spec_clock() == ticks_on(old(pool).spec_clock(), 2),
        built_frame(
            final(pool)@[ids.0],
            ids.0,
            page_type,
            flags,
            cells_of(order@, staged(source.records(), slot_index(skip), cell_view(extra))).take(
                m as int,
            ),
            old(pool).spec_clock(),
        ),
        built_frame(
            final(pool)@[ids.1],
            ids.1,
            page_type,
            flags,
            cells_of(order@, staged(source.records(), slot_index(skip), cell_view(extra))).skip(
                m as int,
            ),
            ticks_on(old(pool).spec_clock(), 1),
        ),
{
    let ghost cells = cells_of(
        order@,
        staged(source.records(), slot_index(skip), cell_view(extra)),
    );
    let count = order.len();
    proof {
        assert(cells.subrange(0, m as int) =~= cells.take(m as int));
        assert(cells.subrange(m as int, count as int) =~= cells.skip(m as int));
    }
    let left = build_page(pool, page_type, flags, source, skip, extra, order, 0, m);
    let ghost between = pool@;
    assert(between.contains_key(left));
    let right = build_page(pool, page_type, flags, source, skip, extra, order, m, count);
    proof {
        assert(pool@[left] == between[left]);
        assert(pool@.dom() =~= old(pool)@.dom().insert(left).insert(right));
    }
    (left, right)
}

/// Builds the cells of the staged records anew, in key order, in one new
/// page or in two.
fn rebuild(
    pool: &mut BufferPool,
    page_type: PageType,
    flags: u16,
    source: &Page,
    skip: Option<SlotID>,
    extra: Option<&[u8]>,
) -> (r: Result<EditOutcome, PageError>)
    requires
        old(pool).wf(),
        source.wf(),
        slot_index(skip) is Some ==> slot_index(skip)->0 < source.records().len(),
        extra is Some ==> extra->0@.len() <= PAGE_SIZE,
    ensures
        final(pool).wf(),
        final(pool).spec_capacity() == old(pool).spec_capacity(),
        forall|k: u64| #[trigger]
            old(pool)@.contains_key(k) ==> final(pool)@.contains_key(k) && final(pool)@[k] == old(
                pool,
            )@[k],
        rebuilt(
            old(pool),
            final(pool),
            page_type,
            flags,
            sort_cells(live_cells(staged(source.records(), slot_index(skip), cell_view(extra)))),
            r,
        ),
{
    let order = sorted_order(source, skip, extra);
    let ghost cells = cells_of(
        order@,
        staged(source.records(), slot_index(skip), cell_view(extra)),
    );
    match plan(source, skip, extra, &order) {
        Plan::Neither => Err(PageError::InsufficientSpace),
        Plan::One => {
            if pool.len() >= pool.capacity() || pool.next_page_id() == u64::MAX {
                return Err(PageError::InsufficientSpace);
            }
            let count = order.len();
            assert(cells.subrange(0, count as int) =~= cells);
            let id = build_page(pool, page_type, flags, source, skip, extra, &order, 0, count);
            Ok(EditOutcome::Rebuilt(PageID(id)))
        },
        Plan::Two(m) => {
            if pool.capacity() - pool.len() < 2 || pool.next_page_id() >= u64::MAX - 1 {
                return Err(PageError::InsufficientSpace);
            }
            let first = staged_cell(source, skip, extra, order[m] as usize).unwrap();
            let split_key = slice_to_vec(key_of(first));
            assert(split_key@ == cell_key(cells[m as int]));
            let (left, right) = build_two(pool, page_type, flags, source, skip, extra, &order, m);
            Ok(EditOutcome::Split(PageID(left), PageID(right), split_key))
        },
    }
}

/// Carries out edits of tree pages for transactions.
pub struct MvccManager;

impl MvccManager {
    /// Applies `edit` to the page behind `guard` for transaction `txn`.
    ///
    /// The edit is made in the page itself where the transaction owns the
    /// page, the guard holds it `Exclusive` and the page has room.
    /// Otherwise the page stays as it is and its cells go, in key order
    /// and with the edit applied, to one new page (`Rebuilt`) or to two
    /// (`Split`); the new pages are added to those that the transaction
    /// created, and the page to those it superseded. An update or a
    /// delete of a key that is not in the page changes nothing and is
    /// `InPlace`.
    ///
    /// Fails with `PageNotFound` when the guard is not good, and with
    /// `InsufficientSpace` when the cell to insert is too long for any
    /// page, when the pool lacks frames or identifiers for the new pages,
    /// or when the cells do not fit two pages either. A failure changes
    /// nothing. No page but the one behind `guard` is ever changed, and
    /// that one only on the path `InPlace`.
    pub fn apply_edit(
        pool: &mut BufferPool,
        txn: &mut Transaction,
        guard: &PageGuard,
        edit: &Edit,
    ) -> (r: Result<EditOutcome, PageError>)
        requires
            old(pool).wf(),
        ensures
            final(pool).wf(),
            final(pool).spec_capacity() == old(pool).spec_capacity(),
            applied(old(pool), old(txn), *guard, *edit, final(pool), final(txn), r),
    {
        let copy = match pool.as_readable(guard) {
            Some(page) => page.duplicate(),
            None => {
                return Err(PageError::PageNotFound);
            },
        };
        let ghost s = copy@;
        assert(pool@[guard.page_id.0].wf());
        let page_type = copy.page_type();
        let flags = copy.flags();
        let (key, extra, upsert): (&[u8], Option<&[u8]>, bool) = match edit {
            Edit::Insert(cell) => (key_of(cell.as_slice()), Some(cell.as_slice()), true),
            Edit::Update(cell) => (key_of(cell.as_slice()), Some(cell.as_slice()), false),
            Edit::Delete(key) => (key.as_slice(), None, false),
        };
        assert(key@ == edit.key());
        assert(cell_view(extra) == edit.cell());
        match extra {
            Some(cell) => {
                if cell.len() > NODE_CAPACITY - SLOT_ENTRY_SIZE {
                    return Err(PageError::InsufficientSpace);
                }
            },
            None => {},
        }
        let skip = find_key(&copy, key);
        assert(slot_index(skip) == hit_slot(records(s), edit.key()));
        if !upsert && skip.is_none() {
            return Ok(EditOutcome::InPlace);
        }
        let exclusive = match guard.mode {
            LatchMode::Exclusive => true,
            _ => false,
        };
        if exclusive && txn.owns(guard.page_id) && Self::has_room(&copy, skip, extra) {
            place(pool, guard, skip, extra);
            return Ok(EditOutcome::InPlace);
        }
        let r = rebuild(pool, page_type, flags, &copy, skip, extra);
        match &r {
            Ok(EditOutcome::Rebuilt(id)) => {
                txn.created.push(*id);
                txn.superseded.push(guard.page_id);
            },
            Ok(EditOutcome::Split(left, right, _)) => {
                txn.created.push(*left);
                txn.created.push(*right);
                txn.superseded.push(guard.page_id);
            },
            _ => {},
        }
        r
    }

    /// Makes a new, empty page for transaction `txn`, which owns it from
    /// then on, and answers a guard that holds it `Exclusive`. Fails with
    /// `InsufficientSpace`, changing nothing, when the pool has no frame or
    /// no identifier left.
    pub fn create_page(pool: &mut BufferPool, txn: &mut Transaction, page_type: PageType) -> (r:
        Result<PageGuard, PageError>)
        requires
            old(pool).wf(),
        ensures
            final(pool).wf(),
            final(pool).spec_capacity() == old(pool).spec_capacity(),
            final(txn).superseded@ == old(txn).superseded@,
            r is Ok <==> old(pool).spec_len() < old(pool).spec_capacity() && old(
                pool,
            ).spec_next_page_id() < u64::MAX,
            forall|k: u64| #[trigger]
                old(pool)@.contains_key(k) ==> final(pool)@.contains_key(k) && final(pool)@[k]
                    == old(pool)@[k],
            match r {
                Ok(guard) => {
                    &&& guard == (PageGuard {
                        page_id: PageID(old(pool).spec_next_page_id()),
                        mode: LatchMode::Exclusive,
                    })
                    &&& guard_holds(final(pool)@, guard)
                    &&& final(pool)@[guard.page_id.0].page@ == fresh_page(
                        guard.page_id.0,
                        page_type,
                    )
                    &&& final(pool)@.dom() == old(pool)@.dom().insert(guard.page_id.0)
                    &&& final(pool).spec_next_page_id() == old(pool).spec_next_page_id() + 1
                    &&& final(pool).spec_len() == old(pool).spec_len() + 1
                    &&& final(txn).created@ == old(txn).created@.push(guard.page_id)
                    &&& final(txn).spec_owns(guard.page_id)
                },
                Err(e) => {
                    &&& e == PageError::InsufficientSpace
                    &&& final(pool)@ == old(pool)@
                    &&& final(pool).same_settings(old(pool))
                    &&& final(txn).created@ == old(txn).created@
                },
            },
    {
        match pool.allocate(page_type) {
            Ok(guard) => {
                txn.created.push(guard.page_id);
                proof {
                    assert(pool@.dom() =~= old(pool)@.dom().insert(guard.page_id.0));
                    assert(txn.created@[txn.created@.len() - 1] == guard.page_id);
                }
                Ok(guard)
            },
            Err(e) => Err(e),
        }
    }

    /// Commits transaction `txn`: the meta page gives the new roots from
    /// now on. The pool is not touched, so whoever holds a guard on a page
    /// of the old tree keeps reading what was there. Returns the pages
    /// that the transaction superseded: they can go once their readers
    /// have left.
    pub fn commit(
        txn: Transaction,
        meta: &mut MetaPageSwitch,
        catalog_root: PageID,
        free_list_head: PageID,
    ) -> (superseded: Vec<PageID>)
        requires
            old(meta).wf(),
            old(meta).active().version < u64::MAX,
        ensures
            final(meta).wf(),
            final(meta).roots() == (Roots { catalog_root, free_list_head }),
            final(meta).standby() == old(meta).active(),
            final(meta).active().version == old(meta).active().version + 1,
            superseded@ == txn.superseded@,
    {
        let _ = meta.commit_new_roots(catalog_root, free_list_head);
        txn.superseded
    }

    /// Gives up transaction `txn`: every page that it created and that
    /// has no pin is dropped from the pool, unwritten. Every other page
    /// stays as it is.
    pub fn abort(pool: &mut BufferPool, txn: Transaction)
        requires
            old(pool).wf(),
        ensures
            final(pool).wf(),
            final(pool).same_settings(old(pool)),
            forall|k: u64| #[trigger]
                old(pool)@.contains_key(k) && !(txn.spec_owns(PageID(k)) && old(
                    pool,
                )@[k].pin_count == 0) ==> final(pool)@.contains_key(k) && final(pool)@[k] == old(
                    pool,
                )@[k],
            forall|k: u64| #[trigger]
                final(pool)@.contains_key(k) ==> old(pool)@.contains_key(k) && final(pool)@[k]
                    == old(pool)@[k],
            forall|k: u64| #[trigger]
                old(pool)@.contains_key(k) && txn.spec_owns(PageID(k)) && old(pool)@[k].pin_count
                    == 0 ==> !final(pool)@.contains_key(k),
    {
        let mut i: usize = 0;
        while i < txn.created.len()
            invariant
                pool.wf(),
                pool.same_settings(old(pool)),
                i <= txn.created@.len(),
                forall|k: u64| #[trigger]
                    old(pool)@.contains_key(k) && !(txn.spec_owns(PageID(k)) && old(
                        pool,
                    )@[k].pin_count == 0) ==> pool@.contains_key(k) && pool@[k] == old(pool)@[k],
                forall|k: u64| #[trigger]
                    pool@.contains_key(k) ==> old(pool)@.contains_key(k) && pool@[k] == old(
                        pool,
                    )@[k],
                forall|j: int|
                    0 <= j < i && old(pool)@.contains_key((#[trigger] txn.created@[j]).0) && old(
                        pool,
                    )@[txn.created@[j].0].pin_count == 0 ==> !pool@.contains_key(
                        txn.created@[j].0,
                    ),
            decreases txn.created@.len() - i,
        {
            let id = txn.created[i];
            let ghost before = pool@;
            let _ = pool.discard(id);
            proof {
                assert(txn.spec_owns(id));
                assert forall|j: int|
                    0 <= j < i + 1 && old(pool)@.contains_key((#[trigger] txn.created@[j]).0)
                        && old(pool)@[txn.created@[j].0].pin_count == 0 implies !pool@.contains_key(
                    txn.created@[j].0,
                ) by {
                    let k = txn.created@[j].0;
                    if j < i {
                        assert(!before.contains_key(k));
                    } else if before.contains_key(k) {
                        assert(before[k] == old(pool)@[k]);
                    }
                }
            }
            i = i + 1;
        }
        proof {
            assert forall|k: u64| #[trigger]
                old(pool)@.contains_key(k) && txn.spec_owns(PageID(k)) && old(pool)@[k].pin_count
                    == 0 implies !pool@.contains_key(k) by {
                let j = choose|j: int| 0 <= j < txn.created@.len() && txn.created@[j] == PageID(k);
                assert(txn.created@[j].0 == k);
            }
        }
    }

    /// Whether `page` has room for `extra` once the record under `skip` is
    /// removed and the page is compacted.
    fn has_room(page: &Page, skip: Option<SlotID>, extra: Option<&[u8]>) -> (room: bool)
        requires
            page.wf(),
            slot_index(skip) is Some ==> slot_index(skip)->0 < page.records().len()
                && page.records()[slot_index(skip)->0] is Some,
        ensures
            room == has_room(page@, slot_index(skip), cell_view(extra)),
    {
        match extra {
            None => true,
            Some(cell) => {
                let gone = match skip {
                    Some(slot) => page.entry_at(slot.0 as usize).len as usize,
                    None => 0,
                };
                proof {
                    match skip {
                        Some(slot) => {
                            lemma_with_tombstone(page@, slot.0 as int);
                            lemma_payload_bytes_remove(records(page@), slot.0 as int);
                        },
                        None => {},
                    }
                }
                let live = page.live_bytes() - gone;
                let used = page.free_start() + live;
                (page.slot_count() as usize) < MAX_SLOTS && used <= PAGE_SIZE && cell.len()
                    <= PAGE_SIZE && PAGE_SIZE - used >= cell.len() + SLOT_ENTRY_SIZE
            },
        }
    }
}

/// What an edit does to the cells of a page: the first cell with the key
/// of the edit goes, if there is one, and the new cell comes, if the edit
/// has one. Every other cell stays, as often as it was there.
pub proof fn lemma_edited_cells(r: Seq<Option<Seq<u8>>>, edit: Edit)
    ensures
        live_cells(edited(r, edit)).to_multiset() == ({
            let before = live_cells(r).to_multiset();
            let cleared = match hit_slot(r, edit.key()) {
                Some(i) => before.remove(r[i]->0),
                None => before,
            };
            match edit.cell() {
                Some(cell) => cleared.insert(cell),
                None => cleared,
            }
        }),
{
    let key = edit.key();
    lemma_first_with_key(r, key, 0);
    let without = match hit_slot(r, key) {
        Some(i) => r.update(i, None),
        None => r,
    };
    match hit_slot(r, key) {
        Some(i) => {
            lemma_live_cells_remove(r, i);
        },
        None => {},
    }
    match edit.cell() {
        Some(cell) => {
            lemma_live_cells_push(without, Some(cell));
            to_multiset_build(live_cells(without), cell);
        },
        None => {},
    }
}

/// A reader is not disturbed by an edit: a guard on a page that the
/// transaction does not own is as good after the edit as before, and the
/// page behind it holds the bytes it held.
pub proof fn lemma_readers_undisturbed(
    before: &BufferPool,
    txn_before: &Transaction,
    guard: PageGuard,
    edit: Edit,
    after: &BufferPool,
    txn_after: &Transaction,
    r: Result<EditOutcome, PageError>,
    reader: PageGuard,
)
    requires
        applied(before, txn_before, guard, edit, after, txn_after, r),
        guard_holds(before@, reader),
        !txn_before.spec_owns(reader.page_id),
    ensures
        guard_holds(after@, reader),
        after@[reader.page_id.0].page == before@[reader.page_id.0].page,
        after@[reader.page_id.0].pin_count == before@[reader.page_id.0].pin_count,
{
    assert(before@.contains_key(reader.page_id.0));
}

/// An edit of a page that the transaction does not own leaves the page
/// as it is and, where it succeeds with a new page, puts the edited cells
/// there: who reads the old page reads what was there before, who is sent
/// to the new page reads the edit.
pub proof fn lemma_edit_makes_new_version(
    before: &BufferPool,
    txn_before: &Transaction,
    guard: PageGuard,
    edit: Edit,
    after: &BufferPool,
    txn_after: &Transaction,
    r: Result<EditOutcome, PageError>,
)
    requires
        before.wf(),
        applied(before, txn_before, guard, edit, after, txn_after, r),
        guard_holds(before@, guard),
        !txn_before.spec_owns(guard.page_id),
        r is Ok,
        r->Ok_0 is Rebuilt,
    ensures
        after@[guard.page_id.0].page == before@[guard.page_id.0].page,
        r->Ok_0->Rebuilt_0.0 != guard.page_id.0,
        !before@.contains_key(r->Ok_0->Rebuilt_0.0),
        after@.contains_key(r->Ok_0->Rebuilt_0.0),
        live_cells(after@[r->Ok_0->Rebuilt_0.0].page.records()) == sorted_cells(
            before@[guard.page_id.0].page@,
            edit,
        ),
        live_cells(after@[r->Ok_0->Rebuilt_0.0].page.records()).to_multiset() == live_cells(
            edited(before@[guard.page_id.0].page.records(), edit),
        ).to_multiset(),
        txn_after.spec_owns(r->Ok_0->Rebuilt_0),
{
    let cells = sorted_cells(before@[guard.page_id.0].page@, edit);
    let id = r->Ok_0->Rebuilt_0;
    assert(before@.contains_key(guard.page_id.0));
    lemma_live_cells_of_records(cells);
    lemma_sort_cells(live_cells(edited(before@[guard.page_id.0].page.records(), edit)));
    assert(after@.dom().contains(id.0));
    assert(txn_after.created@[txn_after.created@.len() - 1] == id);
}

/// A split loses no cell and doubles none: the cells of the left page and
/// of the right page together are the cells of the page with the edit
/// applied, each as often as it is there. Both pages have cells. The cells
/// are in key order across the two pages, so every key of the left page is
/// at or before the split key and every key of the right page is at or
/// after it; and the split key is the first key of the right page.
pub proof fn lemma_split_partitions(
    before: &BufferPool,
    txn_before: &Transaction,
    guard: PageGuard,
    edit: Edit,
    after: &BufferPool,
    txn_after: &Transaction,
    r: Result<EditOutcome, PageError>,
)
    requires
        applied(before, txn_before, guard, edit, after, txn_after, r),
        r is Ok,
        r->Ok_0 is Split,
    ensures
        ({
            let left = live_cells(after@[r->Ok_0->Split_0.0].page.records());
            let right = live_cells(after@[r->Ok_0->Split_1.0].page.records());
            let all = live_cells(edited(before@[guard.page_id.0].page.records(), edit));
            &&& left.to_multiset().add(right.to_multiset()) == all.to_multiset()
            &&& left.len() > 0
            &&& right.len() > 0
            &&& in_key_order(left + right)
            &&& r->Ok_0->Split_2@ == cell_key(right[0])
            &&& forall|i: int|
                0 <= i < left.len() ==> key_le(cell_key(#[trigger] left[i]), r->Ok_0->Split_2@)
            &&& forall|i: int|
                0 <= i < right.len() ==> key_le(r->Ok_0->Split_2@, cell_key(#[trigger] right[i]))
        }),
{
    let s = before@[guard.page_id.0].page@;
    let all = live_cells(edited(records(s), edit));
    let cells = sorted_cells(s, edit);
    let m = split_point(cells, 0);
    let left = live_cells(after@[r->Ok_0->Split_0.0].page.records());
    let right = live_cells(after@[r->Ok_0->Split_1.0].page.records());
    lemma_sort_cells(all);
    lemma_split_point(cells, 0);
    lemma_live_cells_of_records(cells.take(m));
    lemma_live_cells_of_records(cells.skip(m));
    assert(left == cells.take(m));
    assert(right == cells.skip(m));
    assert(left + right =~= cells);
    lemma_multiset_commutative(left, right);
    assert forall|i: int| 0 <= i < left.len() implies key_le(
        cell_key(#[trigger] left[i]),
        r->Ok_0->Split_2@,
    ) by {
        assert(left[i] == cells[i]);
    }
    assert forall|i: int| 0 <= i < right.len() implies key_le(
        r->Ok_0->Split_2@,
        cell_key(#[trigger] right[i]),
    ) by {
        assert(right[i] == cells[m + i]);
        if i == 0 {
            crate::cells::lemma_key_le_total(cell_key(cells[m]), cell_key(cells[m]));
        }
    }
}

} // verus!
