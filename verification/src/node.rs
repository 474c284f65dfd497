//! The cells of a page as the entries of a tree node: finding a key,
//! putting the cells in key order, and measuring what they take.

use vstd::prelude::*;
use vstd::seq_lib::{to_multiset_build, to_multiset_insert};
use crate::cells::{
    cell_key, key_at_or_before, key_le, key_of, lemma_key_le_total, lemma_key_le_transitive,
    same_key,
};
use crate::ids::SlotID;
use crate::layout::{HEADER_SIZE, MAX_SLOTS, PAGE_SIZE, SLOT_ENTRY_SIZE};
use crate::model::{
    hdr_free_end, hdr_free_start, hdr_slot_count, inserted, record, records, same_identity,
};
use crate::page::Page;

verus! {

/// Bytes of a page that cells and their slot entries can take.
pub const NODE_CAPACITY: usize = 4080;

/// The records that are present, in slot order.
pub open spec fn live_cells(r: Seq<Option<Seq<u8>>>) -> Seq<Seq<u8>>
    decreases r.len(),
{
    if r.len() == 0 {
        Seq::<Seq<u8>>::empty()
    } else {
        match r.last() {
            Some(c) => live_cells(r.drop_last()).push(c),
            None => live_cells(r.drop_last()),
        }
    }
}

/// The first slot at or after `from` with a record whose key is `key`, or
/// the number of slots if there is none.
pub open spec fn first_with_key(r: Seq<Option<Seq<u8>>>, key: Seq<u8>, from: int) -> int
    decreases r.len() - from,
{
    if from >= r.len() {
        r.len() as int
    } else if r[from] is Some && cell_key(r[from]->0) == key {
        from
    } else {
        first_with_key(r, key, from + 1)
    }
}

/// Where `x` goes among cells in key order: before the first cell whose
/// key is after the key of `x`.
pub open spec fn insert_pos(s: Seq<Seq<u8>>, x: Seq<u8>, from: int) -> int
    decreases s.len() - from,
{
    if from >= s.len() {
        s.len() as int
    } else if !key_le(cell_key(s[from]), cell_key(x)) {
        from
    } else {
        insert_pos(s, x, from + 1)
    }
}

/// The cells in key order. Cells with the same key keep the order they
/// have among themselves.
pub open spec fn sort_cells(l: Seq<Seq<u8>>) -> Seq<Seq<u8>>
    decreases l.len(),
{
    if l.len() == 0 {
        Seq::<Seq<u8>>::empty()
    } else {
        let s = sort_cells(l.drop_last());
        s.insert(insert_pos(s, l.last(), 0), l.last())
    }
}

/// The cells are in key order.
pub open spec fn in_key_order(s: Seq<Seq<u8>>) -> bool {
    forall|a: int, b: int|
        0 <= a < b < s.len() ==> key_le(cell_key(#[trigger] s[a]), cell_key(#[trigger] s[b]))
}

/// Bytes of a page that the cells take, slot entries included.
pub open spec fn footprint(l: Seq<Seq<u8>>) -> nat
    decreases l.len(),
{
    if l.len() == 0 {
        0
    } else {
        footprint(l.drop_last()) + l.last().len() + SLOT_ENTRY_SIZE as nat
    }
}

/// The cells fit one page.
pub open spec fn fits_page(l: Seq<Seq<u8>>) -> bool {
    footprint(l) <= NODE_CAPACITY && l.len() <= MAX_SLOTS
}

/// Where cells are split in two: after the shortest run of cells from the
/// start that takes at least half of what all the cells take.
pub open spec fn split_point(l: Seq<Seq<u8>>, from: int) -> int
    decreases l.len() - from,
{
    if from >= l.len() {
        l.len() as int
    } else if 2 * footprint(l.take(from)) >= footprint(l) {
        from
    } else {
        split_point(l, from + 1)
    }
}

/// The records that a page comes to hold when the record under `skip` is
/// removed and `extra` is appended.
pub open spec fn staged(
    r: Seq<Option<Seq<u8>>>,
    skip: Option<int>,
    extra: Option<Seq<u8>>,
) -> Seq<Option<Seq<u8>>> {
    let cleared = match skip {
        Some(i) => r.update(i, None),
        None => r,
    };
    match extra {
        Some(c) => cleared.push(Some(c)),
        None => cleared,
    }
}

/// The number of a slot, if there is a slot.
pub(crate) open spec fn slot_index(slot: Option<SlotID>) -> Option<int> {
    match slot {
        Some(s) => Some(s.0 as int),
        None => None,
    }
}

/// The bytes of a cell, if there is a cell.
pub(crate) open spec fn cell_view(cell: Option<&[u8]>) -> Option<Seq<u8>> {
    match cell {
        Some(c) => Some(c@),
        None => None,
    }
}

/// The cells that the slots in `order` hold among the records `e`.
pub(crate) open spec fn cells_of(order: Seq<u16>, e: Seq<Option<Seq<u8>>>) -> Seq<Seq<u8>> {
    Seq::new(order.len(), |j: int| e[order[j] as int]->0)
}

/// Every slot in `order` holds a record among `e`.
pub(crate) open spec fn all_present(order: Seq<u16>, e: Seq<Option<Seq<u8>>>) -> bool {
    forall|j: int|
        0 <= j < order.len() ==> (#[trigger] order[j]) < e.len() && e[order[j] as int] is Some
}

/// Page `s` after the cells `l` were inserted into it one after the
/// other.
pub open spec fn filled(s: Seq<u8>, l: Seq<Seq<u8>>) -> Seq<u8>
    decreases l.len(),
{
    if l.len() == 0 {
        s
    } else {
        inserted(filled(s, l.drop_last()), l.last())
    }
}

/// The records of a page that holds the cells `l`, one to a slot and
/// none removed.
pub open spec fn as_records(l: Seq<Seq<u8>>) -> Seq<Option<Seq<u8>>> {
    Seq::new(l.len(), |j: int| Some(l[j]))
}

/// The first slot with a key, where there is one, is a slot with a record
/// that has the key.
pub proof fn lemma_first_with_key(r: Seq<Option<Seq<u8>>>, key: Seq<u8>, from: int)
    requires
        0 <= from <= r.len(),
    ensures
        from <= first_with_key(r, key, from) <= r.len(),
        first_with_key(r, key, from) < r.len() ==> r[first_with_key(r, key, from)] is Some
            && cell_key(r[first_with_key(r, key, from)]->0) == key,
    decreases r.len() - from,
{
    if from < r.len() && !(r[from] is Some && cell_key(r[from]->0) == key) {
        lemma_first_with_key(r, key, from + 1);
    }
}

/// Where `insert_pos` points, the cells before are at or before `x` and
/// the cell there, if any, is after `x`.
pub proof fn lemma_insert_pos(s: Seq<Seq<u8>>, x: Seq<u8>, from: int)
    requires
        0 <= from <= s.len(),
    ensures
        from <= insert_pos(s, x, from) <= s.len(),
        forall|j: int|
            from <= j < insert_pos(s, x, from) ==> key_le(cell_key(#[trigger] s[j]), cell_key(x)),
        insert_pos(s, x, from) < s.len() ==> !key_le(
            cell_key(s[insert_pos(s, x, from)]),
            cell_key(x),
        ),
    decreases s.len() - from,
{
    if from < s.len() && key_le(cell_key(s[from]), cell_key(x)) {
        lemma_insert_pos(s, x, from + 1);
    }
}

/// Sorting keeps the cells, each as often as it was there, and puts them
/// in key order.
pub proof fn lemma_sort_cells(l: Seq<Seq<u8>>)
    ensures
        sort_cells(l).len() == l.len(),
        sort_cells(l).to_multiset() == l.to_multiset(),
        in_key_order(sort_cells(l)),
    decreases l.len(),
{
    if l.len() == 0 {
        assert(l =~= Seq::<Seq<u8>>::empty());
    } else {
        let rest = l.drop_last();
        let x = l.last();
        let s = sort_cells(rest);
        lemma_sort_cells(rest);
        lemma_insert_pos(s, x, 0);
        let p = insert_pos(s, x, 0);
        let t = s.insert(p, x);
        to_multiset_insert(s, p, x);
        assert(l =~= rest.push(x));
        to_multiset_build(rest, x);
        assert forall|a: int, b: int| 0 <= a < b < t.len() implies key_le(
            cell_key(#[trigger] t[a]),
            cell_key(#[trigger] t[b]),
        ) by {
            if b < p {
                assert(t[a] == s[a] && t[b] == s[b]);
            } else if b == p {
                assert(t[a] == s[a]);
            } else if a == p {
                assert(t[b] == s[b - 1]);
                lemma_key_le_total(cell_key(s[p]), cell_key(x));
                if b - 1 > p {
                    assert(key_le(cell_key(s[p]), cell_key(s[b - 1])));
                    lemma_key_le_transitive(cell_key(x), cell_key(s[p]), cell_key(s[b - 1]));
                }
            } else if a < p {
                assert(t[a] == s[a] && t[b] == s[b - 1]);
            } else {
                assert(t[a] == s[a - 1] && t[b] == s[b - 1]);
            }
        }
    }
}

/// There are no more live cells than records.
pub proof fn lemma_live_cells_len(r: Seq<Option<Seq<u8>>>)
    ensures
        live_cells(r).len() <= r.len(),
    decreases r.len(),
{
    if r.len() > 0 {
        lemma_live_cells_len(r.drop_last());
    }
}

/// The split point lies among the cells.
pub proof fn lemma_split_point(l: Seq<Seq<u8>>, from: int)
    requires
        0 <= from <= l.len(),
    ensures
        from <= split_point(l, from) <= l.len(),
    decreases l.len() - from,
{
    if from < l.len() && 2 * footprint(l.take(from)) < footprint(l) {
        lemma_split_point(l, from + 1);
    }
}

/// A record that is appended is the last of the live cells.
pub proof fn lemma_live_cells_push(r: Seq<Option<Seq<u8>>>, x: Option<Seq<u8>>)
    ensures
        live_cells(r.push(x)) == match x {
            Some(c) => live_cells(r).push(c),
            None => live_cells(r),
        },
{
    assert(r.push(x).drop_last() =~= r);
}

/// The live cells of a prefix of the records grow by the record that
/// comes next.
pub proof fn lemma_live_cells_take(r: Seq<Option<Seq<u8>>>, i: int)
    requires
        0 <= i < r.len(),
    ensures
        live_cells(r.take(i + 1)) == match r[i] {
            Some(c) => live_cells(r.take(i)).push(c),
            None => live_cells(r.take(i)),
        },
{
    assert(r.take(i + 1).drop_last() =~= r.take(i));
}

/// Removing a record takes one copy of its cell from the live cells.
pub proof fn lemma_live_cells_remove(r: Seq<Option<Seq<u8>>>, i: int)
    requires
        0 <= i < r.len(),
        r[i] is Some,
    ensures
        live_cells(r.update(i, None)).to_multiset() == live_cells(r).to_multiset().remove(r[i]->0),
        live_cells(r.update(i, None)).len() + 1 == live_cells(r).len(),
    decreases r.len(),
{
    let u = r.update(i, None);
    if i == r.len() - 1 {
        assert(u.drop_last() =~= r.drop_last());
        let rest = live_cells(r.drop_last());
        let c = r[i]->0;
        to_multiset_build(rest, c);
        assert(rest.to_multiset().insert(c).remove(c) =~= rest.to_multiset());
    } else {
        lemma_live_cells_remove(r.drop_last(), i);
        assert(u.drop_last() =~= r.drop_last().update(i, None));
        match r.last() {
            Some(c) => {
                let before = live_cells(r.drop_last());
                let after = live_cells(u.drop_last());
                to_multiset_build(before, c);
                to_multiset_build(after, c);
                before.to_multiset_ensures();
                assert(before.to_multiset().count(r[i]->0) > 0) by {
                    lemma_live_cells_has(r.drop_last(), i);
                }
                let bag = before.to_multiset();
                assert(bag.remove(r[i]->0).insert(c) =~= bag.insert(c).remove(r[i]->0));
            },
            None => {},
        }
    }
}

/// A record that is present is among the live cells.
pub proof fn lemma_live_cells_has(r: Seq<Option<Seq<u8>>>, i: int)
    requires
        0 <= i < r.len(),
        r[i] is Some,
    ensures
        live_cells(r).to_multiset().count(r[i]->0) > 0,
    decreases r.len(),
{
    let rest = live_cells(r.drop_last());
    if i == r.len() - 1 {
        to_multiset_build(rest, r[i]->0);
    } else {
        lemma_live_cells_has(r.drop_last(), i);
        match r.last() {
            Some(c) => {
                to_multiset_build(rest, c);
            },
            None => {},
        }
    }
}

/// The footprint of a run of cells grows by each cell and its slot entry.
pub proof fn lemma_footprint_take(l: Seq<Seq<u8>>, i: int)
    requires
        0 <= i < l.len(),
    ensures
        footprint(l.take(i + 1)) == footprint(l.take(i)) + l[i].len() + SLOT_ENTRY_SIZE,
{
    assert(l.take(i + 1).drop_last() =~= l.take(i));
}

/// Cells that are split in two take together what they took as one.
pub proof fn lemma_footprint_split(l: Seq<Seq<u8>>, m: int)
    requires
        0 <= m <= l.len(),
    ensures
        footprint(l) == footprint(l.take(m)) + footprint(l.skip(m)),
    decreases l.len() - m,
{
    if m == l.len() {
        assert(l.take(m) =~= l);
        assert(l.skip(m) =~= Seq::<Seq<u8>>::empty());
    } else {
        let rest = l.drop_last();
        lemma_footprint_split(rest, m);
        assert(rest.take(m) =~= l.take(m));
        assert(l.skip(m).drop_last() =~= rest.skip(m));
    }
}

/// A run of cells takes no more than all of them.
pub proof fn lemma_footprint_run(l: Seq<Seq<u8>>, a: int, b: int)
    requires
        0 <= a <= b <= l.len(),
    ensures
        footprint(l.subrange(a, b)) <= footprint(l),
        footprint(l.take(b)) == footprint(l.take(a)) + footprint(l.subrange(a, b)),
{
    lemma_footprint_split(l, b);
    lemma_footprint_split(l.take(b), a);
    assert(l.take(b).take(a) =~= l.take(a));
    assert(l.take(b).skip(a) =~= l.subrange(a, b));
}

/// The live cells of a page that holds cells one to a slot are those
/// cells, in that order.
pub proof fn lemma_live_cells_of_records(l: Seq<Seq<u8>>)
    ensures
        live_cells(as_records(l)) == l,
    decreases l.len(),
{
    if l.len() == 0 {
        assert(l =~= Seq::<Seq<u8>>::empty());
    } else {
        lemma_live_cells_of_records(l.drop_last());
        assert(as_records(l).drop_last() =~= as_records(l.drop_last()));
        assert(l.drop_last().push(l.last()) =~= l);
    }
}

/// The first slot with a record whose key is `key`, found by scanning the
/// slots from 0 up.
pub fn find_key(page: &Page, key: &[u8]) -> (r: Option<SlotID>)
    requires
        page.wf(),
    ensures
        match r {
            Some(slot) => {
                &&& slot.0 == first_with_key(page.records(), key@, 0)
                &&& slot.0 < page.records().len()
                &&& page.records()[slot.0 as int] is Some
                &&& cell_key(page.records()[slot.0 as int]->0) == key@
            },
            None => first_with_key(page.records(), key@, 0) >= page.records().len(),
        },
{
    let n = page.slot_count() as usize;
    let mut i: usize = 0;
    while i < n
        invariant
            page.wf(),
            n == page.records().len(),
            n <= MAX_SLOTS,
            i <= n,
            first_with_key(page.records(), key@, 0) == first_with_key(
                page.records(),
                key@,
                i as int,
            ),
        decreases n - i,
    {
        match page.get(SlotID(i as u16)) {
            Some(cell) => {
                if same_key(key_of(cell), key) {
                    return Some(SlotID(i as u16));
                }
            },
            None => {},
        }
        i = i + 1;
    }
    None
}

/// The record that slot `i` holds among the staged records.
pub(crate) fn staged_cell<'a>(
    page: &'a Page,
    skip: Option<SlotID>,
    extra: Option<&'a [u8]>,
    i: usize,
) -> (r: Option<&'a [u8]>)
    requires
        page.wf(),
        slot_index(skip) is Some ==> slot_index(skip)->0 < page.records().len(),
    ensures
        ({
            let e = staged(page.records(), slot_index(skip), cell_view(extra));
            match r {
                Some(cell) => i < e.len() && e[i as int] == Some(cell@),
                None => i >= e.len() || e[i as int] is None,
            }
        }),
{
    let n = page.slot_count() as usize;
    if i < n {
        match skip {
            Some(s) => {
                if s.0 as usize == i {
                    return None;
                }
            },
            None => {},
        }
        page.get(SlotID(i as u16))
    } else if i == n {
        extra
    } else {
        None
    }
}

/// The slots of the staged records that hold a record, in the order of
/// their keys.
pub(crate) fn sorted_order(page: &Page, skip: Option<SlotID>, extra: Option<&[u8]>) -> (order: Vec<
    u16,
>)
    requires
        page.wf(),
        slot_index(skip) is Some ==> slot_index(skip)->0 < page.records().len(),
    ensures
        all_present(order@, staged(page.records(), slot_index(skip), cell_view(extra))),
        cells_of(order@, staged(page.records(), slot_index(skip), cell_view(extra)))
            == sort_cells(live_cells(staged(page.records(), slot_index(skip), cell_view(extra)))),
        order@.len() <= MAX_SLOTS + 1,
{
    let ghost e = staged(page.records(), slot_index(skip), cell_view(extra));
    let n = page.slot_count() as usize + if extra.is_some() {
        1usize
    } else {
        0usize
    };
    let mut order: Vec<u16> = Vec::new();
    let mut i: usize = 0;
    proof {
        assert(e.take(0) =~= Seq::<Option<Seq<u8>>>::empty());
        assert(cells_of(order@, e) =~= Seq::<Seq<u8>>::empty());
    }
    while i < n
        invariant
            page.wf(),
            slot_index(skip) is Some ==> slot_index(skip)->0 < page.records().len(),
            e == staged(page.records(), slot_index(skip), cell_view(extra)),
            n == e.len(),
            n <= MAX_SLOTS + 1,
            i <= n,
            all_present(order@, e),
            cells_of(order@, e) == sort_cells(live_cells(e.take(i as int))),
        decreases n - i,
    {
        proof {
            lemma_live_cells_take(e, i as int);
        }
        match staged_cell(page, skip, extra, i) {
            None => {},
            Some(cell) => {
                let ghost sorted = cells_of(order@, e);
                let mut p: usize = 0;
                while p < order.len()
                    invariant
                        page.wf(),
                        slot_index(skip) is Some ==> slot_index(skip)->0 < page.records().len(),
                        e == staged(page.records(), slot_index(skip), cell_view(extra)),
                        all_present(order@, e),
                        sorted == cells_of(order@, e),
                        p <= order@.len(),
                        insert_pos(sorted, cell@, 0) == insert_pos(sorted, cell@, p as int),
                    ensures
                        p <= order@.len(),
                        p == insert_pos(sorted, cell@, 0),
                    decreases order@.len() - p,
                {
                    let there = staged_cell(page, skip, extra, order[p] as usize).unwrap();
                    assert(there@ == sorted[p as int]);
                    if !key_at_or_before(key_of(there), key_of(cell)) {
                        break;
                    }
                    p = p + 1;
                }
                order.insert(p, i as u16);
                proof {
                    let grown = live_cells(e.take(i + 1));
                    assert(grown == live_cells(e.take(i as int)).push(cell@));
                    assert(grown.drop_last() =~= live_cells(e.take(i as int)));
                    assert(cells_of(order@, e) =~= sorted.insert(p as int, cell@));
                }
            },
        }
        i = i + 1;
    }
    proof {
        assert(e.take(n as int) =~= e);
        lemma_live_cells_len(e);
        lemma_sort_cells(live_cells(e));
    }
    order
}

/// What the cells in the slots `order[from..to]` take, slot entries
/// included.
pub(crate) fn footprint_of(
    page: &Page,
    skip: Option<SlotID>,
    extra: Option<&[u8]>,
    order: &Vec<u16>,
    from: usize,
    to: usize,
) -> (total: usize)
    requires
        page.wf(),
        slot_index(skip) is Some ==> slot_index(skip)->0 < page.records().len(),
        all_present(order@, staged(page.records(), slot_index(skip), cell_view(extra))),
        from <= to <= order@.len(),
        order@.len() <= MAX_SLOTS + 1,
        extra is Some ==> extra->0@.len() <= PAGE_SIZE,
    ensures
        total == footprint(
            cells_of(order@, staged(page.records(), slot_index(skip), cell_view(extra))).subrange(
                from as int,
                to as int,
            ),
        ),
        total <= (to - from) * 4100,
{
    let ghost e = staged(page.records(), slot_index(skip), cell_view(extra));
    let ghost run = cells_of(order@, e).subrange(from as int, to as int);
    let mut total: usize = 0;
    let mut j: usize = from;
    proof {
        assert(run.take(0) =~= Seq::<Seq<u8>>::empty());
    }
    while j < to
        invariant
            page.wf(),
            slot_index(skip) is Some ==> slot_index(skip)->0 < page.records().len(),
            e == staged(page.records(), slot_index(skip), cell_view(extra)),
            all_present(order@, e),
            run == cells_of(order@, e).subrange(from as int, to as int),
            from <= j <= to <= order@.len(),
            order@.len() <= MAX_SLOTS + 1,
            extra is Some ==> extra->0@.len() <= PAGE_SIZE,
            total == footprint(run.take(j - from)),
            total <= (j - from) * 4100,
        decreases to - j,
    {
        let len = staged_cell(page, skip, extra, order[j] as usize).unwrap().len();
        proof {
            lemma_footprint_take(run, j - from);
            assert(run[j - from] == e[order@[j as int] as int]->0);
            assert(len <= PAGE_SIZE);
        }
        total = total + len + SLOT_ENTRY_SIZE;
        j = j + 1;
    }
    proof {
        assert(run.take(to - from) =~= run);
    }
    total
}

/// Where the cells in the slots `order` are split in two.
pub(crate) fn split_index(
    page: &Page,
    skip: Option<SlotID>,
    extra: Option<&[u8]>,
    order: &Vec<u16>,
    total: usize,
) -> (m: usize)
    requires
        page.wf(),
        slot_index(skip) is Some ==> slot_index(skip)->0 < page.records().len(),
        all_present(order@, staged(page.records(), slot_index(skip), cell_view(extra))),
        order@.len() <= MAX_SLOTS + 1,
        extra is Some ==> extra->0@.len() <= PAGE_SIZE,
        total == footprint(
            cells_of(order@, staged(page.records(), slot_index(skip), cell_view(extra))),
        ),
    ensures
        m <= order@.len(),
        m == split_point(
            cells_of(order@, staged(page.records(), slot_index(skip), cell_view(extra))),
            0,
        ),
{
    let ghost e = staged(page.records(), slot_index(skip), cell_view(extra));
    let ghost cells = cells_of(order@, e);
    let n = order.len();
    let mut taken: usize = 0;
    let mut m: usize = 0;
    proof {
        assert(cells.take(0) =~= Seq::<Seq<u8>>::empty());
    }
    while m < n && 2 * taken < total
        invariant
            page.wf(),
            slot_index(skip) is Some ==> slot_index(skip)->0 < page.records().len(),
            e == staged(page.records(), slot_index(skip), cell_view(extra)),
            cells == cells_of(order@, e),
            all_present(order@, e),
            n == order@.len(),
            n <= MAX_SLOTS + 1,
            extra is Some ==> extra->0@.len() <= PAGE_SIZE,
            total == footprint(cells),
            m <= n,
            taken == footprint(cells.take(m as int)),
            taken <= m * 4100,
            split_point(cells, 0) == split_point(cells, m as int),
        decreases n - m,
    {
        let len = staged_cell(page, skip, extra, order[m] as usize).unwrap().len();
        proof {
            lemma_footprint_take(cells, m as int);
            assert(cells[m as int] == e[order@[m as int] as int]->0);
            assert(len <= PAGE_SIZE);
        }
        taken = taken + len + SLOT_ENTRY_SIZE;
        m = m + 1;
    }
    m
}

/// Inserts the cells in the slots `order[from..to]` into the empty page
/// `target`, in that order.
pub(crate) fn fill(
    target: &mut Page,
    page: &Page,
    skip: Option<SlotID>,
    extra: Option<&[u8]>,
    order: &Vec<u16>,
    from: usize,
    to: usize,
)
    requires
        old(target).cells_wf(),
        old(target).records().len() == 0,
        hdr_free_start(old(target)@) == HEADER_SIZE,
        hdr_free_end(old(target)@) == PAGE_SIZE,
        page.wf(),
        slot_index(skip) is Some ==> slot_index(skip)->0 < page.records().len(),
        all_present(order@, staged(page.records(), slot_index(skip), cell_view(extra))),
        from <= to <= order@.len(),
        fits_page(
            cells_of(order@, staged(page.records(), slot_index(skip), cell_view(extra))).subrange(
                from as int,
                to as int,
            ),
        ),
    ensures
        final(target).cells_wf(),
        same_identity(old(target)@, final(target)@),
        final(target)@ == filled(
            old(target)@,
            cells_of(order@, staged(page.records(), slot_index(skip), cell_view(extra))).subrange(
                from as int,
                to as int,
            ),
        ),
        final(target).records() == as_records(
            cells_of(order@, staged(page.records(), slot_index(skip), cell_view(extra))).subrange(
                from as int,
                to as int,
            ),
        ),
{
    let ghost e = staged(page.records(), slot_index(skip), cell_view(extra));
    let ghost run = cells_of(order@, e).subrange(from as int, to as int);
    let mut j: usize = from;
    proof {
        assert(run.take(0) =~= Seq::<Seq<u8>>::empty());
        assert(target.records() =~= as_records(run.take(0)));
    }
    while j < to
        invariant
            page.wf(),
            slot_index(skip) is Some ==> slot_index(skip)->0 < page.records().len(),
            e == staged(page.records(), slot_index(skip), cell_view(extra)),
            all_present(order@, e),
            run == cells_of(order@, e).subrange(from as int, to as int),
            from <= j <= to <= order@.len(),
            fits_page(run),
            target.cells_wf(),
            same_identity(old(target)@, target@),
            target.records() == as_records(run.take(j - from)),
            target@ == filled(old(target)@, run.take(j - from)),
            hdr_slot_count(target@) == j - from,
            hdr_free_end(target@) - hdr_free_start(target@) == NODE_CAPACITY - footprint(
                run.take(j - from),
            ),
        decreases to - j,
    {
        let cell = staged_cell(page, skip, extra, order[j] as usize).unwrap();
        proof {
            lemma_footprint_take(run, j - from);
            lemma_footprint_run(run, 0, j - from + 1);
            assert(run.subrange(0, j - from + 1) =~= run.take(j - from + 1));
            assert(run[j - from] == cell@);
        }
        let _ = target.insert(cell);
        proof {
            assert(target.records() =~= as_records(run.take(j - from + 1)));
            assert(run.take(j - from + 1).drop_last() =~= run.take(j - from));
        }
        j = j + 1;
    }
    proof {
        assert(run.take(to - from) =~= run);
    }
}

} // verus!
