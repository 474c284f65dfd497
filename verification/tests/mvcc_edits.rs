use pagestore::cells::{key_at_or_before, key_of, same_key, Cell, CellBody};
use pagestore::error::PageError;
use pagestore::ids::{PageID, PageType, SlotID};
use pagestore::latch::LatchMode;
use pagestore::meta::{MetaPage, MetaPageSwitch, Roots, META_SIZE};
use pagestore::mvcc::{Edit, EditOutcome, MvccManager, Transaction};
use pagestore::node::{find_key, NODE_CAPACITY};
use pagestore::page::Page;
use pagestore::pool::{BufferPool, Evict, Fetch, PageGuard};
use std::collections::BTreeMap;

fn cell(key: &[u8], value: &[u8]) -> Vec<u8> {
    Cell { key, body: CellBody::Inline(value) }.encode().unwrap()
}

fn hit(pool: &mut BufferPool, id: u64, mode: LatchMode) -> PageGuard {
    match pool.fetch(PageID(id), mode).unwrap() {
        Fetch::Hit(guard) => guard,
        other => panic!("{:?}", other),
    }
}

fn cells_in(pool: &mut BufferPool, id: u64) -> Vec<Vec<u8>> {
    let guard = hit(pool, id, LatchMode::Shared);
    let page = pool.as_readable(&guard).unwrap();
    let mut out = Vec::new();
    for i in 0..page.slot_count() {
        if let Some(c) = page.get(SlotID(i as u16)) {
            out.push(c.to_vec());
        }
    }
    pool.release(guard).unwrap();
    out
}

fn committed_leaf(pool: &mut BufferPool, cells: &[Vec<u8>]) -> u64 {
    let guard = pool.allocate(PageType::Leaf).unwrap();
    let id = guard.page_id.0;
    for c in cells {
        pool.as_writable(&guard).unwrap().insert(c).unwrap();
    }
    pool.release(guard).unwrap();
    pool.finish_flush(PageID(id), true).unwrap();
    id
}

#[test]
fn cell_codec_round_trips() {
    let inline = Cell { key: b"apple", body: CellBody::Inline(b"red") };
    let bytes = inline.encode().unwrap();
    assert_eq!(bytes, [&[5u8, 0, 0][..], b"apple", b"red"].concat());
    assert_eq!(Cell::parse(&bytes), Some(inline));
    assert_eq!(key_of(&bytes), b"apple");

    let over = Cell { key: b"k", body: CellBody::Overflow(PageID(0x0102)) };
    let bytes = over.encode().unwrap();
    assert_eq!(bytes, vec![1, 0, 1, b'k', 2, 1, 0, 0, 0, 0, 0, 0]);
    assert_eq!(Cell::parse(&bytes), Some(over));

    let child = Cell { key: b"", body: CellBody::Child(PageID(7)) };
    let bytes = child.encode().unwrap();
    assert_eq!(bytes, vec![0, 0, 2, 7, 0, 0, 0, 0, 0, 0, 0]);
    assert_eq!(Cell::parse(&bytes), Some(child));

    assert_eq!(Cell::parse(&[1, 0]), None);
    assert_eq!(Cell::parse(&[5, 0, 0, b'a']), None);
    assert_eq!(Cell::parse(&[0, 0, 3]), None);
    assert_eq!(Cell::parse(&[0, 0, 1, 1, 2, 3]), None);
    let long_key = vec![0u8; 0x1_0000];
    assert_eq!(Cell { key: &long_key, body: CellBody::Inline(b"") }.encode(), None);
    assert_eq!(key_of(&[9]), b"");
    assert_eq!(key_of(&[9, 0, 0, 1, 2]), &[1, 2]);
}

#[test]
fn keys_order_as_byte_strings() {
    assert!(key_at_or_before(b"", b""));
    assert!(key_at_or_before(b"", b"a"));
    assert!(!key_at_or_before(b"a", b""));
    assert!(key_at_or_before(b"a", b"a"));
    assert!(key_at_or_before(b"a", b"ab"));
    assert!(!key_at_or_before(b"ab", b"a"));
    assert!(key_at_or_before(b"ab", b"b"));
    assert!(!key_at_or_before(b"b", b"ab"));
    assert!(key_at_or_before(&[1, 255], &[2, 0]));
    assert!(same_key(b"abc", b"abc"));
    assert!(!same_key(b"abc", b"abd"));
    assert!(!same_key(b"abc", b"ab"));
}

#[test]
fn find_key_scans_live_slots() {
    let mut page = Page::new(PageID(1), PageType::Leaf);
    page.insert(&cell(b"b", b"1")).unwrap();
    page.insert(&cell(b"a", b"2")).unwrap();
    page.insert(&cell(b"b", b"3")).unwrap();
    assert_eq!(find_key(&page, b"a"), Some(SlotID(1)));
    assert_eq!(find_key(&page, b"b"), Some(SlotID(0)));
    assert_eq!(find_key(&page, b"c"), None);
    page.remove(SlotID(0)).unwrap();
    assert_eq!(find_key(&page, b"b"), Some(SlotID(2)));
}

#[test]
fn own_page_is_edited_in_place() {
    let mut pool = BufferPool::new(4, 1);
    let mut txn = Transaction::new();
    let guard = pool.allocate(PageType::Leaf).unwrap();
    txn.created.push(guard.page_id);
    assert!(txn.owns(PageID(1)));
    assert!(!txn.owns(PageID(2)));

    let put = Edit::Insert(cell(b"m", b"one"));
    assert_eq!(MvccManager::apply_edit(&mut pool, &mut txn, &guard, &put), Ok(EditOutcome::InPlace));
    let put = Edit::Insert(cell(b"c", b"two"));
    assert_eq!(MvccManager::apply_edit(&mut pool, &mut txn, &guard, &put), Ok(EditOutcome::InPlace));
    let again = Edit::Insert(cell(b"m", b"three"));
    assert_eq!(
        MvccManager::apply_edit(&mut pool, &mut txn, &guard, &again),
        Ok(EditOutcome::InPlace)
    );
    assert_eq!(pool.len(), 1);
    assert_eq!(txn.created, vec![PageID(1)]);
    assert!(txn.superseded.is_empty());
    {
        let page = pool.as_readable(&guard).unwrap();
        assert_eq!(page.slot_count(), 3);
        assert_eq!(page.get(SlotID(0)), None);
        assert_eq!(page.get(SlotID(1)), Some(&cell(b"c", b"two")[..]));
        assert_eq!(page.get(SlotID(2)), Some(&cell(b"m", b"three")[..]));
    }
    let gone = Edit::Delete(b"c".to_vec());
    assert_eq!(
        MvccManager::apply_edit(&mut pool, &mut txn, &guard, &gone),
        Ok(EditOutcome::InPlace)
    );
    let absent = Edit::Delete(b"zzz".to_vec());
    let before = *pool.as_readable(&guard).unwrap().as_bytes();
    assert_eq!(
        MvccManager::apply_edit(&mut pool, &mut txn, &guard, &absent),
        Ok(EditOutcome::InPlace)
    );
    assert_eq!(*pool.as_readable(&guard).unwrap().as_bytes(), before);
    assert_eq!(pool.as_readable(&guard).unwrap().get(SlotID(1)), None);
    pool.release(guard).unwrap();
}

#[test]
fn own_page_is_compacted_when_room_is_in_pieces() {
    let mut pool = BufferPool::new(4, 1);
    let mut txn = Transaction::new();
    let guard = pool.allocate(PageType::Leaf).unwrap();
    txn.created.push(guard.page_id);
    for key in [b"a", b"b", b"c", b"d"] {
        let put = Edit::Insert(cell(key, &[7u8; 1000]));
        assert_eq!(
            MvccManager::apply_edit(&mut pool, &mut txn, &guard, &put),
            Ok(EditOutcome::InPlace)
        );
    }
    let free = {
        let page = pool.as_readable(&guard).unwrap();
        page.free_end() - page.free_start()
    };
    assert!(free < 500);
    let put = Edit::Insert(cell(b"b", &[8u8; 900]));
    assert_eq!(MvccManager::apply_edit(&mut pool, &mut txn, &guard, &put), Ok(EditOutcome::InPlace));
    let page = pool.as_readable(&guard).unwrap();
    assert_eq!(page.slot_count(), 5);
    assert_eq!(page.get(SlotID(1)), None);
    assert_eq!(page.get(SlotID(4)), Some(&cell(b"b", &[8u8; 900])[..]));
    assert_eq!(page.get(SlotID(0)), Some(&cell(b"a", &[7u8; 1000])[..]));
    assert_eq!(page.dead_bytes(), 0);
    assert_eq!(pool.len(), 1);
}

#[test]
fn committed_page_is_rebuilt_and_stays_as_it_was() {
    let mut pool = BufferPool::new(4, 1);
    let old = committed_leaf(&mut pool, &[cell(b"m", b"1"), cell(b"c", b"2"), cell(b"x", b"3")]);
    let mut meta = MetaPageSwitch::new(PageID(old), PageID(0));
    let mut txn = Transaction::new();

    let reader = hit(&mut pool, meta.read_active().catalog_root.0, LatchMode::Shared);
    let before = *pool.as_readable(&reader).unwrap().as_bytes();

    let writer = hit(&mut pool, old, LatchMode::Shared);
    let put = Edit::Insert(cell(b"d", b"4"));
    let outcome = MvccManager::apply_edit(&mut pool, &mut txn, &writer, &put).unwrap();
    assert_eq!(outcome, EditOutcome::Rebuilt(PageID(2)));
    pool.release(writer).unwrap();
    assert_eq!(txn.created, vec![PageID(2)]);
    assert_eq!(txn.superseded, vec![PageID(old)]);
    assert_eq!(pool.is_dirty(PageID(2)), Some(true));
    assert_eq!(pool.is_dirty(PageID(old)), Some(false));

    meta.commit_new_roots(PageID(2), PageID(0)).unwrap();

    assert_eq!(*pool.as_readable(&reader).unwrap().as_bytes(), before);
    assert_eq!(pool.evict(), Evict::MustFlush(PageID(2)));
    pool.release(reader).unwrap();

    let root = meta.read_active().catalog_root;
    assert_eq!(root, PageID(2));
    assert_eq!(
        cells_in(&mut pool, root.0),
        vec![cell(b"c", b"2"), cell(b"d", b"4"), cell(b"m", b"1"), cell(b"x", b"3")]
    );
    assert_eq!(
        cells_in(&mut pool, old),
        vec![cell(b"m", b"1"), cell(b"c", b"2"), cell(b"x", b"3")]
    );

    let mut next = Transaction::new();
    let writer = hit(&mut pool, 2, LatchMode::Exclusive);
    let gone = Edit::Delete(b"m".to_vec());
    assert_eq!(
        MvccManager::apply_edit(&mut pool, &mut next, &writer, &gone),
        Ok(EditOutcome::Rebuilt(PageID(3)))
    );
    pool.release(writer).unwrap();
    assert_eq!(cells_in(&mut pool, 3), vec![cell(b"c", b"2"), cell(b"d", b"4"), cell(b"x", b"3")]);
    assert_eq!(cells_in(&mut pool, 2).len(), 4);
}

#[test]
fn full_page_splits_in_two() {
    let mut pool = BufferPool::new(8, 1);
    let mut txn = Transaction::new();
    let guard = pool.allocate(PageType::Leaf).unwrap();
    txn.created.push(guard.page_id);
    let mut all: Vec<Vec<u8>> = Vec::new();
    let mut n = 0u32;
    let outcome = loop {
        let key = format!("key{:04}", (n * 7919) % 10000);
        let c = cell(key.as_bytes(), &[n as u8; 200]);
        all.push(c.clone());
        let r = MvccManager::apply_edit(&mut pool, &mut txn, &guard, &Edit::Insert(c)).unwrap();
        n += 1;
        if r != EditOutcome::InPlace {
            break r;
        }
    };
    pool.release(guard).unwrap();
    let (left, right, split_key) = match outcome {
        EditOutcome::Split(l, r, k) => (l, r, k),
        other => panic!("{:?}", other),
    };
    assert_eq!((left, right), (PageID(2), PageID(3)));
    assert_eq!(txn.created, vec![PageID(1), PageID(2), PageID(3)]);
    assert_eq!(txn.superseded, vec![PageID(1)]);
    let left_cells = cells_in(&mut pool, left.0);
    let right_cells = cells_in(&mut pool, right.0);
    assert!(!left_cells.is_empty() && !right_cells.is_empty());
    assert_eq!(key_of(&right_cells[0]), &split_key[..]);

    let mut joined = left_cells.clone();
    joined.extend(right_cells.iter().cloned());
    assert_eq!(joined.len(), all.len());
    for pair in joined.windows(2) {
        assert!(key_at_or_before(key_of(&pair[0]), key_of(&pair[1])));
        assert!(!same_key(key_of(&pair[0]), key_of(&pair[1])));
    }
    let mut want = all.clone();
    want.sort_by(|a, b| key_of(a).cmp(key_of(b)));
    assert_eq!(joined, want);
    for c in &left_cells {
        assert!(!key_at_or_before(&split_key, key_of(c)));
    }

    let size = |cells: &Vec<Vec<u8>>| cells.iter().map(|c| c.len() + 4).sum::<usize>();
    let total = size(&joined);
    assert!(total > NODE_CAPACITY);
    assert!(2 * size(&left_cells) >= total);
    let shorter = left_cells[..left_cells.len() - 1].to_vec();
    assert!(2 * size(&shorter) < total);
    assert_eq!(cells_in(&mut pool, 1).len(), all.len() - 1);
}

#[test]
fn edits_that_cannot_be_made_change_nothing() {
    let mut pool = BufferPool::new(1, 1);
    let old = committed_leaf(&mut pool, &[cell(b"a", b"1")]);
    let mut txn = Transaction::new();
    let guard = hit(&mut pool, old, LatchMode::Shared);
    let before = *pool.as_readable(&guard).unwrap().as_bytes();

    let put = Edit::Insert(cell(b"b", b"2"));
    assert_eq!(
        MvccManager::apply_edit(&mut pool, &mut txn, &guard, &put),
        Err(PageError::InsufficientSpace)
    );
    let long = Edit::Insert(cell(b"b", &vec![0u8; NODE_CAPACITY]));
    assert_eq!(
        MvccManager::apply_edit(&mut pool, &mut txn, &guard, &long),
        Err(PageError::InsufficientSpace)
    );
    let forged = PageGuard { page_id: PageID(old), mode: LatchMode::Exclusive };
    assert_eq!(
        MvccManager::apply_edit(&mut pool, &mut txn, &forged, &put),
        Err(PageError::PageNotFound)
    );
    let nowhere = PageGuard { page_id: PageID(9), mode: LatchMode::Shared };
    assert_eq!(
        MvccManager::apply_edit(&mut pool, &mut txn, &nowhere, &put),
        Err(PageError::PageNotFound)
    );
    let absent = Edit::Delete(b"q".to_vec());
    assert_eq!(
        MvccManager::apply_edit(&mut pool, &mut txn, &guard, &absent),
        Ok(EditOutcome::InPlace)
    );
    assert_eq!(*pool.as_readable(&guard).unwrap().as_bytes(), before);
    assert!(txn.created.is_empty() && txn.superseded.is_empty());
    assert_eq!(pool.len(), 1);
    assert_eq!(pool.next_page_id(), 2);
}

#[test]
fn longest_cell_that_fits_is_rebuilt_alone() {
    let mut pool = BufferPool::new(4, 1);
    let old = committed_leaf(&mut pool, &[]);
    let mut txn = Transaction::new();
    let guard = hit(&mut pool, old, LatchMode::Shared);
    let value = vec![5u8; NODE_CAPACITY - 4 - 3 - 1];
    let put = Edit::Insert(cell(b"k", &value));
    assert_eq!(
        MvccManager::apply_edit(&mut pool, &mut txn, &guard, &put),
        Ok(EditOutcome::Rebuilt(PageID(2)))
    );
    pool.release(guard).unwrap();
    let guard = hit(&mut pool, 2, LatchMode::Shared);
    let page = pool.as_readable(&guard).unwrap();
    assert_eq!(page.free_start(), page.free_end());
    assert_eq!(page.page_type(), PageType::Leaf);
}

#[test]
fn rebuilt_page_keeps_type_and_flags() {
    let mut pool = BufferPool::new(4, 1);
    let guard = pool.allocate(PageType::Internal).unwrap();
    pool.as_writable(&guard).unwrap().set_flags(1);
    pool.as_writable(&guard).unwrap().insert(&cell(b"k", b"v")).unwrap();
    let mut txn = Transaction::new();
    let gone = Edit::Delete(b"k".to_vec());
    assert_eq!(
        MvccManager::apply_edit(&mut pool, &mut txn, &guard, &gone),
        Ok(EditOutcome::Rebuilt(PageID(2)))
    );
    pool.release(guard).unwrap();
    let guard = hit(&mut pool, 2, LatchMode::Shared);
    let page = pool.as_readable(&guard).unwrap();
    assert_eq!(page.page_type(), PageType::Internal);
    assert_eq!(page.flags(), 1);
    assert_eq!(page.slot_count(), 0);
    assert_eq!(page.page_id(), PageID(2));
}

#[test]
fn transaction_creates_commits_and_aborts() {
    let mut pool = BufferPool::new(4, 1);
    let mut meta = MetaPageSwitch::new(PageID(0), PageID(0));
    let mut txn = Transaction::new();
    let guard = MvccManager::create_page(&mut pool, &mut txn, PageType::Leaf).unwrap();
    assert_eq!(guard, PageGuard { page_id: PageID(1), mode: LatchMode::Exclusive });
    assert!(txn.owns(PageID(1)));
    let put = Edit::Insert(cell(b"a", b"1"));
    assert_eq!(MvccManager::apply_edit(&mut pool, &mut txn, &guard, &put), Ok(EditOutcome::InPlace));
    pool.release(guard).unwrap();
    let superseded = MvccManager::commit(txn, &mut meta, PageID(1), PageID(0));
    assert!(superseded.is_empty());
    assert_eq!(meta.read_active().catalog_root, PageID(1));
    assert_eq!(meta.slot(meta.active_slot()).version, 2);

    let mut second = Transaction::new();
    let root = hit(&mut pool, 1, LatchMode::Shared);
    let put = Edit::Insert(cell(b"b", b"2"));
    assert_eq!(
        MvccManager::apply_edit(&mut pool, &mut second, &root, &put),
        Ok(EditOutcome::Rebuilt(PageID(2)))
    );
    let held = MvccManager::create_page(&mut pool, &mut second, PageType::Leaf).unwrap();
    assert_eq!(held.page_id, PageID(3));
    MvccManager::abort(&mut pool, second);
    assert!(!pool.is_resident(PageID(2)));
    assert!(pool.is_resident(PageID(3)));
    assert!(pool.is_resident(PageID(1)));
    assert_eq!(pool.pin_count(PageID(1)), Some(1));
    assert_eq!(meta.read_active().catalog_root, PageID(1));
    assert_eq!(cells_in(&mut pool, 1), vec![cell(b"a", b"1")]);
    pool.release(root).unwrap();
    pool.release(held).unwrap();

    let mut full = BufferPool::new(0, 1);
    let mut third = Transaction::new();
    assert_eq!(
        MvccManager::create_page(&mut full, &mut third, PageType::Leaf),
        Err(PageError::InsufficientSpace)
    );
    assert!(third.created.is_empty());
}

#[test]
fn meta_page_commits_and_recovers() {
    let mut meta = MetaPageSwitch::new(PageID(3), PageID(4));
    assert_eq!(meta.active_slot(), 0);
    assert_eq!(meta.read_active(), Roots { catalog_root: PageID(3), free_list_head: PageID(4) });
    assert_eq!(meta.slot(0).version, 1);
    assert_eq!(meta.slot(1).version, 0);

    let (slot, staged) = meta.stage_new_roots(PageID(5), PageID(6));
    assert_eq!(slot, 1);
    assert_eq!(staged.version, 2);
    assert!(staged.validate());
    assert_eq!(meta.read_active(), Roots { catalog_root: PageID(3), free_list_head: PageID(4) });
    assert_eq!(meta.publish(false), Err(PageError::IOFailure));
    assert_eq!(meta.read_active().catalog_root, PageID(3));
    assert_eq!(meta.publish(true), Ok(()));
    assert_eq!(meta.active_slot(), 1);
    assert_eq!(meta.read_active(), Roots { catalog_root: PageID(5), free_list_head: PageID(6) });
    assert_eq!(meta.publish(true), Err(PageError::ChecksumMismatch));
    assert_eq!(meta.active_slot(), 1);

    assert_eq!(meta.commit_new_roots(PageID(7), PageID(8)), Ok(()));
    assert_eq!(meta.active_slot(), 0);
    assert_eq!(meta.slot(0).version, 3);
    assert_eq!(meta.read_active(), Roots { catalog_root: PageID(7), free_list_head: PageID(8) });

    let bytes = meta.to_bytes();
    assert_eq!(bytes.len(), META_SIZE);
    assert_eq!(&bytes[0..8], &[3, 0, 0, 0, 0, 0, 0, 0]);
    assert_eq!(&bytes[8..16], &[7, 0, 0, 0, 0, 0, 0, 0]);
    assert_eq!(&bytes[16..24], &[8, 0, 0, 0, 0, 0, 0, 0]);
    assert_eq!(&bytes[32..40], &[2, 0, 0, 0, 0, 0, 0, 0]);
    let back = MetaPageSwitch::from_bytes(&bytes).unwrap();
    assert_eq!(back, meta);

    let mut torn = bytes;
    torn[9] ^= 0xff;
    let fallback = MetaPageSwitch::from_bytes(&torn).unwrap();
    assert_eq!(fallback.active_slot(), 1);
    assert_eq!(fallback.read_active(), Roots { catalog_root: PageID(5), free_list_head: PageID(6) });
    torn[40] ^= 0xff;
    assert_eq!(MetaPageSwitch::from_bytes(&torn), Err(PageError::ChecksumMismatch));
    assert_eq!(MetaPageSwitch::from_bytes(&[0u8; META_SIZE]), Err(PageError::ChecksumMismatch));
}

#[test]
fn meta_checksum_value() {
    let mut h: u64 = 0xcbf2_9ce4_8422_2325;
    for w in [9u64, 10, 11] {
        h = (h ^ w).wrapping_mul(0x0000_0100_0000_01b3);
    }
    assert_eq!(MetaPage::checksum_for(9, PageID(10), PageID(11)), h);
    let slot = MetaPage::new(9, PageID(10), PageID(11));
    assert_eq!(slot.checksum, h);
    assert!(slot.validate());
    let bytes = slot.to_bytes();
    assert_eq!(MetaPage::from_bytes(&bytes), slot);
    assert_eq!(&bytes[24..32], &h.to_le_bytes());
    let wrong = MetaPage { checksum: h ^ 1, ..slot };
    assert!(!wrong.validate());
    let first = MetaPage::new(4, PageID(1), PageID(2));
    let second = MetaPage::new(4, PageID(3), PageID(4));
    assert_eq!(MetaPageSwitch::recover(first, second).unwrap().active_slot(), 0);
    assert_eq!(MetaPageSwitch::recover(wrong, second).unwrap().active_slot(), 1);
    assert_eq!(MetaPageSwitch::recover(first, wrong).unwrap().active_slot(), 0);
    assert_eq!(MetaPageSwitch::recover(wrong, wrong), Err(PageError::ChecksumMismatch));
}

#[test]
fn update_touches_present_keys_only() {
    let mut pool = BufferPool::new(4, 1);
    let old = committed_leaf(&mut pool, &[cell(b"a", b"1")]);
    let mut txn = Transaction::new();
    let guard = hit(&mut pool, old, LatchMode::Shared);
    let absent = Edit::Update(cell(b"b", b"2"));
    assert_eq!(
        MvccManager::apply_edit(&mut pool, &mut txn, &guard, &absent),
        Ok(EditOutcome::InPlace)
    );
    assert_eq!(pool.len(), 1);
    let present = Edit::Update(cell(b"a", b"9"));
    assert_eq!(
        MvccManager::apply_edit(&mut pool, &mut txn, &guard, &present),
        Ok(EditOutcome::Rebuilt(PageID(2)))
    );
    pool.release(guard).unwrap();
    assert_eq!(cells_in(&mut pool, 2), vec![cell(b"a", b"9")]);
    assert_eq!(cells_in(&mut pool, old), vec![cell(b"a", b"1")]);
}

#[test]
fn many_edits_agree_with_a_map() {
    let mut pool = BufferPool::new(64, 1);
    let mut txn = Transaction::new();
    let first = MvccManager::create_page(&mut pool, &mut txn, PageType::Leaf).unwrap();
    let mut leaves: Vec<(Vec<u8>, PageID)> = vec![(Vec::new(), first.page_id)];
    pool.release(first).unwrap();
    let mut model: BTreeMap<Vec<u8>, Vec<u8>> = BTreeMap::new();
    let mut seed: u64 = 0x2545_f491_4f6c_dd1d;
    let mut next = || {
        seed ^= seed << 13;
        seed ^= seed >> 7;
        seed ^= seed << 17;
        seed
    };
    let (mut splits, mut rebuilds, mut in_place) = (0, 0, 0);
    for round in 0..3000u32 {
        let key = format!("k{:03}", next() % 400).into_bytes();
        let what = next() % 10;
        let value = vec![(round % 251) as u8; (next() % 120) as usize];
        let edit = if what < 6 {
            model.insert(key.clone(), value.clone());
            Edit::Insert(cell(&key, &value))
        } else if what < 8 {
            if let Some(v) = model.get_mut(&key) {
                *v = value.clone();
            }
            Edit::Update(cell(&key, &value))
        } else {
            model.remove(&key);
            Edit::Delete(key.clone())
        };
        let at = leaves.iter().rposition(|(low, _)| low.as_slice() <= key.as_slice()).unwrap();
        let id = leaves[at].1;
        let mode = if round % 3 == 0 { LatchMode::Shared } else { LatchMode::Exclusive };
        let guard = hit(&mut pool, id.0, mode);
        let outcome = MvccManager::apply_edit(&mut pool, &mut txn, &guard, &edit).unwrap();
        pool.release(guard).unwrap();
        match outcome {
            EditOutcome::InPlace => in_place += 1,
            EditOutcome::Rebuilt(new) => {
                rebuilds += 1;
                leaves[at].1 = new;
                assert!(pool.discard(id));
            }
            EditOutcome::Split(left, right, split_key) => {
                splits += 1;
                leaves[at].1 = left;
                leaves.insert(at + 1, (split_key, right));
                assert!(pool.discard(id));
            }
        }
    }
    assert!(splits > 0 && rebuilds > 0 && in_place > 0);
    let mut got: Vec<(Vec<u8>, Vec<u8>)> = Vec::new();
    for (i, (low, id)) in leaves.iter().enumerate() {
        let mut here = cells_in(&mut pool, id.0);
        here.sort();
        for c in here {
            let parsed = Cell::parse(&c).unwrap();
            assert!(low.as_slice() <= parsed.key);
            if let Some((high, _)) = leaves.get(i + 1) {
                assert!(parsed.key < high.as_slice());
            }
            match parsed.body {
                CellBody::Inline(v) => got.push((parsed.key.to_vec(), v.to_vec())),
                other => panic!("{:?}", other),
            }
        }
    }
    let want: Vec<(Vec<u8>, Vec<u8>)> = model.into_iter().collect();
    assert_eq!(got, want);
}
