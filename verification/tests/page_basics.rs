use pagestore::error::PageError;
use pagestore::ids::{PageID, PageType, RowID, SlotID};
use pagestore::layout::{
    HEADER_SIZE, MAX_SLOTS, PAGE_HEADER_ID_OFFSET, PAGE_HEADER_ID_SIZE, PAGE_SIZE, SLOT_ENTRY_SIZE,
};
use pagestore::page::{Header, Page, SlotEntry};
use pagestore::slices::split_slice;
use std::mem;

#[test]
fn test_new_page() {
    let page_id = PageID(1234u64);
    let page = Page::new(page_id, PageType::Internal);

    let mut id = [0u8; PAGE_HEADER_ID_SIZE];
    id.copy_from_slice(
        &page.as_bytes()[PAGE_HEADER_ID_OFFSET..PAGE_HEADER_ID_OFFSET + PAGE_HEADER_ID_SIZE],
    );
    let want_id = u64::from_le_bytes(id);

    assert_eq!(page_id.0, want_id);
}

#[test]
fn test_unsafe_header() {
    let page_id = PageID(1234u64);
    let page = Page::new(page_id, PageType::Internal);

    let header = page.header();

    println!("{:?}", header);

    println!("size_of::<HeaderStruct>() = {}", mem::size_of::<Header>());
    println!("align_of::<HeaderStruct>()  = {}", mem::align_of::<Header>());
}

#[test]
fn zero_slot_dir_from_new_page() {
    let page_id = PageID(1234u64);
    let mut page = Page::new(page_id, PageType::Internal);

    let slot_dir = page.slot_dir_mut();

    println!("slot_dir {:?}", slot_dir.se);
}

#[test]
fn slot_dir_after_adding_slot() {
    let page_id = PageID(1234u64);
    let mut page = Page::new(page_id, PageType::Internal);

    let slot_dir = page.slot_dir_mut();

    assert_eq!(slot_dir.se.len(), 0);

    drop(slot_dir);

    let se = SlotEntry { offset: 1, len: 10 };

    page.insert_slot(se).unwrap();

    let slot_dir = page.slot_dir_mut();

    println!("se {:?}", slot_dir.get(SlotID(0)));
    assert_eq!(slot_dir.len(), 1);
    assert_eq!(slot_dir.get(SlotID(0)), Some(SlotEntry { offset: 1, len: 10 }));
    assert_eq!(slot_dir.get(SlotID(1)), None);
}

#[test]
fn split_slice_test() {
    let mut v = [1, 2, 3, 4, 5, 6, 7, 8, 9, 10];

    let refv = &mut v;
    if let Some((left, right)) = split_slice(refv, 5) {
        println!("left: {:?}, right: {:?}", left, right);
        assert_eq!(left, &[1, 2, 3, 4, 5]);
        assert_eq!(right, &[6, 7, 8, 9, 10]);
        left[0] = 100;
        right[4] = -1;
    }

    println!("v: {:?}", v);
    assert_eq!(v, [100, 2, 3, 4, 5, 6, 7, 8, 9, -1]);
}

#[test]
fn new_page_header_fields() {
    let page = Page::new(PageID(0x0102030405060708), PageType::Leaf);
    let bytes = page.as_bytes();
    assert_eq!(&bytes[0..8], &[8, 7, 6, 5, 4, 3, 2, 1]);
    assert_eq!(&bytes[8..10], &[0, 0]);
    assert_eq!(bytes[10], 2);
    assert_eq!(bytes[11], 0);
    assert_eq!(&bytes[12..14], &[16, 0]);
    assert_eq!(&bytes[14..16], &[0, 16]);
    assert!(bytes[16..].iter().all(|b| *b == 0));
    assert_eq!(page.page_id(), PageID(0x0102030405060708));
    assert_eq!(page.page_type(), PageType::Leaf);
    assert_eq!(page.flags(), 0);
    assert_eq!(page.slot_count(), 0);
    assert_eq!(page.free_start(), HEADER_SIZE);
    assert_eq!(page.free_end(), PAGE_SIZE);
    assert_eq!(
        page.header(),
        Header {
            page_id: 0x0102030405060708,
            flags: 0,
            page_type: 2,
            slot_count: 0,
            free_start: 16,
            free_end: 4096
        }
    );
}

#[test]
fn page_type_bytes() {
    assert_eq!(u8::from(PageType::Internal), 1);
    assert_eq!(u8::from(PageType::Leaf), 2);
    assert_eq!(PageType::try_from(1u8), Ok(PageType::Internal));
    assert_eq!(PageType::try_from(2u8), Ok(PageType::Leaf));
    assert_eq!(PageType::try_from(0u8), Err(()));
    assert_eq!(PageType::try_from(3u8), Err(()));
}

#[test]
fn three_records_then_remove_then_compact() {
    let mut page = Page::new(PageID(1), PageType::Leaf);
    let a = page.insert(&[0xaa; 50]).unwrap();
    let b = page.insert(&[0xbb; 50]).unwrap();
    let c = page.insert(&[0xcc; 50]).unwrap();
    assert_eq!((a, b, c), (SlotID(0), SlotID(1), SlotID(2)));
    assert_eq!(page.slot_count(), 3);
    assert_eq!(page.free_end(), PAGE_SIZE - 150);
    assert_eq!(page.free_start(), HEADER_SIZE + 3 * SLOT_ENTRY_SIZE);

    assert_eq!(page.remove(b), Ok(()));
    assert_eq!(page.get(b), None);
    assert_eq!(page.slot_count(), 3);
    assert_eq!(page.free_end(), PAGE_SIZE - 150);
    assert_eq!(page.live_bytes(), 100);
    assert_eq!(page.dead_bytes(), 50);

    page.compact();
    assert_eq!(page.slot_count(), 3);
    assert_eq!(page.free_end(), PAGE_SIZE - 100);
    assert_eq!(page.get(a), Some(&[0xaa; 50][..]));
    assert_eq!(page.get(b), None);
    assert_eq!(page.get(c), Some(&[0xcc; 50][..]));
    let bytes = page.as_bytes();
    assert!(bytes[PAGE_SIZE - 50..].iter().all(|x| *x == 0xaa));
    assert!(bytes[PAGE_SIZE - 100..PAGE_SIZE - 50].iter().all(|x| *x == 0xcc));
    assert!(bytes[page.free_start()..PAGE_SIZE - 100].iter().all(|x| *x == 0));
    assert_eq!(page.entry_at(0), SlotEntry { offset: 4046, len: 50 });
    assert_eq!(page.entry_at(1), SlotEntry { offset: 0, len: 0 });
    assert_eq!(page.entry_at(2), SlotEntry { offset: 3996, len: 50 });
    assert_eq!(page.dead_bytes(), 0);
}

#[test]
fn insert_lays_out_cell_and_entry() {
    let mut page = Page::new(PageID(9), PageType::Leaf);
    let slot = page.insert(&[1, 2, 3]).unwrap();
    assert_eq!(slot, SlotID(0));
    let bytes = page.as_bytes();
    assert_eq!(&bytes[4093..], &[1, 2, 3]);
    assert_eq!(&bytes[16..20], &[0xfd, 0x0f, 3, 0]);
    assert_eq!(bytes[11], 1);
    assert_eq!(&bytes[12..14], &[20, 0]);
    assert_eq!(&bytes[14..16], &[0xfd, 0x0f]);
    assert_eq!(page.get(slot), Some(&[1u8, 2, 3][..]));
}

#[test]
fn insert_fails_without_room() {
    let mut page = Page::new(PageID(1), PageType::Leaf);
    let room = PAGE_SIZE - HEADER_SIZE - SLOT_ENTRY_SIZE;
    let too_long = vec![1u8; room + 1];
    let before = *page.as_bytes();
    assert_eq!(page.insert(&too_long), Err(PageError::InsufficientSpace));
    assert_eq!(*page.as_bytes(), before);
    let fits = vec![2u8; room];
    assert_eq!(page.insert(&fits), Ok(SlotID(0)));
    assert_eq!(page.free_start(), page.free_end());
    assert_eq!(page.insert(&[]), Err(PageError::InsufficientSpace));
    assert_eq!(page.insert_slot(SlotEntry { offset: 0, len: 0 }), Err(PageError::InsufficientSpace));
    assert_eq!(page.get(SlotID(0)), Some(&fits[..]));
}

#[test]
fn directory_holds_at_most_max_slots() {
    let mut page = Page::new(PageID(1), PageType::Leaf);
    for i in 0..MAX_SLOTS {
        assert_eq!(page.insert(&[i as u8]), Ok(SlotID(i as u16)));
    }
    assert_eq!(page.slot_count() as usize, MAX_SLOTS);
    assert_eq!(page.insert(&[0]), Err(PageError::InsufficientSpace));
    assert_eq!(page.insert_slot(SlotEntry { offset: 0, len: 0 }), Err(PageError::InsufficientSpace));
    for i in 0..MAX_SLOTS {
        assert_eq!(page.get(SlotID(i as u16)), Some(&[i as u8][..]));
    }
}

#[test]
fn empty_record_is_live() {
    let mut page = Page::new(PageID(1), PageType::Leaf);
    let slot = page.insert(&[]).unwrap();
    assert_eq!(page.get(slot), Some(&[][..]));
    assert_eq!(page.free_end(), PAGE_SIZE);
    assert_eq!(page.remove(slot), Ok(()));
    assert_eq!(page.get(slot), None);
}

#[test]
fn remove_rejects_stale_and_missing_slots() {
    let mut page = Page::new(PageID(1), PageType::Leaf);
    assert_eq!(page.remove(SlotID(0)), Err(PageError::InvalidSlot));
    let slot = page.insert(&[5; 8]).unwrap();
    assert_eq!(page.remove(SlotID(1)), Err(PageError::InvalidSlot));
    assert_eq!(page.remove(slot), Ok(()));
    let before = *page.as_bytes();
    assert_eq!(page.remove(slot), Err(PageError::InvalidSlot));
    assert_eq!(*page.as_bytes(), before);
    assert_eq!(page.get(SlotID(7)), None);
}

#[test]
fn slot_count_counts_inserts_and_records_stay() {
    let mut page = Page::new(PageID(3), PageType::Leaf);
    let mut want: Vec<Option<Vec<u8>>> = Vec::new();
    for i in 0..40u8 {
        let payload = vec![i; (i as usize) * 3 % 17];
        let slot = page.insert(&payload).unwrap();
        assert_eq!(slot.0 as usize, want.len());
        want.push(Some(payload));
        if i % 3 == 2 {
            let gone = SlotID((i / 2) as u16);
            if want[gone.0 as usize].is_some() {
                assert_eq!(page.remove(gone), Ok(()));
                want[gone.0 as usize] = None;
            }
        }
        assert!(page.free_start() <= page.free_end());
        assert!(page.free_end() <= PAGE_SIZE);
        assert_eq!(
            page.slot_count() as usize * SLOT_ENTRY_SIZE,
            page.free_start() - HEADER_SIZE
        );
        assert!(page.check_cells());
    }
    assert_eq!(page.slot_count() as usize, want.len());
    for (i, w) in want.iter().enumerate() {
        assert_eq!(page.get(SlotID(i as u16)), w.as_deref());
    }
}

#[test]
fn page_round_trips_through_bytes() {
    let mut page = Page::new(PageID(77), PageType::Internal);
    page.insert(&[1, 2, 3, 4]).unwrap();
    page.insert(&[9; 100]).unwrap();
    page.remove(SlotID(0)).unwrap();
    let bytes = *page.as_bytes();
    let back = Page::from_bytes(bytes).unwrap();
    assert_eq!(*back.as_bytes(), bytes);
    assert_eq!(back.header(), page.header());
    assert_eq!(back.entry_at(0), page.entry_at(0));
    assert_eq!(back.entry_at(1), page.entry_at(1));
    assert_eq!(back.get(SlotID(0)), None);
    assert_eq!(back.get(SlotID(1)), Some(&[9u8; 100][..]));
    let copy = page.duplicate();
    assert_eq!(*copy.as_bytes(), bytes);
}

#[test]
fn from_bytes_rejects_bad_headers() {
    assert!(Page::from_bytes([0u8; PAGE_SIZE]).is_none());
    let good = *Page::new(PageID(1), PageType::Leaf).as_bytes();
    assert!(Page::from_bytes(good).is_some());
    let mut bad_type = good;
    bad_type[10] = 3;
    assert!(Page::from_bytes(bad_type).is_none());
    let mut bad_count = good;
    bad_count[11] = 1;
    assert!(Page::from_bytes(bad_count).is_none());
    let mut bad_end = good;
    bad_end[14] = 1;
    bad_end[15] = 16;
    assert!(Page::from_bytes(bad_end).is_none());
    let mut crossed = good;
    crossed[14] = 15;
    crossed[15] = 0;
    assert!(Page::from_bytes(crossed).is_none());
}

#[test]
fn compact_twice_changes_nothing_more() {
    let mut page = Page::new(PageID(5), PageType::Leaf);
    for i in 0..20u8 {
        page.insert(&vec![i; 10 + i as usize]).unwrap();
    }
    for i in [1u16, 4, 5, 19] {
        page.remove(SlotID(i)).unwrap();
    }
    page.compact();
    let once = *page.as_bytes();
    page.compact();
    assert_eq!(*page.as_bytes(), once);
    for i in 0..20u8 {
        let got = page.get(SlotID(i as u16));
        if [1u8, 4, 5, 19].contains(&i) {
            assert_eq!(got, None);
        } else {
            assert_eq!(got, Some(&vec![i; 10 + i as usize][..]));
        }
    }
}

#[test]
fn compact_makes_room_for_insert() {
    let mut page = Page::new(PageID(5), PageType::Leaf);
    let a = page.insert(&[1; 2000]).unwrap();
    let b = page.insert(&[2; 2000]).unwrap();
    assert_eq!(page.insert(&[3; 1000]), Err(PageError::InsufficientSpace));
    page.remove(a).unwrap();
    assert_eq!(page.insert(&[3; 1000]), Err(PageError::InsufficientSpace));
    page.compact();
    let c = page.insert(&[3; 1000]).unwrap();
    assert_eq!(c, SlotID(2));
    assert_eq!(page.get(b), Some(&[2u8; 2000][..]));
    assert_eq!(page.get(c), Some(&[3u8; 1000][..]));
}

#[test]
fn stray_entry_is_not_live() {
    let mut page = Page::new(PageID(1), PageType::Leaf);
    page.insert_slot(SlotEntry { offset: 1, len: 10 }).unwrap();
    assert_eq!(page.slot_count(), 1);
    assert_eq!(page.free_start(), 20);
    assert_eq!(page.free_end(), PAGE_SIZE);
    assert_eq!(page.get(SlotID(0)), None);
    assert_eq!(page.remove(SlotID(0)), Err(PageError::InvalidSlot));
    assert!(!page.check_cells());
    assert_eq!(page.entry_at(0), SlotEntry { offset: 1, len: 10 });
}

#[test]
fn directory_view_changes_the_page() {
    let mut page = Page::new(PageID(1), PageType::Leaf);
    page.insert(&[1, 1]).unwrap();
    page.insert(&[2, 2]).unwrap();
    let mut dir = page.slot_dir_mut();
    assert_eq!(dir.len(), 2);
    assert_eq!(dir.get(SlotID(1)), Some(SlotEntry { offset: 4092, len: 2 }));
    assert_eq!(dir.find(SlotEntry { offset: 4092, len: 2 }), Some(SlotID(1)));
    assert_eq!(dir.find(SlotEntry { offset: 4092, len: 3 }), None);
    assert_eq!(dir.tombstone(SlotID(0)), Ok(()));
    assert_eq!(dir.tombstone(SlotID(0)), Err(PageError::InvalidSlot));
    assert_eq!(dir.tombstone(SlotID(2)), Err(PageError::InvalidSlot));
    assert_eq!(dir.find(SlotEntry { offset: 0, len: 0 }), Some(SlotID(0)));
    assert_eq!(page.get(SlotID(0)), None);
    assert_eq!(page.get(SlotID(1)), Some(&[2u8, 2][..]));
    assert!(page.check_cells());
}

#[test]
fn flags_change_alone() {
    let mut page = Page::new(PageID(6), PageType::Internal);
    page.insert(&[1, 2, 3]).unwrap();
    let before = *page.as_bytes();
    page.set_flags(0xbeef);
    assert_eq!(page.flags(), 0xbeef);
    let after = *page.as_bytes();
    assert_eq!(&after[8..10], &[0xef, 0xbe]);
    assert_eq!(&after[..8], &before[..8]);
    assert_eq!(&after[10..], &before[10..]);
    assert_eq!(page.get(SlotID(0)), Some(&[1u8, 2, 3][..]));
    assert_eq!(page.page_type(), PageType::Internal);
}

#[test]
fn slot_entry_bytes() {
    let entry = SlotEntry { offset: 0x0ffd, len: 0x0103 };
    assert_eq!(entry.to_bytes(), [0xfd, 0x0f, 0x03, 0x01]);
    assert_eq!(SlotEntry::from_bytes(&[0xfd, 0x0f, 0x03, 0x01]), entry);
    assert_eq!(SlotEntry { offset: 0, len: 0 }.to_bytes(), [0, 0, 0, 0]);
}

#[test]
fn appended_entry_that_addresses_a_cell_is_live() {
    let mut page = Page::new(PageID(1), PageType::Leaf);
    page.insert(&[1, 2, 3, 4]).unwrap();
    page.remove(SlotID(0)).unwrap();
    assert!(page.check_cells());
    page.insert_slot(SlotEntry { offset: 4093, len: 2 }).unwrap();
    assert_eq!(page.get(SlotID(1)), Some(&[2u8, 3][..]));
    assert!(page.check_cells());
    page.insert_slot(SlotEntry { offset: 0, len: 0 }).unwrap();
    assert_eq!(page.get(SlotID(2)), None);
    assert!(page.check_cells());
    page.insert_slot(SlotEntry { offset: 4092, len: 4 }).unwrap();
    assert_eq!(page.get(SlotID(3)), Some(&[1u8, 2, 3, 4][..]));
    assert!(!page.check_cells());
}

#[test]
fn row_id_holds_page_and_slot() {
    let row = RowID::new(PageID(4), SlotID(9));
    assert_eq!(row.page(), PageID(4));
    assert_eq!(row.slot(), SlotID(9));
    assert_eq!(row, RowID::new(PageID(4), SlotID(9)));
    assert_ne!(row, RowID::new(PageID(4), SlotID(8)));
}

#[test]
fn errors_say_what_went_wrong() {
    assert_eq!(PageError::InsufficientSpace.message(), "Not enough free space");
    assert_eq!(PageError::InvalidSlot.message(), "No record under this slot");
    assert_eq!(PageError::PageNotFound.message(), "No page with this identifier");
    assert_eq!(PageError::IOFailure.message(), "Reading or writing a page failed");
    assert_eq!(PageError::ChecksumMismatch.message(), "Checksum does not match");
}
