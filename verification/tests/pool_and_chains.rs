use pagestore::error::PageError;
use pagestore::ids::{PageID, PageType, SlotID};
use pagestore::latch::{Latch, LatchMode};
use pagestore::layout::OVERFLOW_FLAG;
use pagestore::overflow::{ChainRead, OverflowChain, OVERFLOW_CAPACITY};
use pagestore::page::{Page, SlotEntry};
use pagestore::pool::{BufferPool, Evict, Fetch, Flush, PageGuard};

fn payload_of(len: usize) -> Vec<u8> {
    (0..len).map(|i| (i * 31 % 251) as u8).collect()
}

fn round_trip(len: usize, want_pages: usize) {
    let mut pool = BufferPool::new(16, 1);
    let payload = payload_of(len);
    let head = OverflowChain::write(&mut pool, &payload).unwrap();
    assert_eq!(pool.len(), want_pages);
    assert_eq!(head, PageID(want_pages as u64));
    assert_eq!(OverflowChain::read(&mut pool, head), Ok(ChainRead::Payload(payload)));
    assert_eq!(pool.len(), want_pages);
    for id in 1..=want_pages as u64 {
        assert_eq!(pool.pin_count(PageID(id)), Some(0));
        assert_eq!(pool.is_dirty(PageID(id)), Some(true));
    }
}

#[test]
fn chain_of_one_byte() {
    round_trip(1, 1);
}

#[test]
fn chain_of_exactly_one_page() {
    round_trip(OVERFLOW_CAPACITY, 1);
}

#[test]
fn chain_of_one_page_and_a_byte() {
    round_trip(OVERFLOW_CAPACITY + 1, 2);
}

#[test]
fn chain_of_ten_pages() {
    round_trip(10 * OVERFLOW_CAPACITY, 10);
}

#[test]
fn chain_of_nothing_has_no_pages() {
    let mut pool = BufferPool::new(4, 1);
    let head = OverflowChain::write(&mut pool, &[]).unwrap();
    assert_eq!(head, PageID(0));
    assert_eq!(pool.len(), 0);
    assert_eq!(OverflowChain::read(&mut pool, head), Ok(ChainRead::Payload(vec![])));
}

#[test]
fn chain_pages_count() {
    assert_eq!(OverflowChain::pages_for(0), 0);
    assert_eq!(OverflowChain::pages_for(1), 1);
    assert_eq!(OverflowChain::pages_for(4068), 1);
    assert_eq!(OverflowChain::pages_for(4069), 2);
    assert_eq!(OverflowChain::pages_for(40680), 10);
    assert_eq!(OVERFLOW_CAPACITY, 4068);
}

#[test]
fn chain_layout_in_pages() {
    let mut pool = BufferPool::new(4, 7);
    let payload = payload_of(OVERFLOW_CAPACITY + 5);
    let head = OverflowChain::write(&mut pool, &payload).unwrap();
    assert_eq!(head, PageID(8));
    assert_eq!(pool.next_page_id(), 9);
    let guard = match pool.fetch(PageID(8), LatchMode::Shared).unwrap() {
        Fetch::Hit(guard) => guard,
        other => panic!("{:?}", other),
    };
    let first = pool.as_readable(&guard).unwrap();
    assert_eq!(first.flags(), OVERFLOW_FLAG);
    assert_eq!(first.page_id(), PageID(8));
    let cell = first.get(SlotID(0)).unwrap();
    assert_eq!(&cell[..8], &[7, 0, 0, 0, 0, 0, 0, 0]);
    assert_eq!(&cell[8..], &payload[..OVERFLOW_CAPACITY]);
    assert_eq!(first.free_start(), first.free_end());
    pool.release(guard).unwrap();
    let guard = match pool.fetch(PageID(7), LatchMode::Shared).unwrap() {
        Fetch::Hit(guard) => guard,
        other => panic!("{:?}", other),
    };
    let last = pool.as_readable(&guard).unwrap();
    let cell = last.get(SlotID(0)).unwrap();
    assert_eq!(&cell[..8], &[0; 8]);
    assert_eq!(&cell[8..], &payload[OVERFLOW_CAPACITY..]);
    pool.release(guard).unwrap();
}

#[test]
fn chain_write_needs_frames() {
    let mut pool = BufferPool::new(2, 1);
    let payload = payload_of(2 * OVERFLOW_CAPACITY + 1);
    assert_eq!(OverflowChain::write(&mut pool, &payload), Err(PageError::InsufficientSpace));
    assert_eq!(pool.len(), 0);
    assert_eq!(pool.next_page_id(), 1);
    let mut last = BufferPool::new(8, u64::MAX - 1);
    assert_eq!(OverflowChain::write(&mut last, &payload), Err(PageError::InsufficientSpace));
    assert_eq!(OverflowChain::write(&mut last, &[1]), Ok(PageID(u64::MAX - 1)));
}

#[test]
fn chain_read_names_what_stops_it() {
    let mut pool = BufferPool::new(8, 1);
    let payload = payload_of(3 * OVERFLOW_CAPACITY);
    let head = OverflowChain::write(&mut pool, &payload).unwrap();
    assert_eq!(head, PageID(3));

    let guard = pool.fetch(PageID(2), LatchMode::Exclusive).unwrap();
    let guard = match guard {
        Fetch::Hit(guard) => guard,
        other => panic!("{:?}", other),
    };
    assert_eq!(OverflowChain::read(&mut pool, head), Ok(ChainRead::Wait(PageID(2))));
    pool.release(guard).unwrap();

    assert_eq!(pool.finish_flush(PageID(1), true), Ok(()));
    assert!(pool.discard(PageID(1)));
    assert_eq!(OverflowChain::read(&mut pool, head), Ok(ChainRead::Load(PageID(1))));

    assert_eq!(OverflowChain::read(&mut pool, PageID(9)), Err(PageError::PageNotFound));
    let plain = pool.allocate(PageType::Leaf).unwrap();
    let plain_id = plain.page_id;
    pool.release(plain).unwrap();
    assert_eq!(OverflowChain::read(&mut pool, plain_id), Err(PageError::PageNotFound));
}

#[test]
fn chain_that_loops_is_broken() {
    let mut pool = BufferPool::new(4, 1);
    let guard = pool.allocate(PageType::Leaf).unwrap();
    assert_eq!(guard.page_id, PageID(1));
    let mut cell = vec![1u8, 0, 0, 0, 0, 0, 0, 0];
    cell.extend_from_slice(&[9, 9, 9]);
    pool.as_writable(&guard).unwrap().set_flags(OVERFLOW_FLAG);
    pool.as_writable(&guard).unwrap().insert(&cell).unwrap();
    pool.release(guard).unwrap();
    assert_eq!(OverflowChain::read(&mut pool, PageID(1)), Err(PageError::PageNotFound));
}

#[test]
fn chain_of_two_linked_by_hand_reads() {
    let mut pool = BufferPool::new(4, 1);
    for (next, chunk) in [(0u8, &b"world"[..]), (1u8, &b"hello "[..])] {
        let guard = pool.allocate(PageType::Leaf).unwrap();
        let mut cell = vec![next, 0, 0, 0, 0, 0, 0, 0];
        cell.extend_from_slice(chunk);
        pool.as_writable(&guard).unwrap().set_flags(OVERFLOW_FLAG);
        pool.as_writable(&guard).unwrap().insert(&cell).unwrap();
        pool.release(guard).unwrap();
    }
    assert_eq!(
        OverflowChain::read(&mut pool, PageID(2)),
        Ok(ChainRead::Payload(b"hello world".to_vec()))
    );
    assert_eq!(
        OverflowChain::read(&mut pool, PageID(1)),
        Ok(ChainRead::Payload(b"world".to_vec()))
    );
}

#[test]
fn unflagged_page_is_no_overflow_page() {
    let mut pool = BufferPool::new(4, 1);
    let guard = pool.allocate(PageType::Leaf).unwrap();
    pool.as_writable(&guard).unwrap().insert(&[0u8; 12]).unwrap();
    pool.release(guard).unwrap();
    assert_eq!(OverflowChain::read(&mut pool, PageID(1)), Err(PageError::PageNotFound));
    let guard = pool.allocate(PageType::Leaf).unwrap();
    pool.as_writable(&guard).unwrap().set_flags(OVERFLOW_FLAG);
    pool.as_writable(&guard).unwrap().insert(&[0u8; 7]).unwrap();
    pool.release(guard).unwrap();
    assert_eq!(OverflowChain::read(&mut pool, PageID(2)), Err(PageError::PageNotFound));
}

#[test]
fn fetch_hit_wait_load_and_missing() {
    let mut pool = BufferPool::new(2, 1);
    assert_eq!(pool.capacity(), 2);
    assert_eq!(pool.fetch(PageID(0), LatchMode::Shared), Err(PageError::PageNotFound));
    assert_eq!(pool.fetch(PageID(1), LatchMode::Shared), Err(PageError::PageNotFound));
    let guard = pool.allocate(PageType::Internal).unwrap();
    assert_eq!(guard, PageGuard { page_id: PageID(1), mode: LatchMode::Exclusive });
    assert_eq!(pool.pin_count(PageID(1)), Some(1));
    assert_eq!(pool.is_dirty(PageID(1)), Some(true));
    assert_eq!(pool.fetch(PageID(1), LatchMode::Shared), Ok(Fetch::Wait));
    assert_eq!(pool.fetch(PageID(1), LatchMode::Exclusive), Ok(Fetch::Wait));
    pool.release(guard).unwrap();
    assert_eq!(pool.pin_count(PageID(1)), Some(0));
    let a = pool.fetch(PageID(1), LatchMode::Shared).unwrap();
    let b = pool.fetch(PageID(1), LatchMode::Shared).unwrap();
    assert_eq!(a, Fetch::Hit(PageGuard { page_id: PageID(1), mode: LatchMode::Shared }));
    assert_eq!(pool.pin_count(PageID(1)), Some(2));
    assert_eq!(pool.fetch(PageID(1), LatchMode::Exclusive), Ok(Fetch::Wait));
    if let (Fetch::Hit(a), Fetch::Hit(b)) = (a, b) {
        assert!(pool.as_writable(&a).is_none());
        assert_eq!(pool.as_readable(&a).unwrap().page_id(), PageID(1));
        pool.release(a).unwrap();
        pool.release(b).unwrap();
    } else {
        panic!("no hit");
    }
    assert_eq!(
        pool.release(PageGuard { page_id: PageID(1), mode: LatchMode::Shared }),
        Err(PageError::PageNotFound)
    );
    assert_eq!(pool.pin_count(PageID(1)), Some(0));
    assert_eq!(pool.pin_count(PageID(5)), None);

    let mut other = BufferPool::new(2, 10);
    assert_eq!(other.fetch(PageID(3), LatchMode::Shared), Ok(Fetch::Load));
    assert_eq!(other.install(Page::new(PageID(3), PageType::Leaf)), Ok(()));
    assert_eq!(other.is_dirty(PageID(3)), Some(false));
    assert_eq!(other.install(Page::new(PageID(3), PageType::Leaf)), Ok(()));
    assert_eq!(other.len(), 1);
    assert_eq!(other.install(Page::new(PageID(10), PageType::Leaf)), Err(PageError::PageNotFound));
    assert_eq!(other.install(Page::new(PageID(0), PageType::Leaf)), Err(PageError::PageNotFound));
    assert_eq!(other.install(Page::new(PageID(4), PageType::Leaf)), Ok(()));
    assert_eq!(
        other.install(Page::new(PageID(5), PageType::Leaf)),
        Err(PageError::InsufficientSpace)
    );
    assert_eq!(other.allocate(PageType::Leaf), Err(PageError::InsufficientSpace));
    assert!(matches!(other.fetch(PageID(3), LatchMode::WriteIntent), Ok(Fetch::Hit(_))));
}

#[test]
fn eviction_takes_least_recently_fetched_unpinned() {
    let mut pool = BufferPool::new(3, 100);
    for id in [5u64, 6, 7] {
        pool.install(Page::new(PageID(id), PageType::Leaf)).unwrap();
    }
    assert_eq!(pool.victim(), Some(PageID(5)));
    let g5 = match pool.fetch(PageID(5), LatchMode::Shared).unwrap() {
        Fetch::Hit(g) => g,
        other => panic!("{:?}", other),
    };
    assert_eq!(pool.victim(), Some(PageID(6)));
    let g6 = match pool.fetch(PageID(6), LatchMode::Shared).unwrap() {
        Fetch::Hit(g) => g,
        other => panic!("{:?}", other),
    };
    pool.release(g6).unwrap();
    assert_eq!(pool.victim(), Some(PageID(7)));
    assert_eq!(pool.evict(), Evict::Evicted(PageID(7)));
    assert!(!pool.is_resident(PageID(7)));
    assert_eq!(pool.len(), 2);
    assert_eq!(pool.evict(), Evict::Evicted(PageID(6)));
    assert_eq!(pool.evict(), Evict::Nothing);
    assert_eq!(pool.victim(), None);
    assert!(!pool.discard(PageID(5)));
    pool.release(g5).unwrap();
    assert_eq!(pool.evict(), Evict::Evicted(PageID(5)));
    assert_eq!(pool.len(), 0);
}

#[test]
fn dirty_victim_must_be_flushed() {
    let mut pool = BufferPool::new(1, 1);
    let guard = pool.allocate(PageType::Leaf).unwrap();
    pool.as_writable(&guard).unwrap().insert(&[1, 2, 3]).unwrap();
    assert!(matches!(pool.flush(PageID(1)), Ok(Flush::Wait)));
    pool.release(guard).unwrap();
    assert_eq!(pool.evict(), Evict::MustFlush(PageID(1)));
    assert!(pool.is_resident(PageID(1)));
    match pool.flush(PageID(1)) {
        Ok(Flush::Write(page)) => assert_eq!(page.get(SlotID(0)), Some(&[1u8, 2, 3][..])),
        other => panic!("{:?}", other),
    }
    assert_eq!(pool.finish_flush(PageID(1), false), Err(PageError::IOFailure));
    assert_eq!(pool.is_dirty(PageID(1)), Some(true));
    assert_eq!(pool.finish_flush(PageID(1), true), Ok(()));
    assert_eq!(pool.is_dirty(PageID(1)), Some(false));
    assert!(matches!(pool.flush(PageID(1)), Ok(Flush::Clean)));
    assert!(matches!(pool.flush(PageID(2)), Err(PageError::PageNotFound)));
    assert_eq!(pool.finish_flush(PageID(2), true), Err(PageError::PageNotFound));
    assert_eq!(pool.evict(), Evict::Evicted(PageID(1)));
}

#[test]
fn write_intent_upgrades_when_readers_leave() {
    let mut pool = BufferPool::new(2, 5);
    pool.install(Page::new(PageID(2), PageType::Leaf)).unwrap();
    let reader = match pool.fetch(PageID(2), LatchMode::Shared).unwrap() {
        Fetch::Hit(g) => g,
        other => panic!("{:?}", other),
    };
    let mut writer = match pool.fetch(PageID(2), LatchMode::WriteIntent).unwrap() {
        Fetch::Hit(g) => g,
        other => panic!("{:?}", other),
    };
    assert_eq!(pool.fetch(PageID(2), LatchMode::WriteIntent), Ok(Fetch::Wait));
    assert!(!pool.try_upgrade(&mut writer));
    assert_eq!(writer.mode, LatchMode::WriteIntent);
    assert!(pool.as_writable(&writer).is_none());
    pool.release(reader).unwrap();
    assert!(pool.try_upgrade(&mut writer));
    assert_eq!(writer.mode, LatchMode::Exclusive);
    assert_eq!(pool.fetch(PageID(2), LatchMode::Shared), Ok(Fetch::Wait));
    assert_eq!(pool.is_dirty(PageID(2)), Some(false));
    pool.as_writable(&writer).unwrap().insert(&[4]).unwrap();
    assert_eq!(pool.is_dirty(PageID(2)), Some(true));
    assert_eq!(pool.pin_count(PageID(2)), Some(1));
    pool.release(writer).unwrap();
    assert_eq!(pool.pin_count(PageID(2)), Some(0));
}

#[test]
fn latch_modes_exclude_as_told() {
    let mut latch = Latch::new();
    assert!(latch.try_acquire(LatchMode::Shared));
    assert!(latch.try_acquire(LatchMode::Shared));
    assert!(latch.try_acquire(LatchMode::WriteIntent));
    assert!(!latch.try_acquire(LatchMode::WriteIntent));
    assert!(!latch.try_acquire(LatchMode::Exclusive));
    assert!(!latch.try_upgrade());
    assert!(latch.release(LatchMode::Shared));
    assert!(latch.release(LatchMode::Shared));
    assert!(!latch.release(LatchMode::Shared));
    assert!(latch.try_upgrade());
    assert_eq!(latch, Latch { shared: 0, intent: false, exclusive: true });
    assert!(!latch.try_acquire(LatchMode::Shared));
    assert!(!latch.try_acquire(LatchMode::WriteIntent));
    assert!(!latch.try_acquire(LatchMode::Exclusive));
    assert!(!latch.release(LatchMode::WriteIntent));
    assert!(latch.release(LatchMode::Exclusive));
    assert!(latch.try_acquire(LatchMode::Exclusive));
    assert!(!latch.try_acquire(LatchMode::Exclusive));
}

#[test]
fn unsound_page_is_not_installed() {
    let mut pool = BufferPool::new(2, 10);
    let mut page = Page::new(PageID(3), PageType::Leaf);
    page.insert_slot(SlotEntry { offset: 1, len: 10 }).unwrap();
    assert_eq!(pool.install(page), Err(PageError::InvalidSlot));
    assert_eq!(pool.len(), 0);
    let mut aliased = Page::new(PageID(4), PageType::Leaf);
    aliased.insert(&[1, 2, 3, 4]).unwrap();
    aliased.insert_slot(SlotEntry { offset: 4092, len: 4 }).unwrap();
    assert_eq!(pool.install(aliased), Err(PageError::InvalidSlot));
    let mut sound = Page::new(PageID(5), PageType::Leaf);
    sound.insert(&[1, 2, 3, 4]).unwrap();
    sound.remove(SlotID(0)).unwrap();
    assert_eq!(pool.install(sound), Ok(()));
    assert_eq!(pool.len(), 1);
}

#[test]
fn new_pool_starts_at_page_one() {
    let pool = BufferPool::new(3, 0);
    assert_eq!(pool.next_page_id(), 1);
    assert_eq!(pool.len(), 0);
    assert_eq!(pool.capacity(), 3);
    let mut none = BufferPool::new(0, 1);
    assert_eq!(none.allocate(PageType::Leaf), Err(PageError::InsufficientSpace));
}
