//! The buffer pool: a bounded set of page frames, each pinned by the guards
//! that are out on it and latched in the mode that each guard asked for.
//!
//! The pool decides and keeps the books; it does no input or output. Where
//! a page must be read from or written to durable storage its answer says
//! so (`Fetch::Load`, `Evict::MustFlush`), the caller does the transfer and
//! reports back (`install`, `finish_flush`). Where a latch is refused its
//! answer is `Fetch::Wait`: the caller waits and asks again.
//!
//! Page identifiers run from 1 up to, not including, `next_page_id`;
//! identifier 0 names no page. A frame with no pin can be evicted. The
//! victim is the unpinned frame that was fetched longest ago, and among
//! frames fetched at the same tick the one with the smallest identifier.

use vstd::prelude::*;
use std::collections::HashMap;
use crate::error::PageError;
use crate::ids::{page_type_of_byte, PageID, PageType};
use crate::latch::{Latch, LatchMode};
use crate::model::{fresh_page, hdr_page_id, hdr_page_type};
use crate::page::Page;

verus! {

/// One page in memory with the pool's books on it.
pub struct PageFrame {
    /// The page.
    pub page: Page,
    /// The identifier of the page.
    pub page_id: PageID,
    /// The type of the page.
    pub page_type: PageType,
    /// Number of guards that are out on the page.
    pub pin_count: u32,
    /// Whether the page was changed since it was last written out.
    pub dirty: bool,
    /// Who holds the page's latch.
    pub latch: Latch,
    /// The tick at which the page was last fetched.
    pub last_used: u64,
}

impl PageFrame {
    /// The page is sound, the frame's books agree with it, and the frame
    /// has one pin for each holder of its latch.
    pub open spec fn wf(&self) -> bool {
        &&& self.page.cells_wf()
        &&& hdr_page_id(self.page@) == self.page_id.0
        &&& page_type_of_byte(hdr_page_type(self.page@)) == Some(self.page_type)
        &&& self.latch.wf()
        &&& self.pin_count == self.latch.holders()
    }

    /// The frame with one more guard on it, in `mode`, fetched at `tick`.
    pub open spec fn pinned(self, mode: LatchMode, tick: u64) -> PageFrame {
        PageFrame {
            pin_count: (self.pin_count + 1) as u32,
            latch: self.latch.with_holder(mode),
            last_used: tick,
            ..self
        }
    }

    /// The frame with one guard in `mode` less on it.
    pub open spec fn unpinned(self, mode: LatchMode) -> PageFrame {
        PageFrame {
            pin_count: (self.pin_count - 1) as u32,
            latch: self.latch.without_holder(mode),
            ..self
        }
    }
}

/// A handle on a pinned and latched page. It is answered by `fetch` and
/// `allocate` and given back by `release`.
#[derive(Debug, PartialEq, Eq)]
pub struct PageGuard {
    /// The page that the guard is on.
    pub page_id: PageID,
    /// The mode in which the guard holds the page's latch.
    pub mode: LatchMode,
}

/// The pool's answer to a fetch of a page that exists.
#[derive(Debug, PartialEq, Eq)]
pub enum Fetch {
    /// The page is in memory and the latch was granted.
    Hit(PageGuard),
    /// The page is in memory and the latch is held in a mode that excludes
    /// the one asked for, or the frame has no pin left to give.
    Wait,
    /// The page is not in memory: it has to be read and installed.
    Load,
}

/// The pool's answer to a request to evict.
#[derive(Clone, Copy, Debug, PartialEq, Eq, Structural)]
pub enum Evict {
    /// Every frame is pinned.
    Nothing,
    /// The victim was clean and its frame is free now.
    Evicted(PageID),
    /// The victim is dirty and still in its frame: it has to be flushed
    /// before it can go.
    MustFlush(PageID),
}

/// What has to be done to flush a page that is in memory.
#[derive(Debug)]
pub enum Flush<'a> {
    /// The page is dirty and nobody is writing to it: these are the bytes
    /// to persist.
    Write(&'a Page),
    /// The page is clean: there is nothing to persist.
    Clean,
    /// The page is dirty and latched `Exclusive`: it cannot be read now.
    Wait,
}

/// The frame that a page gets when it comes in from durable storage.
pub open spec fn loaded_frame(page: Page, tick: u64) -> PageFrame {
    PageFrame {
        page,
        page_id: PageID(hdr_page_id(page@) as u64),
        page_type: page_type_of_byte(hdr_page_type(page@))->0,
        pin_count: 0,
        dirty: false,
        latch: Latch { shared: 0, intent: false, exclusive: false },
        last_used: tick,
    }
}

/// The frame of a new page: empty, dirty, and held by the guard of the
/// one who asked for it.
pub open spec fn new_frame(page: Page, id: u64, page_type: PageType, tick: u64) -> PageFrame {
    PageFrame {
        page,
        page_id: PageID(id),
        page_type,
        pin_count: 1,
        dirty: true,
        latch: Latch { shared: 0, intent: false, exclusive: true },
        last_used: tick,
    }
}

/// Frame `a` goes before frame `b` when a victim is chosen.
pub open spec fn goes_first(a: PageFrame, b: PageFrame) -> bool {
    a.last_used < b.last_used || (a.last_used == b.last_used && a.page_id.0 <= b.page_id.0)
}

/// Page `id` is the frame to evict: it is unpinned and goes before every
/// other unpinned frame.
pub open spec fn is_victim(frames: Map<u64, PageFrame>, id: u64) -> bool {
    &&& frames.contains_key(id)
    &&& frames[id].pin_count == 0
    &&& forall|k: u64| #[trigger]
        frames.contains_key(k) && frames[k].pin_count == 0 ==> goes_first(frames[id], frames[k])
}

/// The tick that the clock shows `n` ticks after `tick`; the last tick
/// stays.
pub open spec fn ticks_on(tick: u64, n: nat) -> u64 {
    if tick + n <= u64::MAX {
        (tick + n) as u64
    } else {
        u64::MAX
    }
}

/// Some frame is unpinned.
pub open spec fn has_unpinned(frames: Map<u64, PageFrame>) -> bool {
    exists|k: u64| #[trigger] frames.contains_key(k) && frames[k].pin_count == 0
}

/// A guard is good in `frames` when its page is there and latched in the
/// guard's mode.
pub open spec fn guard_holds(frames: Map<u64, PageFrame>, guard: PageGuard) -> bool {
    frames.contains_key(guard.page_id.0) && frames[guard.page_id.0].latch.held_in(guard.mode)
}

/// The buffer pool.
pub struct BufferPool {
    frames: Vec<PageFrame>,
    table: HashMap<u64, usize>,
    capacity: usize,
    clock: u64,
    next_page_id: u64,
}

impl View for BufferPool {
    type V = Map<u64, PageFrame>;

    /// The frames in use, by the identifier of the page that each holds.
    closed spec fn view(&self) -> Map<u64, PageFrame> {
        Map::new(
            |k: u64| self.table@.contains_key(k),
            |k: u64| self.frames@[self.table@[k] as int],
        )
    }
}

impl BufferPool {
    /// Number of frames the pool has.
    pub closed spec fn spec_capacity(&self) -> usize {
        self.capacity
    }

    /// Number of frames in use.
    pub closed spec fn spec_len(&self) -> usize {
        self.frames@.len() as usize
    }

    /// The tick that the next fetch is stamped with.
    pub closed spec fn spec_clock(&self) -> u64 {
        self.clock
    }

    /// The identifier that the next new page gets.
    pub closed spec fn spec_next_page_id(&self) -> u64 {
        self.next_page_id
    }

    /// The page table and the frames agree, and no more frames are in use
    /// than the pool has.
    pub closed spec fn table_wf(&self) -> bool {
        &&& self.frames@.len() <= self.capacity
        &&& self@.dom().finite()
        &&& self@.dom().len() == self.frames@.len()
        &&& forall|k: u64| #[trigger]
            self.table@.contains_key(k) ==> self.table@[k] < self.frames@.len()
                && self.frames@[self.table@[k] as int].page_id.0 == k
        &&& forall|i: int|
            0 <= i < self.frames@.len() ==> self.table@.contains_key(
                (#[trigger] self.frames@[i]).page_id.0,
            ) && self.table@[self.frames@[i].page_id.0] == i
    }

    /// The pool's invariant: its books agree, every frame is well formed
    /// and filed under the identifier of its page, and every page in it
    /// exists.
    pub open spec fn wf(&self) -> bool {
        &&& self.table_wf()
        &&& self.spec_len() <= self.spec_capacity()
        &&& self.spec_next_page_id() >= 1
        &&& forall|id: u64| #[trigger]
            self@.contains_key(id) ==> self@[id].wf() && self@[id].page_id.0 == id
                && self.page_exists(id)
    }

    /// A page with this identifier exists, in memory or in durable storage.
    pub open spec fn page_exists(&self, id: u64) -> bool {
        0 < id < self.spec_next_page_id()
    }

    /// Everything but the frames is the same in both pools.
    pub open spec fn same_settings(&self, other: &BufferPool) -> bool {
        &&& self.spec_capacity() == other.spec_capacity()
        &&& self.spec_next_page_id() == other.spec_next_page_id()
        &&& self.spec_clock() == other.spec_clock()
    }

    /// An empty pool of `capacity` frames over a store whose pages have
    /// the identifiers below `next_page_id`; a store with no pages starts
    /// at 1.
    pub fn new(capacity: usize, next_page_id: u64) -> (pool: BufferPool)
        ensures
            pool.wf(),
            pool@ == Map::<u64, PageFrame>::empty(),
            pool.spec_capacity() == capacity,
            pool.spec_len() == 0,
            pool.spec_clock() == 0,
            pool.spec_next_page_id() == if next_page_id == 0 {
                1
            } else {
                next_page_id
            },
    {
        let pool = BufferPool {
            frames: Vec::new(),
            table: HashMap::new(),
            capacity,
            clock: 0,
            next_page_id: if next_page_id == 0 {
                1
            } else {
                next_page_id
            },
        };
        assert(pool@ =~= Map::<u64, PageFrame>::empty());
        pool
    }

    /// Number of frames the pool has.
    #[verifier::when_used_as_spec(spec_capacity)]
    pub fn capacity(&self) -> (n: usize)
        ensures
            n == self.spec_capacity(),
    {
        self.capacity
    }

    /// Number of frames in use.
    #[verifier::when_used_as_spec(spec_len)]
    pub fn len(&self) -> (n: usize)
        ensures
            n == self.spec_len(),
    {
        self.frames.len()
    }

    /// The identifier that the next new page gets.
    #[verifier::when_used_as_spec(spec_next_page_id)]
    pub fn next_page_id(&self) -> (id: u64)
        ensures
            id == self.spec_next_page_id(),
    {
        self.next_page_id
    }

    /// Whether the page is in memory.
    pub fn is_resident(&self, page_id: PageID) -> (b: bool)
        requires
            self.wf(),
        ensures
            b == self@.contains_key(page_id.0),
    {
        self.table.contains_key(&page_id.0)
    }

    /// Number of guards out on the page, or `None` when it is not in
    /// memory.
    pub fn pin_count(&self, page_id: PageID) -> (r: Option<u32>)
        requires
            self.wf(),
        ensures
            r == if self@.contains_key(page_id.0) {
                Some(self@[page_id.0].pin_count)
            } else {
                None
            },
    {
        match self.index_of(page_id.0) {
            None => None,
            Some(i) => Some(self.frames[i].pin_count),
        }
    }

    /// Whether the page was changed since it was last flushed, or `None`
    /// when it is not in memory.
    pub fn is_dirty(&self, page_id: PageID) -> (r: Option<bool>)
        requires
            self.wf(),
        ensures
            r == if self@.contains_key(page_id.0) {
                Some(self@[page_id.0].dirty)
            } else {
                None
            },
    {
        match self.index_of(page_id.0) {
            None => None,
            Some(i) => Some(self.frames[i].dirty),
        }
    }

    /// Where the frame of page `id` is, if the page is in memory.
    fn index_of(&self, id: u64) -> (r: Option<usize>)
        requires
            self.table_wf(),
        ensures
            r is Some <==> self@.contains_key(id),
            r is Some ==> r->0 < self.frames@.len() && self.frames@[r->0 as int] == self@[id]
                && self.table@.contains_key(id) && self.table@[id] == r->0,
    {
        match self.table.get(&id) {
            None => None,
            Some(i) => Some(*i),
        }
    }

    /// Reads the clock and moves it on by one tick.
    fn tick(&mut self) -> (now: u64)
        ensures
            now == old(self).spec_clock(),
            final(self).spec_clock() == ticks_on(now, 1),
            final(self).frames == old(self).frames,
            final(self).table == old(self).table,
            final(self).capacity == old(self).capacity,
            final(self).next_page_id == old(self).next_page_id,
    {
        let now = self.clock;
        if now < u64::MAX {
            self.clock = now + 1;
        }
        now
    }

    /// Asks for page `page_id` under a latch in `mode`.
    ///
    /// A page that does not exist is `PageNotFound`. A page in memory is a
    /// `Hit` when its latch grants `mode` and it has a pin left: it is then
    /// pinned, latched and stamped with the tick. Otherwise it is `Wait`.
    /// A page that exists and is not in memory is `Load`. Only a hit
    /// changes the pool.
    pub fn fetch(&mut self, page_id: PageID, mode: LatchMode) -> (r: Result<Fetch, PageError>)
        requires
            old(self).wf(),
        ensures
            final(self).wf(),
            final(self).spec_capacity() == old(self).spec_capacity(),
            final(self).spec_next_page_id() == old(self).spec_next_page_id(),
            final(self).spec_len() == old(self).spec_len(),
            r is Err <==> !old(self).page_exists(page_id.0),
            r is Err ==> r == Err::<Fetch, PageError>(PageError::PageNotFound),
            r is Ok ==> (r->Ok_0 is Load <==> !old(self)@.contains_key(page_id.0)),
            r is Ok ==> (r->Ok_0 is Hit <==> old(self)@.contains_key(page_id.0) && old(
                self,
            )@[page_id.0].latch.grants(mode) && old(self)@[page_id.0].pin_count < u32::MAX),
            match r {
                Ok(Fetch::Hit(guard)) => {
                    &&& guard == (PageGuard { page_id, mode })
                    &&& final(self)@ == old(self)@.insert(
                        page_id.0,
                        old(self)@[page_id.0].pinned(mode, old(self).spec_clock()),
                    )
                    &&& final(self).spec_clock() == ticks_on(old(self).spec_clock(), 1)
                    &&& guard_holds(final(self)@, guard)
                },
                _ => final(self)@ == old(self)@ && final(self).spec_clock() == old(
                    self,
                ).spec_clock(),
            },
    {
        if page_id.0 == 0 || page_id.0 >= self.next_page_id {
            return Err(PageError::PageNotFound);
        }
        let i = match self.index_of(page_id.0) {
            None => {
                return Ok(Fetch::Load);
            },
            Some(i) => i,
        };
        let ghost frame = self@[page_id.0];
        if self.frames[i].pin_count == u32::MAX {
            return Ok(Fetch::Wait);
        }
        let mut latch = self.frames[i].latch;
        if !latch.try_acquire(mode) {
            return Ok(Fetch::Wait);
        }
        let now = self.tick();
        self.frames[i].latch = latch;
        self.frames[i].pin_count = self.frames[i].pin_count + 1;
        self.frames[i].last_used = now;
        proof {
            assert(self.frames@[i as int] == frame.pinned(mode, now));
            assert(self@ =~= old(self)@.insert(page_id.0, frame.pinned(mode, now)));
        }
        Ok(Fetch::Hit(PageGuard { page_id, mode }))
    }

    /// Gives a guard back: the page loses one pin and one holder of its
    /// latch in the guard's mode. Fails with `PageNotFound`, changing
    /// nothing, when the guard's page is not in memory or is not latched in
    /// the guard's mode.
    pub fn release(&mut self, guard: PageGuard) -> (r: Result<(), PageError>)
        requires
            old(self).wf(),
        ensures
            final(self).wf(),
            final(self).same_settings(old(self)),
            final(self).spec_len() == old(self).spec_len(),
            r is Ok <==> guard_holds(old(self)@, guard),
            r is Err ==> r == Err::<(), PageError>(PageError::PageNotFound) && final(self)@ == old(
                self,
            )@,
            r is Ok ==> final(self)@ == old(self)@.insert(
                guard.page_id.0,
                old(self)@[guard.page_id.0].unpinned(guard.mode),
            ),
    {
        let i = match self.index_of(guard.page_id.0) {
            None => {
                return Err(PageError::PageNotFound);
            },
            Some(i) => i,
        };
        let ghost frame = self@[guard.page_id.0];
        assert(frame.wf());
        let mut latch = self.frames[i].latch;
        if !latch.release(guard.mode) {
            return Err(PageError::PageNotFound);
        }
        self.frames[i].latch = latch;
        self.frames[i].pin_count = self.frames[i].pin_count - 1;
        proof {
            assert(self.frames@[i as int] == frame.unpinned(guard.mode));
            assert(self@ =~= old(self)@.insert(guard.page_id.0, frame.unpinned(guard.mode)));
        }
        Ok(())
    }

    /// The page behind a guard, to read; `None` when the guard is not good.
    pub fn as_readable(&self, guard: &PageGuard) -> (r: Option<&Page>)
        requires
            self.wf(),
        ensures
            r is Some <==> guard_holds(self@, *guard),
            r is Some ==> *r->0 == self@[guard.page_id.0].page && r->0.cells_wf(),
    {
        let i = match self.index_of(guard.page_id.0) {
            None => {
                return None;
            },
            Some(i) => i,
        };
        assert(self@[guard.page_id.0].wf());
        let held = match guard.mode {
            LatchMode::Shared => self.frames[i].latch.shared > 0,
            LatchMode::WriteIntent => self.frames[i].latch.intent,
            LatchMode::Exclusive => self.frames[i].latch.exclusive,
        };
        if held {
            Some(&self.frames[i].page)
        } else {
            None
        }
    }

    /// The page behind a guard, to write; `None`, and nothing changed, when
    /// the guard is not good or its mode is not `Exclusive`. The frame is
    /// marked dirty. Whatever the caller makes of the page is what the pool
    /// holds afterwards: the pool stays well formed as long as the page
    /// stays sound and keeps its identifier and type.
    pub fn as_writable(&mut self, guard: &PageGuard) -> (r: Option<&mut Page>)
        requires
            old(self).wf(),
        ensures
            final(self).table_wf(),
            final(self).same_settings(old(self)),
            final(self).spec_len() == old(self).spec_len(),
            r is Some <==> guard_holds(old(self)@, *guard) && guard.mode == LatchMode::Exclusive,
            match r {
                Some(page) => {
                    &&& *page == old(self)@[guard.page_id.0].page
                    &&& page.cells_wf()
                    &&& final(self)@ == old(self)@.insert(
                        guard.page_id.0,
                        PageFrame {
                            page: *final(page),
                            dirty: true,
                            ..old(self)@[guard.page_id.0]
                        },
                    )
                },
                None => final(self)@ == old(self)@,
            },
    {
        let i = match self.index_of(guard.page_id.0) {
            None => {
                return None;
            },
            Some(i) => i,
        };
        let held = match guard.mode {
            LatchMode::Exclusive => self.frames[i].latch.exclusive,
            _ => false,
        };
        if !held {
            return None;
        }
        assert(self@[guard.page_id.0].wf());
        self.frames[i].dirty = true;
        proof {
            let ghost frame = old(self)@[guard.page_id.0];
            assert(self@ =~= old(self)@.insert(
                guard.page_id.0,
                PageFrame { dirty: true, ..frame },
            ));
        }
        Some(&mut self.frames[i].page)
    }

    /// Puts `frame` into a frame of its own.
    fn add_frame(&mut self, frame: PageFrame)
        requires
            old(self).table_wf(),
            old(self).frames@.len() < old(self).capacity,
            !old(self)@.contains_key(frame.page_id.0),
        ensures
            final(self).table_wf(),
            final(self).same_settings(old(self)),
            final(self).spec_len() == old(self).spec_len() + 1,
            final(self)@ == old(self)@.insert(frame.page_id.0, frame),
    {
        let n = self.frames.len();
        let id = frame.page_id.0;
        self.frames.push(frame);
        self.table.insert(id, n);
        assert(self@ =~= old(self)@.insert(id, frame));
    }

    /// Frees the frame at `i`.
    fn remove_frame(&mut self, i: usize)
        requires
            old(self).table_wf(),
            i < old(self).frames@.len(),
        ensures
            final(self).table_wf(),
            final(self).same_settings(old(self)),
            final(self).spec_len() == old(self).spec_len() - 1,
            final(self)@ == old(self)@.remove(old(self).frames@[i as int].page_id.0),
    {
        let last = self.frames.len() - 1;
        let id = self.frames[i].page_id.0;
        let moved = self.frames[last].page_id.0;
        self.frames.swap_remove(i);
        self.table.remove(&id);
        if i != last {
            self.table.insert(moved, i);
        }
        assert(self@ =~= old(self)@.remove(id));
    }

    /// Takes in a page that was read from durable storage.
    ///
    /// A page whose identifier does not exist is `PageNotFound`. A page
    /// that is in memory already stays as it is there, and `page` is
    /// dropped. A page that is not sound, with a slot that addresses no
    /// cell or with more in its cells than its cell region holds, is
    /// `InvalidSlot`. With every frame in use the answer is
    /// `InsufficientSpace`: a frame has to be evicted first. Otherwise the
    /// page gets a frame: clean, unpinned, stamped with the tick.
    pub fn install(&mut self, page: Page) -> (r: Result<(), PageError>)
        requires
            old(self).wf(),
            page.wf(),
        ensures
            final(self).wf(),
            final(self).spec_capacity() == old(self).spec_capacity(),
            final(self).spec_next_page_id() == old(self).spec_next_page_id(),
            r == if !old(self).page_exists(hdr_page_id(page@) as u64) {
                Err::<(), PageError>(PageError::PageNotFound)
            } else if old(self)@.contains_key(hdr_page_id(page@) as u64) {
                Ok(())
            } else if !page.cells_wf() {
                Err(PageError::InvalidSlot)
            } else if old(self).spec_len() == old(self).spec_capacity() {
                Err(PageError::InsufficientSpace)
            } else {
                Ok(())
            },
            r is Ok && !old(self)@.contains_key(hdr_page_id(page@) as u64) ==> {
                &&& final(self)@ == old(self)@.insert(
                    hdr_page_id(page@) as u64,
                    loaded_frame(page, old(self).spec_clock()),
                )
                &&& final(self).spec_len() == old(self).spec_len() + 1
                &&& final(self).spec_clock() == ticks_on(old(self).spec_clock(), 1)
            },
            r is Err || old(self)@.contains_key(hdr_page_id(page@) as u64) ==> {
                &&& final(self)@ == old(self)@
                &&& final(self).spec_len() == old(self).spec_len()
                &&& final(self).spec_clock() == old(self).spec_clock()
            },
    {
        let page_id = page.page_id();
        if page_id.0 == 0 || page_id.0 >= self.next_page_id {
            return Err(PageError::PageNotFound);
        }
        if self.index_of(page_id.0).is_some() {
            return Ok(());
        }
        if !page.check_cells() {
            return Err(PageError::InvalidSlot);
        }
        if self.frames.len() >= self.capacity {
            return Err(PageError::InsufficientSpace);
        }
        let page_type = page.page_type();
        let now = self.tick();
        let frame = PageFrame {
            page,
            page_id,
            page_type,
            pin_count: 0,
            dirty: false,
            latch: Latch::new(),
            last_used: now,
        };
        assert(frame == loaded_frame(page, now));
        self.add_frame(frame);
        Ok(())
    }

    /// Makes a new, empty page of type `page_type` with the next
    /// identifier and answers a guard that holds it `Exclusive`. The page
    /// is dirty from the start: it is not in durable storage yet. Fails
    /// with `InsufficientSpace`, changing nothing, when every frame is in
    /// use or no identifier is left.
    pub fn allocate(&mut self, page_type: PageType) -> (r: Result<PageGuard, PageError>)
        requires
            old(self).wf(),
        ensures
            final(self).wf(),
            final(self).spec_capacity() == old(self).spec_capacity(),
            r is Ok <==> old(self).spec_len() < old(self).spec_capacity() && old(
                self,
            ).spec_next_page_id() < u64::MAX,
            match r {
                Ok(guard) => {
                    &&& guard == (PageGuard {
                        page_id: PageID(old(self).spec_next_page_id()),
                        mode: LatchMode::Exclusive,
                    })
                    &&& !old(self)@.contains_key(guard.page_id.0)
                    &&& final(self)@.contains_key(guard.page_id.0)
                    &&& final(self)@[guard.page_id.0].page@ == fresh_page(
                        guard.page_id.0,
                        page_type,
                    )
                    &&& final(self)@ == old(self)@.insert(
                        guard.page_id.0,
                        new_frame(
                            final(self)@[guard.page_id.0].page,
                            guard.page_id.0,
                            page_type,
                            old(self).spec_clock(),
                        ),
                    )
                    &&& final(self).spec_next_page_id() == old(self).spec_next_page_id() + 1
                    &&& final(self).spec_len() == old(self).spec_len() + 1
                    &&& final(self).spec_clock() == ticks_on(old(self).spec_clock(), 1)
                    &&& guard_holds(final(self)@, guard)
                },
                Err(e) => {
                    &&& e == PageError::InsufficientSpace
                    &&& final(self)@ == old(self)@
                    &&& final(self).same_settings(old(self))
                    &&& final(self).spec_len() == old(self).spec_len()
                },
            },
    {
        if self.frames.len() >= self.capacity || self.next_page_id == u64::MAX {
            return Err(PageError::InsufficientSpace);
        }
        let id = self.next_page_id;
        assert(!self@.contains_key(id));
        let page = Page::new(PageID(id), page_type);
        let now = self.tick();
        let mut latch = Latch::new();
        let _ = latch.try_acquire(LatchMode::Exclusive);
        let frame = PageFrame {
            page,
            page_id: PageID(id),
            page_type,
            pin_count: 1,
            dirty: true,
            latch,
            last_used: now,
        };
        assert(frame == new_frame(page, id, page_type, now));
        self.add_frame(frame);
        self.next_page_id = id + 1;
        proof {
            assert(self@ =~= old(self)@.insert(id, frame));
        }
        Ok(PageGuard { page_id: PageID(id), mode: LatchMode::Exclusive })
    }

    /// Where the frame to evict is, if any frame is unpinned.
    fn victim_index(&self) -> (r: Option<usize>)
        requires
            self.wf(),
        ensures
            match r {
                Some(i) => i < self.frames@.len() && is_victim(
                    self@,
                    self.frames@[i as int].page_id.0,
                ) && self@[self.frames@[i as int].page_id.0] == self.frames@[i as int],
                None => !has_unpinned(self@),
            },
    {
        let n = self.frames.len();
        let mut best: Option<usize> = None;
        let mut i: usize = 0;
        while i < n
            invariant
                self.wf(),
                n == self.frames@.len(),
                i <= n,
                match best {
                    Some(b) => b < i && self.frames@[b as int].pin_count == 0 && forall|j: int|
                        0 <= j < i && self.frames@[j].pin_count == 0 ==> goes_first(
                            self.frames@[b as int],
                            #[trigger] self.frames@[j],
                        ),
                    None => forall|j: int|
                        0 <= j < i ==> (#[trigger] self.frames@[j]).pin_count != 0,
                },
            decreases n - i,
        {
            if self.frames[i].pin_count == 0 {
                let better = match best {
                    None => true,
                    Some(b) => self.frames[i].last_used < self.frames[b].last_used || (
                    self.frames[i].last_used == self.frames[b].last_used
                        && self.frames[i].page_id.0 <= self.frames[b].page_id.0),
                };
                if better {
                    best = Some(i);
                }
            }
            i = i + 1;
        }
        proof {
            match best {
                Some(b) => {
                    let id = self.frames@[b as int].page_id.0;
                    assert(self.table@.contains_key(id));
                    assert forall|k: u64| #[trigger]
                        self@.contains_key(k) && self@[k].pin_count == 0 implies goes_first(
                        self@[id],
                        self@[k],
                    ) by {
                        let j = self.table@[k] as int;
                        assert(self@[k] == self.frames@[j]);
                    }
                },
                None => {
                    assert forall|k: u64| #[trigger]
                        self@.contains_key(k) implies self@[k].pin_count != 0 by {
                        let j = self.table@[k] as int;
                        assert(self@[k] == self.frames@[j]);
                    }
                },
            }
        }
        best
    }

    /// The page whose frame would be evicted next: the unpinned one that
    /// was fetched longest ago. `None` when every frame is pinned.
    pub fn victim(&self) -> (r: Option<PageID>)
        requires
            self.wf(),
        ensures
            match r {
                Some(id) => is_victim(self@, id.0),
                None => !has_unpinned(self@),
            },
    {
        match self.victim_index() {
            Some(i) => Some(self.frames[i].page_id),
            None => None,
        }
    }

    /// Frees the victim's frame if the victim is clean. A dirty victim
    /// stays, and the answer names it: it has to be flushed first.
    pub fn evict(&mut self) -> (r: Evict)
        requires
            old(self).wf(),
        ensures
            final(self).wf(),
            final(self).same_settings(old(self)),
            match r {
                Evict::Nothing => !has_unpinned(old(self)@) && final(self)@ == old(self)@
                    && final(self).spec_len() == old(self).spec_len(),
                Evict::Evicted(id) => is_victim(old(self)@, id.0) && !old(self)@[id.0].dirty
                    && final(self)@ == old(self)@.remove(id.0) && final(self).spec_len() == old(
                    self,
                ).spec_len() - 1,
                Evict::MustFlush(id) => is_victim(old(self)@, id.0) && old(self)@[id.0].dirty
                    && final(self)@ == old(self)@ && final(self).spec_len() == old(self).spec_len(),
            },
    {
        match self.victim_index() {
            None => Evict::Nothing,
            Some(i) => {
                let id = self.frames[i].page_id;
                if self.frames[i].dirty {
                    Evict::MustFlush(id)
                } else {
                    self.remove_frame(i);
                    Evict::Evicted(id)
                }
            },
        }
    }

    /// Drops an unpinned page from memory without writing it, as for a
    /// page that its transaction gave up. Returns whether it did; a page
    /// that is pinned or not in memory stays.
    pub fn discard(&mut self, page_id: PageID) -> (dropped: bool)
        requires
            old(self).wf(),
        ensures
            final(self).wf(),
            final(self).same_settings(old(self)),
            dropped <==> old(self)@.contains_key(page_id.0) && old(self)@[page_id.0].pin_count == 0,
            dropped ==> final(self)@ == old(self)@.remove(page_id.0) && final(self).spec_len()
                == old(self).spec_len() - 1,
            !dropped ==> final(self)@ == old(self)@ && final(self).spec_len() == old(
                self,
            ).spec_len(),
    {
        match self.index_of(page_id.0) {
            None => false,
            Some(i) => {
                if self.frames[i].pin_count != 0 {
                    return false;
                }
                self.remove_frame(i);
                true
            },
        }
    }

    /// What flushing page `page_id` takes. A dirty page that nobody holds
    /// `Exclusive` is handed out to be written; `finish_flush` then tells
    /// the pool how the write went. Fails with `PageNotFound` when the page
    /// is not in memory.
    pub fn flush(&self, page_id: PageID) -> (r: Result<Flush<'_>, PageError>)
        requires
            self.wf(),
        ensures
            r is Ok <==> self@.contains_key(page_id.0),
            match r {
                Ok(Flush::Write(page)) => self@[page_id.0].dirty
                    && !self@[page_id.0].latch.exclusive && *page == self@[page_id.0].page,
                Ok(Flush::Clean) => !self@[page_id.0].dirty,
                Ok(Flush::Wait) => self@[page_id.0].dirty && self@[page_id.0].latch.exclusive,
                Err(e) => e == PageError::PageNotFound,
            },
    {
        match self.index_of(page_id.0) {
            None => Err(PageError::PageNotFound),
            Some(i) => {
                if !self.frames[i].dirty {
                    Ok(Flush::Clean)
                } else if self.frames[i].latch.exclusive {
                    Ok(Flush::Wait)
                } else {
                    Ok(Flush::Write(&self.frames[i].page))
                }
            },
        }
    }

    /// Records how the write of page `page_id` went. After a write that
    /// succeeded the page is clean. After one that failed the answer is
    /// `IOFailure` and the page stays dirty, so that the flush can be tried
    /// again. Fails with `PageNotFound` when the page is not in memory.
    pub fn finish_flush(&mut self, page_id: PageID, written: bool) -> (r: Result<(), PageError>)
        requires
            old(self).wf(),
        ensures
            final(self).wf(),
            final(self).same_settings(old(self)),
            final(self).spec_len() == old(self).spec_len(),
            r == if !old(self)@.contains_key(page_id.0) {
                Err::<(), PageError>(PageError::PageNotFound)
            } else if !written {
                Err(PageError::IOFailure)
            } else {
                Ok(())
            },
            r is Ok ==> final(self)@ == old(self)@.insert(
                page_id.0,
                PageFrame { dirty: false, ..old(self)@[page_id.0] },
            ),
            r is Err ==> final(self)@ == old(self)@,
    {
        match self.index_of(page_id.0) {
            None => Err(PageError::PageNotFound),
            Some(i) => {
                if !written {
                    return Err(PageError::IOFailure);
                }
                let ghost frame = self@[page_id.0];
                assert(frame.wf());
                self.frames[i].dirty = false;
                proof {
                    assert(self@ =~= old(self)@.insert(
                        page_id.0,
                        PageFrame { dirty: false, ..frame },
                    ));
                }
                Ok(())
            },
        }
    }

    /// Turns a guard in `WriteIntent` into a guard in `Exclusive`, once
    /// the readers of its page have left. Returns whether it did; when it
    /// did not, nothing changes and the caller waits and asks again.
    pub fn try_upgrade(&mut self, guard: &mut PageGuard) -> (upgraded: bool)
        requires
            old(self).wf(),
        ensures
            final(self).wf(),
            final(self).same_settings(old(self)),
            final(self).spec_len() == old(self).spec_len(),
            final(guard).page_id == old(guard).page_id,
            upgraded <==> old(guard).mode == LatchMode::WriteIntent && guard_holds(
                old(self)@,
                *old(guard),
            ) && old(self)@[old(guard).page_id.0].latch.can_upgrade(),
            upgraded ==> final(guard).mode == LatchMode::Exclusive && final(self)@ == old(
                self,
            )@.insert(
                old(guard).page_id.0,
                PageFrame {
                    latch: Latch { shared: 0, intent: false, exclusive: true },
                    ..old(self)@[old(guard).page_id.0]
                },
            ),
            !upgraded ==> final(guard).mode == old(guard).mode && final(self)@ == old(self)@,
    {
        match guard.mode {
            LatchMode::WriteIntent => {},
            _ => {
                return false;
            },
        }
        let i = match self.index_of(guard.page_id.0) {
            None => {
                return false;
            },
            Some(i) => i,
        };
        let ghost frame = self@[guard.page_id.0];
        assert(frame.wf());
        let mut latch = self.frames[i].latch;
        if !latch.try_upgrade() {
            return false;
        }
        self.frames[i].latch = latch;
        guard.mode = LatchMode::Exclusive;
        proof {
            assert(self@ =~= old(self)@.insert(guard.page_id.0, PageFrame { latch, ..frame }));
        }
        true
    }
}

/// While a guard holds a page `Exclusive` it is the only guard on the
/// page, and no latch on the page is granted in any mode: a fetch of the
/// page is answered `Wait` until the guard is given back.
pub proof fn lemma_exclusive_guard_is_alone(pool: BufferPool, guard: PageGuard, mode: LatchMode)
    requires
        pool.wf(),
        guard_holds(pool@, guard),
        guard.mode == LatchMode::Exclusive,
    ensures
        pool@[guard.page_id.0].pin_count == 1,
        !pool@[guard.page_id.0].latch.grants(mode),
        !pool@[guard.page_id.0].latch.can_upgrade(),
{
    assert(pool@[guard.page_id.0].wf());
}

/// The frames in use are as many as the pages in memory.
pub proof fn lemma_len_counts_pages(pool: BufferPool)
    requires
        pool.wf(),
    ensures
        pool@.dom().finite(),
        pool.spec_len() == pool@.dom().len(),
{
}

/// There is one victim at most: which frame goes next does not depend
/// on how the frames are kept.
pub proof fn lemma_victim_unique(pool: BufferPool, a: u64, b: u64)
    requires
        pool.wf(),
        is_victim(pool@, a),
        is_victim(pool@, b),
    ensures
        a == b,
{
    assert(goes_first(pool@[a], pool@[b]));
    assert(goes_first(pool@[b], pool@[a]));
}

} // verus!
