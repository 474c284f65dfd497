//! Overflow chains: a payload too long for one page, spread over pages
//! that are linked one to the next.
//!
//! An overflow page is a slotted page with the flags `OVERFLOW_FLAG`
//! whose slot 0 holds one cell: the identifier of the next page of the
//! chain in eight bytes, little-endian, then a chunk of the payload. The
//! last page of a chain has 0 for its next page. Every page of a chain but
//! the last holds a chunk of `OVERFLOW_CAPACITY` bytes. The chain of an
//! empty payload has no pages and its head is 0.
//!
//! A chain is written and read through the buffer pool: its pages are
//! allocated there, and each is pinned and latched while it is touched.

use vstd::prelude::*;
use crate::error::PageError;
use crate::ids::{PageID, PageType, SlotID};
use crate::latch::LatchMode;
use crate::layout::{lemma_put_u64, put_u64, read_u64, u64_at, write_u64, OVERFLOW_FLAG};
use crate::model::{
    can_insert, cells_ok, fresh_page, hdr_flags, inserted, layout_ok, lemma_fresh_page,
    lemma_inserted, lemma_with_flags, record, slot_len, slot_live, with_flags,
};
use crate::pool::{ticks_on, BufferPool, Fetch, PageFrame};

verus! {

/// Bytes that the link to the next page takes at the start of the cell.
pub const OVERFLOW_LINK_SIZE: usize = 8;

/// Most bytes of payload that one overflow page holds.
pub const OVERFLOW_CAPACITY: usize = 4068;

/// Page `s` is flagged as an overflow page and holds a link and a chunk
/// under slot 0.
pub open spec fn is_overflow_page(s: Seq<u8>) -> bool {
    layout_ok(s) && hdr_flags(s) == OVERFLOW_FLAG && slot_live(s, 0) && slot_len(s, 0)
        >= OVERFLOW_LINK_SIZE
}

/// The bytes of the overflow page `id` that links to `next` and holds
/// `chunk`.
#[verifier::opaque]
pub open spec fn overflow_page(id: u64, next: u64, chunk: Seq<u8>) -> Seq<u8> {
    inserted(
        with_flags(fresh_page(id, PageType::Leaf), OVERFLOW_FLAG as int),
        overflow_cell(next, chunk),
    )
}

/// The identifier of the page that follows overflow page `s`.
pub open spec fn overflow_next(s: Seq<u8>) -> u64 {
    u64_at(record(s, 0)->0, 0) as u64
}

/// The chunk of payload that overflow page `s` holds.
pub open spec fn overflow_chunk(s: Seq<u8>) -> Seq<u8> {
    record(s, 0)->0.skip(OVERFLOW_LINK_SIZE as int)
}

/// The cell of an overflow page: the link, then the chunk.
pub open spec fn overflow_cell(next: u64, chunk: Seq<u8>) -> Seq<u8> {
    put_u64(Seq::new(OVERFLOW_LINK_SIZE as nat, |i: int| 0u8), 0, next as int) + chunk
}

/// Number of pages in the chain of a payload of `len` bytes.
pub open spec fn chain_pages(len: nat) -> nat {
    ((len + OVERFLOW_CAPACITY - 1) / OVERFLOW_CAPACITY as int) as nat
}

/// How reading a chain ends.
pub enum Walk {
    /// Every page was read: this is the payload.
    Payload(Seq<u8>),
    /// This page of the chain is not in memory.
    Load(u64),
    /// This page of the chain cannot be latched now.
    Wait(u64),
    /// The chain leads to a page that does not exist or is no overflow
    /// page, or it does not end.
    Broken,
}

/// What comes of reading the chain that starts at `id`, over the frames
/// `frames` of a pool whose pages have the identifiers below
/// `next_page_id`, visiting at most `fuel` pages.
pub open spec fn walk(frames: Map<u64, PageFrame>, next_page_id: u64, id: u64, fuel: nat) -> Walk
    decreases fuel,
{
    if id == 0 {
        Walk::Payload(Seq::<u8>::empty())
    } else if id >= next_page_id {
        Walk::Broken
    } else if !frames.contains_key(id) {
        Walk::Load(id)
    } else if fuel == 0 {
        Walk::Broken
    } else if !(frames[id].latch.grants(LatchMode::Shared) && frames[id].pin_count < u32::MAX) {
        Walk::Wait(id)
    } else if !is_overflow_page(frames[id].page@) {
        Walk::Broken
    } else {
        match walk(frames, next_page_id, overflow_next(frames[id].page@), (fuel - 1) as nat) {
            Walk::Payload(rest) => Walk::Payload(overflow_chunk(frames[id].page@) + rest),
            other => other,
        }
    }
}

/// The frames and the clock after the chain that starts at `id` was read:
/// every page that was fetched on the way has the tick of its fetch.
pub open spec fn walked(
    frames: Map<u64, PageFrame>,
    clock: u64,
    next_page_id: u64,
    id: u64,
    fuel: nat,
) -> (Map<u64, PageFrame>, u64)
    decreases fuel,
{
    if id == 0 || id >= next_page_id || !frames.contains_key(id) || fuel == 0 || !(
    frames[id].latch.grants(LatchMode::Shared) && frames[id].pin_count < u32::MAX) {
        (frames, clock)
    } else {
        let stamped = frames.insert(id, PageFrame { last_used: clock, ..frames[id] });
        if is_overflow_page(frames[id].page@) {
            walked(
                stamped,
                ticks_on(clock, 1),
                next_page_id,
                overflow_next(frames[id].page@),
                (fuel - 1) as nat,
            )
        } else {
            (stamped, ticks_on(clock, 1))
        }
    }
}

/// Two frames differ in the tick of the last fetch at most.
pub open spec fn same_but_tick(a: PageFrame, b: PageFrame) -> bool {
    a == (PageFrame { last_used: a.last_used, ..b })
}

/// `b` holds every frame of `a`, the same but for the tick of its last
/// fetch.
pub open spec fn frames_kept(a: Map<u64, PageFrame>, b: Map<u64, PageFrame>) -> bool {
    forall|id: u64| #[trigger]
        a.contains_key(id) ==> b.contains_key(id) && same_but_tick(a[id], b[id])
}

/// A chain that reads to its end reads the same with more pages in the
/// pool, later ticks on its frames, and more fuel.
pub proof fn lemma_walk_stable(
    a: Map<u64, PageFrame>,
    b: Map<u64, PageFrame>,
    next_a: u64,
    next_b: u64,
    id: u64,
    fuel_a: nat,
    fuel_b: nat,
)
    requires
        frames_kept(a, b),
        next_a <= next_b,
        fuel_a <= fuel_b,
        walk(a, next_a, id, fuel_a) is Payload,
    ensures
        walk(b, next_b, id, fuel_b) == walk(a, next_a, id, fuel_a),
    decreases fuel_a,
{
    if id != 0 {
        assert(a.contains_key(id));
        assert(same_but_tick(a[id], b[id]));
        lemma_walk_stable(
            a,
            b,
            next_a,
            next_b,
            overflow_next(a[id].page@),
            (fuel_a - 1) as nat,
            (fuel_b - 1) as nat,
        );
    }
}

/// Reading a chain comes to the same end whatever the ticks on the frames.
pub proof fn lemma_walk_ignores_ticks(
    a: Map<u64, PageFrame>,
    b: Map<u64, PageFrame>,
    next_page_id: u64,
    id: u64,
    fuel: nat,
)
    requires
        frames_kept(a, b),
        frames_kept(b, a),
    ensures
        walk(b, next_page_id, id, fuel) == walk(a, next_page_id, id, fuel),
    decreases fuel,
{
    if id != 0 && id < next_page_id && a.contains_key(id) && fuel > 0 {
        assert(same_but_tick(a[id], b[id]));
        lemma_walk_ignores_ticks(
            a,
            b,
            next_page_id,
            overflow_next(a[id].page@),
            (fuel - 1) as nat,
        );
    } else if id != 0 && id < next_page_id && b.contains_key(id) {
        assert(a.contains_key(id));
    }
}

/// A new page that was flagged and given the cell of a link and a chunk
/// is an overflow page with that link and that chunk.
pub proof fn lemma_overflow_page(id: u64, next: u64, chunk: Seq<u8>)
    requires
        chunk.len() <= OVERFLOW_CAPACITY,
    ensures
        cells_ok(with_flags(fresh_page(id, PageType::Leaf), OVERFLOW_FLAG as int)),
        can_insert(
            with_flags(fresh_page(id, PageType::Leaf), OVERFLOW_FLAG as int),
            overflow_cell(next, chunk).len() as int,
        ),
        cells_ok(overflow_page(id, next, chunk)),
        is_overflow_page(overflow_page(id, next, chunk)),
        overflow_next(overflow_page(id, next, chunk)) == next,
        overflow_chunk(overflow_page(id, next, chunk)) == chunk,
{
    reveal(overflow_page);
    let zeros = Seq::new(OVERFLOW_LINK_SIZE as nat, |i: int| 0u8);
    let link = put_u64(zeros, 0, next as int);
    let cell = overflow_cell(next, chunk);
    let fresh = fresh_page(id, PageType::Leaf);
    let flagged = with_flags(fresh, OVERFLOW_FLAG as int);
    lemma_put_u64(zeros, 0, next as int);
    lemma_fresh_page(id, PageType::Leaf);
    lemma_with_flags(fresh, OVERFLOW_FLAG as int);
    assert(cell.len() == OVERFLOW_LINK_SIZE + chunk.len());
    lemma_inserted(flagged, cell);
    let page = inserted(flagged, cell);
    assert(record(page, 0) == Some(cell));
    assert(u64_at(cell, 0) == u64_at(link, 0));
    assert(cell.skip(OVERFLOW_LINK_SIZE as int) =~= chunk);
}

/// Chunk `i` of a payload: `OVERFLOW_CAPACITY` bytes, or what is left of
/// the payload for the last chunk.
pub open spec fn chunk_at(payload: Seq<u8>, i: int) -> Seq<u8> {
    payload.subrange(
        i * OVERFLOW_CAPACITY,
        if (i + 1) * OVERFLOW_CAPACITY <= payload.len() {
            (i + 1) * OVERFLOW_CAPACITY
        } else {
            payload.len() as int
        },
    )
}

/// The identifier of the page that holds chunk `i` of a chain of `pages`
/// pages whose identifiers start at `first`: the last chunk has the first
/// identifier and the head of the chain the last. Past the end it is 0.
pub open spec fn chunk_page(first: u64, pages: nat, i: int) -> u64 {
    if 0 <= i < pages {
        (first + pages - 1 - i) as u64
    } else {
        0
    }
}

/// The frames hold, for each chunk from `from` on, the overflow page of
/// that chunk, byte for byte, in a frame of a leaf page. The pages were
/// made last chunk first, one at each tick from `clock` on.
pub open spec fn chain_stamped(
    frames: Map<u64, PageFrame>,
    first: u64,
    pages: nat,
    payload: Seq<u8>,
    from: int,
    clock: u64,
) -> bool {
    forall|i: int|
        from <= i < pages ==> {
            let id = #[trigger] chunk_page(first, pages, i);
            &&& frames.contains_key(id)
            &&& frames[id].page@ == overflow_page(
                id,
                chunk_page(first, pages, i + 1),
                chunk_at(payload, i),
            )
            &&& frames[id].page_type == PageType::Leaf
            &&& frames[id].last_used == ticks_on(clock, (pages - 1 - i) as nat)
        }
}

/// The frames hold, for each chunk from `from` on, an overflow page with
/// that chunk and a link to the page of the next chunk, unpinned, unlatched
/// and dirty.
pub open spec fn chain_laid_out(
    frames: Map<u64, PageFrame>,
    first: u64,
    pages: nat,
    payload: Seq<u8>,
    from: int,
) -> bool {
    forall|i: int|
        from <= i < pages ==> {
            let id = #[trigger] chunk_page(first, pages, i);
            &&& frames.contains_key(id)
            &&& is_overflow_page(frames[id].page@)
            &&& overflow_chunk(frames[id].page@) == chunk_at(payload, i)
            &&& overflow_next(frames[id].page@) == chunk_page(first, pages, i + 1)
            &&& frames[id].pin_count == 0
            &&& frames[id].latch.is_free()
            &&& frames[id].dirty
        }
}

/// The payload from chunk `i` on.
pub open spec fn chunks_from(payload: Seq<u8>, i: int) -> Seq<u8> {
    if i * OVERFLOW_CAPACITY <= payload.len() {
        payload.subrange(i * OVERFLOW_CAPACITY, payload.len() as int)
    } else {
        Seq::<u8>::empty()
    }
}

/// A chain that is laid out reads from chunk `from` on as the payload from
/// that chunk on.
pub proof fn lemma_laid_out_reads(
    frames: Map<u64, PageFrame>,
    next_page_id: u64,
    first: u64,
    pages: nat,
    payload: Seq<u8>,
    from: int,
)
    requires
        chain_laid_out(frames, first, pages, payload, from),
        0 <= from <= pages,
        0 < first,
        first + pages <= next_page_id,
        pages == chain_pages(payload.len()),
    ensures
        walk(frames, next_page_id, chunk_page(first, pages, from), (pages - from) as nat)
            == Walk::Payload(chunks_from(payload, from)),
    decreases pages - from,
{
    if from == pages {
        assert(chunks_from(payload, from) =~= Seq::<u8>::empty());
    } else {
        lemma_laid_out_reads(frames, next_page_id, first, pages, payload, from + 1);
        let id = chunk_page(first, pages, from);
        assert(frames.contains_key(id));
        assert(chunk_at(payload, from) + chunks_from(payload, from + 1) =~= chunks_from(
            payload,
            from,
        ));
    }
}

/// A chain that is laid out from chunk `index + 1` on is laid out from
/// chunk `index` on once the page of chunk `index` has come in.
pub proof fn lemma_laid_out_grows(
    before: Map<u64, PageFrame>,
    after: Map<u64, PageFrame>,
    first: u64,
    pages: nat,
    payload: Seq<u8>,
    index: int,
    clock: u64,
)
    requires
        0 <= index < pages,
        first + pages <= u64::MAX,
        chain_laid_out(before, first, pages, payload, index + 1),
        chain_stamped(before, first, pages, payload, index + 1, clock),
        !before.contains_key(chunk_page(first, pages, index)),
        forall|k: u64| #[trigger]
            before.contains_key(k) ==> after.contains_key(k) && after[k] == before[k],
        ({
            let id = chunk_page(first, pages, index);
            &&& after.contains_key(id)
            &&& after[id].page@ == overflow_page(
                id,
                chunk_page(first, pages, index + 1),
                chunk_at(payload, index),
            )
            &&& after[id].page_type == PageType::Leaf
            &&& after[id].last_used == ticks_on(clock, (pages - 1 - index) as nat)
            &&& is_overflow_page(after[id].page@)
            &&& overflow_chunk(after[id].page@) == chunk_at(payload, index)
            &&& overflow_next(after[id].page@) == chunk_page(first, pages, index + 1)
            &&& after[id].pin_count == 0
            &&& after[id].latch.is_free()
            &&& after[id].dirty
        }),
    ensures
        chain_laid_out(after, first, pages, payload, index),
        chain_stamped(after, first, pages, payload, index, clock),
{
    assert forall|i: int| index <= i < pages implies {
        let pid = #[trigger] chunk_page(first, pages, i);
        &&& after.contains_key(pid)
        &&& is_overflow_page(after[pid].page@)
        &&& overflow_chunk(after[pid].page@) == chunk_at(payload, i)
        &&& overflow_next(after[pid].page@) == chunk_page(first, pages, i + 1)
        &&& after[pid].pin_count == 0
        &&& after[pid].latch.is_free()
        &&& after[pid].dirty
    } by {
        let pid = chunk_page(first, pages, i);
        if i > index {
            assert(before.contains_key(pid));
        }
    }
    assert forall|i: int| index <= i < pages implies {
        let pid = #[trigger] chunk_page(first, pages, i);
        &&& after.contains_key(pid)
        &&& after[pid].page@ == overflow_page(
            pid,
            chunk_page(first, pages, i + 1),
            chunk_at(payload, i),
        )
        &&& after[pid].page_type == PageType::Leaf
        &&& after[pid].last_used == ticks_on(clock, (pages - 1 - i) as nat)
    } by {
        let pid = chunk_page(first, pages, i);
        if i > index {
            assert(before.contains_key(pid));
        }
    }
}

/// What reading a chain ends in when `acc` was read already and `rest`
/// is what comes of reading on.
pub open spec fn read_on(acc: Seq<u8>, rest: Walk) -> Walk {
    match rest {
        Walk::Payload(more) => Walk::Payload(acc + more),
        other => other,
    }
}

/// How a read of a chain ended, short of an error.
#[derive(Debug, PartialEq, Eq)]
pub enum ChainRead {
    /// The chain was read to its end: this is the payload.
    Payload(Vec<u8>),
    /// This page of the chain is not in memory: it has to be read and
    /// installed before the chain is read again.
    Load(PageID),
    /// This page of the chain cannot be latched now.
    Wait(PageID),
}

/// The answer that stands for the end `w` of a walk.
pub open spec fn answers(r: Result<ChainRead, PageError>, w: Walk) -> bool {
    match w {
        Walk::Payload(bytes) => r is Ok && r->Ok_0 is Payload && r->Ok_0->Payload_0@ == bytes,
        Walk::Load(id) => r == Ok::<ChainRead, PageError>(ChainRead::Load(PageID(id))),
        Walk::Wait(id) => r == Ok::<ChainRead, PageError>(ChainRead::Wait(PageID(id))),
        Walk::Broken => r == Err::<ChainRead, PageError>(PageError::PageNotFound),
    }
}

/// A chain that was written with `pages` pages into a pool reads back as
/// the payload it was written from, whatever else the pool holds: the
/// answer `r` of a read from its head is that payload.
pub proof fn lemma_chain_round_trip(
    pool: BufferPool,
    head: u64,
    payload: Seq<u8>,
    pages: nat,
    r: Result<ChainRead, PageError>,
)
    requires
        walk(pool@, pool.spec_next_page_id(), head, pages) == Walk::Payload(payload),
        pages <= pool.spec_len(),
        answers(r, walk(pool@, pool.spec_next_page_id(), head, pool.spec_len() as nat)),
    ensures
        walk(pool@, pool.spec_next_page_id(), head, pool.spec_len() as nat) == Walk::Payload(
            payload,
        ),
        r is Ok,
        r->Ok_0 is Payload,
        r->Ok_0->Payload_0@ == payload,
{
    lemma_walk_stable(
        pool@,
        pool@,
        pool.spec_next_page_id(),
        pool.spec_next_page_id(),
        head,
        pages,
        pool.spec_len() as nat,
    );
}

/// Writes and reads overflow chains through a buffer pool.
pub struct OverflowChain;

impl OverflowChain {
    /// Number of pages that the chain of a payload of `len` bytes takes.
    pub fn pages_for(len: usize) -> (pages: usize)
        ensures
            pages == chain_pages(len as nat),
            pages * OVERFLOW_CAPACITY >= len,
            pages > 0 ==> (pages - 1) * OVERFLOW_CAPACITY < len,
    {
        let full = len / OVERFLOW_CAPACITY;
        if len % OVERFLOW_CAPACITY == 0 {
            full
        } else {
            full + 1
        }
    }

    /// Makes a new overflow page that holds `chunk` and links to `next`,
    /// and leaves it unpinned.
    fn put_page(pool: &mut BufferPool, next: u64, chunk: &[u8]) -> (id: u64)
        requires
            old(pool).wf(),
            chunk@.len() <= OVERFLOW_CAPACITY,
            old(pool).spec_len() < old(pool).spec_capacity(),
            old(pool).spec_next_page_id() < u64::MAX,
        ensures
            final(pool).wf(),
            final(pool).spec_capacity() == old(pool).spec_capacity(),
            final(pool).spec_len() == old(pool).spec_len() + 1,
            final(pool).spec_next_page_id() == old(pool).spec_next_page_id() + 1,
            id == old(pool).spec_next_page_id(),
            !old(pool)@.contains_key(id),
            forall|k: u64| #[trigger]
                final(pool)@.contains_key(k) <==> old(pool)@.contains_key(k) || k == id,
            forall|k: u64| #[trigger]
                old(pool)@.contains_key(k) ==> final(pool)@[k] == old(pool)@[k],
            final(pool).spec_clock() == ticks_on(old(pool).spec_clock(), 1),
            final(pool)@[id].page@ == overflow_page(id, next, chunk@),
            final(pool)@[id].page_type == PageType::Leaf,
            final(pool)@[id].last_used == old(pool).spec_clock(),
            is_overflow_page(final(pool)@[id].page@),
            overflow_chunk(final(pool)@[id].page@) == chunk@,
            overflow_next(final(pool)@[id].page@) == next,
            final(pool)@[id].pin_count == 0,
            final(pool)@[id].latch.is_free(),
            final(pool)@[id].dirty,
    {
        let mut cell: Vec<u8> = vec![0u8; OVERFLOW_LINK_SIZE];
        assert(cell@ =~= Seq::new(OVERFLOW_LINK_SIZE as nat, |i: int| 0u8));
        write_u64(cell.as_mut_slice(), 0, next);
        cell.extend_from_slice(chunk);
        assert(cell@ == overflow_cell(next, chunk@));
        let guard = pool.allocate(PageType::Leaf).unwrap();
        let id = guard.page_id.0;
        proof {
            lemma_overflow_page(id, next, chunk@);
        }
        let page = pool.as_writable(&guard).unwrap();
        page.set_flags(OVERFLOW_FLAG);
        let _ = page.insert(cell.as_slice());
        assert(pool@[id].page@ == overflow_page(id, next, chunk@)) by {
            reveal(overflow_page);
        }
        let _ = pool.release(guard);
        id
    }

    /// Writes `payload` as a chain of new pages and returns the head of
    /// the chain, 0 for an empty payload.
    ///
    /// The chain takes one page for each `OVERFLOW_CAPACITY` bytes begun.
    /// The pages get the next identifiers of the pool, the last chunk the
    /// first of them and the head of the chain the last. They are left
    /// unpinned and dirty. Fails with `InsufficientSpace`, changing
    /// nothing, when the pool has fewer free frames or fewer identifiers
    /// left than the chain has pages.
    pub fn write(pool: &mut BufferPool, payload: &[u8]) -> (r: Result<PageID, PageError>)
        requires
            old(pool).wf(),
        ensures
            final(pool).wf(),
            final(pool).spec_capacity() == old(pool).spec_capacity(),
            r is Ok <==> old(pool).spec_len() + chain_pages(payload@.len()) <= old(
                pool,
            ).spec_capacity() && old(pool).spec_next_page_id() + chain_pages(payload@.len())
                <= u64::MAX,
            match r {
                Ok(head) => {
                    let pages = chain_pages(payload@.len());
                    let first = old(pool).spec_next_page_id();
                    &&& head.0 == chunk_page(first, pages, 0)
                    &&& final(pool).spec_next_page_id() == first + pages
                    &&& final(pool).spec_len() == old(pool).spec_len() + pages
                    &&& forall|id: u64| #[trigger]
                        final(pool)@.contains_key(id) <==> old(pool)@.contains_key(id) || first
                            <= id < first + pages
                    &&& forall|id: u64| #[trigger]
                        old(pool)@.contains_key(id) ==> final(pool)@[id] == old(pool)@[id]
                    &&& final(pool).spec_clock() == ticks_on(old(pool).spec_clock(), pages)
                    &&& chain_laid_out(final(pool)@, first, pages, payload@, 0)
                    &&& chain_stamped(
                        final(pool)@,
                        first,
                        pages,
                        payload@,
                        0,
                        old(pool).spec_clock(),
                    )
                    &&& walk(final(pool)@, final(pool).spec_next_page_id(), head.0, pages)
                        == Walk::Payload(payload@)
                },
                Err(e) => {
                    &&& e == PageError::InsufficientSpace
                    &&& final(pool)@ == old(pool)@
                    &&& final(pool).same_settings(old(pool))
                    &&& final(pool).spec_len() == old(pool).spec_len()
                },
            },
    {
        let len = payload.len();
        let pages = Self::pages_for(len);
        if pages > pool.capacity() - pool.len() || pages as u64 > u64::MAX - pool.next_page_id() {
            return Err(PageError::InsufficientSpace);
        }
        let ghost first = pool.spec_next_page_id();
        let mut next: u64 = 0;
        let mut end: usize = len;
        let mut built: usize = 0;
        while built < pages
            invariant
                pool.wf(),
                pool.spec_capacity() == old(pool).spec_capacity(),
                pool.spec_len() == old(pool).spec_len() + built,
                pool.spec_next_page_id() == first + built,
                first == old(pool).spec_next_page_id(),
                0 < first,
                first + pages <= u64::MAX,
                old(pool).spec_len() + pages <= old(pool).spec_capacity(),
                built <= pages,
                len == payload@.len(),
                pages == chain_pages(len as nat),
                pages * OVERFLOW_CAPACITY >= len,
                pages > 0 ==> (pages - 1) * OVERFLOW_CAPACITY < len,
                end == if built == 0 {
                    len as int
                } else {
                    (pages - built) * OVERFLOW_CAPACITY
                },
                next == chunk_page(first, pages as nat, pages - built),
                forall|id: u64| #[trigger]
                    pool@.contains_key(id) <==> old(pool)@.contains_key(id) || first <= id < first
                        + built,
                forall|id: u64| #[trigger]
                    old(pool)@.contains_key(id) ==> pool@.contains_key(id) && pool@[id] == old(
                        pool,
                    )@[id],
                pool.spec_clock() == ticks_on(old(pool).spec_clock(), built as nat),
                chain_laid_out(pool@, first, pages as nat, payload@, pages - built),
                chain_stamped(
                    pool@,
                    first,
                    pages as nat,
                    payload@,
                    pages - built,
                    old(pool).spec_clock(),
                ),
            decreases pages - built,
        {
            let index = pages - built - 1;
            let start = index * OVERFLOW_CAPACITY;
            let chunk = vstd::slice::slice_subrange(payload, start, end);
            assert(chunk@ == chunk_at(payload@, index as int));
            let ghost before = pool@;
            let id = Self::put_page(pool, next, chunk);
            proof {
                assert(id == chunk_page(first, pages as nat, index as int));
                assert(next == chunk_page(first, pages as nat, index + 1));
                lemma_laid_out_grows(
                    before,
                    pool@,
                    first,
                    pages as nat,
                    payload@,
                    index as int,
                    old(pool).spec_clock(),
                );
            }
            next = id;
            end = start;
            built = built + 1;
        }
        proof {
            lemma_laid_out_reads(
                pool@,
                pool.spec_next_page_id(),
                first,
                pages as nat,
                payload@,
                0,
            );
            assert(chunks_from(payload@, 0) =~= payload@);
        }
        Ok(PageID(next))
    }

    /// Reads the chain that starts at `head`, following the links until
    /// one is 0, and returns the chunks joined.
    ///
    /// Each page is fetched under a `Shared` latch and given back before
    /// the next. A page that is not in memory, or whose latch is refused,
    /// ends the read with an answer that names it. A chain that leads to a
    /// page that does not exist or is no overflow page, or that has more
    /// pages than the pool has frames in use and so cannot end, is
    /// `PageNotFound`. The pool is left as it was but for the clock and the
    /// ticks on the frames that were fetched.
    pub fn read(pool: &mut BufferPool, head: PageID) -> (r: Result<ChainRead, PageError>)
        requires
            old(pool).wf(),
        ensures
            final(pool).wf(),
            final(pool).spec_capacity() == old(pool).spec_capacity(),
            final(pool).spec_next_page_id() == old(pool).spec_next_page_id(),
            final(pool).spec_len() == old(pool).spec_len(),
            frames_kept(old(pool)@, final(pool)@),
            frames_kept(final(pool)@, old(pool)@),
            (final(pool)@, final(pool).spec_clock()) == walked(
                old(pool)@,
                old(pool).spec_clock(),
                old(pool).spec_next_page_id(),
                head.0,
                old(pool).spec_len() as nat,
            ),
            answers(
                r,
                walk(
                    old(pool)@,
                    old(pool).spec_next_page_id(),
                    head.0,
                    old(pool).spec_len() as nat,
                ),
            ),
    {
        let mut out: Vec<u8> = Vec::new();
        let mut id: u64 = head.0;
        let mut fuel: usize = pool.len();
        let ghost goal = walk(
            old(pool)@,
            old(pool).spec_next_page_id(),
            head.0,
            old(pool).spec_len() as nat,
        );
        proof {
            match goal {
                Walk::Payload(b) => {
                    assert(Seq::<u8>::empty() + b =~= b);
                },
                _ => {},
            }
        }
        while id != 0
            invariant
                pool.wf(),
                pool.spec_capacity() == old(pool).spec_capacity(),
                pool.spec_next_page_id() == old(pool).spec_next_page_id(),
                pool.spec_len() == old(pool).spec_len(),
                frames_kept(old(pool)@, pool@),
                frames_kept(pool@, old(pool)@),
                goal == walk(
                    old(pool)@,
                    old(pool).spec_next_page_id(),
                    head.0,
                    old(pool).spec_len() as nat,
                ),
                goal == read_on(out@, walk(pool@, pool.spec_next_page_id(), id, fuel as nat)),
                walked(
                    old(pool)@,
                    old(pool).spec_clock(),
                    old(pool).spec_next_page_id(),
                    head.0,
                    old(pool).spec_len() as nat,
                ) == walked(
                    pool@,
                    pool.spec_clock(),
                    pool.spec_next_page_id(),
                    id,
                    fuel as nat,
                ),
            ensures
                id == 0,
            decreases fuel,
        {
            if id >= pool.next_page_id() {
                return Err(PageError::PageNotFound);
            }
            if !pool.is_resident(PageID(id)) {
                return Ok(ChainRead::Load(PageID(id)));
            }
            if fuel == 0 {
                return Err(PageError::PageNotFound);
            }
            let ghost before = pool@;
            let ghost clock = pool.spec_clock();
            let ghost read_so_far = out@;
            let guard = match pool.fetch(PageID(id), LatchMode::Shared) {
                Ok(Fetch::Hit(guard)) => guard,
                Ok(_) => {
                    return Ok(ChainRead::Wait(PageID(id)));
                },
                Err(e) => {
                    return Err(e);
                },
            };
            let mut next: u64 = 0;
            let mut good = false;
            match pool.as_readable(&guard) {
                Some(page) => {
                    match page.get(SlotID(0)) {
                        Some(cell) => {
                            if page.flags() == OVERFLOW_FLAG && cell.len() >= OVERFLOW_LINK_SIZE {
                                next = read_u64(cell, 0);
                                out.extend_from_slice(
                                    vstd::slice::slice_subrange(
                                        cell,
                                        OVERFLOW_LINK_SIZE,
                                        cell.len(),
                                    ),
                                );
                                good = true;
                                proof {
                                    assert(cell@.subrange(
                                        OVERFLOW_LINK_SIZE as int,
                                        cell@.len() as int,
                                    ) =~= cell@.skip(OVERFLOW_LINK_SIZE as int));
                                }
                            }
                        },
                        None => {},
                    }
                },
                None => {},
            }
            assert(good == is_overflow_page(before[id].page@));
            let _ = pool.release(guard);
            proof {
                assert(pool@ =~= before.insert(id, PageFrame { last_used: clock, ..before[id] }));
                assert(same_but_tick(before[id], pool@[id]));
                assert(frames_kept(before, pool@));
                assert(frames_kept(pool@, before));
                lemma_walk_ignores_ticks(
                    before,
                    pool@,
                    pool.spec_next_page_id(),
                    next,
                    (fuel - 1) as nat,
                );
            }
            if !good {
                return Err(PageError::PageNotFound);
            }
            proof {
                let rest = walk(before, pool.spec_next_page_id(), next, (fuel - 1) as nat);
                match rest {
                    Walk::Payload(more) => {
                        assert(out@ + more =~= read_so_far + (overflow_chunk(before[id].page@)
                            + more));
                    },
                    _ => {},
                }
            }
            id = next;
            fuel = fuel - 1;
        }
        proof {
            assert(out@ + Seq::<u8>::empty() =~= out@);
        }
        Ok(ChainRead::Payload(out))
    }
}

} // verus!
