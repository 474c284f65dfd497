//! Cells: the records of a tree page, each with a key.
//!
//! A cell starts with a header of three bytes: the length of its key in
//! two bytes, little-endian, and one byte for its kind. The key follows,
//! and the body takes the rest. In a leaf the body is the value itself
//! (`CELL_INLINE`) or the eight bytes, little-endian, of the head of the
//! overflow chain that holds the value (`CELL_OVERFLOW`). In an internal
//! page the body is the eight bytes of the child's identifier
//! (`CELL_CHILD`).
//!
//! Keys are ordered as byte strings: by the first byte in which they
//! differ, a prefix before what it is a prefix of.

use vstd::prelude::*;
use crate::ids::PageID;
use crate::layout::{
    lemma_put_u64, lemma_put_u64_read, put_u64, read_u16, read_u64, u16_at, u64_at, write_u64,
};

verus! {

/// Size of the header of a cell.
pub const CELL_HEADER_SIZE: usize = 3;

/// Kind of a cell whose body is a value.
pub const CELL_INLINE: u8 = 0;

/// Kind of a cell whose body is the head of an overflow chain.
pub const CELL_OVERFLOW: u8 = 1;

/// Kind of a cell whose body is the identifier of a child page.
pub const CELL_CHILD: u8 = 2;

/// Where the key of cell `c` ends. Total: in bytes that are too short to
/// be a cell the key ends where the bytes end.
pub open spec fn key_end(c: Seq<u8>) -> int {
    if c.len() < CELL_HEADER_SIZE {
        c.len() as int
    } else if CELL_HEADER_SIZE + u16_at(c, 0) <= c.len() {
        CELL_HEADER_SIZE + u16_at(c, 0)
    } else {
        c.len() as int
    }
}

/// Where the key of cell `c` starts.
pub open spec fn key_start(c: Seq<u8>) -> int {
    if c.len() < CELL_HEADER_SIZE {
        c.len() as int
    } else {
        CELL_HEADER_SIZE as int
    }
}

/// The key of cell `c`.
pub open spec fn cell_key(c: Seq<u8>) -> Seq<u8> {
    c.subrange(key_start(c), key_end(c))
}

/// The body of cell `c`.
pub open spec fn cell_body(c: Seq<u8>) -> Seq<u8> {
    c.skip(key_end(c))
}

/// The bytes are a cell: they hold a header, the key that the header
/// announces, and a body of the size that the kind asks for.
pub open spec fn is_cell(c: Seq<u8>) -> bool {
    &&& c.len() >= CELL_HEADER_SIZE
    &&& CELL_HEADER_SIZE + u16_at(c, 0) <= c.len()
    &&& c[2] <= CELL_CHILD
    &&& c[2] != CELL_INLINE ==> c.len() == CELL_HEADER_SIZE + u16_at(c, 0) + 8
}

/// The bytes of a cell with this kind, key and body.
pub open spec fn cell_image(kind: u8, key: Seq<u8>, body: Seq<u8>) -> Seq<u8> {
    seq![(key.len() % 256) as u8, (key.len() / 256) as u8, kind] + key + body
}

/// Key `a` is at or before key `b` in the order of byte strings.
pub open spec fn key_le(a: Seq<u8>, b: Seq<u8>) -> bool
    decreases a.len(),
{
    if a.len() == 0 {
        true
    } else if b.len() == 0 {
        false
    } else if a[0] != b[0] {
        a[0] < b[0]
    } else {
        key_le(a.drop_first(), b.drop_first())
    }
}

/// Of two keys one is at or before the other.
pub proof fn lemma_key_le_total(a: Seq<u8>, b: Seq<u8>)
    ensures
        key_le(a, b) || key_le(b, a),
    decreases a.len(),
{
    if a.len() > 0 && b.len() > 0 && a[0] == b[0] {
        lemma_key_le_total(a.drop_first(), b.drop_first());
    }
}

/// The order of keys is transitive.
pub proof fn lemma_key_le_transitive(a: Seq<u8>, b: Seq<u8>, c: Seq<u8>)
    requires
        key_le(a, b),
        key_le(b, c),
    ensures
        key_le(a, c),
    decreases a.len(),
{
    if a.len() > 0 && b.len() > 0 && c.len() > 0 && a[0] == b[0] && b[0] == c[0] {
        lemma_key_le_transitive(a.drop_first(), b.drop_first(), c.drop_first());
    }
}

/// Whether key `a` is at or before key `b`.
pub fn key_at_or_before(a: &[u8], b: &[u8]) -> (r: bool)
    ensures
        r == key_le(a@, b@),
{
    let mut i: usize = 0;
    assert(a@.skip(0) =~= a@ && b@.skip(0) =~= b@);
    while i < a.len() && i < b.len()
        invariant
            i <= a.len(),
            i <= b.len(),
            key_le(a@, b@) == key_le(a@.skip(i as int), b@.skip(i as int)),
        decreases a.len() - i,
    {
        proof {
            let x = a@.skip(i as int);
            let y = b@.skip(i as int);
            assert(x.drop_first() =~= a@.skip(i + 1));
            assert(y.drop_first() =~= b@.skip(i + 1));
        }
        if a[i] != b[i] {
            return a[i] < b[i];
        }
        i = i + 1;
    }
    i == a.len()
}

/// Whether two keys are the same.
pub fn same_key(a: &[u8], b: &[u8]) -> (r: bool)
    ensures
        r == (a@ == b@),
{
    if a.len() != b.len() {
        return false;
    }
    let mut i: usize = 0;
    while i < a.len()
        invariant
            i <= a.len(),
            a.len() == b.len(),
            forall|j: int| 0 <= j < i ==> a@[j] == b@[j],
        decreases a.len() - i,
    {
        if a[i] != b[i] {
            return false;
        }
        i = i + 1;
    }
    assert(a@ =~= b@);
    true
}

/// The key of a cell.
pub fn key_of(cell: &[u8]) -> (key: &[u8])
    ensures
        key@ == cell_key(cell@),
{
    let len = cell.len();
    if len < CELL_HEADER_SIZE {
        return vstd::slice::slice_subrange(cell, len, len);
    }
    let key_len = read_u16(cell, 0) as usize;
    let end = if CELL_HEADER_SIZE + key_len <= len {
        CELL_HEADER_SIZE + key_len
    } else {
        len
    };
    vstd::slice::slice_subrange(cell, CELL_HEADER_SIZE, end)
}

/// What the body of a cell holds.
#[derive(Debug, PartialEq, Eq)]
pub enum CellBody<'page> {
    /// The value, in the cell itself.
    Inline(&'page [u8]),
    /// The head of the overflow chain that holds the value.
    Overflow(PageID),
    /// The child page that the key leads to.
    Child(PageID),
}

/// A cell of a page, read in place.
#[derive(Debug, PartialEq, Eq)]
pub struct Cell<'page> {
    /// The key of the cell.
    pub key: &'page [u8],
    /// What the cell holds under its key.
    pub body: CellBody<'page>,
}

/// The kind of a cell's body.
pub open spec fn body_kind(body: CellBody<'_>) -> u8 {
    match body {
        CellBody::Inline(_) => CELL_INLINE,
        CellBody::Overflow(_) => CELL_OVERFLOW,
        CellBody::Child(_) => CELL_CHILD,
    }
}

/// The bytes of a cell's body.
pub open spec fn body_image(body: CellBody<'_>) -> Seq<u8> {
    match body {
        CellBody::Inline(value) => value@,
        CellBody::Overflow(head) => put_u64(Seq::new(8, |i: int| 0u8), 0, head.0 as int),
        CellBody::Child(child) => put_u64(Seq::new(8, |i: int| 0u8), 0, child.0 as int),
    }
}

impl<'page> Cell<'page> {
    /// The bytes that stand for the cell.
    pub open spec fn image(&self) -> Seq<u8> {
        cell_image(body_kind(self.body), self.key@, body_image(self.body))
    }

    /// Reads `bytes` as a cell; `None` when they are not one.
    pub fn parse(bytes: &'page [u8]) -> (r: Option<Cell<'page>>)
        ensures
            r is Some <==> is_cell(bytes@),
            r is Some ==> r->0.image() == bytes@ && r->0.key@ == cell_key(bytes@) && body_image(
                r->0.body,
            ) == cell_body(bytes@) && body_kind(r->0.body) == bytes@[2],
    {
        let len = bytes.len();
        if len < CELL_HEADER_SIZE {
            return None;
        }
        let key_len = read_u16(bytes, 0) as usize;
        let kind = bytes[2];
        let end = CELL_HEADER_SIZE + key_len;
        if end > len || kind > CELL_CHILD {
            return None;
        }
        let key = vstd::slice::slice_subrange(bytes, CELL_HEADER_SIZE, end);
        if kind == CELL_INLINE {
            let value = vstd::slice::slice_subrange(bytes, end, len);
            let cell = Cell { key, body: CellBody::Inline(value) };
            assert(cell.image() =~= bytes@);
            assert(value@ =~= cell_body(bytes@));
            return Some(cell);
        }
        if len != end + 8 {
            return None;
        }
        let link = vstd::slice::slice_subrange(bytes, end, len);
        let id = PageID(read_u64(link, 0));
        proof {
            lemma_link_image(link@);
            assert(link@ =~= cell_body(bytes@));
        }
        let cell = if kind == CELL_OVERFLOW {
            Cell { key, body: CellBody::Overflow(id) }
        } else {
            Cell { key, body: CellBody::Child(id) }
        };
        assert(cell.image() =~= bytes@);
        Some(cell)
    }

    /// The bytes that stand for the cell; `None` when the key is too long
    /// for its length to be written in two bytes.
    pub fn encode(&self) -> (r: Option<Vec<u8>>)
        ensures
            r is Some <==> self.key@.len() < 0x1_0000,
            r is Some ==> r->0@ == self.image() && is_cell(r->0@) && cell_key(r->0@) == self.key@,
    {
        let key_len = self.key.len();
        if key_len >= 0x1_0000 {
            return None;
        }
        let mut out: Vec<u8> = Vec::new();
        out.push((key_len % 256) as u8);
        out.push((key_len / 256) as u8);
        match self.body {
            CellBody::Inline(value) => {
                out.push(CELL_INLINE);
                out.extend_from_slice(self.key);
                out.extend_from_slice(value);
            },
            CellBody::Overflow(head) => {
                out.push(CELL_OVERFLOW);
                out.extend_from_slice(self.key);
                let mut link: Vec<u8> = vec![0u8; 8];
                assert(link@ =~= Seq::new(8, |i: int| 0u8));
                write_u64(link.as_mut_slice(), 0, head.0);
                out.extend_from_slice(link.as_slice());
                proof {
                    lemma_put_u64(Seq::new(8, |i: int| 0u8), 0, head.0 as int);
                }
            },
            CellBody::Child(child) => {
                out.push(CELL_CHILD);
                out.extend_from_slice(self.key);
                let mut link: Vec<u8> = vec![0u8; 8];
                assert(link@ =~= Seq::new(8, |i: int| 0u8));
                write_u64(link.as_mut_slice(), 0, child.0);
                out.extend_from_slice(link.as_slice());
                proof {
                    lemma_put_u64(Seq::new(8, |i: int| 0u8), 0, child.0 as int);
                }
            },
        }
        assert(out@ =~= self.image());
        assert(cell_key(out@) =~= self.key@);
        Some(out)
    }
}

/// Eight bytes are the image of the identifier that they hold.
proof fn lemma_link_image(link: Seq<u8>)
    requires
        link.len() == 8,
    ensures
        put_u64(Seq::new(8, |i: int| 0u8), 0, u64_at(link, 0)) == link,
{
    let z = Seq::new(8, |i: int| 0u8);
    lemma_put_u64_read(link, z, 0);
    assert(put_u64(z, 0, u64_at(link, 0)) =~= link);
}

} // verus!
