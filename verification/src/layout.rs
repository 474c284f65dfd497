//! Byte layout of a page and little-endian coding of its fields.
//!
//! Every multi-byte field is stored least significant byte first, whatever
//! the host, and is read and written byte by byte.

use vstd::prelude::*;

verus! {

/// Size of every page in bytes.
pub const PAGE_SIZE: usize = 4096;

/// Size of one slot directory entry: a 16-bit offset and a 16-bit length.
pub const SLOT_ENTRY_SIZE: usize = 4;

/// Most slots a page can hold: the header counts them in one byte.
pub const MAX_SLOTS: usize = 255;

/// Where the header starts in the page.
pub const PAGE_OFFSET: usize = 0;

/// Size of the page identifier in the header.
pub const PAGE_HEADER_ID_SIZE: usize = 8;

/// Where the page identifier stands in the header.
pub const PAGE_HEADER_ID_OFFSET: usize = 0;

/// Size of the flags in the header.
pub const PAGE_HEADER_FLAG_SIZE: usize = 2;

/// Where the flags stand in the header.
pub const PAGE_HEADER_FLAG_OFFSET: usize = 8;

/// Size of the page type in the header.
pub const PAGE_TYPE_SIZE: usize = 1;

/// Where the page type stands in the header.
pub const PAGE_TYPE_OFFSET: usize = 10;

/// Size of the slot count in the header.
pub const PAGE_SLOT_COUNT_SIZE: usize = 1;

/// Where the slot count stands in the header.
pub const PAGE_SLOT_COUNT_OFFSET: usize = 11;

/// Size of each of the two bounds of the free region in the header.
pub const HEADER_FREE_LOCATOR_SIZE: usize = 2;

/// Where the start of the free region stands in the header.
pub const HEADER_FREE_START_OFFSET: usize = 12;

/// Where the end of the free region stands in the header.
pub const HEADER_FREE_END_OFFSET: usize = 14;

/// Flag of a page that belongs to an overflow chain.
pub const OVERFLOW_FLAG: u16 = 2;

/// Size of the page header; the slot directory starts here.
pub const HEADER_SIZE: usize = 16;

/// The 16-bit value stored little-endian at `at`.
pub open spec fn u16_at(s: Seq<u8>, at: int) -> int {
    s[at] as int + 256 * (s[at + 1] as int)
}

/// `s` with the 16-bit value `v` stored little-endian at `at`.
pub open spec fn put_u16(s: Seq<u8>, at: int, v: int) -> Seq<u8> {
    s.update(at, (v % 256) as u8).update(at + 1, (v / 256) as u8)
}

/// The 64-bit value stored little-endian at `at`.
pub open spec fn u64_at(s: Seq<u8>, at: int) -> int {
    u16_at(s, at) + 0x1_0000 * u16_at(s, at + 2) + 0x1_0000_0000 * u16_at(s, at + 4)
        + 0x1_0000_0000_0000 * u16_at(s, at + 6)
}

/// `s` with the 64-bit value `v` stored little-endian at `at`.
pub open spec fn put_u64(s: Seq<u8>, at: int, v: int) -> Seq<u8> {
    put_u16(
        put_u16(
            put_u16(put_u16(s, at, v % 0x1_0000), at + 2, (v / 0x1_0000) % 0x1_0000),
            at + 4,
            (v / 0x1_0000_0000) % 0x1_0000,
        ),
        at + 6,
        v / 0x1_0000_0000_0000,
    )
}

/// `s` with `data` written over the bytes from `at` on.
pub open spec fn splice(s: Seq<u8>, at: int, data: Seq<u8>) -> Seq<u8> {
    Seq::new(
        s.len(),
        |i: int|
            if at <= i < at + data.len() {
                data[i - at]
            } else {
                s[i]
            },
    )
}

/// A 16-bit value that was stored is read back, and the bytes around it stay.
pub proof fn lemma_put_u16(s: Seq<u8>, at: int, v: int)
    requires
        0 <= at,
        at + 2 <= s.len(),
        0 <= v < 0x1_0000,
    ensures
        put_u16(s, at, v).len() == s.len(),
        u16_at(put_u16(s, at, v), at) == v,
        forall|i: int| 0 <= i < s.len() && i != at && i != at + 1 ==> put_u16(s, at, v)[i] == s[i],
{
}

/// A 64-bit value that was stored is read back, and the bytes around it stay.
pub proof fn lemma_put_u64(s: Seq<u8>, at: int, v: int)
    requires
        0 <= at,
        at + 8 <= s.len(),
        0 <= v < 0x1_0000_0000_0000_0000,
    ensures
        put_u64(s, at, v).len() == s.len(),
        u64_at(put_u64(s, at, v), at) == v,
        forall|i: int| 0 <= i < s.len() && !(at <= i < at + 8) ==> put_u64(s, at, v)[i] == s[i],
{
    let a = put_u16(s, at, v % 0x1_0000);
    let b = put_u16(a, at + 2, (v / 0x1_0000) % 0x1_0000);
    let c = put_u16(b, at + 4, (v / 0x1_0000_0000) % 0x1_0000);
    let d = put_u16(c, at + 6, v / 0x1_0000_0000_0000);
    lemma_put_u16(s, at, v % 0x1_0000);
    lemma_put_u16(a, at + 2, (v / 0x1_0000) % 0x1_0000);
    lemma_put_u16(b, at + 4, (v / 0x1_0000_0000) % 0x1_0000);
    lemma_put_u16(c, at + 6, v / 0x1_0000_0000_0000);
    assert(u16_at(d, at) == u16_at(a, at));
    assert(u16_at(d, at + 2) == u16_at(b, at + 2));
    assert(u16_at(d, at + 4) == u16_at(c, at + 4));
}

/// The 16-bit words of a 64-bit value that was read are the words it was
/// read from.
pub proof fn lemma_u64_at_words(s: Seq<u8>, at: int)
    requires
        0 <= at,
        at + 8 <= s.len(),
    ensures
        0 <= u64_at(s, at) < 0x1_0000_0000_0000_0000,
        u64_at(s, at) % 0x1_0000 == u16_at(s, at),
        (u64_at(s, at) / 0x1_0000) % 0x1_0000 == u16_at(s, at + 2),
        (u64_at(s, at) / 0x1_0000_0000) % 0x1_0000 == u16_at(s, at + 4),
        u64_at(s, at) / 0x1_0000_0000_0000 == u16_at(s, at + 6),
{
    let v = u64_at(s, at);
    let w0 = u16_at(s, at);
    let w1 = u16_at(s, at + 2);
    let w2 = u16_at(s, at + 4);
    let w3 = u16_at(s, at + 6);
    let q1 = w1 + 0x1_0000 * w2 + 0x1_0000_0000 * w3;
    let q2 = w2 + 0x1_0000 * w3;
    assert(0 <= w0 < 0x1_0000 && 0 <= w1 < 0x1_0000 && 0 <= w2 < 0x1_0000 && 0 <= w3 < 0x1_0000);
    assert(v == w0 + 0x1_0000 * q1);
    assert(v % 0x1_0000 == w0 && v / 0x1_0000 == q1);
    assert(q1 == w1 + 0x1_0000 * q2);
    assert(q1 % 0x1_0000 == w1);
    assert(v == (w0 + 0x1_0000 * w1) + 0x1_0000_0000 * q2);
    assert(v / 0x1_0000_0000 == q2);
    assert(q2 % 0x1_0000 == w2);
    assert(v == (w0 + 0x1_0000 * w1 + 0x1_0000_0000 * w2) + 0x1_0000_0000_0000 * w3);
    assert(v / 0x1_0000_0000_0000 == w3);
}

/// A 64-bit value that is stored again where it was read, or in the same
/// place of other bytes, gives the bytes it was read from.
pub proof fn lemma_put_u64_read(s: Seq<u8>, t: Seq<u8>, at: int)
    requires
        0 <= at,
        at + 8 <= s.len(),
        at + 8 <= t.len(),
    ensures
        forall|k: int| at <= k < at + 8 ==> put_u64(t, at, u64_at(s, at))[k] == s[k],
{
    lemma_u64_at_words(s, at);
    let v = u64_at(s, at);
    let a = put_u16(t, at, v % 0x1_0000);
    let b = put_u16(a, at + 2, (v / 0x1_0000) % 0x1_0000);
    let c = put_u16(b, at + 4, (v / 0x1_0000_0000) % 0x1_0000);
    let d = put_u16(c, at + 6, v / 0x1_0000_0000_0000);
    assert(d[at] == s[at] && d[at + 1] == s[at + 1]);
    assert(d[at + 2] == s[at + 2] && d[at + 3] == s[at + 3]);
    assert(d[at + 4] == s[at + 4] && d[at + 5] == s[at + 5]);
    assert(d[at + 6] == s[at + 6] && d[at + 7] == s[at + 7]);
}

/// Reads the 16-bit little-endian value at `at`.
pub fn read_u16(s: &[u8], at: usize) -> (v: u16)
    requires
        at + 2 <= s.len(),
    ensures
        v as int == u16_at(s@, at as int),
{
    let lo: u16 = s[at] as u16;
    let hi: u16 = s[at + 1] as u16;
    lo + hi * 256
}

/// Writes `v` little-endian at `at`.
pub fn write_u16(s: &mut [u8], at: usize, v: u16)
    requires
        at + 2 <= old(s).len(),
    ensures
        final(s)@ == put_u16(old(s)@, at as int, v as int),
{
    s[at] = (v % 256) as u8;
    s[at + 1] = (v / 256) as u8;
}

/// Reads the 64-bit little-endian value at `at`.
pub fn read_u64(s: &[u8], at: usize) -> (v: u64)
    requires
        at + 8 <= s.len(),
    ensures
        v as int == u64_at(s@, at as int),
{
    let a: u64 = read_u16(s, at) as u64;
    let b: u64 = read_u16(s, at + 2) as u64;
    let c: u64 = read_u16(s, at + 4) as u64;
    let d: u64 = read_u16(s, at + 6) as u64;
    a + 0x1_0000 * b + 0x1_0000_0000 * c + 0x1_0000_0000_0000 * d
}

/// Writes `v` little-endian at `at`.
pub fn write_u64(s: &mut [u8], at: usize, v: u64)
    requires
        at + 8 <= old(s).len(),
    ensures
        final(s)@ == put_u64(old(s)@, at as int, v as int),
{
    write_u16(s, at, (v % 0x1_0000) as u16);
    write_u16(s, at + 2, ((v / 0x1_0000) % 0x1_0000) as u16);
    write_u16(s, at + 4, ((v / 0x1_0000_0000) % 0x1_0000) as u16);
    write_u16(s, at + 6, (v / 0x1_0000_0000_0000) as u16);
}

/// Copies `data` over the bytes of `s` from `at` on.
pub fn write_bytes(s: &mut [u8], at: usize, data: &[u8])
    requires
        at + data.len() <= old(s).len(),
    ensures
        final(s)@ == splice(old(s)@, at as int, data@),
{
    let n: usize = data.len();
    let mut i: usize = 0;
    while i < n
        invariant
            i <= n,
            n == data@.len(),
            s.len() == old(s).len(),
            at + n <= s.len(),
            s@ == splice(old(s)@, at as int, data@.subrange(0, i as int)),
        decreases n - i,
    {
        s[at + i] = data[i];
        assert(s@ =~= splice(old(s)@, at as int, data@.subrange(0, i + 1)));
        i = i + 1;
    }
    assert(data@.subrange(0, n as int) =~= data@);
}

} // verus!
