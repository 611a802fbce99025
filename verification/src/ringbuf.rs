//! The perf ring buffer protocol: a metadata page holding the head and tail
//! counters and the place of the data area, followed by a data area whose
//! size is a power of two and in which records wrap around.
//!
//! The pages are plain bytes here. Readers take them as a slice; the
//! in-process ring buffer owns its pages, and its writer takes the buffer
//! by mutable reference.

use vstd::prelude::*;
use vstd::bytes::*;
use vstd::arithmetic::power2::pow2;
use crate::abi::{
    Header, le16_at, le32_at, le64_at, zeros, spec_record_bytes, spec_align_to_perf_record, align_to_perf_record,
    PERF_RECORD_LOST, MAX_RECORD_PAYLOAD,
};
use crate::symbols::{is_next_power_of_two, next_power_of_two};

verus! {

/// Byte offset of the head counter in the metadata page.
pub const RING_HEAD_FIELD: usize = 1024;
/// Byte offset of the tail counter in the metadata page.
pub const RING_TAIL_FIELD: usize = 1032;
/// Byte offset of the data area's offset in the metadata page.
pub const RING_DATA_OFFSET_FIELD: usize = 1040;
/// Byte offset of the data area's size in the metadata page.
pub const RING_DATA_SIZE_FIELD: usize = 1048;
/// Bytes of metadata that the protocol reads.
pub const RING_META_LEN: usize = 1056;

/// Errors of reading a ring.
#[derive(Debug, PartialEq, Eq, Structural, Clone, Copy)]
pub enum RingBufError {
    /// The record header at the cursor runs past the end of the data area.
    HeaderTruncated,
    /// The record's size reaches further than one wrap of the data area.
    RecordOverrun,
    /// The ring buffer has not been opened.
    NotOpen,
}

/// `n` is a power of two that fits in 64 bits.
pub open spec fn is_ring_size(n: int) -> bool {
    exists|k: nat| k < 64 && n == #[trigger] pow2(k)
}

/// The byte at ring position `p` of a data area of `size` bytes at `off`.
pub open spec fn ring_byte(pages: Seq<u8>, off: int, size: int, p: int) -> u8 {
    pages[off + p % size]
}

/// The `n` bytes of the ring starting at position `from`.
pub open spec fn ring_window(pages: Seq<u8>, off: int, size: int, from: int, n: int) -> Seq<u8> {
    Seq::new(n as nat, |i: int| ring_byte(pages, off, size, from + i))
}

/// `s` with the eight bytes at `at` replaced by the little-endian `v`.
pub open spec fn put_le64(s: Seq<u8>, at: int, v: u64) -> Seq<u8> {
    s.subrange(0, at) + spec_u64_to_le_bytes(v) + s.subrange(at + 8, s.len() as int)
}

/// The metadata page describes a data area inside the pages whose size is a
/// power of two.
pub open spec fn ring_layout_ok(pages: Seq<u8>) -> bool {
    &&& pages.len() >= RING_META_LEN
    &&& is_ring_size(le64_at(pages, RING_DATA_SIZE_FIELD as int) as int)
    &&& le64_at(pages, RING_DATA_OFFSET_FIELD as int) + le64_at(pages, RING_DATA_SIZE_FIELD as int) <= pages.len()
}

/// A mask of the low bits of a power of two is the remainder by it.
proof fn lemma_mask_is_mod(x: u64, size: u64)
    requires
        is_ring_size(size as int),
    ensures
        x & ((size - 1) as u64) == x % size,
        size > 0,
{
    let k = choose|k: nat| k < 64 && size == #[trigger] pow2(k);
    vstd::bits::lemma_u64_low_bits_mask_is_mod(x, k);
    vstd::bits::lemma_u64_pow2_no_overflow(k);
}

/// The little-endian `u64` at `at`.
fn read_le64(s: &[u8], at: usize) -> (v: u64)
    requires
        at + 8 <= s@.len(),
    ensures
        v == le64_at(s@, at as int),
{
    let n = s.len();
    assert(at + 8 <= n);
    u64_from_le_bytes(&s[at..at + 8])
}

/// A counter written at `at` reads back as written, and no other byte
/// changes: after `end_reading` moves the tail to a cursor, the next
/// `begin_reading` starts at that cursor.
pub proof fn lemma_put_le64_reads_back(s: Seq<u8>, at: int, v: u64)
    requires
        0 <= at,
        at + 8 <= s.len(),
    ensures
        le64_at(put_le64(s, at, v), at) == v,
        put_le64(s, at, v).len() == s.len(),
        forall|j: int| 0 <= j < s.len() && !(at <= j < at + 8) ==> #[trigger] put_le64(s, at, v)[j] == s[j],
        forall|j: int| at <= j < at + 8 ==> #[trigger] put_le64(s, at, v)[j] == spec_u64_to_le_bytes(v)[j - at],
{
    lemma_auto_spec_u64_to_from_le_bytes();
    assert(put_le64(s, at, v).subrange(at, at + 8) =~= spec_u64_to_le_bytes(v));
}

/// Writes the little-endian `v` at `at`.
fn store_le64(pages: &mut [u8], at: usize, v: u64)
    requires
        at + 8 <= old(pages)@.len(),
    ensures
        final(pages)@ == put_le64(old(pages)@, at as int, v),
{
    let b = u64_to_le_bytes(v);
    let n = pages.len();
    let ghost before = pages@;
    let mut i: usize = 0;
    while i < 8
        invariant
            i <= 8,
            b@ == spec_u64_to_le_bytes(v),
            b@.len() == 8,
            pages@.len() == before.len(),
            at + 8 <= before.len(),
            n == before.len(),
            forall|j: int| 0 <= j < before.len() && !(at <= j < at + i) ==> #[trigger] pages@[j] == before[j],
            forall|j: int| 0 <= j < i ==> #[trigger] pages@[at + j] == b@[j],
        decreases 8 - i,
    {
        pages[at + i] = b[i];
        i = i + 1;
    }
    proof {
        let put = put_le64(before, at as int, v);
        assert(put.len() == before.len());
        assert forall|j: int| 0 <= j < before.len() implies #[trigger] pages@[j] == put[j] by {
            if at <= j < at + 8 {
                assert(pages@[at + (j - at)] == b@[j - at]);
            }
        }
        assert(pages@ =~= put);
    }
}

/// `pages` with `bytes` written into the ring from position `from` on.
pub open spec fn ring_put(pages: Seq<u8>, off: int, size: int, from: int, bytes: Seq<u8>) -> Seq<u8> {
    Seq::new(
        pages.len(),
        |j: int|
            if off <= j < off + size && (j - off - from) % size < bytes.len() {
                bytes[(j - off - from) % size]
            } else {
                pages[j]
            },
    )
}

/// Within one lap, the place `r` of the data area is `i` bytes past
/// position `from` exactly when `r` is where position `from + i` lands.
proof fn lemma_ring_offset(r: int, from: int, i: int, size: int)
    requires
        0 < size,
        0 <= r < size,
        0 <= i < size,
    ensures
        ((r - from) % size == i) <==> (r == (from + i) % size),
{
    vstd::arithmetic::div_mod::lemma_mod_equivalence(r - from, i, size);
    vstd::arithmetic::div_mod::lemma_small_mod(i as nat, size as nat);
    vstd::arithmetic::div_mod::lemma_mod_equivalence(r, from + i, size);
    vstd::arithmetic::div_mod::lemma_small_mod(r as nat, size as nat);
    assert((r - from) - i == r - (from + i));
}

/// A value strictly between `-size` and `0` is no multiple of `size`.
proof fn lemma_mod_negative_nonzero(x: int, size: int)
    requires
        0 < size,
        -size < x < 0,
    ensures
        x % size == x + size,
        x % size != 0,
{
    vstd::arithmetic::div_mod::lemma_mod_add_multiples_vanish(x, size);
    vstd::arithmetic::div_mod::lemma_small_mod((size + x) as nat, size as nat);
}

/// The place of position `p` in the data area lies in it.
proof fn lemma_ring_place(p: int, size: int)
    requires
        0 < size,
    ensures
        0 <= p % size < size,
{
    vstd::arithmetic::div_mod::lemma_mod_bound(p, size);
}

/// After writing `bytes` at `from`, the ring holds them there, and every
/// position of the lap before `from` that they do not reach keeps its byte.
pub proof fn lemma_ring_put_window(pages: Seq<u8>, off: int, size: int, from: int, bytes: Seq<u8>)
    requires
        0 < size,
        0 <= off,
        off + size <= pages.len(),
        bytes.len() <= size,
    ensures
        ring_window(ring_put(pages, off, size, from, bytes), off, size, from, bytes.len() as int) == bytes,
        forall|p: int|
            from + bytes.len() - size <= p < from ==> #[trigger] ring_byte(ring_put(pages, off, size, from, bytes), off, size, p)
                == ring_byte(pages, off, size, p),
        ring_put(pages, off, size, from, bytes).len() == pages.len(),
        forall|j: int| 0 <= j < pages.len() && !(off <= j < off + size) ==> #[trigger] ring_put(pages, off, size, from, bytes)[j] == pages[j],
{
    let put = ring_put(pages, off, size, from, bytes);
    let n = bytes.len() as int;
    assert forall|i: int| 0 <= i < n implies #[trigger] ring_window(put, off, size, from, n)[i] == bytes[i] by {
        let r = (from + i) % size;
        lemma_ring_place(from + i, size);
        lemma_ring_offset(r, from, i, size);
        assert(off + r - off - from == r - from);
    }
    assert(ring_window(put, off, size, from, n) =~= bytes);
    assert forall|p: int| from + n - size <= p < from implies #[trigger] ring_byte(put, off, size, p) == ring_byte(pages, off, size, p) by {
        let r = p % size;
        lemma_ring_place(p, size);
        let k = (r - from) % size;
        lemma_ring_place(r - from, size);
        if k < n {
            lemma_ring_offset(r, from, k, size);
            vstd::arithmetic::div_mod::lemma_mod_equivalence(p, from + k, size);
            lemma_mod_negative_nonzero(p - (from + k), size);
        }
        assert(off + r - off - from == r - from);
    }
}

/// Writing `a` and then `b` right after it is writing `a + b`.
pub proof fn lemma_ring_put_concat(pages: Seq<u8>, off: int, size: int, from: int, a: Seq<u8>, b: Seq<u8>)
    requires
        0 < size,
        a.len() + b.len() <= size,
    ensures
        ring_put(ring_put(pages, off, size, from, a), off, size, from + a.len(), b) == ring_put(pages, off, size, from, a + b),
{
    let first = ring_put(pages, off, size, from, a);
    let both = ring_put(first, off, size, from + a.len(), b);
    let whole = ring_put(pages, off, size, from, a + b);
    let la = a.len() as int;
    if la == size {
        assert(a + b =~= a);
    }
    assert forall|j: int| 0 <= j < pages.len() implies #[trigger] both[j] == whole[j] by {
        if off <= j < off + size && la < size {
            let k = (j - off - from) % size;
            let k2 = (j - off - (from + la)) % size;
            lemma_ring_place(j - off - from, size);
            vstd::arithmetic::div_mod::lemma_sub_mod_noop(j - off - from, la, size);
            vstd::arithmetic::div_mod::lemma_small_mod(la as nat, size as nat);
            assert(j - off - (from + la) == (j - off - from) - la);
            if k >= la {
                vstd::arithmetic::div_mod::lemma_small_mod((k - la) as nat, size as nat);
                assert(k2 == k - la);
            } else {
                lemma_mod_negative_nonzero(k - la, size);
                assert(k2 == k - la + size);
            }
        }
    }
    assert(both =~= whole);
}

/// A read position in a ring: from `start` up to `end`.
pub struct CpuRingCursor {
    start: u64,
    end: u64,
}

impl Default for CpuRingCursor {
    fn default() -> (c: Self)
        ensures
            c.pos() == 0,
            c.limit() == 0,
    {
        CpuRingCursor { start: 0, end: 0 }
    }
}

impl CpuRingCursor {
    /// Where the next record starts.
    pub closed spec fn pos(&self) -> u64 {
        self.start
    }

    /// Where the readable data ends.
    pub closed spec fn limit(&self) -> u64 {
        self.end
    }

    pub fn set(&mut self, start: u64, end: u64)
        ensures
            final(self).pos() == start,
            final(self).limit() == end,
    {
        self.start = start;
        self.end = end;
    }

    pub fn advance(&mut self, len: u16)
        requires
            old(self).pos() + len <= u64::MAX,
        ensures
            final(self).pos() == old(self).pos() + len,
            final(self).limit() == old(self).limit(),
    {
        self.start = self.start + len as u64;
    }

    pub fn more(&self) -> (r: bool)
        ensures
            r == (self.pos() < self.limit()),
    {
        self.start < self.end
    }

    pub fn start(&self) -> (r: u64)
        ensures
            r == self.pos(),
    {
        self.start
    }

    pub fn end(&self) -> (r: u64)
        ensures
            r == self.limit(),
    {
        self.end
    }
}

/// Mathematical form of a `CpuRingReader`.
pub struct RingReaderView {
    pub pages_len: nat,
    pub data_offset: int,
    pub data_size: int,
    pub owned: bool,
}

/// Reads the records of a ring whose pages it is handed.
pub struct CpuRingReader {
    pages_len: usize,
    data_offset: u64,
    data_size: u64,
    data_mask: u64,
    owned: bool,
}

impl View for CpuRingReader {
    type V = RingReaderView;

    closed spec fn view(&self) -> RingReaderView {
        RingReaderView {
            pages_len: self.pages_len as nat,
            data_offset: self.data_offset as int,
            data_size: self.data_size as int,
            owned: self.owned,
        }
    }
}

/// The result of reading the record at position `start`: its bytes, or why
/// it cannot be read.
pub open spec fn spec_read(pages: Seq<u8>, off: int, size: int, start: int) -> Result<Seq<u8>, RingBufError> {
    let pos = start % size;
    if pos + 8 > size {
        Err(RingBufError::HeaderTruncated)
    } else {
        let len = le16_at(pages.subrange(off, off + size), pos + 6) as int;
        if pos + len > 2 * size {
            Err(RingBufError::RecordOverrun)
        } else {
            Ok(ring_window(pages, off, size, start, len))
        }
    }
}

impl CpuRingReader {
    /// The reader's fields agree with each other and with a data area that
    /// lies inside the pages.
    pub closed spec fn wf(&self) -> bool {
        &&& is_ring_size(self.data_size as int)
        &&& self.data_mask == self.data_size - 1
        &&& self.data_offset + self.data_size <= self.pages_len
    }

    /// What a well-formed reader guarantees of its data area: its size is
    /// a power of two, so not empty, and it lies inside the pages.
    pub proof fn lemma_wf_data_area(&self)
        requires
            self.wf(),
        ensures
            is_ring_size(self@.data_size),
            self@.data_size > 0,
            self@.data_offset >= 0,
            self@.data_offset + self@.data_size <= self@.pages_len,
    {
        let k = choose|k: nat| k < 64 && self@.data_size == #[trigger] pow2(k);
        vstd::arithmetic::power2::lemma_pow2_pos(k);
    }

    /// A reader of the pages, which the caller maps and unmaps.
    pub fn new(pages: &[u8]) -> (r: Self)
        requires
            ring_layout_ok(pages@),
        ensures
            r.wf(),
            r@ == (RingReaderView {
                pages_len: pages@.len(),
                data_offset: le64_at(pages@, RING_DATA_OFFSET_FIELD as int) as int,
                data_size: le64_at(pages@, RING_DATA_SIZE_FIELD as int) as int,
                owned: true,
            }),
    {
        let data_offset = read_le64(pages, RING_DATA_OFFSET_FIELD);
        let data_size = read_le64(pages, RING_DATA_SIZE_FIELD);
        proof {
            lemma_mask_is_mod(0, data_size);
        }
        CpuRingReader { pages_len: pages.len(), data_offset, data_size, data_mask: data_size - 1, owned: true }
    }

    /// A reader of pages that belong to someone else.
    pub fn new_unowned(pages: &[u8]) -> (r: Self)
        requires
            ring_layout_ok(pages@),
        ensures
            r.wf(),
            r@ == (RingReaderView {
                pages_len: pages@.len(),
                data_offset: le64_at(pages@, RING_DATA_OFFSET_FIELD as int) as int,
                data_size: le64_at(pages@, RING_DATA_SIZE_FIELD as int) as int,
                owned: false,
            }),
    {
        let mut reader = Self::new(pages);
        reader.owned = false;
        reader
    }

    /// Whether the pages are the reader's to unmap.
    pub fn is_owned(&self) -> (r: bool)
        ensures
            r == self@.owned,
    {
        self.owned
    }

    fn head(&self, pages: &[u8]) -> (r: u64)
        requires
            self.wf(),
            pages@.len() == self@.pages_len,
            pages@.len() >= RING_META_LEN,
        ensures
            r == le64_at(pages@, RING_HEAD_FIELD as int),
    {
        read_le64(pages, RING_HEAD_FIELD)
    }

    fn tail(&self, pages: &[u8]) -> (r: u64)
        requires
            self.wf(),
            pages@.len() == self@.pages_len,
            pages@.len() >= RING_META_LEN,
        ensures
            r == le64_at(pages@, RING_TAIL_FIELD as int),
    {
        read_le64(pages, RING_TAIL_FIELD)
    }

    /// Points the cursor at the data between the tail and the head.
    pub fn begin_reading(&self, pages: &[u8], cursor: &mut CpuRingCursor)
        requires
            self.wf(),
            pages@.len() == self@.pages_len,
            pages@.len() >= RING_META_LEN,
        ensures
            final(cursor).pos() == le64_at(pages@, RING_TAIL_FIELD as int),
            final(cursor).limit() == le64_at(pages@, RING_HEAD_FIELD as int),
    {
        let head = self.head(pages);
        let tail = self.tail(pages);
        cursor.set(tail, head);
    }

    /// The data area of the pages.
    pub fn data_slice<'a>(&self, pages: &'a [u8]) -> (r: &'a [u8])
        requires
            self.wf(),
            pages@.len() == self@.pages_len,
        ensures
            r@ == pages@.subrange(self@.data_offset, self@.data_offset + self@.data_size),
    {
        let data_start = self.data_offset as usize;
        let data_end = data_start + self.data_size as usize;
        &pages[data_start..data_end]
    }

    /// The header of the record at the cursor; `start` receives its place
    /// in the data area.
    pub fn peek_header<'a>(&self, cursor: &CpuRingCursor, data_slice: &'a [u8], start: &mut usize) -> (r: Result<
        Header<'a>,
        RingBufError,
    >)
        requires
            self.wf(),
            data_slice@.len() == self@.data_size,
        ensures
            *final(start) == cursor.pos() as int % self@.data_size,
            r is Ok <==> *final(start) + 8 <= self@.data_size,
            r matches Ok(h) ==> h.entry_type == le32_at(data_slice@, *final(start) as int)
                && h.misc == le16_at(data_slice@, *final(start) + 4)
                && h.size == le16_at(data_slice@, *final(start) + 6)
                && h.data@.len() == 0,
            r matches Err(e) ==> e == RingBufError::HeaderTruncated,
    {
        proof {
            lemma_mask_is_mod(cursor.pos(), self.data_size);
        }
        let s = (cursor.start() & self.data_mask) as usize;
        *start = s;
        if data_slice.len() < 8 || s > data_slice.len() - 8 {
            return Err(RingBufError::HeaderTruncated);
        }
        let header_slice = &data_slice[s..s + 8];
        let ghost d = data_slice@;
        proof {
            assert(header_slice@.subrange(0, 4) =~= d.subrange(s as int, s + 4));
            assert(header_slice@.subrange(4, 6) =~= d.subrange(s + 4, s + 6));
            assert(header_slice@.subrange(6, 8) =~= d.subrange(s + 6, s + 8));
        }
        match Header::from_slice(header_slice) {
            Ok(header) => Ok(header),
            Err(_) => Err(RingBufError::HeaderTruncated),
        }
    }

    /// The eight bytes at `offset` past the cursor.
    pub fn peek_u64(&self, pages: &[u8], cursor: &CpuRingCursor, offset: u64) -> (r: u64)
        requires
            self.wf(),
            pages@.len() == self@.pages_len,
            cursor.pos() + offset <= u64::MAX,
            (cursor.pos() + offset) as int % self@.data_size + 8 <= self@.data_size,
        ensures
            r == le64_at(
                pages@.subrange(self@.data_offset, self@.data_offset + self@.data_size),
                (cursor.pos() + offset) as int % self@.data_size,
            ),
    {
        let p = cursor.start() + offset;
        proof {
            lemma_mask_is_mod(p, self.data_size);
        }
        let start = (p & self.data_mask) as usize;
        let data_slice = self.data_slice(pages);
        read_le64(data_slice, start)
    }

    /// The record at the cursor, which then moves past it. A record that
    /// wraps around the end of the data area is copied into `temp`.
    pub fn read<'a>(&self, pages: &'a [u8], cursor: &mut CpuRingCursor, temp: &'a mut Vec<u8>) -> (r: Result<
        &'a [u8],
        RingBufError,
    >)
        requires
            self.wf(),
            pages@.len() == self@.pages_len,
            old(cursor).pos() + 0xffff <= u64::MAX,
        ensures
            r is Ok <==> spec_read(pages@, self@.data_offset, self@.data_size, old(cursor).pos() as int) is Ok,
            r matches Ok(bytes) ==> spec_read(pages@, self@.data_offset, self@.data_size, old(cursor).pos() as int)
                == Ok::<Seq<u8>, RingBufError>(bytes@),
            r matches Ok(bytes) ==> final(cursor).pos() == old(cursor).pos() + bytes@.len(),
            r matches Err(e) ==> spec_read(pages@, self@.data_offset, self@.data_size, old(cursor).pos() as int)
                == Err::<Seq<u8>, RingBufError>(e) && final(cursor).pos() == old(cursor).pos(),
            final(cursor).limit() == old(cursor).limit(),
    {
        let ghost off = self@.data_offset;
        let ghost size = self@.data_size;
        let ghost start = cursor.pos() as int;
        let data_slice = self.data_slice(pages);
        let mut header_start: usize = 0;
        let header = match self.peek_header(cursor, data_slice, &mut header_start) {
            Ok(h) => h,
            Err(e) => {
                return Err(e);
            },
        };
        let size_exec = self.data_size as usize;
        let data_size = header.size as usize;
        let ghost len = data_size as int;
        let ghost pos = header_start as int;
        assert(pos == start % size);
        let first = size_exec - header_start;
        if data_size > first && data_size - first > size_exec {
            return Err(RingBufError::RecordOverrun);
        }
        cursor.advance(header.size);
        if data_size <= first {
            let out = &data_slice[header_start..header_start + data_size];
            proof {
                assert forall|i: int| 0 <= i < len implies #[trigger] out@[i] == ring_byte(pages@, off, size, start + i) by {
                    vstd::arithmetic::div_mod::lemma_add_mod_noop(start, i, size);
                    vstd::arithmetic::div_mod::lemma_small_mod(i as nat, size as nat);
                    vstd::arithmetic::div_mod::lemma_small_mod((pos + i) as nat, size as nat);
                }
                assert(out@ =~= ring_window(pages@, off, size, start, len));
            }
            Ok(out)
        } else {
            temp.clear();
            temp.extend_from_slice(&data_slice[header_start..size_exec]);
            let remaining = data_size - first;
            temp.extend_from_slice(&data_slice[0..remaining]);
            proof {
                assert forall|i: int| 0 <= i < len implies #[trigger] temp@[i] == ring_byte(pages@, off, size, start + i) by {
                    vstd::arithmetic::div_mod::lemma_add_mod_noop(start, i, size);
                    if i < size {
                        vstd::arithmetic::div_mod::lemma_small_mod(i as nat, size as nat);
                    } else {
                        vstd::arithmetic::div_mod::lemma_mod_sub_multiples_vanish(i, size);
                        vstd::arithmetic::div_mod::lemma_small_mod((i - size) as nat, size as nat);
                    }
                    if pos + i < size {
                        vstd::arithmetic::div_mod::lemma_small_mod((pos + i) as nat, size as nat);
                    } else {
                        vstd::arithmetic::div_mod::lemma_mod_sub_multiples_vanish(pos + i, size);
                        vstd::arithmetic::div_mod::lemma_small_mod((pos + i - size) as nat, size as nat);
                    }
                }
                assert(temp@ =~= ring_window(pages@, off, size, start, len));
            }
            Ok(temp.as_slice())
        }
    }

    /// Hands the data up to the cursor back to the writer by moving the tail.
    pub fn end_reading(&mut self, pages: &mut [u8], cursor: &CpuRingCursor)
        requires
            old(self).wf(),
            old(pages)@.len() == old(self)@.pages_len,
            old(pages)@.len() >= RING_META_LEN,
        ensures
            final(self)@ == old(self)@,
            final(self).wf(),
            final(pages)@ == put_le64(old(pages)@, RING_TAIL_FIELD as int, cursor.pos()),
    {
        store_le64(pages, RING_TAIL_FIELD, cursor.start());
    }
}



/// The pages of a fresh in-process ring: zeros, with the place and size of
/// the data area in the metadata page.
pub open spec fn fresh_ring_pages(page_size: int, data_size: int) -> Seq<u8> {
    put_le64(
        put_le64(zeros(page_size + data_size), RING_DATA_OFFSET_FIELD as int, page_size as u64),
        RING_DATA_SIZE_FIELD as int,
        data_size as u64,
    )
}

/// A power of two of at least eight bytes is a multiple of eight.
proof fn lemma_ring_size_multiple_of_8(n: int)
    requires
        is_ring_size(n),
        n >= 8,
    ensures
        n % 8 == 0,
{
    let k = choose|k: nat| k < 64 && n == #[trigger] pow2(k);
    vstd::arithmetic::power2::lemma2_to64();
    if k < 3 {
        if k < 2 {
            vstd::arithmetic::power2::lemma_pow2_strictly_increases(k, 2);
        }
        assert(false);
    }
    vstd::arithmetic::power2::lemma_pow2_adds(3, (k - 3) as nat);
    assert(3 + (k - 3) as nat == k);
    vstd::arithmetic::div_mod::lemma_mod_multiples_basic(pow2((k - 3) as nat) as int, 8);
}

/// Whole pages of a power-of-two count and size make a data area whose
/// size is a power of two and a multiple of eight.
proof fn lemma_ring_data_size(n: u64, p: u64, page_size: int, data_size: int)
    requires
        is_next_power_of_two(n, p),
        is_ring_size(page_size),
        page_size >= 8,
        data_size == p * page_size,
        data_size <= u64::MAX,
    ensures
        is_ring_size(data_size),
        data_size % 8 == 0,
        data_size % page_size == 0,
        data_size / page_size == p,
{
    let a = choose|k: nat| k < 64 && p == #[trigger] pow2(k) && p >= n && (k == 0 || pow2((k - 1) as nat) < n);
    let b = choose|k: nat| k < 64 && page_size == #[trigger] pow2(k);
    vstd::arithmetic::power2::lemma_pow2_adds(a, b);
    vstd::arithmetic::power2::lemma2_to64();
    vstd::arithmetic::power2::lemma2_to64_rest();
    if a + b >= 64 {
        if a + b > 64 {
            vstd::arithmetic::power2::lemma_pow2_strictly_increases(64, a + b);
        }
        assert(false);
    }
    assert(data_size == pow2(a + b));
    lemma_ring_size_multiple_of_8(data_size);
    vstd::arithmetic::div_mod::lemma_mod_multiples_basic(p as int, page_size);
    vstd::arithmetic::div_mod::lemma_div_multiples_vanish(p as int, page_size);
    assert(page_size * p == p * page_size) by (nonlinear_arith);
}

/// Mathematical form of an `InProcessRingBuf`.
pub struct InProcessView {
    pub data: Seq<u8>,
    pub data_offset: int,
    pub data_size: int,
    pub head: int,
}

/// A ring buffer in the process's own memory, laid out as the kernel lays
/// out its rings, so that a `CpuRingReader` reads it.
pub struct InProcessRingBuf {
    data: Vec<u8>,
    data_offset: usize,
    data_size: usize,
    data_mask: usize,
    head: usize,
}

impl View for InProcessRingBuf {
    type V = InProcessView;

    closed spec fn view(&self) -> InProcessView {
        InProcessView {
            data: self.data@,
            data_offset: self.data_offset as int,
            data_size: self.data_size as int,
            head: self.head as int,
        }
    }
}

impl InProcessRingBuf {
    /// The data area follows the metadata page and its size is a power of
    /// two that is a multiple of eight.
    pub closed spec fn wf(&self) -> bool {
        &&& is_ring_size(self.data_size as int)
        &&& self.data_size % 8 == 0
        &&& self.data_mask == self.data_size - 1
        &&& self.data@.len() == self.data_offset + self.data_size
        &&& self.data_offset + self.data_size <= usize::MAX
        &&& self.data_offset >= RING_META_LEN
        &&& self.head % 8 == 0
    }

    /// A ring whose data area is `data_pages` pages, rounded up to a power
    /// of two, after one metadata page.
    pub fn new(data_pages: usize, page_size: usize) -> (r: Self)
        requires
            is_ring_size(page_size as int),
            page_size >= RING_META_LEN,
            data_pages <= 0x8000_0000_0000_0000,
            forall|p: u64| #[trigger] is_next_power_of_two(data_pages as u64, p) ==> (p + 1) * page_size <= usize::MAX,
        ensures
            r.wf(),
            r@.data_offset == page_size,
            r@.data_size % (page_size as int) == 0,
            is_next_power_of_two(data_pages as u64, (r@.data_size / (page_size as int)) as u64),
            r@.data == fresh_ring_pages(page_size as int, r@.data_size),
            r@.head == 0,
            ring_layout_ok(r@.data),
            le64_at(r@.data, RING_DATA_OFFSET_FIELD as int) == r@.data_offset,
            le64_at(r@.data, RING_DATA_SIZE_FIELD as int) == r@.data_size,
    {
        let p = next_power_of_two(data_pages as u64);
        assert(is_next_power_of_two(data_pages as u64, p));
        assert((p + 1) * page_size <= usize::MAX);
        assert(p * page_size + page_size <= usize::MAX && p <= usize::MAX) by (nonlinear_arith)
            requires
                (p + 1) * page_size <= usize::MAX,
                page_size >= 1,
        ;
        let pages = p as usize;
        let data_size = pages * page_size;
        let total = page_size + data_size;
        assert(total == (p + 1) * page_size) by (nonlinear_arith)
            requires
                total == page_size + data_size,
                data_size == p * page_size,
        ;
        proof {
            lemma_ring_data_size(data_pages as u64, p, page_size as int, data_size as int);
            lemma_mask_is_mod(0, data_size as u64);
        }
        let mut data: Vec<u8> = Vec::new();
        let mut i: usize = 0;
        while i < total
            invariant
                i <= total,
                data@ == zeros(i as int),
            decreases total - i,
        {
            data.push(0u8);
            i = i + 1;
            assert(data@ =~= zeros(i as int));
        }
        let ghost z = data@;
        store_le64(data.as_mut_slice(), RING_DATA_OFFSET_FIELD, page_size as u64);
        let ghost z1 = data@;
        store_le64(data.as_mut_slice(), RING_DATA_SIZE_FIELD, data_size as u64);
        proof {
            lemma_put_le64_reads_back(z, RING_DATA_OFFSET_FIELD as int, page_size as u64);
            lemma_put_le64_reads_back(z1, RING_DATA_SIZE_FIELD as int, data_size as u64);
            assert(data@.subrange(RING_DATA_OFFSET_FIELD as int, RING_DATA_OFFSET_FIELD + 8) =~= z1.subrange(
                RING_DATA_OFFSET_FIELD as int,
                RING_DATA_OFFSET_FIELD + 8,
            ));
        }
        InProcessRingBuf { data, data_offset: page_size, data_size, data_mask: data_size - 1, head: 0 }
    }

    /// A reader of this ring's pages; it does not own them.
    pub fn create_reader(&self) -> (r: CpuRingReader)
        requires
            self.wf(),
        ensures
            r.wf(),
            r@ == (RingReaderView {
                pages_len: self@.data.len(),
                data_offset: self@.data_offset,
                data_size: self@.data_size,
                owned: false,
            }),
    {
        CpuRingReader {
            pages_len: self.data.len(),
            data_offset: self.data_offset as u64,
            data_size: self.data_size as u64,
            data_mask: self.data_mask as u64,
            owned: false,
        }
    }

    /// A writer that starts at this ring's head.
    pub fn writer(&self) -> (w: InProcessRingBufWriter)
        requires
            self.wf(),
        ensures
            w.wf(),
            w.fits(self@),
            w@ == (WriterView {
                data_offset: self@.data_offset,
                data_size: self@.data_size,
                head: self@.head,
                lost_count: 0,
            }),
    {
        InProcessRingBufWriter {
            data_offset: self.data_offset,
            data_size: self.data_size,
            data_mask: self.data_mask,
            head: self.head,
            lost_count: 0,
        }
    }

    /// The ring's pages.
    pub fn pages(&self) -> (r: &[u8])
        ensures
            r@ == self@.data,
    {
        self.data.as_slice()
    }

    /// Moves the tail to the cursor through `reader`, handing the data
    /// read so far back to the writer.
    pub fn end_reading(&mut self, reader: &mut CpuRingReader, cursor: &CpuRingCursor)
        requires
            old(self).wf(),
            old(reader).wf(),
            old(reader)@.pages_len == old(self)@.data.len(),
        ensures
            final(self)@ == (InProcessView {
                data: put_le64(old(self)@.data, RING_TAIL_FIELD as int, cursor.pos()),
                ..old(self)@
            }),
            final(self).wf(),
            final(reader)@ == old(reader)@,
            final(reader).wf(),
    {
        let ghost before = self.data@;
        reader.end_reading(self.data.as_mut_slice(), cursor);
        proof {
            lemma_put_le64_reads_back(before, RING_TAIL_FIELD as int, cursor.pos());
        }
    }
}

/// Mathematical form of an `InProcessRingBufWriter`.
pub struct WriterView {
    pub data_offset: int,
    pub data_size: int,
    pub head: int,
    pub lost_count: u64,
}

/// Appends records to an in-process ring, counting those it had to drop.
pub struct InProcessRingBufWriter {
    data_offset: usize,
    data_size: usize,
    data_mask: usize,
    head: usize,
    lost_count: u64,
}

impl View for InProcessRingBufWriter {
    type V = WriterView;

    closed spec fn view(&self) -> WriterView {
        WriterView {
            data_offset: self.data_offset as int,
            data_size: self.data_size as int,
            head: self.head as int,
            lost_count: self.lost_count,
        }
    }
}

/// Bytes of a record that reports lost records: header, id, count.
pub const LOST_RECORD_SIZE: usize = 24;

/// How long a write waits for a reader to free room before it drops its
/// record, in milliseconds.
pub const WAIT_TIMEOUT_MS: u64 = 100;

/// How long to wait between two attempts of a write, in milliseconds.
pub const WAIT_POLL_MS: u64 = 10;

/// What one step of a write did.
#[derive(Debug, Clone, Copy, PartialEq, Eq, Structural)]
pub enum WriteStep {
    /// The record was written.
    Written,
    /// The record was dropped and counted as lost.
    Dropped,
    /// There is no room yet: wait `WAIT_POLL_MS` and try again.
    Wait,
}

/// The tail counter that the reader publishes.
pub open spec fn ring_tail(pages: Seq<u8>) -> int {
    le64_at(pages, RING_TAIL_FIELD as int) as int
}

/// The reader's tail is at most one lap behind the writer's head.
pub open spec fn tail_ok(w: WriterView, pages: Seq<u8>) -> bool {
    ring_tail(pages) <= w.head <= ring_tail(pages) + w.data_size
}

/// Bytes the writer may still write before it reaches the tail.
pub open spec fn writer_available(w: WriterView, pages: Seq<u8>) -> int {
    w.data_size - (w.head - ring_tail(pages))
}

/// `record` zero-padded to the record alignment.
pub open spec fn padded(record: Seq<u8>) -> Seq<u8> {
    record + zeros(spec_align_to_perf_record(record.len() as int) - record.len())
}

/// The record that reports `count` lost records (with id 0).
pub open spec fn lost_record(count: u64) -> Seq<u8> {
    spec_record_bytes(PERF_RECORD_LOST, 0, spec_u64_to_le_bytes(0) + spec_u64_to_le_bytes(count))
}

/// What an accepted write of `record` appends: the report of the records
/// lost so far, if any, then the padded record.
pub open spec fn write_bytes(lost: u64, record: Seq<u8>) -> Seq<u8> {
    if lost > 0 {
        lost_record(lost) + padded(record)
    } else {
        padded(record)
    }
}

/// A write of `len` bytes is accepted: its padded size fits the data area
/// and the room before the tail, with the pending report of lost records.
pub open spec fn write_accepted(w: WriterView, pages: Seq<u8>, len: int) -> bool {
    let aligned = spec_align_to_perf_record(len);
    &&& aligned <= w.data_size
    &&& writer_available(w, pages) >= aligned + (if w.lost_count > 0 { LOST_RECORD_SIZE as int } else { 0 })
}

/// The pages after `bytes` were written at the writer's head and the new
/// head was published.
pub open spec fn ring_after_write(pages: Seq<u8>, w: WriterView, bytes: Seq<u8>) -> Seq<u8> {
    put_le64(
        ring_put(pages, w.data_offset, w.data_size, w.head, bytes),
        RING_HEAD_FIELD as int,
        (w.head + bytes.len()) as u64,
    )
}

proof fn lemma_lost_record_len(count: u64)
    ensures
        lost_record(count).len() == LOST_RECORD_SIZE,
        spec_align_to_perf_record(LOST_RECORD_SIZE as int) == LOST_RECORD_SIZE,
{
    lemma_auto_spec_u64_to_from_le_bytes();
    lemma_auto_spec_u32_to_from_le_bytes();
    lemma_auto_spec_u16_to_from_le_bytes();
}

/// Writing into the ring and writing a metadata field outside the data
/// area do not interfere.
proof fn lemma_put_le64_ring_put_commute(pages: Seq<u8>, at: int, v: u64, off: int, size: int, from: int, bytes: Seq<u8>)
    requires
        0 <= at,
        at + 8 <= off,
        0 <= size,
        off + size <= pages.len(),
    ensures
        ring_put(put_le64(pages, at, v), off, size, from, bytes) == put_le64(ring_put(pages, off, size, from, bytes), at, v),
{
    let a = ring_put(put_le64(pages, at, v), off, size, from, bytes);
    let r = ring_put(pages, off, size, from, bytes);
    let b = put_le64(r, at, v);
    lemma_put_le64_reads_back(pages, at, v);
    lemma_put_le64_reads_back(r, at, v);
    assert(a =~= b);
}

/// Writing at the head leaves the tail counter alone and publishes the
/// new head.
proof fn lemma_write_keeps_tail(pages: Seq<u8>, w: WriterView, bytes: Seq<u8>)
    requires
        w.data_offset >= RING_META_LEN,
        w.data_size > 0,
        w.data_offset + w.data_size == pages.len(),
        0 <= w.head,
        w.head + bytes.len() <= u64::MAX,
    ensures
        ring_tail(ring_after_write(pages, w, bytes)) == ring_tail(pages),
        ring_after_write(pages, w, bytes).len() == pages.len(),
        le64_at(ring_after_write(pages, w, bytes), RING_HEAD_FIELD as int) == w.head + bytes.len(),
{
    let put = ring_put(pages, w.data_offset, w.data_size, w.head, bytes);
    lemma_put_le64_reads_back(put, RING_HEAD_FIELD as int, (w.head + bytes.len()) as u64);
    let after = ring_after_write(pages, w, bytes);
    assert(after.subrange(RING_TAIL_FIELD as int, RING_TAIL_FIELD + 8) =~= pages.subrange(
        RING_TAIL_FIELD as int,
        RING_TAIL_FIELD + 8,
    ));
}

/// The second write of a field replaces the first.
proof fn lemma_put_le64_twice(pages: Seq<u8>, at: int, v1: u64, v2: u64)
    requires
        0 <= at,
        at + 8 <= pages.len(),
    ensures
        put_le64(put_le64(pages, at, v1), at, v2) == put_le64(pages, at, v2),
{
    lemma_auto_spec_u64_to_from_le_bytes();
    assert(put_le64(put_le64(pages, at, v1), at, v2) =~= put_le64(pages, at, v2));
}

/// Writing one more byte of `bytes` into the ring sets the place of the
/// next position.
proof fn lemma_ring_put_step(pages: Seq<u8>, off: int, size: int, from: int, bytes: Seq<u8>, i: int)
    requires
        0 < size,
        0 <= off,
        off + size <= pages.len(),
        0 <= i < bytes.len(),
        bytes.len() <= size,
    ensures
        ring_put(pages, off, size, from, bytes.take(i + 1)) == ring_put(pages, off, size, from, bytes.take(i)).update(
            off + (from + i) % size,
            bytes[i],
        ),
{
    let q = (from + i) % size;
    lemma_ring_place(from + i, size);
    let next = ring_put(pages, off, size, from, bytes.take(i + 1));
    let prev = ring_put(pages, off, size, from, bytes.take(i)).update(off + q, bytes[i]);
    assert forall|j: int| 0 <= j < pages.len() implies #[trigger] next[j] == prev[j] by {
        if off <= j < off + size {
            let k = (j - off - from) % size;
            lemma_ring_place(j - off - from, size);
            lemma_ring_offset(j - off, from, i, size);
            if k < i + 1 {
                lemma_ring_offset(j - off, from, k, size);
            }
        }
    }
    assert(next =~= prev);
}

/// The place of position `head + i` when the head's place is `write_pos`
/// and `room` bytes remain before the end of the data area.
proof fn lemma_wrap_pos(head: int, i: int, size: int, write_pos: int, room: int, pos: int)
    requires
        0 < size,
        0 <= i < size,
        write_pos == head % size,
        room == size - write_pos,
        pos == if i < room { write_pos + i } else { i - room },
    ensures
        pos == (head + i) % size,
{
    vstd::arithmetic::div_mod::lemma_add_mod_noop(head, i, size);
    vstd::arithmetic::div_mod::lemma_small_mod(i as nat, size as nat);
    lemma_ring_place(head, size);
    if i < room {
        vstd::arithmetic::div_mod::lemma_small_mod((write_pos + i) as nat, size as nat);
    } else {
        vstd::arithmetic::div_mod::lemma_mod_sub_multiples_vanish(write_pos + i, size);
        vstd::arithmetic::div_mod::lemma_small_mod((write_pos + i - size) as nat, size as nat);
    }
}

impl InProcessRingBufWriter {
    /// The writer's fields agree with each other.
    pub closed spec fn wf(&self) -> bool {
        &&& is_ring_size(self.data_size as int)
        &&& self.data_size % 8 == 0
        &&& self.data_mask == self.data_size - 1
        &&& self.data_offset >= RING_META_LEN
        &&& self.head % 8 == 0
    }

    /// The writer writes into the data area of `ring`.
    pub open spec fn fits(&self, ring: InProcessView) -> bool {
        &&& ring.data_offset == self@.data_offset
        &&& ring.data_size == self@.data_size
        &&& ring.data.len() == self@.data_offset + self@.data_size
    }

    fn tail(&self, ring: &InProcessRingBuf) -> (t: u64)
        requires
            ring@.data.len() >= RING_META_LEN,
        ensures
            t == ring_tail(ring@.data),
    {
        read_le64(ring.data.as_slice(), RING_TAIL_FIELD)
    }

    /// Bytes that can be written before the head reaches the tail.
    fn available(&self, ring: &InProcessRingBuf) -> (a: usize)
        requires
            self.wf(),
            self.fits(ring@),
            tail_ok(self@, ring@.data),
        ensures
            a == writer_available(self@, ring@.data),
    {
        let tail = self.tail(ring) as usize;
        self.data_size - (self.head - tail)
    }

    /// Writes `record` and zero padding up to `aligned_len` bytes at the
    /// head, then publishes the new head.
    fn write_raw(&mut self, ring: &mut InProcessRingBuf, record: &[u8], aligned_len: usize)
        requires
            old(self).wf(),
            old(ring).wf(),
            old(self).fits(old(ring)@),
            tail_ok(old(self)@, old(ring)@.data),
            record@.len() <= aligned_len,
            aligned_len % 8 == 0,
            aligned_len <= writer_available(old(self)@, old(ring)@.data),
            old(self)@.head + aligned_len <= usize::MAX,
        ensures
            final(ring)@ == (InProcessView {
                data: ring_after_write(old(ring)@.data, old(self)@, record@ + zeros(aligned_len - record@.len())),
                ..old(ring)@
            }),
            final(self)@ == (WriterView { head: old(self)@.head + aligned_len, ..old(self)@ }),
            ring_tail(final(ring)@.data) == ring_tail(old(ring)@.data),
            final(self).wf(),
            final(ring).wf(),
            final(self).fits(final(ring)@),
            tail_ok(final(self)@, final(ring)@.data),
    {
        let ghost orig = ring@.data;
        let ghost off = self@.data_offset;
        let ghost size = self@.data_size;
        let ghost head = self@.head;
        let ghost full = record@ + zeros(aligned_len - record@.len());
        proof {
            lemma_mask_is_mod(self.head as u64, self.data_size as u64);
        }
        let write_pos = self.head & self.data_mask;
        assert(write_pos == head % size) by {
            lemma_mask_is_mod(self.head as u64, self.data_size as u64);
        }
        let room = self.data_size - write_pos;
        let total_len = ring.data.len();
        let mut i: usize = 0;
        while i < aligned_len
            invariant
                i <= aligned_len,
                aligned_len <= size,
                full.len() == aligned_len,
                full == record@ + zeros(aligned_len - record@.len()),
                ring@.data == ring_put(orig, off, size, head, full.take(i as int)),
                ring@.data.len() == orig.len(),
                orig.len() == off + size,
                total_len == orig.len(),
                0 <= off,
                0 < size,
                size == self.data_size,
                off == self.data_offset,
                head == self.head,
                write_pos == head % size,
                room == size - write_pos,
                write_pos < size,
                ring.data_offset == self.data_offset,
                ring.data_size == self.data_size,
                ring.data_mask == old(ring).data_mask,
                ring.head == old(ring).head,
            decreases aligned_len - i,
        {
            let byte = if i < record.len() {
                record[i]
            } else {
                0u8
            };
            assert(byte == full[i as int]);
            let pos = if i < room {
                write_pos + i
            } else {
                i - room
            };
            proof {
                lemma_wrap_pos(head, i as int, size, write_pos as int, room as int, pos as int);
                lemma_ring_put_step(orig, off, size, head, full, i as int);
            }
            ring.data.set(self.data_offset + pos, byte);
            i = i + 1;
        }
        assert(full.take(aligned_len as int) =~= full);
        let ghost mid = ring@.data;
        self.head = self.head + aligned_len;
        store_le64(ring.data.as_mut_slice(), RING_HEAD_FIELD, self.head as u64);
        proof {
            lemma_write_keeps_tail(orig, old(self)@, full);
            vstd::arithmetic::div_mod::lemma_mod_adds(head, aligned_len as int, 8);
        }
    }

    /// Writes the report of the records lost so far, when there are some
    /// and it fits.
    fn flush_pending_lost(&mut self, ring: &mut InProcessRingBuf)
        requires
            old(self).wf(),
            old(ring).wf(),
            old(self).fits(old(ring)@),
            tail_ok(old(self)@, old(ring)@.data),
            old(self)@.head + old(self)@.data_size <= usize::MAX,
        ensures
            if old(self)@.lost_count > 0 && writer_available(old(self)@, old(ring)@.data) >= LOST_RECORD_SIZE {
                &&& final(ring)@ == (InProcessView {
                    data: ring_after_write(old(ring)@.data, old(self)@, lost_record(old(self)@.lost_count)),
                    ..old(ring)@
                })
                &&& final(self)@ == (WriterView {
                    head: old(self)@.head + LOST_RECORD_SIZE,
                    lost_count: 0,
                    ..old(self)@
                })
            } else {
                &&& final(ring)@ == old(ring)@
                &&& final(self)@ == old(self)@
            },
            final(self).wf(),
            final(ring).wf(),
            final(self).fits(final(ring)@),
            tail_ok(final(self)@, final(ring)@.data),
    {
        if self.lost_count == 0 {
            return;
        }
        if self.available(ring) < LOST_RECORD_SIZE {
            return;
        }
        let ghost lost = self.lost_count;
        let mut payload: Vec<u8> = Vec::new();
        let zero = u64_to_le_bytes(0);
        payload.extend_from_slice(zero.as_slice());
        let count = u64_to_le_bytes(self.lost_count);
        payload.extend_from_slice(count.as_slice());
        proof {
            lemma_auto_spec_u64_to_from_le_bytes();
        }
        let mut record: Vec<u8> = Vec::new();
        Header::write(PERF_RECORD_LOST, 0, payload.as_slice(), &mut record);
        proof {
            lemma_lost_record_len(lost);
            assert(record@ =~= lost_record(lost));
        }
        self.lost_count = 0;
        let aligned = align_to_perf_record(record.len());
        self.write_raw(ring, record.as_slice(), aligned);
        assert(record@ + zeros(0) =~= record@);
    }

    /// Writes the report of lost records, if any is pending and fits; for
    /// the end of a session.
    pub fn flush(&mut self, ring: &mut InProcessRingBuf)
        requires
            old(self).wf(),
            old(ring).wf(),
            old(self).fits(old(ring)@),
            tail_ok(old(self)@, old(ring)@.data),
            old(self)@.head + old(self)@.data_size <= usize::MAX,
        ensures
            if old(self)@.lost_count > 0 && writer_available(old(self)@, old(ring)@.data) >= LOST_RECORD_SIZE {
                &&& final(ring)@ == (InProcessView {
                    data: ring_after_write(old(ring)@.data, old(self)@, lost_record(old(self)@.lost_count)),
                    ..old(ring)@
                })
                &&& final(self)@ == (WriterView {
                    head: old(self)@.head + LOST_RECORD_SIZE,
                    lost_count: 0,
                    ..old(self)@
                })
            } else {
                &&& final(ring)@ == old(ring)@
                &&& final(self)@ == old(self)@
            },
            final(self).wf(),
            final(ring).wf(),
            final(self).fits(final(ring)@),
            tail_ok(final(self)@, final(ring)@.data),
    {
        self.flush_pending_lost(ring);
    }

    /// Writes a complete record, as one step of a wait for room: the
    /// record is written when there is room for it (after the report of
    /// the records dropped so far); it is dropped and counted when it can
    /// never fit, or when there is no room and `waited_ms`, the time spent
    /// waiting so far, has reached `WAIT_TIMEOUT_MS`; otherwise nothing
    /// changes and the caller waits `WAIT_POLL_MS` for a reader to free
    /// room, then calls again.
    pub fn write(&mut self, ring: &mut InProcessRingBuf, record: &[u8], waited_ms: u64) -> (r: WriteStep)
        requires
            old(self).wf(),
            old(ring).wf(),
            old(self).fits(old(ring)@),
            tail_ok(old(self)@, old(ring)@.data),
            old(self)@.head + old(self)@.data_size <= usize::MAX,
            record@.len() + 7 <= usize::MAX,
            old(self)@.lost_count < u64::MAX,
        ensures
            if write_accepted(old(self)@, old(ring)@.data, record@.len() as int) {
                &&& r == WriteStep::Written
                &&& final(ring)@ == (InProcessView {
                    data: ring_after_write(
                        old(ring)@.data,
                        old(self)@,
                        write_bytes(old(self)@.lost_count, record@),
                    ),
                    ..old(ring)@
                })
                &&& final(self)@ == (WriterView {
                    head: old(self)@.head + write_bytes(old(self)@.lost_count, record@).len(),
                    lost_count: 0,
                    ..old(self)@
                })
            } else if spec_align_to_perf_record(record@.len() as int) > old(self)@.data_size || waited_ms
                >= WAIT_TIMEOUT_MS {
                &&& r == WriteStep::Dropped
                &&& final(ring)@ == old(ring)@
                &&& final(self)@ == (WriterView { lost_count: (old(self)@.lost_count + 1) as u64, ..old(self)@ })
            } else {
                &&& r == WriteStep::Wait
                &&& final(ring)@ == old(ring)@
                &&& final(self)@ == old(self)@
            },
            final(self).wf(),
            final(ring).wf(),
            final(self).fits(final(ring)@),
            tail_ok(final(self)@, final(ring)@.data),
    {
        let aligned_len = align_to_perf_record(record.len());
        if aligned_len > self.data_size {
            self.lost_count = self.lost_count + 1;
            return WriteStep::Dropped;
        }
        let extra = if self.lost_count > 0 {
            LOST_RECORD_SIZE
        } else {
            0
        };
        let needed = aligned_len + extra;
        if self.available(ring) < needed {
            if waited_ms >= WAIT_TIMEOUT_MS {
                self.lost_count = self.lost_count + 1;
                return WriteStep::Dropped;
            }
            return WriteStep::Wait;
        }
        let ghost d0 = ring@.data;
        let ghost w0 = self@;
        self.flush_pending_lost(ring);
        proof {
            if w0.lost_count > 0 {
                lemma_lost_record_len(w0.lost_count);
                lemma_write_keeps_tail(d0, w0, lost_record(w0.lost_count));
            }
        }
        self.write_raw(ring, record, aligned_len);
        proof {
            let p = record@ + zeros(aligned_len - record@.len());
            assert(p == padded(record@));
            if w0.lost_count > 0 {
                let l = lost_record(w0.lost_count);
                lemma_lost_record_len(w0.lost_count);
                lemma_put_le64_ring_put_commute(
                    ring_put(d0, w0.data_offset, w0.data_size, w0.head, l),
                    RING_HEAD_FIELD as int,
                    (w0.head + 24) as u64,
                    w0.data_offset,
                    w0.data_size,
                    w0.head + 24,
                    p,
                );
                lemma_ring_put_concat(d0, w0.data_offset, w0.data_size, w0.head, l, p);
                lemma_put_le64_twice(
                    ring_put(d0, w0.data_offset, w0.data_size, w0.head, l + p),
                    RING_HEAD_FIELD as int,
                    (w0.head + 24) as u64,
                    (w0.head + 24 + p.len()) as u64,
                );
            }
        }
        WriteStep::Written
    }
}

/// The size field of a record holds its length, which is a multiple of
/// eight.
proof fn lemma_record_size_field(entry_type: u32, misc: u16, payload: Seq<u8>)
    requires
        payload.len() <= MAX_RECORD_PAYLOAD,
    ensures
        spec_record_bytes(entry_type, misc, payload).len() == spec_align_to_perf_record(payload.len() + 8int),
        spec_record_bytes(entry_type, misc, payload).len() % 8 == 0,
        spec_record_bytes(entry_type, misc, payload).len() >= 8,
        le16_at(spec_record_bytes(entry_type, misc, payload), 6) == spec_record_bytes(entry_type, misc, payload).len(),
        padded(spec_record_bytes(entry_type, misc, payload)) == spec_record_bytes(entry_type, misc, payload),
{
    crate::abi::lemma_header_round_trip(entry_type, misc, payload);
    let rec = spec_record_bytes(entry_type, misc, payload);
    assert(spec_align_to_perf_record(rec.len() as int) == rec.len()) by {
        vstd::arithmetic::div_mod::lemma_fundamental_div_mod(rec.len() + 7int, 8);
    }
    assert(padded(rec) =~= rec);
}

/// A position that is a multiple of eight lands on a place that is one, in
/// a data area whose size is one.
proof fn lemma_aligned_place(from: int, size: int)
    requires
        0 <= from,
        from % 8 == 0,
        0 < size,
        size % 8 == 0,
    ensures
        (from % size) % 8 == 0,
        from % size + 8 <= size,
{
    vstd::arithmetic::div_mod::lemma_fundamental_div_mod(from, size);
    lemma_ring_place(from, size);
    let q = from / size;
    assert((size * q) % 8 == 0) by {
        vstd::arithmetic::div_mod::lemma_mul_mod_noop_right(q, size, 8);
        assert(size * q == q * size) by (nonlinear_arith);
        vstd::arithmetic::div_mod::lemma_mul_mod_noop_right(q, size, 8);
    }
    vstd::arithmetic::div_mod::lemma_sub_mod_noop(from, size * q, 8);
    vstd::arithmetic::div_mod::lemma_fundamental_div_mod(from % size, 8);
    vstd::arithmetic::div_mod::lemma_fundamental_div_mod(size, 8);
}

/// A well-formed record held in the ring at a position that is a multiple
/// of eight is what a read at that position returns.
pub proof fn lemma_read_record(
    pages: Seq<u8>,
    off: int,
    size: int,
    from: int,
    entry_type: u32,
    misc: u16,
    payload: Seq<u8>,
)
    requires
        is_ring_size(size),
        size % 8 == 0,
        0 <= off,
        off + size <= pages.len(),
        0 <= from,
        from % 8 == 0,
        payload.len() <= MAX_RECORD_PAYLOAD,
        spec_record_bytes(entry_type, misc, payload).len() <= size,
        ring_window(pages, off, size, from, spec_record_bytes(entry_type, misc, payload).len() as int) == spec_record_bytes(
            entry_type,
            misc,
            payload,
        ),
    ensures
        spec_read(pages, off, size, from) == Ok::<Seq<u8>, RingBufError>(spec_record_bytes(entry_type, misc, payload)),
{
    let rec = spec_record_bytes(entry_type, misc, payload);
    lemma_record_size_field(entry_type, misc, payload);
    lemma_ring_size_pos(size);
    lemma_aligned_place(from, size);
    let pos = from % size;
    let data = pages.subrange(off, off + size);
    assert forall|i: int| 0 <= i < 8 implies #[trigger] data[pos + i] == rec[i] by {
        vstd::arithmetic::div_mod::lemma_add_mod_noop(from, i, size);
        vstd::arithmetic::div_mod::lemma_small_mod(i as nat, size as nat);
        vstd::arithmetic::div_mod::lemma_small_mod((pos + i) as nat, size as nat);
        assert(ring_window(pages, off, size, from, rec.len() as int)[i] == rec[i]);
    }
    assert(data[pos + 6] == rec[6]);
    assert(data[pos + 7] == rec[7]);
    assert(data.subrange(pos + 6, pos + 8) =~= rec.subrange(6, 8));
}

/// A power of two that fits in 64 bits is positive.
proof fn lemma_ring_size_pos(n: int)
    requires
        is_ring_size(n),
    ensures
        0 < n <= u64::MAX,
{
    let k = choose|k: nat| k < 64 && n == #[trigger] pow2(k);
    vstd::bits::lemma_u64_pow2_no_overflow(k);
}

/// After a write, the ring holds the written bytes at the former head.
proof fn lemma_after_write_window(pages: Seq<u8>, w: WriterView, bytes: Seq<u8>)
    requires
        w.data_offset >= RING_META_LEN,
        w.data_offset + w.data_size == pages.len(),
        0 < w.data_size,
        bytes.len() <= w.data_size,
    ensures
        ring_window(ring_after_write(pages, w, bytes), w.data_offset, w.data_size, w.head, bytes.len() as int) == bytes,
{
    let off = w.data_offset;
    let size = w.data_size;
    let put = ring_put(pages, off, size, w.head, bytes);
    lemma_ring_put_window(pages, off, size, w.head, bytes);
    let after = ring_after_write(pages, w, bytes);
    lemma_put_le64_reads_back(put, RING_HEAD_FIELD as int, (w.head + bytes.len()) as u64);
    assert forall|p: int| #[trigger] ring_byte(after, off, size, p) == ring_byte(put, off, size, p) by {
        lemma_ring_place(p, size);
    }
    assert(ring_window(after, off, size, w.head, bytes.len() as int) =~= ring_window(put, off, size, w.head, bytes.len() as int));
}

/// Bytes `a + b` held from `from` on are `a` from `from` and `b` after it.
proof fn lemma_window_split(pages: Seq<u8>, off: int, size: int, from: int, a: Seq<u8>, b: Seq<u8>)
    requires
        ring_window(pages, off, size, from, (a + b).len() as int) == a + b,
    ensures
        ring_window(pages, off, size, from, a.len() as int) == a,
        ring_window(pages, off, size, from + a.len(), b.len() as int) == b,
{
    let whole = ring_window(pages, off, size, from, (a + b).len() as int);
    assert forall|i: int| 0 <= i < a.len() implies #[trigger] ring_window(pages, off, size, from, a.len() as int)[i] == a[i] by {
        assert(whole[i] == (a + b)[i]);
    }
    assert forall|i: int| 0 <= i < b.len() implies #[trigger] ring_window(pages, off, size, from + a.len(), b.len() as int)[i] == b[i] by {
        assert(whole[a.len() + i] == (a + b)[a.len() + i]);
        assert(from + a.len() + i == from + (a.len() + i));
    }
    assert(ring_window(pages, off, size, from, a.len() as int) =~= a);
    assert(ring_window(pages, off, size, from + a.len(), b.len() as int) =~= b);
}

/// A record that the writer accepts is what the reader then reads at the
/// writer's former head; when records were lost before it, the report of
/// them comes first and the record follows it.
pub proof fn lemma_write_then_read(pages: Seq<u8>, w: WriterView, entry_type: u32, misc: u16, payload: Seq<u8>)
    requires
        w.data_offset >= RING_META_LEN,
        w.data_offset + w.data_size == pages.len(),
        is_ring_size(w.data_size),
        w.data_size % 8 == 0,
        0 <= w.head,
        w.head % 8 == 0,
        w.head + w.data_size <= u64::MAX,
        tail_ok(w, pages),
        payload.len() <= MAX_RECORD_PAYLOAD,
        write_accepted(w, pages, spec_record_bytes(entry_type, misc, payload).len() as int),
    ensures
        ({
            let rec = spec_record_bytes(entry_type, misc, payload);
            let after = ring_after_write(pages, w, write_bytes(w.lost_count, rec));
            &&& w.lost_count == 0 ==> spec_read(after, w.data_offset, w.data_size, w.head) == Ok::<
                Seq<u8>,
                RingBufError,
            >(rec)
            &&& w.lost_count > 0 ==> spec_read(after, w.data_offset, w.data_size, w.head) == Ok::<
                Seq<u8>,
                RingBufError,
            >(lost_record(w.lost_count)) && spec_read(
                after,
                w.data_offset,
                w.data_size,
                w.head + LOST_RECORD_SIZE,
            ) == Ok::<Seq<u8>, RingBufError>(rec)
        }),
{
    let rec = spec_record_bytes(entry_type, misc, payload);
    let off = w.data_offset;
    let size = w.data_size;
    let bytes = write_bytes(w.lost_count, rec);
    lemma_record_size_field(entry_type, misc, payload);
    lemma_lost_record_len(w.lost_count);
    lemma_ring_size_pos(size);
    lemma_after_write_window(pages, w, bytes);
    lemma_write_keeps_tail(pages, w, bytes);
    let after = ring_after_write(pages, w, bytes);
    if w.lost_count == 0 {
        lemma_read_record(after, off, size, w.head, entry_type, misc, payload);
    } else {
        let lpay = spec_u64_to_le_bytes(0) + spec_u64_to_le_bytes(w.lost_count);
        lemma_auto_spec_u64_to_from_le_bytes();
        lemma_window_split(after, off, size, w.head, lost_record(w.lost_count), rec);
        lemma_read_record(after, off, size, w.head, PERF_RECORD_LOST, 0, lpay);
        lemma_read_record(after, off, size, w.head + 24, entry_type, misc, payload);
    }
}

/// After writes were dropped for want of room, a write made once the reader
/// has caught up (its tail at the writer's head) is accepted when its
/// padded record and the report of the dropped records fit the data area:
/// the ring then receives the report of the dropped count followed by the
/// record padded to a multiple of eight, and the head moves past both.
pub proof fn lemma_write_after_drops(pages: Seq<u8>, w: WriterView, record: Seq<u8>)
    requires
        w.lost_count > 0,
        ring_tail(pages) == w.head,
        spec_align_to_perf_record(record.len() as int) + LOST_RECORD_SIZE <= w.data_size,
    ensures
        write_accepted(w, pages, record.len() as int),
        write_bytes(w.lost_count, record) == lost_record(w.lost_count) + padded(record),
        padded(record).len() == spec_align_to_perf_record(record.len() as int),
        padded(record).len() % 8 == 0,
        write_bytes(w.lost_count, record).len() == LOST_RECORD_SIZE + spec_align_to_perf_record(record.len() as int),
{
    lemma_lost_record_len(w.lost_count);
    let n = record.len() as int;
    assert(spec_align_to_perf_record(n) >= n && spec_align_to_perf_record(n) % 8 == 0) by (nonlinear_arith)
        requires
            n >= 0,
            spec_align_to_perf_record(n) == ((n + 7) / 8) * 8,
    ;
}

/// A write appends its bytes to the unread data and leaves that data as it
/// was: from the tail on, the ring holds the bytes not yet read followed by
/// the bytes written.
pub proof fn lemma_write_appends(pages: Seq<u8>, w: WriterView, bytes: Seq<u8>)
    requires
        w.data_offset >= RING_META_LEN,
        w.data_offset + w.data_size == pages.len(),
        0 < w.data_size,
        tail_ok(w, pages),
        bytes.len() <= writer_available(w, pages),
    ensures
        ({
            let t = ring_tail(pages);
            let after = ring_after_write(pages, w, bytes);
            ring_window(after, w.data_offset, w.data_size, t, w.head + bytes.len() - t) == ring_window(
                pages,
                w.data_offset,
                w.data_size,
                t,
                w.head - t,
            ) + bytes
        }),
{
    let off = w.data_offset;
    let size = w.data_size;
    let t = ring_tail(pages);
    let n = bytes.len() as int;
    let put = ring_put(pages, off, size, w.head, bytes);
    lemma_ring_put_window(pages, off, size, w.head, bytes);
    lemma_after_write_window(pages, w, bytes);
    let after = ring_after_write(pages, w, bytes);
    lemma_put_le64_reads_back(put, RING_HEAD_FIELD as int, (w.head + n) as u64);
    assert forall|p: int| #[trigger] ring_byte(after, off, size, p) == ring_byte(put, off, size, p) by {
        lemma_ring_place(p, size);
    }
    let whole = ring_window(after, off, size, t, w.head + n - t);
    let unread = ring_window(pages, off, size, t, w.head - t);
    assert forall|i: int| 0 <= i < w.head + n - t implies #[trigger] whole[i] == (unread + bytes)[i] by {
        if i < w.head - t {
            assert(ring_byte(put, off, size, t + i) == ring_byte(pages, off, size, t + i));
        } else {
            let k = i - (w.head - t);
            assert(ring_window(after, off, size, w.head, n)[k] == bytes[k]);
            assert(t + i == w.head + k);
        }
    }
    assert(whole =~= unread + bytes);
}

} // verus!
