//! The serial kernel-loading protocol.
//!
//! Wire format, all integers 32-bit and least significant byte first:
//! `start_address`, `segment_count` (at most `MAX_SEGMENTS`), that many
//! `(destination, length)` pairs, `data_checksum`, `header_checksum`, then the
//! payload bytes of each segment in declared order. `header_checksum` is the
//! CRC-32 of the fields before it, `data_checksum` that of the payload as it
//! sits in memory once copied.
//!
//! The loader is a state machine. It asks for one thing at a time
//! ([`Request`]): a byte from the link, a byte from the link to be stored at a
//! destination, or a byte read back from memory. Whoever drives it does that
//! and hands the byte to [`Loader::advance`], until the load is done or has
//! failed.

use vstd::prelude::*;

use crate::crc32::{crc32, fold_bytes, lemma_fold_chunks, Crc32, INITIAL};
use crate::serial::{lemma_word_bytes, word_of, SerialPort};

verus! {

/// Maximum number of program segments that can be loaded over serial.
pub const MAX_SEGMENTS: u32 = 16;

/// Slots in the segment table: one per segment a header may declare.
const SEGMENT_SLOTS: usize = 16;

/// Room for the longest header: start, count, `MAX_SEGMENTS` pairs and two checksums.
const HEADER_CAPACITY: usize = 16 + 8 * SEGMENT_SLOTS;

/// One contiguous destination region of the image.
#[derive(Debug, Clone, Copy, PartialEq, Eq, Structural)]
pub struct Segment {
    pub addr: u32,
    pub size: u32,
}

/// Why a load was aborted. Every one of these is fatal.
#[derive(Debug, Clone, Copy, PartialEq, Eq, Structural)]
pub enum LoadError {
    /// The header declares more than `MAX_SEGMENTS` segments.
    TooManySegments { count: u32 },
    /// The header's checksum field does not match the CRC-32 of the header.
    HeaderChecksum { expected: u32, computed: u32 },
    /// The payload in memory does not match the header's data checksum.
    DataChecksum { expected: u32, computed: u32 },
}

/// What the loader needs next.
#[derive(Debug, Clone, Copy, PartialEq, Eq, Structural)]
pub enum Request {
    /// Receive one byte from the link and hand it over.
    HeaderByte,
    /// Receive one byte from the link, store it at `addr`, and hand it over.
    CopyByte { addr: u64 },
    /// Read the byte now at `addr` and hand it over.
    CheckByte { addr: u64 },
    /// The image is in place; control goes to `start`.
    Done { start: u32 },
    /// The load was aborted.
    Fatal(LoadError),
}

/// The `f`-th 32-bit field of the stream.
pub open spec fn field(link: Seq<u8>, f: int) -> u32 {
    word_of(link.subrange(4 * f, 4 * f + 4))
}

pub open spec fn start_of(link: Seq<u8>) -> u32 {
    field(link, 0)
}

pub open spec fn count_of(link: Seq<u8>) -> u32 {
    field(link, 1)
}

/// Length in bytes of a header declaring `count` segments, checksum included.
pub open spec fn header_len(count: u32) -> int {
    16 + 8 * count
}

pub open spec fn segment_of(link: Seq<u8>, k: int) -> Segment {
    Segment { addr: field(link, 2 + 2 * k), size: field(link, 3 + 2 * k) }
}

/// The declared segments, in order.
pub open spec fn segments_of(link: Seq<u8>) -> Seq<Segment> {
    Seq::new(count_of(link) as nat, |k: int| segment_of(link, k))
}

pub open spec fn data_checksum_of(link: Seq<u8>) -> u32 {
    field(link, 2 + 2 * count_of(link))
}

pub open spec fn header_checksum_of(link: Seq<u8>) -> u32 {
    field(link, 3 + 2 * count_of(link))
}

/// CRC-32 of the header fields that precede the header checksum.
pub open spec fn header_digest(link: Seq<u8>) -> u32 {
    crc32(link.take(header_len(count_of(link)) - 4))
}

/// A complete header whose count is in range and whose checksum matches.
pub open spec fn header_accepted(link: Seq<u8>) -> bool {
    &&& link.len() >= 8
    &&& count_of(link) <= MAX_SEGMENTS
    &&& link.len() >= header_len(count_of(link))
    &&& header_checksum_of(link) == header_digest(link)
}

/// Total length of the first `k` segments.
pub open spec fn prefix_size(segs: Seq<Segment>, k: nat) -> int
    decreases k,
{
    if k == 0 {
        0
    } else {
        prefix_size(segs, (k - 1) as nat) + segs[k - 1].size
    }
}

pub open spec fn payload_size(segs: Seq<Segment>) -> int {
    prefix_size(segs, segs.len())
}

/// The destination of every payload byte, segment by segment in declared order.
pub open spec fn payload_addrs(segs: Seq<Segment>) -> Seq<int>
    decreases segs.len(),
{
    if segs.len() == 0 {
        Seq::empty()
    } else {
        payload_addrs(segs.drop_last()) + Seq::new(
            segs.last().size as nat,
            |j: int| segs.last().addr + j,
        )
    }
}

/// What the loader asks for once `link` has been received from the link and
/// `back` read back from memory.
pub open spec fn expected_request(link: Seq<u8>, back: Seq<u8>) -> Request {
    let count = count_of(link);
    let segs = segments_of(link);
    let hlen = header_len(count);
    if link.len() < 8 {
        Request::HeaderByte
    } else if count > MAX_SEGMENTS {
        Request::Fatal(LoadError::TooManySegments { count })
    } else if link.len() < hlen {
        Request::HeaderByte
    } else if header_checksum_of(link) != header_digest(link) {
        Request::Fatal(
            LoadError::HeaderChecksum {
                expected: header_checksum_of(link),
                computed: header_digest(link),
            },
        )
    } else if link.len() < hlen + payload_size(segs) {
        Request::CopyByte { addr: payload_addrs(segs)[link.len() - hlen] as u64 }
    } else if back.len() < payload_size(segs) {
        Request::CheckByte { addr: payload_addrs(segs)[back.len() as int] as u64 }
    } else if crc32(back) != data_checksum_of(link) {
        Request::Fatal(
            LoadError::DataChecksum { expected: data_checksum_of(link), computed: crc32(back) },
        )
    } else {
        Request::Done { start: start_of(link) }
    }
}

proof fn lemma_prefix_monotone(segs: Seq<Segment>, a: nat, b: nat)
    requires
        a <= b <= segs.len(),
    ensures
        0 <= prefix_size(segs, a) <= prefix_size(segs, b),
    decreases b,
{
    if a < b {
        lemma_prefix_monotone(segs, a, (b - 1) as nat);
    } else if a > 0 {
        lemma_prefix_monotone(segs, (a - 1) as nat, (b - 1) as nat);
    }
}

proof fn lemma_prefix_drop_last(segs: Seq<Segment>, k: nat)
    requires
        k < segs.len(),
    ensures
        prefix_size(segs.drop_last(), k) == prefix_size(segs, k),
    decreases k,
{
    if k > 0 {
        lemma_prefix_drop_last(segs, (k - 1) as nat);
    }
}

proof fn lemma_payload_addrs_len(segs: Seq<Segment>)
    ensures
        payload_addrs(segs).len() == payload_size(segs),
    decreases segs.len(),
{
    if segs.len() > 0 {
        lemma_payload_addrs_len(segs.drop_last());
        lemma_prefix_drop_last(segs, (segs.len() - 1) as nat);
    }
}

/// Byte `j` of segment `k` is destined for the segment's address plus `j`.
proof fn lemma_payload_addr_at(segs: Seq<Segment>, k: int, j: int)
    requires
        0 <= k < segs.len(),
        0 <= j < segs[k].size,
    ensures
        payload_addrs(segs)[prefix_size(segs, k as nat) + j] == segs[k].addr + j,
    decreases segs.len(),
{
    let n = (segs.len() - 1) as nat;
    let init = segs.drop_last();
    let head = payload_addrs(init);
    let tail = Seq::new(segs.last().size as nat, |j: int| segs.last().addr + j);
    assert(payload_addrs(segs) == head + tail);
    lemma_payload_addrs_len(init);
    lemma_prefix_drop_last(segs, n);
    let i = prefix_size(segs, k as nat) + j;
    if k < n {
        lemma_prefix_drop_last(segs, k as nat);
        lemma_prefix_drop_last(segs, (k + 1) as nat);
        lemma_payload_addr_at(init, k, j);
        lemma_prefix_monotone(init, (k + 1) as nat, n);
        lemma_prefix_monotone(init, 0, k as nat);
        assert(i < head.len());
        assert((head + tail)[i] == head[i]);
    } else {
        assert(i == head.len() + j);
        assert((head + tail)[i] == tail[j]);
    }
}

/// Whether `advance` may be called.
pub open spec fn is_pending(r: Request) -> bool {
    r is HeaderByte || r is CopyByte || r is CheckByte
}

} // verus!

verus! {

/// The fields of a header stay what they were once more bytes follow it.
proof fn lemma_header_stable(link: Seq<u8>, ext: Seq<u8>)
    requires
        header_accepted(link),
        header_len(count_of(link)) <= ext.len(),
        ext.take(header_len(count_of(link))) =~= link.take(header_len(count_of(link))),
    ensures
        header_accepted(ext),
        count_of(ext) == count_of(link),
        segments_of(ext) == segments_of(link),
        start_of(ext) == start_of(link),
        data_checksum_of(ext) == data_checksum_of(link),
{
    let hlen = header_len(count_of(link));
    assert(ext.subrange(4, 8) =~= link.subrange(4, 8)) by {
        assert(ext.take(hlen)[4] == link.take(hlen)[4]);
        assert(ext.take(hlen)[5] == link.take(hlen)[5]);
        assert(ext.take(hlen)[6] == link.take(hlen)[6]);
        assert(ext.take(hlen)[7] == link.take(hlen)[7]);
    }
    assert forall|i: int| 0 <= i < hlen implies #[trigger] ext[i] == link[i] by {
        assert(ext.take(hlen)[i] == link.take(hlen)[i]);
    }
    assert forall|f: int| 0 <= f && 4 * f + 4 <= hlen implies field(ext, f) == field(
        link,
        f,
    ) by {
        assert(ext.subrange(4 * f, 4 * f + 4) =~= link.subrange(4 * f, 4 * f + 4));
    }
    assert(field(ext, 1) == field(link, 1));
    let c = count_of(link);
    assert(segments_of(ext) =~= segments_of(link)) by {
        assert forall|k: int| 0 <= k < c implies segment_of(ext, k) == segment_of(link, k) by {
            assert(field(ext, 2 + 2 * k) == field(link, 2 + 2 * k));
            assert(field(ext, 3 + 2 * k) == field(link, 3 + 2 * k));
        }
    }
    assert(field(ext, 0) == field(link, 0));
    assert(field(ext, 2 + 2 * c) == field(link, 2 + 2 * c));
    assert(field(ext, 3 + 2 * c) == field(link, 3 + 2 * c));
    assert(ext.take(header_len(c) - 4) =~= link.take(header_len(c) - 4));
}

/// The 32-bit field that starts at byte `i`.
fn word_at(bytes: &[u8; HEADER_CAPACITY], i: usize) -> (r: u32)
    requires
        i + 4 <= HEADER_CAPACITY,
    ensures
        r == word_of(bytes@.subrange(i as int, i + 4)),
{
    let quad: [u8; 4] = [bytes[i], bytes[i + 1], bytes[i + 2], bytes[i + 3]];
    let r = SerialPort::receive_u32(quad);
    proof {
        assert(quad@ =~= bytes@.subrange(i as int, i + 4));
    }
    r
}

/// The first segment at or after `from` that is not empty, or `segs.len()`.
fn first_nonempty(segs: &[Segment; SEGMENT_SLOTS], count: usize, from: usize) -> (k: usize)
    requires
        from <= count <= SEGMENT_SLOTS,
    ensures
        from <= k <= count,
        prefix_size(segs@.take(count as int), k as nat) == prefix_size(
            segs@.take(count as int),
            from as nat,
        ),
        k < count ==> segs@[k as int].size > 0,
{
    let mut k = from;
    while k < count && segs[k].size == 0
        invariant
            from <= k <= count <= SEGMENT_SLOTS,
            prefix_size(segs@.take(count as int), k as nat) == prefix_size(
                segs@.take(count as int),
                from as nat,
            ),
        decreases count - k,
    {
        k = k + 1;
    }
    k
}

#[derive(Clone, Copy)]
enum Phase {
    Header,
    Copy,
    Check,
    Done,
    Failed(LoadError),
}

/// State of one load.
pub struct Loader {
    phase: Phase,
    /// Header bytes received so far: the first `received` of `header`.
    header: [u8; HEADER_CAPACITY],
    received: usize,
    start: u32,
    /// The declared segments: the first `count` slots of `segments`.
    segments: [Segment; SEGMENT_SLOTS],
    count: usize,
    data_checksum: u32,
    /// Segment being copied or checked, and the offset within it.
    seg: usize,
    offset: u32,
    /// Digest of the payload read back so far.
    crc: Crc32,
    link: Ghost<Seq<u8>>,
    back: Ghost<Seq<u8>>,
}

impl Loader {
    /// Every byte received from the link so far.
    pub closed spec fn link(&self) -> Seq<u8> {
        self.link@
    }

    /// Every byte read back from memory so far.
    pub closed spec fn back(&self) -> Seq<u8> {
        self.back@
    }

    spec fn table(&self) -> Seq<Segment> {
        self.segments@.take(self.count as int)
    }

    spec fn decoded(&self) -> bool {
        let link = self.link@;
        &&& header_accepted(link)
        &&& self.count == count_of(link)
        &&& self.count <= SEGMENT_SLOTS
        &&& self.table() == segments_of(link)
        &&& self.start == start_of(link)
        &&& self.data_checksum == data_checksum_of(link)
    }

    spec fn at_segment_byte(&self) -> bool {
        &&& self.seg < self.table().len()
        &&& self.offset < self.table()[self.seg as int].size
    }

    pub closed spec fn wf(&self) -> bool {
        let link = self.link@;
        let back = self.back@;
        let hlen = header_len(count_of(link));
        match self.phase {
            Phase::Header => {
                &&& self.received == link.len()
                &&& self.received <= HEADER_CAPACITY
                &&& self.header@.take(self.received as int) == link
                &&& back.len() == 0
                &&& link.len() < 8 || (count_of(link) <= MAX_SEGMENTS && link.len() < hlen)
            },
            Phase::Copy => {
                &&& self.decoded()
                &&& self.at_segment_byte()
                &&& back.len() == 0
                &&& link.len() == hlen + prefix_size(self.table(), self.seg as nat)
                    + self.offset
            },
            Phase::Check => {
                &&& self.decoded()
                &&& self.at_segment_byte()
                &&& link.len() == hlen + payload_size(self.table())
                &&& back.len() == prefix_size(self.table(), self.seg as nat) + self.offset
                &&& self.crc@ == fold_bytes(INITIAL, back)
            },
            Phase::Done => {
                &&& self.decoded()
                &&& expected_request(link, back) == (Request::Done { start: self.start })
            },
            Phase::Failed(e) => {
                &&& header_accepted(link) ==> self.decoded()
                &&& expected_request(link, back) == Request::Fatal(e)
            },
        }
    }

    /// A loader that has received nothing yet.
    pub fn new() -> (r: Loader)
        ensures
            r.wf(),
            r.link() == Seq::<u8>::empty(),
            r.back() == Seq::<u8>::empty(),
    {
        let header = [0u8; HEADER_CAPACITY];
        proof {
            assert(header@.take(0) =~= Seq::<u8>::empty());
        }
        Loader {
            phase: Phase::Header,
            header,
            received: 0,
            start: 0,
            segments: [Segment { addr: 0, size: 0 }; SEGMENT_SLOTS],
            count: 0,
            data_checksum: 0,
            seg: 0,
            offset: 0,
            crc: Crc32::new(),
            link: Ghost(Seq::empty()),
            back: Ghost(Seq::empty()),
        }
    }

    /// What the loader needs next, given what it has received and read back.
    pub fn request(&self) -> (r: Request)
        requires
            self.wf(),
        ensures
            r == expected_request(self.link(), self.back()),
    {
        match self.phase {
            Phase::Header => Request::HeaderByte,
            Phase::Copy => {
                proof {
                    self.lemma_current_addr();
                }
                Request::CopyByte {
                    addr: self.segments[self.seg].addr as u64 + self.offset as u64,
                }
            },
            Phase::Check => {
                proof {
                    self.lemma_current_addr();
                }
                Request::CheckByte {
                    addr: self.segments[self.seg].addr as u64 + self.offset as u64,
                }
            },
            Phase::Done => Request::Done { start: self.start },
            Phase::Failed(e) => Request::Fatal(e),
        }
    }

    /// The declared start address, once the header has been accepted.
    pub fn start_address(&self) -> (r: u32)
        requires
            self.wf(),
        ensures
            header_accepted(self.link()) ==> r == start_of(self.link()),
    {
        self.start
    }

    /// The number of declared segments, once the header has been accepted.
    pub fn segment_count(&self) -> (r: usize)
        requires
            self.wf(),
        ensures
            header_accepted(self.link()) ==> r == count_of(self.link()),
    {
        self.count
    }

    /// Segment `k` as declared, once the header has been accepted; `None`
    /// past the declared ones.
    pub fn segment(&self, k: usize) -> (r: Option<Segment>)
        requires
            self.wf(),
        ensures
            header_accepted(self.link()) ==> r == (if k < count_of(self.link()) {
                Some(segments_of(self.link())[k as int])
            } else {
                None
            }),
    {
        if k < self.count && k < SEGMENT_SLOTS {
            Some(self.segments[k])
        } else {
            None
        }
    }

    /// The 32-bit field at byte `i` of the header received so far.
    fn header_word(&self, i: usize) -> (r: u32)
        requires
            self.received <= HEADER_CAPACITY,
            self.header@.take(self.received as int) == self.link@,
            i + 4 <= self.received,
        ensures
            r == word_of(self.link@.subrange(i as int, i + 4)),
    {
        let r = word_at(&self.header, i);
        proof {
            assert(self.link@.subrange(i as int, i + 4) =~= self.header@.subrange(i as int, i + 4));
        }
        r
    }

    proof fn lemma_current_addr(&self)
        requires
            self.decoded(),
            self.at_segment_byte(),
        ensures
            prefix_size(self.table(), self.seg as nat) + self.offset < payload_size(
                self.table(),
            ),
            payload_addrs(self.table())[prefix_size(self.table(), self.seg as nat)
                + self.offset] == self.table()[self.seg as int].addr + self.offset,
    {
        let segs = self.table();
        lemma_payload_addr_at(segs, self.seg as int, self.offset as int);
        lemma_prefix_monotone(segs, (self.seg + 1) as nat, segs.len());
    }

    proof fn lemma_phase_request(&self)
        requires
            self.wf(),
        ensures
            self.phase is Header ==> expected_request(self.link@, self.back@) is HeaderByte,
            self.phase is Copy ==> expected_request(self.link@, self.back@) is CopyByte,
            self.phase is Check ==> expected_request(self.link@, self.back@) is CheckByte,
    {
        if self.phase is Copy || self.phase is Check {
            self.lemma_current_addr();
        }
    }

    /// Hands over the byte that the last request asked for.
    pub fn advance(&mut self, b: u8)
        requires
            old(self).wf(),
            is_pending(expected_request(old(self).link(), old(self).back())),
        ensures
            final(self).wf(),
            expected_request(old(self).link(), old(self).back()) is CheckByte ==> {
                &&& final(self).link() == old(self).link()
                &&& final(self).back() == old(self).back().push(b)
            },
            !(expected_request(old(self).link(), old(self).back()) is CheckByte) ==> {
                &&& final(self).link() == old(self).link().push(b)
                &&& final(self).back() == old(self).back()
            },
    {
        proof {
            self.lemma_phase_request();
        }
        match self.phase {
            Phase::Header => self.take_header_byte(b),
            Phase::Copy => self.take_payload_byte(b),
            Phase::Check => self.take_check_byte(b),
            _ => {},
        }
    }

    fn take_header_byte(&mut self, b: u8)
        requires
            old(self).wf(),
            old(self).phase is Header,
        ensures
            final(self).wf(),
            final(self).link() == old(self).link().push(b),
            final(self).back() == old(self).back(),
    {
        self.header[self.received] = b;
        self.received = self.received + 1;
        self.link = Ghost(self.link@.push(b));
        let n = self.received;
        proof {
            assert(self.header@.take(n as int) =~= self.link@);
        }
        if n == 8 {
            let count = self.header_word(4);
            if count > MAX_SEGMENTS {
                self.phase = Phase::Failed(LoadError::TooManySegments { count });
            }
        } else if n > 8 {
            let count = self.header_word(4);
            proof {
                assert(self.link@.subrange(4, 8) =~= old(self).link@.subrange(4, 8));
            }
            if n == 16 + 8 * (count as usize) {
                self.finish_header();
            }
        }
    }

    fn finish_header(&mut self)
        requires
            old(self).phase is Header,
            old(self).received == old(self).link@.len(),
            old(self).header@.take(old(self).received as int) == old(self).link@,
            old(self).back@.len() == 0,
            old(self).link@.len() >= 8,
            count_of(old(self).link@) <= MAX_SEGMENTS,
            old(self).link@.len() == header_len(count_of(old(self).link@)),
        ensures
            final(self).wf(),
            final(self).link() == old(self).link(),
            final(self).back() == old(self).back(),
    {
        let ghost link = self.link@;
        let count = self.header_word(4);
        let fields: usize = 3 + 2 * (count as usize);
        let mut crc = Crc32::new();
        let mut f: usize = 0;
        while f < fields
            invariant
                self.link@ == link,
                self.received == link.len(),
                self.header@.take(self.received as int) == link,
                link.len() == 16 + 8 * count,
                count <= MAX_SEGMENTS,
                fields == 3 + 2 * count,
                f <= fields,
                crc@ == fold_bytes(INITIAL, link.take(4 * f)),
            decreases fields - f,
        {
            let w = self.header_word(4 * f);
            proof {
                let part = link.subrange(4 * f, 4 * f + 4);
                lemma_word_bytes(part);
                lemma_fold_chunks(INITIAL, link.take(4 * f), part);
                assert(link.take(4 * f) + part =~= link.take(4 * f + 4));
            }
            crc.crc32_u32(w);
            f = f + 1;
        }
        let computed = crc.finish();
        let expected = self.header_word(12 + 8 * (count as usize));
        if expected != computed {
            self.phase = Phase::Failed(LoadError::HeaderChecksum { expected, computed });
            return ;
        }
        let mut segments = [Segment { addr: 0, size: 0 }; SEGMENT_SLOTS];
        let mut k: usize = 0;
        while k < count as usize
            invariant
                self.link@ == link,
                self.received == link.len(),
                self.header@.take(self.received as int) == link,
                link.len() == 16 + 8 * count,
                count == count_of(link),
                count <= MAX_SEGMENTS,
                k <= count,
                segments@.len() == SEGMENT_SLOTS,
                segments@.take(k as int) =~= Seq::new(k as nat, |i: int| segment_of(link, i)),
            decreases count - k,
        {
            let addr = self.header_word(8 + 8 * k);
            let size = self.header_word(12 + 8 * k);
            proof {
                assert(segments@.update(k as int, Segment { addr, size }).take(k + 1) =~= segments@.take(
                    k as int,
                ).push(Segment { addr, size }));
            }
            segments[k] = Segment { addr, size };
            k = k + 1;
        }
        self.start = self.header_word(0);
        self.data_checksum = self.header_word(8 + 8 * (count as usize));
        self.segments = segments;
        self.count = count as usize;
        self.begin_copy();
    }

    fn begin_copy(&mut self)
        requires
            old(self).decoded(),
            old(self).back@.len() == 0,
            old(self).link@.len() == header_len(count_of(old(self).link@)),
        ensures
            final(self).wf(),
            final(self).link() == old(self).link(),
            final(self).back() == old(self).back(),
    {
        let seg = first_nonempty(&self.segments, self.count, 0);
        self.seg = seg;
        self.offset = 0;
        if seg < self.count {
            self.phase = Phase::Copy;
        } else {
            self.begin_check();
        }
    }

    fn begin_check(&mut self)
        requires
            old(self).decoded(),
            old(self).back@.len() == 0,
            old(self).link@.len() == header_len(count_of(old(self).link@)) + payload_size(
                old(self).table(),
            ),
        ensures
            final(self).wf(),
            final(self).link() == old(self).link(),
            final(self).back() == old(self).back(),
    {
        let seg = first_nonempty(&self.segments, self.count, 0);
        self.seg = seg;
        self.offset = 0;
        self.crc = Crc32::new();
        if seg < self.count {
            self.phase = Phase::Check;
        } else {
            self.finish_check();
        }
    }

    fn finish_check(&mut self)
        requires
            old(self).decoded(),
            old(self).link@.len() == header_len(count_of(old(self).link@)) + payload_size(
                old(self).table(),
            ),
            old(self).back@.len() == payload_size(old(self).table()),
            old(self).crc@ == fold_bytes(INITIAL, old(self).back@),
        ensures
            final(self).wf(),
            final(self).link() == old(self).link(),
            final(self).back() == old(self).back(),
    {
        let computed = self.crc.finish();
        if computed != self.data_checksum {
            self.phase = Phase::Failed(
                LoadError::DataChecksum { expected: self.data_checksum, computed },
            );
        } else {
            self.phase = Phase::Done;
        }
    }

    fn take_payload_byte(&mut self, b: u8)
        requires
            old(self).wf(),
            old(self).phase is Copy,
        ensures
            final(self).wf(),
            final(self).link() == old(self).link().push(b),
            final(self).back() == old(self).back(),
    {
        proof {
            let hlen = header_len(count_of(self.link@));
            assert(self.link@.push(b).take(hlen) =~= self.link@.take(hlen));
            lemma_header_stable(self.link@, self.link@.push(b));
        }
        self.link = Ghost(self.link@.push(b));
        self.offset = self.offset + 1;
        if self.offset == self.segments[self.seg].size {
            let next = first_nonempty(&self.segments, self.count, self.seg + 1);
            self.seg = next;
            self.offset = 0;
            if next == self.count {
                self.begin_check();
            }
        }
    }

    fn take_check_byte(&mut self, b: u8)
        requires
            old(self).wf(),
            old(self).phase is Check,
        ensures
            final(self).wf(),
            final(self).link() == old(self).link(),
            final(self).back() == old(self).back().push(b),
    {
        proof {
            assert(self.back@.push(b).drop_last() =~= self.back@);
        }
        self.back = Ghost(self.back@.push(b));
        self.crc.crc32_u8(b);
        self.offset = self.offset + 1;
        if self.offset == self.segments[self.seg].size {
            let next = first_nonempty(&self.segments, self.count, self.seg + 1);
            self.seg = next;
            self.offset = 0;
            if next == self.count {
                self.finish_check();
            }
        }
    }
}

} // verus!

verus! {

/// Until the header is complete (and, once the count is known, while it is
/// within `MAX_SEGMENTS`), every byte taken from the link is a header byte:
/// nothing is stored before the header has been checked.
pub proof fn lemma_header_bytes_first(link: Seq<u8>, back: Seq<u8>, n: int)
    requires
        0 <= n <= link.len(),
        n < 8 || (count_of(link) <= MAX_SEGMENTS && n < header_len(count_of(link))),
    ensures
        expected_request(link.take(n), back) == Request::HeaderByte,
{
    if n >= 8 {
        assert(link.take(n).subrange(4, 8) =~= link.subrange(4, 8));
    }
}

/// A count above `MAX_SEGMENTS` aborts the load as soon as the count has
/// been received: no further byte is asked of the link.
pub proof fn lemma_too_many_segments(link: Seq<u8>, back: Seq<u8>)
    requires
        link.len() == 8,
        count_of(link) > MAX_SEGMENTS,
    ensures
        expected_request(link, back) == (Request::Fatal(
            LoadError::TooManySegments { count: count_of(link) },
        )),
        !is_pending(expected_request(link, back)),
{
}

/// A header whose checksum field does not match its CRC-32 aborts the load
/// once the header is complete, before any payload byte is taken.
pub proof fn lemma_bad_header_checksum(link: Seq<u8>, back: Seq<u8>)
    requires
        link.len() >= 8,
        count_of(link) <= MAX_SEGMENTS,
        link.len() == header_len(count_of(link)),
        header_checksum_of(link) != header_digest(link),
    ensures
        expected_request(link, back) == (Request::Fatal(
            LoadError::HeaderChecksum {
                expected: header_checksum_of(link),
                computed: header_digest(link),
            },
        )),
        !is_pending(expected_request(link, back)),
{
}

/// Byte `j` of segment `k` is the payload byte that comes after the header
/// and the bytes of the segments before `k`, and it is stored at the
/// segment's declared address plus `j`: segments are filled verbatim, in
/// declared order.
pub proof fn lemma_payload_destination(link: Seq<u8>, back: Seq<u8>, k: int, j: int)
    requires
        header_accepted(link),
        0 <= k < count_of(link),
        0 <= j < segments_of(link)[k].size,
        link.len() == header_len(count_of(link)) + prefix_size(segments_of(link), k as nat) + j,
    ensures
        expected_request(link, back) == (Request::CopyByte {
            addr: (segments_of(link)[k].addr + j) as u64,
        }),
{
    let segs = segments_of(link);
    lemma_payload_addr_at(segs, k, j);
    lemma_prefix_monotone(segs, (k + 1) as nat, segs.len());
}

/// A load that completes hands back exactly the declared start address, and
/// only after the whole image has been received and its payload, read back
/// from memory, matches the data checksum.
pub proof fn lemma_done_start(link: Seq<u8>, back: Seq<u8>)
    requires
        (expected_request(link, back) is Done),
    ensures
        expected_request(link, back) == (Request::Done { start: start_of(link) }),
        header_accepted(link),
        link.len() >= header_len(count_of(link)) + payload_size(segments_of(link)),
        back.len() >= payload_size(segments_of(link)),
        crc32(back) == data_checksum_of(link),
{
}

/// With no segments, a header whose checksums are right (the data checksum
/// is then that of no bytes, 0) completes the load without taking any
/// payload byte, and hands back the declared start address.
pub proof fn lemma_no_segments(link: Seq<u8>)
    requires
        link.len() == 16,
        count_of(link) == 0,
        header_checksum_of(link) == header_digest(link),
        data_checksum_of(link) == 0,
    ensures
        expected_request(link, Seq::empty()) == (Request::Done { start: start_of(link) }),
{
    assert(!0xFFFF_FFFFu32 == 0) by (bit_vector);
    assert(crc32(Seq::<u8>::empty()) == 0);
}

} // verus!

verus! {

/// A whole run from a fresh loader. Given a stream `link` that holds an
/// accepted header followed by exactly the declared payload, and `back`, the
/// bytes read back from the declared destinations once the payload is copied:
/// the loader first takes every header byte, then stores every payload byte
/// (byte `n` of the stream at the destination of payload byte `n - hlen`, in
/// declared order), then reads each destination back in the same order; only
/// then does it finish. It hands back the declared start address when the
/// read-back bytes match the data checksum, and otherwise aborts with the
/// whole payload already stored.
pub proof fn lemma_full_run(link: Seq<u8>, back: Seq<u8>)
    requires
        header_accepted(link),
        link.len() == header_len(count_of(link)) + payload_size(segments_of(link)),
        back.len() == payload_size(segments_of(link)),
    ensures
        forall|n: int|
            0 <= n < header_len(count_of(link)) ==> #[trigger] expected_request(
                link.take(n),
                Seq::empty(),
            ) == Request::HeaderByte,
        forall|n: int|
            header_len(count_of(link)) <= n < link.len() ==> #[trigger] expected_request(
                link.take(n),
                Seq::empty(),
            ) == (Request::CopyByte {
                addr: payload_addrs(segments_of(link))[n - header_len(count_of(link))] as u64,
            }),
        forall|m: int|
            0 <= m < back.len() ==> #[trigger] expected_request(link, back.take(m)) == (
            Request::CheckByte { addr: payload_addrs(segments_of(link))[m] as u64 }),
        crc32(back) == data_checksum_of(link) ==> expected_request(link, back) == (Request::Done {
            start: start_of(link),
        }),
        crc32(back) != data_checksum_of(link) ==> expected_request(link, back) == Request::Fatal(
            LoadError::DataChecksum { expected: data_checksum_of(link), computed: crc32(back) },
        ),
{
    let hlen = header_len(count_of(link));
    assert forall|n: int| 0 <= n < hlen implies #[trigger] expected_request(
        link.take(n),
        Seq::empty(),
    ) == Request::HeaderByte by {
        lemma_header_bytes_first(link, Seq::empty(), n);
    }
    assert forall|n: int| hlen <= n < link.len() implies #[trigger] expected_request(
        link.take(n),
        Seq::empty(),
    ) == (Request::CopyByte {
        addr: payload_addrs(segments_of(link))[n - hlen] as u64,
    }) by {
        assert(link.take(n).take(hlen) =~= link.take(hlen));
        lemma_header_stable(link, link.take(n));
    }
    assert forall|m: int| 0 <= m < back.len() implies #[trigger] expected_request(
        link,
        back.take(m),
    ) == (Request::CheckByte { addr: payload_addrs(segments_of(link))[m] as u64 }) by {}
}

} // verus!

verus! {

/// Memory `mem` after `bytes[i]` has been stored at `addrs[i]` for each `i`
/// in order: what the copy requests leave behind.
pub open spec fn stored(mem: spec_fn(int) -> u8, addrs: Seq<int>, bytes: Seq<u8>) -> spec_fn(
    int,
) -> u8
    decreases addrs.len(),
{
    if addrs.len() == 0 {
        mem
    } else {
        let before = stored(mem, addrs.drop_last(), bytes);
        let a = addrs.last();
        let b = bytes[addrs.len() - 1];
        |x: int| if x == a { b } else { before(x) }
    }
}

/// After the stores, an address holds the byte of the last store to it, and
/// an address that no store names keeps what it held: overlapping segments
/// are not defended against, the later one wins.
pub proof fn lemma_stored_last_writer(
    mem: spec_fn(int) -> u8,
    addrs: Seq<int>,
    bytes: Seq<u8>,
    x: int,
)
    requires
        bytes.len() == addrs.len(),
    ensures
        (forall|i: int| 0 <= i < addrs.len() ==> addrs[i] != x) ==> stored(mem, addrs, bytes)(x)
            == mem(x),
        forall|i: int|
            0 <= i < addrs.len() && addrs[i] == x && (forall|j: int|
                i < j < addrs.len() ==> addrs[j] != x) ==> #[trigger] bytes[i] == stored(
                mem,
                addrs,
                bytes,
            )(x),
    decreases addrs.len(),
{
    if addrs.len() > 0 {
        let n = addrs.len() - 1;
        let init = addrs.drop_last();
        lemma_stored_last_writer(mem, init, bytes.drop_last(), x);
        assert(stored(mem, init, bytes.drop_last()) == stored(mem, init, bytes)) by {
            lemma_stored_prefix_bytes(mem, init, bytes);
        }
        assert forall|i: int|
            0 <= i < addrs.len() && addrs[i] == x && (forall|j: int|
                i < j < addrs.len() ==> addrs[j] != x) implies #[trigger] bytes[i] == stored(
            mem,
            addrs,
            bytes,
        )(x) by {
            if i < n {
                assert(init[i] == x);
                assert(bytes.drop_last()[i] == bytes[i]);
            }
        }
    }
}

proof fn lemma_stored_prefix_bytes(mem: spec_fn(int) -> u8, addrs: Seq<int>, bytes: Seq<u8>)
    requires
        addrs.len() < bytes.len(),
    ensures
        stored(mem, addrs, bytes.drop_last()) == stored(mem, addrs, bytes),
    decreases addrs.len(),
{
    if addrs.len() > 0 {
        lemma_stored_prefix_bytes(mem, addrs.drop_last(), bytes);
    }
}

/// When no two payload bytes share a destination (the declared regions are
/// disjoint), every payload byte ends up at its destination and every other
/// address keeps what it held.
pub proof fn lemma_disjoint_copy(mem: spec_fn(int) -> u8, addrs: Seq<int>, bytes: Seq<u8>, x: int)
    requires
        bytes.len() == addrs.len(),
        addrs.no_duplicates(),
    ensures
        forall|i: int| 0 <= i < addrs.len() ==> #[trigger] stored(mem, addrs, bytes)(addrs[i]) == bytes[i],
        (forall|i: int| 0 <= i < addrs.len() ==> addrs[i] != x) ==> stored(mem, addrs, bytes)(x)
            == mem(x),
{
    lemma_stored_last_writer(mem, addrs, bytes, x);
    assert forall|i: int| 0 <= i < addrs.len() implies #[trigger] stored(mem, addrs, bytes)(addrs[i])
        == bytes[i] by {
        lemma_stored_last_writer(mem, addrs, bytes, addrs[i]);
    }
}

} // verus!

verus! {

/// For an accepted header followed by its payload, once every copy request
/// has been carried out on memory `mem`, byte `j` of segment `k` sits at the
/// segment's address plus `j` and equals the payload byte the stream carried
/// for it, provided the declared regions do not overlap.
pub proof fn lemma_image_in_memory(mem: spec_fn(int) -> u8, link: Seq<u8>, k: int, j: int)
    requires
        header_accepted(link),
        link.len() == header_len(count_of(link)) + payload_size(segments_of(link)),
        payload_addrs(segments_of(link)).no_duplicates(),
        0 <= k < count_of(link),
        0 <= j < segments_of(link)[k].size,
    ensures
        stored(
            mem,
            payload_addrs(segments_of(link)),
            link.subrange(header_len(count_of(link)), link.len() as int),
        )(segments_of(link)[k].addr + j) == link[header_len(count_of(link)) + prefix_size(
            segments_of(link),
            k as nat,
        ) + j],
{
    let segs = segments_of(link);
    let hlen = header_len(count_of(link));
    let payload = link.subrange(hlen, link.len() as int);
    assert(segs.len() == count_of(link));
    lemma_payload_addrs_len(segs);
    lemma_payload_addr_at(segs, k, j);
    lemma_prefix_monotone(segs, (k + 1) as nat, segs.len());
    lemma_prefix_monotone(segs, 0, k as nat);
    assert(payload.len() == payload_size(segs));
    lemma_disjoint_copy(mem, payload_addrs(segs), payload, segs[k].addr + j);
    assert(segs.len() == count_of(link));
    assert(prefix_size(segs, (k + 1) as nat) == prefix_size(segs, k as nat) + segs[k].size);
    let i = prefix_size(segs, k as nat) + j;
    assert(0 <= i < payload.len());
    assert(payload[i] == link[hlen + i]);
    assert(payload_addrs(segs)[i] == segs[k].addr + j);
    assert(stored(mem, payload_addrs(segs), payload)(payload_addrs(segs)[i]) == payload[i]);
}

} // verus!
