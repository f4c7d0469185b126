//! A read-only model of a write-ahead log file: header fields, frame headers,
//! frame payloads, and the running checksum chain that links the frames.
//!
//! A WAL file is a 32-byte header followed by frames. Each frame is a 24-byte
//! header (page number, commit size, salts, checksum) followed by one page of
//! payload. Frames are 1-indexed. A frame commits a transaction exactly when
//! its commit size is non-zero.

use vstd::prelude::*;
use crate::encoding::{spec_be_value, read_u32_be, read_u64_be, lemma_be_value_bound};
use crate::error::ReplicationError;

verus! {

/// The page sizes a WAL file may declare.
pub open spec fn spec_valid_page_size(ps: int) -> bool {
    ps == 512 || ps == 1024 || ps == 2048 || ps == 4096 || ps == 8192 || ps == 16384 || ps == 32768
        || ps == 65536
}

/// Bytes one frame occupies: its header plus one page.
pub open spec fn spec_frame_size(ps: int) -> int {
    24 + ps
}

/// Byte offset of frame `k` (1-indexed) in a WAL file with page size `ps`.
pub open spec fn spec_frame_offset(ps: int, k: int) -> int {
    32 + (k - 1) * spec_frame_size(ps)
}

/// How many whole frames a file of `len` bytes holds.
pub open spec fn spec_wal_frame_count(len: int, ps: int) -> int {
    (len - 32) / spec_frame_size(ps)
}

/// The page size a WAL header declares.
pub open spec fn spec_wal_page_size(s: Seq<u8>) -> int {
    spec_be_value(s.subrange(8, 12))
}

/// The checksum a WAL header carries.
pub open spec fn spec_wal_checksum(s: Seq<u8>) -> int {
    spec_be_value(s.subrange(24, 32))
}

/// A well-formed WAL file header: long enough, the magic that names
/// big-endian checksum words — the order this crate's chain computes in —
/// a valid page size, and a frame count that fits a 32-bit number.
pub open spec fn spec_wal_header_ok(s: Seq<u8>) -> bool {
    &&& s.len() >= 32
    &&& spec_be_value(s.subrange(0, 4)) == 0x377f0683
    &&& spec_valid_page_size(spec_wal_page_size(s))
    &&& spec_wal_frame_count(s.len() as int, spec_wal_page_size(s)) <= u32::MAX
}

/// One frame's header: the page it writes, the database size in pages after
/// the frame if it commits a transaction (zero otherwise), and its checksum.
#[derive(Clone, Copy, Debug, PartialEq, Eq, Structural)]
pub struct FrameHeader {
    pub pgno: u32,
    pub size_after: u32,
    pub crc: u64,
}

impl FrameHeader {
    /// A frame commits a transaction exactly when its commit size is non-zero.
    pub fn is_committed(&self) -> (r: bool)
        ensures
            r == (self.size_after != 0),
    {
        self.size_after != 0
    }
}

/// The header of frame `k` (1-indexed) in WAL bytes `s` with page size `ps`.
pub open spec fn spec_frame_header(s: Seq<u8>, ps: int, k: int) -> FrameHeader {
    let off = spec_frame_offset(ps, k);
    FrameHeader {
        pgno: spec_be_value(s.subrange(off, off + 4)) as u32,
        size_after: spec_be_value(s.subrange(off + 4, off + 8)) as u32,
        crc: spec_be_value(s.subrange(off + 16, off + 24)) as u64,
    }
}

/// The payload page of frame `k` (1-indexed).
pub open spec fn spec_frame_page(s: Seq<u8>, ps: int, k: int) -> Seq<u8> {
    let off = spec_frame_offset(ps, k);
    s.subrange(off + 24, off + 24 + ps)
}

/// A WAL file held in memory, with its header already checked.
pub struct WalFileReader {
    pub data: Vec<u8>,
    pub page_size: u32,
    pub checksum: u64,
    pub frame_count: u32,
}

impl WalFileReader {
    /// The cached fields agree with the bytes.
    pub open spec fn wf(&self) -> bool {
        &&& spec_wal_header_ok(self.data@)
        &&& self.page_size as int == spec_wal_page_size(self.data@)
        &&& self.checksum as int == spec_wal_checksum(self.data@)
        &&& self.frame_count as int == spec_wal_frame_count(
            self.data@.len() as int,
            self.page_size as int,
        )
    }

    /// Checks the header of `data` and takes ownership of it. Fails exactly
    /// on a malformed header.
    pub fn open(data: Vec<u8>) -> (r: Result<WalFileReader, ReplicationError>)
        ensures
            match r {
                Ok(w) => spec_wal_header_ok(data@) && w.wf() && w.data@ == data@,
                Err(e) => e == ReplicationError::WalMalformed && !spec_wal_header_ok(data@),
            },
    {
        let n = data.len();
        if n < 32 {
            return Err(ReplicationError::WalMalformed);
        }
        let magic = read_u32_be(&data, 0);
        proof {
            lemma_be_value_bound(data@.subrange(0, 4));
        }
        if magic != 0x377f0683 {
            return Err(ReplicationError::WalMalformed);
        }
        let ps = read_u32_be(&data, 8);
        proof {
            lemma_be_value_bound(data@.subrange(8, 12));
        }
        if !(ps == 512 || ps == 1024 || ps == 2048 || ps == 4096 || ps == 8192 || ps == 16384 || ps
            == 32768 || ps == 65536) {
            return Err(ReplicationError::WalMalformed);
        }
        let checksum = read_u64_be(&data, 24);
        proof {
            lemma_be_value_bound(data@.subrange(24, 32));
        }
        let fs: usize = 24 + ps as usize;
        let fc: usize = (n - 32) / fs;
        if fc > 0xFFFF_FFFF {
            return Err(ReplicationError::WalMalformed);
        }
        Ok(
            WalFileReader {
                data,
                page_size: ps,
                checksum,
                frame_count: fc as u32,
            },
        )
    }

    /// The page size the WAL header declares.
    pub fn page_size(&self) -> (r: u32)
        ensures
            r == self.page_size,
    {
        self.page_size
    }

    /// The checksum the WAL header carries.
    pub fn checksum(&self) -> (r: u64)
        ensures
            r == self.checksum,
    {
        self.checksum
    }

    /// How many whole frames the file holds.
    pub fn frame_count(&self) -> (r: u32)
        ensures
            r == self.frame_count,
    {
        self.frame_count
    }

    /// Byte offset of frame `frame_no`, with room for the whole frame.
    fn frame_offset(&self, frame_no: u32) -> (r: usize)
        requires
            self.wf(),
            1 <= frame_no <= self.frame_count,
        ensures
            r as int == spec_frame_offset(self.page_size as int, frame_no as int),
            r + spec_frame_size(self.page_size as int) <= self.data@.len(),
    {
        let n = self.data.len();
        let fs: usize = 24 + self.page_size as usize;
        proof {
            lemma_frames_fit(
                n as int,
                self.page_size as int,
                self.frame_count as int,
                frame_no as int,
            );
            assert(spec_frame_offset(self.page_size as int, frame_no as int) == 32 + (
            frame_no as int - 1) * (24 + self.page_size as int));
            assert((frame_no as int - 1) * (24 + self.page_size as int) <= n as int - 32);
        }
        32 + (frame_no as usize - 1) * fs
    }

    /// Reads the header of frame `frame_no` (1-indexed).
    pub fn read_frame_header(&self, frame_no: u32) -> (h: FrameHeader)
        requires
            self.wf(),
            1 <= frame_no <= self.frame_count,
        ensures
            h == spec_frame_header(self.data@, self.page_size as int, frame_no as int),
    {
        let n = self.data.len();
        let off = self.frame_offset(frame_no);
        assert(off + 24 <= n);
        let pgno = read_u32_be(&self.data, off);
        let size_after = read_u32_be(&self.data, off + 4);
        let crc = read_u64_be(&self.data, off + 16);
        proof {
            let o = off as int;
            lemma_be_value_bound(self.data@.subrange(o, o + 4));
            lemma_be_value_bound(self.data@.subrange(o + 4, o + 8));
            lemma_be_value_bound(self.data@.subrange(o + 16, o + 24));
            crate::meta::lemma_pow256_small();
        }
        FrameHeader { pgno, size_after, crc }
    }

    /// Appends the raw bytes of frames `start_frame .. start_frame + count`
    /// (headers and pages) to `out`.
    pub fn copy_frames(&self, start_frame: u32, count: u32, out: &mut Vec<u8>)
        requires
            self.wf(),
            1 <= start_frame,
            count >= 1,
            start_frame + count - 1 <= self.frame_count,
        ensures
            final(out)@ == old(out)@ + self.data@.subrange(
                spec_frame_offset(self.page_size as int, start_frame as int),
                spec_frame_offset(self.page_size as int, start_frame as int + count as int),
            ),
    {
        let n = self.data.len();
        let from = self.frame_offset(start_frame);
        let last = self.frame_offset(start_frame - 1 + count);
        let fs: usize = 24 + self.page_size as usize;
        let to = last + fs;
        assert(to <= n);
        proof {
            lemma_offset_step(
                self.page_size as int,
                start_frame as int + count as int - 1,
            );
            vstd::arithmetic::mul::lemma_mul_inequality(
                start_frame as int - 1,
                start_frame as int + count as int - 2,
                spec_frame_size(self.page_size as int),
            );
            assert(from <= to);
        }
        push_bytes_range(out, &self.data, from, to);
    }
}

/// Offsets of consecutive frames differ by one frame size.
pub proof fn lemma_offset_step(ps: int, k: int)
    ensures
        spec_frame_offset(ps, k) + spec_frame_size(ps) == spec_frame_offset(ps, k + 1),
{
    assert((k - 1) * spec_frame_size(ps) + spec_frame_size(ps) == k * spec_frame_size(ps))
        by (nonlinear_arith);
}

/// Every frame up to the frame count lies inside the file.
pub proof fn lemma_frames_fit(len: int, ps: int, fc: int, k: int)
    requires
        len >= 32,
        ps >= 1,
        fc == spec_wal_frame_count(len, ps),
        1 <= k <= fc,
    ensures
        spec_frame_offset(ps, k) + spec_frame_size(ps) <= len,
        spec_frame_offset(ps, k) >= 32,
{
    let fs = spec_frame_size(ps);
    vstd::arithmetic::div_mod::lemma_fundamental_div_mod(len - 32, fs);
    vstd::arithmetic::div_mod::lemma_mod_division_less_than_divisor(len - 32, fs);
    assert(fc * fs <= len - 32) by (nonlinear_arith)
        requires
            len - 32 == fs * fc + (len - 32) % fs,
            (len - 32) % fs >= 0,
    ;
    assert((k - 1) * fs + fs <= fc * fs) by (nonlinear_arith)
        requires
            k <= fc,
            fs >= 1,
    ;
    assert((k - 1) * fs >= 0) by (nonlinear_arith)
        requires
            k >= 1,
            fs >= 1,
    ;
}

/// Appends `src[from .. to]` to `out`.
pub fn push_bytes_range(out: &mut Vec<u8>, src: &Vec<u8>, from: usize, to: usize)
    requires
        from <= to,
        to <= src@.len(),
    ensures
        final(out)@ == old(out)@ + src@.subrange(from as int, to as int),
{
    let mut i: usize = from;
    while i < to
        invariant
            from <= i <= to <= src@.len(),
            out@ == old(out)@ + src@.subrange(from as int, i as int),
        decreases to - i,
    {
        let n = src.len();
        out.push(src[i]);
        i = i + 1;
        proof {
            assert(out@ =~= old(out)@ + src@.subrange(from as int, i as int));
        }
    }
    proof {
        assert(out@ =~= old(out)@ + src@.subrange(from as int, to as int));
    }
}

/// The last frame among `1 ..= upto` that commits a transaction, or 0 when
/// none does.
pub open spec fn spec_last_commit_frame(s: Seq<u8>, ps: int, upto: int) -> int
    decreases upto,
{
    if upto <= 0 {
        0
    } else if spec_frame_header(s, ps, upto).size_after != 0 {
        upto
    } else {
        spec_last_commit_frame(s, ps, upto - 1)
    }
}

/// The last committing frame lies in `0 ..= upto`.
pub proof fn lemma_last_commit_frame_bound(s: Seq<u8>, ps: int, upto: int)
    ensures
        0 <= spec_last_commit_frame(s, ps, upto) <= vstd::math::max(upto, 0),
    decreases upto,
{
    if upto > 0 {
        lemma_last_commit_frame_bound(s, ps, upto - 1);
    }
}

/// One checksum step over a pair of 32-bit words: the two halves of the
/// running value each absorb one word and the other half.
pub open spec fn spec_crc_step(crc: u64, w1: int, w2: int) -> u64 {
    let s1 = crc as int / 0x100000000;
    let s2 = crc as int % 0x100000000;
    let t1 = (s1 + w1 + s2) % 0x100000000;
    let t2 = (s2 + w2 + t1) % 0x100000000;
    (t1 * 0x100000000 + t2) as u64
}

/// The checksum chain over whole 8-byte chunks of `s`.
pub open spec fn spec_crc_chain(crc: u64, s: Seq<u8>) -> u64
    decreases s.len(),
{
    if s.len() < 8 {
        crc
    } else {
        spec_crc_chain(
            spec_crc_step(
                crc,
                spec_be_value(s.subrange(0, 4)),
                spec_be_value(s.subrange(4, 8)),
            ),
            s.skip(8),
        )
    }
}

/// The checksum of a frame, continuing `prev`: the frame header's first two
/// words, then the whole page.
pub open spec fn spec_frame_crc(prev: u64, pgno: u32, size_after: u32, page: Seq<u8>) -> u64 {
    spec_crc_chain(spec_crc_step(prev, pgno as int, size_after as int), page)
}

/// One executable checksum step.
pub fn crc_step(crc: u64, w1: u32, w2: u32) -> (r: u64)
    ensures
        r == spec_crc_step(crc, w1 as int, w2 as int),
{
    let s1: u64 = crc / 0x100000000;
    let s2: u64 = crc % 0x100000000;
    let t1: u64 = (s1 + w1 as u64 + s2) % 0x100000000;
    let t2: u64 = (s2 + w2 as u64 + t1) % 0x100000000;
    t1 * 0x100000000 + t2
}

/// The checksum of one frame given the checksum of the one before it.
#[verifier::rlimit(50)]
#[verifier::spinoff_prover]
pub fn checksum_frame(prev: u64, pgno: u32, size_after: u32, page: &Vec<u8>) -> (r: u64)
    requires
        page@.len() % 8 == 0,
    ensures
        r == spec_frame_crc(prev, pgno, size_after, page@),
{
    let mut crc = crc_step(prev, pgno, size_after);
    let n = page.len();
    let mut i: usize = 0;
    proof {
        assert(page@.skip(0) =~= page@);
    }
    while i < n
        invariant
            i % 8 == 0,
            i <= n == page@.len(),
            n % 8 == 0,
            spec_crc_chain(crc, page@.skip(i as int)) == spec_frame_crc(
                prev,
                pgno,
                size_after,
                page@,
            ),
        decreases n - i,
    {
        proof {
            assert(i + 8 <= n) by {
                vstd::arithmetic::div_mod::lemma_fundamental_div_mod(i as int, 8);
                vstd::arithmetic::div_mod::lemma_fundamental_div_mod(n as int, 8);
            }
        }
        let w1 = read_u32_be(page, i);
        let w2 = read_u32_be(page, i + 4);
        proof {
            let rest = page@.skip(i as int);
            assert(rest.len() >= 8);
            assert(rest.subrange(0, 4) =~= page@.subrange(i as int, i as int + 4));
            assert(rest.subrange(4, 8) =~= page@.subrange(i as int + 4, i as int + 8));
            assert(rest.skip(8) =~= page@.skip(i as int + 8));
            lemma_be_value_bound(rest.subrange(0, 4));
            lemma_be_value_bound(rest.subrange(4, 8));
            crate::meta::lemma_pow256_small();
        }
        crc = crc_step(crc, w1, w2);
        i = i + 8;
    }
    proof {
        assert(i == n);
        assert(page@.skip(n as int) =~= Seq::<u8>::empty());
    }
    crc
}

} // verus!
