//! The batch codec: packs a contiguous frame range of a WAL file into one
//! upload body, optionally gzip-compressed, and reads such a body back frame
//! by frame during restore, checking the checksum chain when asked to.

use std::io::Read;
use std::io::Write;
use vstd::prelude::*;
use crate::encoding::{spec_be_value, read_u32_be, read_u64_be, lemma_be_value_bound};
use crate::error::ReplicationError;
use crate::wal::{
    WalFileReader, FrameHeader, spec_frame_size, spec_frame_offset, spec_frame_crc, checksum_frame,
    push_bytes_range, spec_valid_page_size,
};

verus! {

/// What a decompressor makes of a byte string: the decompressed bytes, or
/// nothing when the input is not valid compressed data. Named here because
/// the result is a pure function of the bytes that takes pages to state.
pub uninterp spec fn gunzip_of(s: Seq<u8>) -> Option<Seq<u8>>;

/// Relies on `flate2::write::GzEncoder`: gzip is lossless, so decompressing
/// the result gives the input back. Writing into a vector cannot fail.
#[verifier::external_body]
pub fn gzip_compress(data: &Vec<u8>) -> (r: Vec<u8>)
    ensures
        gunzip_of(r@) == Some(data@),
{
    let mut enc = flate2::write::GzEncoder::new(Vec::new(), flate2::Compression::default());
    enc.write_all(data).expect("writing to a vector cannot fail");
    enc.finish().expect("writing to a vector cannot fail")
}

/// Relies on `flate2::read::GzDecoder`: it yields the decompressed bytes,
/// or an error on input that is not valid gzip data.
#[verifier::external_body]
pub fn gzip_decompress(data: &Vec<u8>) -> (r: Option<Vec<u8>>)
    ensures
        r is Some <==> gunzip_of(data@) is Some,
        r is Some ==> gunzip_of(data@) == Some(r.unwrap()@),
{
    let mut dec = flate2::read::GzDecoder::new(data.as_slice());
    let mut out = Vec::new();
    match dec.read_to_end(&mut out) {
        Ok(_) => Some(out),
        Err(_) => None,
    }
}

/// The frame bytes a batch body stands for: the body itself, or what it
/// decompresses to.
pub open spec fn spec_batch_plain(body: Seq<u8>, compressed: bool) -> Option<Seq<u8>> {
    if compressed {
        gunzip_of(body)
    } else {
        Some(body)
    }
}

/// The raw bytes of frames `start .. end` of a WAL file.
pub open spec fn spec_frames_bytes(wal: Seq<u8>, ps: int, start: int, end: int) -> Seq<u8> {
    wal.subrange(spec_frame_offset(ps, start), spec_frame_offset(ps, end))
}

/// Packs the frame range `[start, end)` of a WAL file into one upload body.
pub struct BatchWriter {
    pub use_compression: bool,
    pub start: u32,
    pub end: u32,
}

impl BatchWriter {
    /// A writer for the half-open frame range `[start, end)`.
    pub fn new(use_compression: bool, start: u32, end: u32) -> (r: BatchWriter)
        ensures
            r.use_compression == use_compression,
            r.start == start,
            r.end == end,
    {
        BatchWriter { use_compression, start, end }
    }

    /// The body holding the range's frames: their raw bytes, compressed when
    /// the writer was made with compression.
    pub fn read_frames(&self, wal: &WalFileReader) -> (r: Vec<u8>)
        requires
            wal.wf(),
            1 <= self.start < self.end,
            self.end - 1 <= wal.frame_count,
        ensures
            spec_batch_plain(r@, self.use_compression) == Some(
                spec_frames_bytes(
                    wal.data@,
                    wal.page_size as int,
                    self.start as int,
                    self.end as int,
                ),
            ),
    {
        let mut raw: Vec<u8> = Vec::new();
        wal.copy_frames(self.start, self.end - self.start, &mut raw);
        proof {
            assert(raw@ =~= spec_frames_bytes(
                wal.data@,
                wal.page_size as int,
                self.start as int,
                self.end as int,
            ));
        }
        if self.use_compression {
            gzip_compress(&raw)
        } else {
            raw
        }
    }
}

/// Number of whole frames in a plain frame-byte string.
pub open spec fn spec_body_frame_count(plain: Seq<u8>, ps: int) -> int {
    plain.len() as int / spec_frame_size(ps)
}

/// The header of the `idx`-th frame (0-based) of a plain frame-byte string.
pub open spec fn spec_body_frame_header(plain: Seq<u8>, ps: int, idx: int) -> FrameHeader {
    let off = idx * spec_frame_size(ps);
    FrameHeader {
        pgno: spec_be_value(plain.subrange(off, off + 4)) as u32,
        size_after: spec_be_value(plain.subrange(off + 4, off + 8)) as u32,
        crc: spec_be_value(plain.subrange(off + 16, off + 24)) as u64,
    }
}

/// The page of the `idx`-th frame (0-based) of a plain frame-byte string.
pub open spec fn spec_body_frame_page(plain: Seq<u8>, ps: int, idx: int) -> Seq<u8> {
    let off = idx * spec_frame_size(ps);
    plain.subrange(off + 24, off + 24 + ps)
}

/// Reads a batch body frame by frame; the symmetric half of `BatchWriter`.
pub struct BatchReader {
    pub plain: Vec<u8>,
    pub page_size: u32,
    pub idx: usize,
    pub first_frame_no: u32,
    pub prev_crc: u64,
    pub verify_crc: bool,
}

impl BatchReader {
    /// The reader's fields stay within the body.
    pub open spec fn wf(&self) -> bool {
        &&& spec_valid_page_size(self.page_size as int)
        &&& self.idx as int <= spec_body_frame_count(self.plain@, self.page_size as int)
    }

    /// The frame number the next read stands at.
    pub open spec fn spec_next_frame_no(&self) -> int {
        self.first_frame_no + self.idx
    }

    /// Opens a batch body whose first frame is frame `first_frame_no`.
    /// When `verify_from` carries the checksum of the frame before the batch,
    /// every frame read is checked to continue the chain. Fails exactly when
    /// a compressed body does not decompress.
    pub fn new(
        first_frame_no: u32,
        body: Vec<u8>,
        page_size: u32,
        use_compression: bool,
        verify_from: Option<u64>,
    ) -> (r: Result<BatchReader, ReplicationError>)
        requires
            spec_valid_page_size(page_size as int),
        ensures
            match r {
                Ok(reader) => {
                    &&& spec_batch_plain(body@, use_compression) == Some(reader.plain@)
                    &&& reader.wf()
                    &&& reader.idx == 0
                    &&& reader.first_frame_no == first_frame_no
                    &&& reader.page_size == page_size
                    &&& reader.verify_crc == (verify_from is Some)
                    &&& (verify_from matches Some(c) ==> reader.prev_crc == c)
                },
                Err(e) => e == ReplicationError::WalMalformed && spec_batch_plain(
                    body@,
                    use_compression,
                ) is None,
            },
    {
        let plain = if use_compression {
            match gzip_decompress(&body) {
                Some(p) => p,
                None => {
                    return Err(ReplicationError::WalMalformed);
                },
            }
        } else {
            body
        };
        proof {
            vstd::arithmetic::div_mod::lemma_div_pos_is_pos(
                plain@.len() as int,
                24 + page_size as int,
            );
        }
        let (prev_crc, verify_crc): (u64, bool) = match verify_from {
            Some(c) => (c, true),
            None => (0, false),
        };
        Ok(
            BatchReader {
                plain,
                page_size,
                idx: 0,
                first_frame_no,
                prev_crc,
                verify_crc,
            },
        )
    }

    /// How many whole frames the body holds.
    pub fn frame_count(&self) -> (r: usize)
        requires
            self.wf(),
        ensures
            r as int == spec_body_frame_count(self.plain@, self.page_size as int),
    {
        let n = self.plain.len();
        let fs: usize = 24 + self.page_size as usize;
        n / fs
    }

    /// Reads the next frame: its header and its page. Returns `None` past the
    /// last whole frame. With checking on, fails exactly when the frame's
    /// checksum does not continue the chain, and advances past nothing.
    pub fn next_frame(&mut self) -> (r: Result<Option<(FrameHeader, Vec<u8>)>, ReplicationError>)
        requires
            old(self).wf(),
        ensures
            final(self).wf(),
            final(self).plain == old(self).plain,
            final(self).page_size == old(self).page_size,
            final(self).first_frame_no == old(self).first_frame_no,
            final(self).verify_crc == old(self).verify_crc,
            ({
                let plain = old(self).plain@;
                let ps = old(self).page_size as int;
                let i = old(self).idx as int;
                match r {
                    Ok(Some((h, page))) => {
                        &&& i < spec_body_frame_count(plain, ps)
                        &&& h == spec_body_frame_header(plain, ps, i)
                        &&& page@ == spec_body_frame_page(plain, ps, i)
                        &&& page@.len() == old(self).page_size
                        &&& final(self).idx == i + 1
                        &&& final(self).prev_crc == h.crc
                        &&& (old(self).verify_crc ==> h.crc == spec_frame_crc(
                            old(self).prev_crc,
                            h.pgno,
                            h.size_after,
                            page@,
                        ))
                    },
                    Ok(None) => {
                        &&& i == spec_body_frame_count(plain, ps)
                        &&& *final(self) == *old(self)
                    },
                    Err(e) => {
                        &&& e == ReplicationError::CrcMismatch
                        &&& old(self).verify_crc
                        &&& i < spec_body_frame_count(plain, ps)
                        &&& spec_body_frame_header(plain, ps, i).crc != spec_frame_crc(
                            old(self).prev_crc,
                            spec_body_frame_header(plain, ps, i).pgno,
                            spec_body_frame_header(plain, ps, i).size_after,
                            spec_body_frame_page(plain, ps, i),
                        )
                        &&& *final(self) == *old(self)
                    },
                }
            }),
    {
        let n = self.plain.len();
        let fs: usize = 24 + self.page_size as usize;
        let count = n / fs;
        if self.idx >= count {
            proof {
                assert(self.idx as int == spec_body_frame_count(
                    self.plain@,
                    self.page_size as int,
                ));
            }
            return Ok(None);
        }
        proof {
            lemma_frame_in_body(n as int, fs as int, self.idx as int);
        }
        let off: usize = self.idx * fs;
        let pgno = read_u32_be(&self.plain, off);
        let size_after = read_u32_be(&self.plain, off + 4);
        let crc = read_u64_be(&self.plain, off + 16);
        proof {
            let o = off as int;
            lemma_be_value_bound(self.plain@.subrange(o, o + 4));
            lemma_be_value_bound(self.plain@.subrange(o + 4, o + 8));
            lemma_be_value_bound(self.plain@.subrange(o + 16, o + 24));
            crate::meta::lemma_pow256_small();
        }
        let header = FrameHeader { pgno, size_after, crc };
        let mut page: Vec<u8> = Vec::new();
        push_bytes_range(&mut page, &self.plain, off + 24, off + 24 + self.page_size as usize);
        if self.verify_crc {
            proof {
                assert(page@.len() % 8 == 0) by {
                    assert(self.page_size as int % 8 == 0);
                }
            }
            let expected = checksum_frame(self.prev_crc, pgno, size_after, &page);
            if expected != crc {
                return Err(ReplicationError::CrcMismatch);
            }
        }
        self.idx = self.idx + 1;
        self.prev_crc = crc;
        Ok(Some((header, page)))
    }
}

/// The `idx`-th frame of a body of `n` bytes with frame size `fs` lies
/// entirely inside the body.
proof fn lemma_frame_in_body(n: int, fs: int, idx: int)
    requires
        fs >= 1,
        n >= 0,
        0 <= idx < n / fs,
    ensures
        idx * fs >= 0,
        idx * fs + fs <= n,
{
    vstd::arithmetic::div_mod::lemma_fundamental_div_mod(n, fs);
    vstd::arithmetic::div_mod::lemma_mod_division_less_than_divisor(n, fs);
    assert(idx * fs + fs <= (n / fs) * fs) by (nonlinear_arith)
        requires
            idx < n / fs,
            fs >= 1,
    ;
    assert((n / fs) * fs <= n) by (nonlinear_arith)
        requires
            n == fs * (n / fs) + n % fs,
            n % fs >= 0,
    ;
    assert(idx * fs >= 0) by (nonlinear_arith)
        requires
            idx >= 0,
            fs >= 1,
    ;
}

/// Decoding what `BatchWriter` packed gives back exactly the WAL's frames:
/// frame `start + i` of the WAL is the `i`-th frame of the body.
pub proof fn lemma_codec_roundtrip(wal: Seq<u8>, ps: int, start: int, end: int, i: int)
    requires
        ps >= 1,
        1 <= start <= end,
        0 <= i < end - start,
        spec_frame_offset(ps, end) <= wal.len(),
    ensures
        spec_body_frame_count(spec_frames_bytes(wal, ps, start, end), ps) == end - start,
        spec_body_frame_header(spec_frames_bytes(wal, ps, start, end), ps, i)
            == crate::wal::spec_frame_header(wal, ps, start + i),
        spec_body_frame_page(spec_frames_bytes(wal, ps, start, end), ps, i)
            == crate::wal::spec_frame_page(wal, ps, start + i),
{
    let fs = spec_frame_size(ps);
    let body = spec_frames_bytes(wal, ps, start, end);
    let off_s = spec_frame_offset(ps, start);
    let off_e = spec_frame_offset(ps, end);
    assert(0 <= off_s && off_s <= off_e && off_e - off_s == (end - start) * fs)
        by (nonlinear_arith)
        requires
            fs >= 25,
            1 <= start <= end,
            off_s == 32 + (start - 1) * fs,
            off_e == 32 + (end - 1) * fs,
    ;
    let blen: int = body.len() as int;
    assert(blen == (end - start) * fs);
    assert(blen / fs == end - start) by (nonlinear_arith)
        requires
            blen == (end - start) * fs,
            fs >= 1,
            end >= start,
    ;
    let off = i * fs;
    assert(off >= 0) by (nonlinear_arith)
        requires
            i >= 0,
            fs >= 1,
            off == i * fs,
    ;
    assert(off + fs <= blen) by (nonlinear_arith)
        requires
            0 <= i < end - start,
            fs >= 1,
            blen == (end - start) * fs,
            off == i * fs,
    ;
    assert(off_s + off == spec_frame_offset(ps, start + i)) by {
        vstd::arithmetic::mul::lemma_mul_is_distributive_add_other_way(fs, start - 1, i);
    }
    let woff = spec_frame_offset(ps, start + i);
    assert(body.subrange(off, off + 4) =~= wal.subrange(woff, woff + 4));
    assert(body.subrange(off + 4, off + 8) =~= wal.subrange(woff + 4, woff + 8));
    assert(body.subrange(off + 16, off + 24) =~= wal.subrange(woff + 16, woff + 24));
    assert(body.subrange(off + 24, off + 24 + ps) =~= wal.subrange(woff + 24, woff + 24 + ps));
}

} // verus!
