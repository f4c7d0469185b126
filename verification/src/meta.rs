//! The fixed-size sentinel objects kept beside the frame batches of a
//! generation: the consistency marker, the generation metadata, and the
//! database change counter.

use vstd::prelude::*;
use crate::encoding::{
    spec_be_bytes, spec_be_value, pow256, lemma_be_value_of_bytes, lemma_be_bytes_len, push_u32_be,
    push_u64_be, read_u32_be, read_u64_be,
};

verus! {

/// Bytes of the consistency marker: page size, last consistent frame, and the
/// checksum of that frame, each big-endian.
pub open spec fn spec_consistent_bytes(page_size: u32, last_frame: u32, checksum: u64) -> Seq<u8> {
    spec_be_bytes(page_size as int, 4) + spec_be_bytes(last_frame as int, 4) + spec_be_bytes(
        checksum as int,
        8,
    )
}

/// Bytes of the generation metadata object: page size and the WAL header
/// checksum, each big-endian.
pub open spec fn spec_meta_bytes(page_size: u32, wal_checksum: u64) -> Seq<u8> {
    spec_be_bytes(page_size as int, 4) + spec_be_bytes(wal_checksum as int, 8)
}

/// Encodes the consistency marker.
pub fn encode_consistent(page_size: u32, last_frame: u32, checksum: u64) -> (r: Vec<u8>)
    ensures
        r@ == spec_consistent_bytes(page_size, last_frame, checksum),
        r@.len() == 16,
{
    let mut out: Vec<u8> = Vec::new();
    push_u32_be(&mut out, page_size);
    push_u32_be(&mut out, last_frame);
    push_u64_be(&mut out, checksum);
    proof {
        lemma_be_bytes_len(page_size as int, 4);
        lemma_be_bytes_len(last_frame as int, 4);
        lemma_be_bytes_len(checksum as int, 8);
        assert(out@ =~= spec_consistent_bytes(page_size, last_frame, checksum));
    }
    out
}

/// What a consistency marker holds, read from its first 16 bytes.
pub open spec fn spec_parse_consistent(s: Seq<u8>) -> Option<(u32, u32, u64)> {
    if s.len() >= 16 {
        Some(
            (
                spec_be_value(s.subrange(0, 4)) as u32,
                spec_be_value(s.subrange(4, 8)) as u32,
                spec_be_value(s.subrange(8, 16)) as u64,
            ),
        )
    } else {
        None
    }
}

/// Decodes a consistency marker; absent or short bodies give `None`.
pub fn decode_consistent(v: &Vec<u8>) -> (r: Option<(u32, u32, u64)>)
    ensures
        r == spec_parse_consistent(v@),
{
    if v.len() < 16 {
        return None;
    }
    let page_size = read_u32_be(v, 0);
    let last_frame = read_u32_be(v, 4);
    let checksum = read_u64_be(v, 8);
    proof {
        crate::encoding::lemma_be_value_bound(v@.subrange(0, 4));
        crate::encoding::lemma_be_value_bound(v@.subrange(4, 8));
        crate::encoding::lemma_be_value_bound(v@.subrange(8, 16));
        lemma_pow256_small();
    }
    Some((page_size, last_frame, checksum))
}

/// Encodes the generation metadata object.
pub fn encode_meta(page_size: u32, wal_checksum: u64) -> (r: Vec<u8>)
    ensures
        r@ == spec_meta_bytes(page_size, wal_checksum),
        r@.len() == 12,
{
    let mut out: Vec<u8> = Vec::new();
    push_u32_be(&mut out, page_size);
    push_u64_be(&mut out, wal_checksum);
    proof {
        lemma_be_bytes_len(page_size as int, 4);
        lemma_be_bytes_len(wal_checksum as int, 8);
        assert(out@ =~= spec_meta_bytes(page_size, wal_checksum));
    }
    out
}

/// What a metadata object holds, read from its first 12 bytes.
pub open spec fn spec_parse_meta(s: Seq<u8>) -> Option<(u32, u64)> {
    if s.len() >= 12 {
        Some(
            (
                spec_be_value(s.subrange(0, 4)) as u32,
                spec_be_value(s.subrange(4, 12)) as u64,
            ),
        )
    } else {
        None
    }
}

/// Decodes a generation metadata object.
pub fn decode_meta(v: &Vec<u8>) -> (r: Option<(u32, u64)>)
    ensures
        r == spec_parse_meta(v@),
{
    if v.len() < 12 {
        return None;
    }
    let page_size = read_u32_be(v, 0);
    let wal_checksum = read_u64_be(v, 4);
    proof {
        crate::encoding::lemma_be_value_bound(v@.subrange(0, 4));
        crate::encoding::lemma_be_value_bound(v@.subrange(4, 12));
        lemma_pow256_small();
    }
    Some((page_size, wal_checksum))
}

/// The powers of 256 the fixed-width fields use.
pub proof fn lemma_pow256_small()
    ensures
        pow256(4) == 0x100000000,
        pow256(8) == 0x10000000000000000,
{
    assert(pow256(0) == 1);
    assert(pow256(1) == 256);
    assert(pow256(2) == 0x10000);
    assert(pow256(3) == 0x1000000);
    assert(pow256(4) == 0x100000000);
    assert(pow256(5) == 0x10000000000);
    assert(pow256(6) == 0x1000000000000);
    assert(pow256(7) == 0x100000000000000);
    assert(pow256(8) == 0x10000000000000000);
}

/// Decoding an encoded consistency marker yields the encoded fields.
pub proof fn lemma_consistent_roundtrip(page_size: u32, last_frame: u32, checksum: u64)
    ensures
        spec_parse_consistent(spec_consistent_bytes(page_size, last_frame, checksum)) == Some(
            (page_size, last_frame, checksum),
        ),
{
    let s = spec_consistent_bytes(page_size, last_frame, checksum);
    lemma_be_bytes_len(page_size as int, 4);
    lemma_be_bytes_len(last_frame as int, 4);
    lemma_be_bytes_len(checksum as int, 8);
    lemma_pow256_small();
    assert(s.subrange(0, 4) =~= spec_be_bytes(page_size as int, 4));
    assert(s.subrange(4, 8) =~= spec_be_bytes(last_frame as int, 4));
    assert(s.subrange(8, 16) =~= spec_be_bytes(checksum as int, 8));
    lemma_be_value_of_bytes(page_size as int, 4);
    lemma_be_value_of_bytes(last_frame as int, 4);
    lemma_be_value_of_bytes(checksum as int, 8);
}

/// Decoding an encoded metadata object yields the encoded fields.
pub proof fn lemma_meta_roundtrip(page_size: u32, wal_checksum: u64)
    ensures
        spec_parse_meta(spec_meta_bytes(page_size, wal_checksum)) == Some(
            (page_size, wal_checksum),
        ),
{
    let s = spec_meta_bytes(page_size, wal_checksum);
    lemma_be_bytes_len(page_size as int, 4);
    lemma_be_bytes_len(wal_checksum as int, 8);
    lemma_pow256_small();
    assert(s.subrange(0, 4) =~= spec_be_bytes(page_size as int, 4));
    assert(s.subrange(4, 12) =~= spec_be_bytes(wal_checksum as int, 8));
    lemma_be_value_of_bytes(page_size as int, 4);
    lemma_be_value_of_bytes(wal_checksum as int, 8);
}

} // verus!
