//! Unit tests of the building blocks: byte encodings, object keys, the
//! sentinel codecs, the batch codec with and without compression, generation
//! identifiers and their ordering, the restore decision table, and the
//! namespace helpers.

use bottomless::codec::{BatchReader, BatchWriter};
use bottomless::error::ReplicationError;
use bottomless::generation::{parse_generation, Generation};
use bottomless::keys::{batch_key, parse_frame_no};
use bottomless::meta::{decode_consistent, decode_meta, encode_consistent, encode_meta};
use bottomless::namespace::{check_fresh_db, make_bottomless_options, DumpParser, NamespaceName};
use bottomless::replicator::Options;
use bottomless::restore::{plan_restore, read_change_counter, read_page_size, RestorePlan};
use bottomless::wal::{checksum_frame, WalFileReader};

fn build_wal(page_size: u32, frames: &[(u32, u32, u8)]) -> Vec<u8> {
    let mut wal = Vec::new();
    wal.extend_from_slice(&0x377f0683u32.to_be_bytes());
    wal.extend_from_slice(&3007000u32.to_be_bytes());
    wal.extend_from_slice(&page_size.to_be_bytes());
    wal.extend_from_slice(&0u32.to_be_bytes());
    wal.extend_from_slice(&[0u8; 8]);
    wal.extend_from_slice(&7u64.to_be_bytes());
    let mut prev: u64 = 0;
    for &(pgno, size_after, fill) in frames {
        let page = vec![fill; page_size as usize];
        let crc = checksum_frame(prev, pgno, size_after, &page);
        wal.extend_from_slice(&pgno.to_be_bytes());
        wal.extend_from_slice(&size_after.to_be_bytes());
        wal.extend_from_slice(&[0u8; 8]);
        wal.extend_from_slice(&crc.to_be_bytes());
        wal.extend_from_slice(&page);
        prev = crc;
    }
    wal
}

#[test]
fn wal_header_is_checked() {
    assert!(WalFileReader::open(vec![0; 10]).is_err());
    let mut bad_magic = build_wal(512, &[]);
    bad_magic[0] = 0;
    assert!(WalFileReader::open(bad_magic).is_err());
    // The magic naming little-endian checksum words is rejected: the chain
    // here computes big-endian words only.
    let mut le_magic = build_wal(512, &[]);
    le_magic[0..4].copy_from_slice(&0x377f0682u32.to_be_bytes());
    assert!(WalFileReader::open(le_magic).is_err());
    let mut bad_ps = build_wal(512, &[]);
    bad_ps[8..12].copy_from_slice(&511u32.to_be_bytes());
    assert!(WalFileReader::open(bad_ps).is_err());
    let wal = WalFileReader::open(build_wal(512, &[(1, 1, 9)])).unwrap();
    assert_eq!(wal.page_size(), 512);
    assert_eq!(wal.frame_count(), 1);
    assert_eq!(wal.checksum(), 7);
    let h = wal.read_frame_header(1);
    assert_eq!(h.pgno, 1);
    assert!(h.is_committed());
}

#[test]
fn batch_codec_round_trips_frames() {
    let frames = vec![(4u32, 0u32, 0x10u8), (7, 7, 0x20)];
    let wal = WalFileReader::open(build_wal(512, &frames)).unwrap();
    let writer = BatchWriter::new(false, 1, 3);
    let body = writer.read_frames(&wal);
    let mut reader = BatchReader::new(1, body, 512, false, Some(0)).unwrap();
    let (h1, p1) = reader.next_frame().unwrap().unwrap();
    assert_eq!(h1.pgno, 4);
    assert_eq!(h1.size_after, 0);
    assert_eq!(p1, vec![0x10u8; 512]);
    let (h2, p2) = reader.next_frame().unwrap().unwrap();
    assert_eq!(h2.pgno, 7);
    assert_eq!(h2.size_after, 7);
    assert_eq!(p2, vec![0x20u8; 512]);
    assert!(reader.next_frame().unwrap().is_none());
}

#[test]
fn compressed_batch_is_not_the_raw_bytes() {
    let frames = vec![(1u32, 1u32, 0xABu8)];
    let wal = WalFileReader::open(build_wal(512, &frames)).unwrap();
    let raw = BatchWriter::new(false, 1, 2).read_frames(&wal);
    let packed = BatchWriter::new(true, 1, 2).read_frames(&wal);
    assert_ne!(raw, packed);
    assert!(packed.len() < raw.len());
    let mut reader = BatchReader::new(1, packed, 512, true, Some(0)).unwrap();
    let (h, p) = reader.next_frame().unwrap().unwrap();
    assert_eq!(h.pgno, 1);
    assert_eq!(p, vec![0xABu8; 512]);
    // A body that is not valid compressed data is rejected.
    assert!(BatchReader::new(1, vec![1, 2, 3], 512, true, None).is_err());
}

#[test]
fn batch_reader_rejects_a_broken_chain() {
    let frames = vec![(1u32, 0u32, 1u8), (2, 2, 2)];
    let wal = WalFileReader::open(build_wal(512, &frames)).unwrap();
    let body = BatchWriter::new(false, 1, 3).read_frames(&wal);
    // Starting the chain from the wrong checksum fails on the first frame.
    let mut reader = BatchReader::new(1, body.clone(), 512, false, Some(99)).unwrap();
    assert_eq!(reader.next_frame().unwrap_err(), ReplicationError::CrcMismatch);
    // Without verification the same body reads fine.
    let mut loose = BatchReader::new(1, body, 512, false, None).unwrap();
    assert!(loose.next_frame().unwrap().is_some());
}

#[test]
fn batch_keys_are_zero_padded_and_ordered() {
    let g = Generation::from_bytes([0x11u8; 16]);
    let db_name = b"ns:db".to_vec();
    let k1 = batch_key(&db_name, &g, 1);
    let k2 = batch_key(&db_name, &g, 73);
    let k3 = batch_key(&db_name, &g, 1000000);
    assert!(k1.ends_with(b"/000000000001"));
    assert!(k2.ends_with(b"/000000000073"));
    assert!(k3.ends_with(b"/000001000000"));
    assert!(k1 < k2 && k2 < k3);
    assert_eq!(parse_frame_no(&k1), Some(1));
    assert_eq!(parse_frame_no(&k2), Some(73));
    assert_eq!(parse_frame_no(&k3), Some(1000000));
    assert_eq!(parse_frame_no(&b"prefix/.meta".to_vec()), None);
    assert_eq!(parse_frame_no(&b"nodigits".to_vec()), None);
    assert_eq!(parse_frame_no(&b"p/".to_vec()), None);
    assert_eq!(parse_frame_no(&b"p/99999999999999".to_vec()), None);
}

#[test]
fn sentinel_codecs_round_trip() {
    let c = encode_consistent(4096, 88, 0xDEAD_BEEF_0BAD_F00D);
    assert_eq!(c.len(), 16);
    assert_eq!(decode_consistent(&c), Some((4096, 88, 0xDEAD_BEEF_0BAD_F00D)));
    assert_eq!(decode_consistent(&vec![0; 15]), None);
    let m = encode_meta(512, 77);
    assert_eq!(m.len(), 12);
    assert_eq!(decode_meta(&m), Some((512, 77)));
    assert_eq!(decode_meta(&vec![0; 11]), None);
}

#[test]
fn generation_text_round_trips_and_sorts() {
    let mut older = [0u8; 16];
    older[0..6].copy_from_slice(&[0, 0, 0, 0, 1, 0]);
    // A smaller reversed timestamp is chronologically newer.
    let mut newer = older;
    newer[4] = 0;
    newer[5] = 0xFF;
    let g_old = Generation::from_bytes(older);
    let g_new = Generation::from_bytes(newer);
    assert!(g_new.timestamp_ms() < g_old.timestamp_ms());
    let t_old = g_old.to_text();
    let t_new = g_new.to_text();
    assert_eq!(t_old.len(), 36);
    assert!(t_new < t_old);
    let parsed = parse_generation(&t_old, 0).unwrap();
    assert_eq!(parsed.to_bytes(), g_old.to_bytes());
    // A fresh identifier carries the version and variant bits.
    let g = bottomless::generation::generate_generation();
    assert_eq!(g.to_bytes()[6] >> 4, 7);
    assert_eq!(g.to_bytes()[8] & 0xC0, 0x80);
    let text = g.to_text();
    assert_eq!(parse_generation(&text, 0).unwrap().to_bytes(), g.to_bytes());
    // Malformed text is rejected.
    let mut bad = text.clone();
    bad[8] = b'x';
    assert!(parse_generation(&bad, 0).is_none());
    let mut bad2 = text;
    bad2[0] = b'G';
    assert!(parse_generation(&bad2, 0).is_none());
}

#[test]
fn restore_decision_table() {
    assert_eq!(plan_restore(3, 3, 10, 10), RestorePlan::ReuseGeneration);
    assert_eq!(plan_restore(3, 3, 11, 10), RestorePlan::SnapshotMainDbFile);
    assert_eq!(plan_restore(3, 3, 9, 10), RestorePlan::ApplyRemote);
    assert_eq!(plan_restore(4, 3, 0, 10), RestorePlan::SnapshotMainDbFile);
    assert_eq!(plan_restore(2, 3, 10, 0), RestorePlan::ApplyRemote);
}

#[test]
fn db_header_fields_are_read() {
    let mut db = vec![0u8; 100];
    db[16] = 0x10; // 4096
    db[17] = 0x00;
    db[24..28].copy_from_slice(&9u32.to_be_bytes());
    assert_eq!(read_page_size(&db), 4096);
    assert_eq!(read_change_counter(&db), 9);
    db[16] = 0;
    db[17] = 1; // the value 1 stands for 65536
    assert_eq!(read_page_size(&db), 65536);
}

#[test]
fn options_defaults_match_the_stock_configuration() {
    let o = Options::default();
    assert!(!o.create_bucket_if_not_exists);
    assert!(o.verify_crc);
    assert!(!o.use_compression);
    assert_eq!(o.bucket_name, b"bottomless".to_vec());
    assert_eq!(o.max_frames_per_batch, 64);
    assert_eq!(o.max_batch_interval_ms, 15000);
}

#[test]
fn namespace_names_must_not_be_empty() {
    assert!(NamespaceName::from_string(String::new()).is_err());
    let n = NamespaceName::from_string("tenant".to_string()).unwrap();
    assert_eq!(n.as_slice(), &b"tenant".to_vec());
    assert!(NamespaceName::from_bytes(Vec::new()).is_err());
    assert_eq!(NamespaceName::default().bytes, b"default".to_vec());
}
#[test]
fn namespace_names_must_be_utf8() {
    assert_eq!(
        NamespaceName::from_bytes(vec![0xFF]).unwrap_err(),
        ReplicationError::InvalidNamespace
    );
    assert!(NamespaceName::from_bytes(vec![0xC3, 0x28]).is_err());
    let n = NamespaceName::from_bytes(vec![0x63, 0x61, 0x66, 0xC3, 0xA9]).unwrap();
    assert_eq!(n.as_slice(), &vec![0x63, 0x61, 0x66, 0xC3, 0xA9]);
}


#[test]
fn namespaced_db_id_gains_the_prefix() {
    let name = NamespaceName::from_bytes(b"alpha".to_vec()).unwrap();
    let mut base = Options::default();
    base.db_id = Some(b"id7".to_vec());
    let derived = make_bottomless_options(base, &name);
    assert_eq!(derived.db_id.unwrap(), b"ns-id7:alpha".to_vec());
    let bare = make_bottomless_options(Options::default(), &name);
    assert_eq!(bare.db_id.unwrap(), b"ns-:alpha".to_vec());
}

#[test]
fn fresh_db_means_no_wal_journal() {
    assert!(check_fresh_db(false));
    assert!(!check_fresh_db(true));
}

#[test]
fn dump_parser_accumulates_statements() {
    let mut p = DumpParser::new();
    assert_eq!(p.feed_line(&b"".to_vec()), None);
    assert_eq!(p.feed_line(&b"-- a comment".to_vec()), None);
    assert_eq!(p.feed_line(&b"CREATE TABLE t".to_vec()), None);
    assert_eq!(
        p.feed_line(&b"(x INTEGER);".to_vec()),
        Some(b"CREATE TABLE t (x INTEGER);".to_vec())
    );
    assert_eq!(
        p.feed_line(&b"INSERT INTO t VALUES (1);".to_vec()),
        Some(b"INSERT INTO t VALUES (1);".to_vec())
    );
}
#[test]
fn dump_parser_skips_the_designated_statement_once() {
    let mut p = DumpParser::with_skipped_statement(b"CREATE TABLE sys (x);".to_vec());
    assert_eq!(p.feed_line(&b"CREATE TABLE sys (x);".to_vec()), None);
    assert_eq!(
        p.feed_line(&b"CREATE TABLE sys (x);".to_vec()),
        Some(b"CREATE TABLE sys (x);".to_vec())
    );
    assert_eq!(
        p.feed_line(&b"SELECT 1;".to_vec()),
        Some(b"SELECT 1;".to_vec())
    );
}

#[test]
fn point_in_time_picks_the_first_old_enough_generation() {
    // Keys arrive youngest-first; reversed timestamps ascend.
    let mut young = [0u8; 16];
    young[0..6].copy_from_slice(&[0, 0, 0, 0, 0, 5]);
    let mut old = [0u8; 16];
    old[0..6].copy_from_slice(&[0, 0, 0, 0, 0, 9]);
    let name = b"db".to_vec();
    let mk = |id: [u8; 16]| {
        let mut k = name.clone();
        k.push(b'-');
        k.extend_from_slice(&Generation::from_bytes(id).to_text());
        k.push(b'/');
        k.extend_from_slice(b".meta");
        k
    };
    let keys = vec![mk(young), mk(old)];
    // A target instant between the two picks the older generation.
    let picked = bottomless::restore::resolve_generation_at(&keys, name.len(), 7).unwrap();
    assert_eq!(picked.to_bytes(), old);
    // A target instant after both picks the youngest.
    let picked = bottomless::restore::resolve_generation_at(&keys, name.len(), 3).unwrap();
    assert_eq!(picked.to_bytes(), young);
    // A target instant before both finds nothing.
    assert!(bottomless::restore::resolve_generation_at(&keys, name.len(), 100).is_none());
}


#[test]
fn page_size_conflicts_are_rejected() {
    let mut r = bottomless::replicator::Replicator::create(b"data/db".to_vec(), Options::default());
    assert!(r.set_page_size(4096).is_ok());
    assert!(r.set_page_size(4096).is_ok());
    assert_eq!(
        r.set_page_size(512).unwrap_err(),
        ReplicationError::PageSizeConflict
    );
}

#[test]
fn submit_frames_triggers_at_a_full_batch() {
    let mut r = bottomless::replicator::Replicator::create(b"data/db".to_vec(), {
        let mut o = Options::default();
        o.max_frames_per_batch = 8;
        o
    });
    assert!(!r.submit_frames(7));
    assert_eq!(r.pending_frames(), 7);
    assert!(r.submit_frames(1));
    assert_eq!(r.peek_last_valid_frame(), 8);
    assert_eq!(r.last_sent_frame_no(), 0);
}

#[test]
fn register_last_valid_frame_reports_divergence() {
    let mut r = bottomless::replicator::Replicator::create(b"data/db".to_vec(), Options::default());
    let _ = r.submit_frames(4);
    // Agreement is silent.
    assert!(!r.register_last_valid_frame(4));
    // Divergence with a non-zero local view is a bug signal, but the value
    // is adopted either way.
    assert!(r.register_last_valid_frame(2));
    assert_eq!(r.next_frame_no(), 3);
    let mut fresh =
        bottomless::replicator::Replicator::create(b"data/db".to_vec(), Options::default());
    assert!(!fresh.register_last_valid_frame(9));
    assert_eq!(fresh.next_frame_no(), 10);
}

#[test]
fn db_name_includes_the_database_id() {
    let mut o = Options::default();
    o.db_id = Some(b"tenant1".to_vec());
    let r = bottomless::replicator::Replicator::create(b"some/dir/data".to_vec(), o);
    assert_eq!(r.db_name, b"tenant1data".to_vec());
    let bare = bottomless::replicator::Replicator::create(b"data".to_vec(), Options::default());
    assert_eq!(bare.db_name, b"data".to_vec());
}

#[test]
fn error_descriptions_name_the_cause() {
    assert_eq!(
        ReplicationError::CrcMismatch.describe(),
        "frame checksum mismatch"
    );
    assert_ne!(
        ReplicationError::WalAbsent.describe(),
        ReplicationError::WalMalformed.describe()
    );
}
