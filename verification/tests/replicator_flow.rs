//! End-to-end flows of the replicator against the in-memory store model:
//! fresh writes, batch boundaries, rollback, generation reuse, interrupted
//! commits, checksum breaks, and the snapshot-plus-log round trip.

use bottomless::error::ReplicationError;
use bottomless::replicator::{Options, Replicator, RestoreAction};
use bottomless::store::StoreModel;
use bottomless::wal::{checksum_frame, WalFileReader};

const PS: u32 = 512;

fn build_wal(page_size: u32, frames: &[(u32, u32, u8)]) -> Vec<u8> {
    let mut wal = Vec::new();
    wal.extend_from_slice(&0x377f0683u32.to_be_bytes());
    wal.extend_from_slice(&3007000u32.to_be_bytes());
    wal.extend_from_slice(&page_size.to_be_bytes());
    wal.extend_from_slice(&0u32.to_be_bytes());
    wal.extend_from_slice(&[0u8; 8]);
    wal.extend_from_slice(&7u64.to_be_bytes());
    let mut prev: u64 = 0;
    for &(pgno, size_after, fill) in frames {
        let page = vec![fill; page_size as usize];
        let crc = checksum_frame(prev, pgno, size_after, &page);
        wal.extend_from_slice(&pgno.to_be_bytes());
        wal.extend_from_slice(&size_after.to_be_bytes());
        wal.extend_from_slice(&[0u8; 8]);
        wal.extend_from_slice(&crc.to_be_bytes());
        wal.extend_from_slice(&page);
        prev = crc;
    }
    wal
}

fn build_db(page_size: u32, counter: u32, fill: u8) -> Vec<u8> {
    let mut db = vec![fill; page_size as usize];
    db[16] = (page_size >> 8) as u8;
    db[17] = (page_size & 0xFF) as u8;
    db[24..28].copy_from_slice(&counter.to_be_bytes());
    db
}

fn make_replicator(max_frames_per_batch: u32) -> Replicator {
    let mut options = Options::default();
    options.max_frames_per_batch = max_frames_per_batch;
    Replicator::create(b"data/db".to_vec(), options)
}

#[test]
fn fresh_write_single_batch() {
    let mut r = make_replicator(64);
    let mut store = StoreModel::new();
    r.set_page_size(PS as usize).unwrap();
    let mut frames: Vec<(u32, u32, u8)> = (1..=9).map(|i| (i, 0, i as u8)).collect();
    frames.push((10, 10, 10));
    let wal = WalFileReader::open(build_wal(PS, &frames)).unwrap();
    let trigger = r.submit_frames(10);
    assert!(!trigger);
    let f = r.flush_step(Some(&wal), &mut store).unwrap();
    assert_eq!(f, 10);
    assert_eq!(store.log.len(), 2);
    assert!(store.log[0].key.ends_with(b"/.meta"));
    assert!(store.log[1].key.ends_with(b"/000000000001"));
    assert_eq!(store.log[1].body.len(), 10 * (24 + PS as usize));
    assert_eq!(r.check_committed(10).unwrap(), Some(10));
}

#[test]
fn exact_batch_boundary() {
    let mut r = make_replicator(4);
    let mut store = StoreModel::new();
    r.set_page_size(PS as usize).unwrap();
    let mut frames: Vec<(u32, u32, u8)> = (1..=7).map(|i| (i, 0, i as u8)).collect();
    frames.push((8, 8, 8));
    frames.push((9, 0, 9));
    let wal_bytes = build_wal(PS, &frames);
    let wal = WalFileReader::open(wal_bytes).unwrap();
    let checksum = wal.checksum();
    let trigger = r.submit_frames(9);
    assert!(trigger);
    let f = r.flush_step(Some(&wal), &mut store).unwrap();
    assert_eq!(f, 9);
    assert_eq!(store.log.len(), 4);
    assert!(store.log[0].key.ends_with(b"/.meta"));
    assert!(store.log[1].key.ends_with(b"/000000000001"));
    assert!(store.log[2].key.ends_with(b"/000000000005"));
    assert!(store.log[3].key.ends_with(b"/000000000009"));
    assert_eq!(store.log[1].body.len(), 4 * (24 + PS as usize));
    assert_eq!(store.log[2].body.len(), 4 * (24 + PS as usize));
    assert_eq!(store.log[3].body.len(), 1 * (24 + PS as usize));
    r.finalize_commit(8, checksum, &mut store);
    let last = store.log.last().unwrap();
    assert!(last.key.ends_with(b"/.consistent"));
    let (ps, last_frame, ck) = bottomless::meta::decode_consistent(&last.body).unwrap();
    assert_eq!(ps, PS);
    assert_eq!(last_frame, 8);
    assert_eq!(ck, checksum);
}

#[test]
fn rollback_drops_uncommitted_tail() {
    let mut r = make_replicator(64);
    let mut store = StoreModel::new();
    r.set_page_size(PS as usize).unwrap();
    let trigger = r.submit_frames(20);
    assert!(!trigger);
    assert_eq!(r.next_frame_no(), 21);
    r.rollback_to_frame(12);
    assert_eq!(r.next_frame_no(), 13);
    let _ = r.submit_frames(3);
    assert_eq!(r.next_frame_no(), 16);
    let frames: Vec<(u32, u32, u8)> = (1..=15).map(|i| (i, 0, (100 + i) as u8)).collect();
    let wal = WalFileReader::open(build_wal(PS, &frames)).unwrap();
    let f = r.flush_step(Some(&wal), &mut store).unwrap();
    assert_eq!(f, 15);
    // One meta object and one batch starting at frame 1, covering 1..=15:
    // nothing in the store refers to the dropped frames 13..=20 of the old
    // attempt, and frames 13..=15 hold the new content.
    assert_eq!(store.log.len(), 2);
    assert!(store.log[1].key.ends_with(b"/000000000001"));
    assert_eq!(store.log[1].body.len(), 15 * (24 + PS as usize));
    let fs = 24 + PS as usize;
    let frame13_fill = store.log[1].body[12 * fs + 24];
    assert_eq!(frame13_fill, 113);
}

#[test]
fn reuse_generation_when_in_sync() {
    let mut r = make_replicator(64);
    let mut store = StoreModel::new();
    r.set_page_size(PS as usize).unwrap();
    let db = build_db(PS, 5, 0xAA);
    r.snapshot_main_db_file(&db, &mut store);
    let mut frames: Vec<(u32, u32, u8)> = (1..=4).map(|i| (i, 0, i as u8)).collect();
    frames.push((5, 5, 5));
    let wal_bytes = build_wal(PS, &frames);
    let wal = WalFileReader::open(wal_bytes.clone()).unwrap();
    let _ = r.submit_frames(5);
    let f = r.flush_step(Some(&wal), &mut store).unwrap();
    r.finalize_commit(f, wal.checksum(), &mut store);

    let generation = r.generation;
    let mut r2 = make_replicator(64);
    let (action, rebuilt) = r2
        .restore_from(generation, Some(&db), Some(wal_bytes), &store)
        .unwrap();
    match action {
        RestoreAction::ReuseGeneration(g) => assert_eq!(g.to_bytes(), generation.to_bytes()),
        _ => panic!("expected the generation to be reused"),
    }
    assert!(rebuilt.is_none());
    assert_eq!(r2.next_frame_no(), 6);
}

#[test]
fn interrupted_commit_treated_as_nothing_consistent() {
    let mut r = make_replicator(64);
    let mut store = StoreModel::new();
    r.set_page_size(PS as usize).unwrap();
    let db = build_db(PS, 9, 0xBB);
    r.snapshot_main_db_file(&db, &mut store);
    let frames: Vec<(u32, u32, u8)> = (1..=64).map(|i| (i, 0, i as u8)).collect();
    let wal_bytes = build_wal(PS, &frames);
    let wal = WalFileReader::open(wal_bytes.clone()).unwrap();
    let _ = r.submit_frames(64);
    let f = r.flush_step(Some(&wal), &mut store).unwrap();
    assert_eq!(f, 64);
    // The process dies before `.consistent` is written. On the next start the
    // local WAL still holds 64 frames while nothing is consistent remotely.
    let generation = r.generation;
    let mut r2 = make_replicator(64);
    let (action, rebuilt) = r2
        .restore_from(generation, Some(&db), Some(wal_bytes), &store)
        .unwrap();
    assert!(matches!(action, RestoreAction::SnapshotMainDbFile));
    assert!(rebuilt.is_none());
}

#[test]
fn crc_chain_break_stops_restore() {
    let mut r = make_replicator(64);
    let mut store = StoreModel::new();
    r.set_page_size(PS as usize).unwrap();
    let db = build_db(PS, 3, 0xCC);
    r.snapshot_main_db_file(&db, &mut store);
    let frames: Vec<(u32, u32, u8)> = (1..=20).map(|i| (i, i, i as u8)).collect();
    let wal_bytes = build_wal(PS, &frames);
    let wal = WalFileReader::open(wal_bytes).unwrap();
    let _ = r.submit_frames(20);
    let f = r.flush_step(Some(&wal), &mut store).unwrap();
    r.finalize_commit(f, wal.checksum(), &mut store);
    // Corrupt one byte inside the page of frame 17 of the batch body.
    let fs = 24 + PS as usize;
    let batch_index = store
        .log
        .iter()
        .position(|o| o.key.ends_with(b"/000000000001"))
        .unwrap();
    store.log[batch_index].body[16 * fs + 24 + 3] ^= 1;

    let generation = r.generation;
    let mut r2 = make_replicator(64);
    let result = r2.restore_from(generation, None, None, &store);
    assert_eq!(result.unwrap_err(), ReplicationError::CrcMismatch);
}

#[test]
fn restore_round_trip_rebuilds_committed_state() {
    let mut r = make_replicator(4);
    let mut store = StoreModel::new();
    r.set_page_size(PS as usize).unwrap();
    let db = build_db(PS, 7, 0x11);
    r.snapshot_main_db_file(&db, &mut store);
    // Two committed transactions: pages 2 and 1 rewritten, then page 3 added;
    // a trailing uncommitted frame must never reach the image.
    let frames = vec![
        (2u32, 0u32, 0x22u8),
        (1, 2, 0x33),
        (3, 3, 0x44),
        (2, 0, 0x55),
    ];
    let wal_bytes = build_wal(PS, &frames);
    let wal = WalFileReader::open(wal_bytes).unwrap();
    let _ = r.submit_frames(4);
    let f = r.flush_step(Some(&wal), &mut store).unwrap();
    assert_eq!(f, 4);
    // Only frames 1..=3 are consistent: the last frame never committed.
    r.finalize_commit(3, wal.checksum(), &mut store);

    let generation = r.generation;
    let mut r2 = make_replicator(4);
    let (action, rebuilt) = r2.restore_from(generation, None, None, &store).unwrap();
    assert!(matches!(action, RestoreAction::SnapshotMainDbFile));
    let rebuilt = rebuilt.unwrap();

    let psu = PS as usize;
    let mut expected = vec![0u8; 3 * psu];
    expected[0..psu].copy_from_slice(&vec![0x33u8; psu]);
    expected[psu..2 * psu].copy_from_slice(&vec![0x22u8; psu]);
    expected[2 * psu..3 * psu].copy_from_slice(&vec![0x44u8; psu]);
    assert_eq!(rebuilt, expected);

    // Restoring again from the same store yields identical bytes.
    let mut r3 = make_replicator(4);
    let (_, rebuilt_again) = r3.restore_from(generation, None, None, &store).unwrap();
    assert_eq!(rebuilt_again.unwrap(), rebuilt);
}

#[test]
fn restore_without_frames_applies_nothing() {
    let mut r = make_replicator(64);
    let mut store = StoreModel::new();
    r.set_page_size(PS as usize).unwrap();
    let db = build_db(PS, 7, 0x11);
    r.snapshot_main_db_file(&db, &mut store);
    // A consistent marker exists, but no batch was ever uploaded: a restore
    // finds the snapshot alone, applies no frame, and says so.
    r.finalize_commit(0, 0, &mut store);
    let generation = r.generation;
    let mut r2 = make_replicator(64);
    let (action, rebuilt) = r2.restore_from(generation, None, None, &store).unwrap();
    assert!(matches!(action, RestoreAction::NoAction));
    assert_eq!(rebuilt.unwrap(), db);
}

#[test]
fn flush_without_wal_fails_and_recovers() {
    let mut r = make_replicator(64);
    let mut store = StoreModel::new();
    r.set_page_size(PS as usize).unwrap();
    let _ = r.submit_frames(3);
    let e = r.flush_step(None, &mut store).unwrap_err();
    assert_eq!(e, ReplicationError::WalAbsent);
    assert_eq!(
        r.check_committed(1).unwrap_err(),
        ReplicationError::ObjectStoreUnavailable
    );
    assert_eq!(store.log.len(), 0);
    // The next flush retries the whole range.
    let frames: Vec<(u32, u32, u8)> = (1..=3).map(|i| (i, 0, i as u8)).collect();
    let wal = WalFileReader::open(build_wal(PS, &frames)).unwrap();
    let f = r.flush_step(Some(&wal), &mut store).unwrap();
    assert_eq!(f, 3);
    assert_eq!(r.check_committed(3).unwrap(), Some(3));
}

#[test]
fn committed_frontier_is_monotonic_across_flushes() {
    let mut r = make_replicator(4);
    let mut store = StoreModel::new();
    r.set_page_size(PS as usize).unwrap();
    let frames: Vec<(u32, u32, u8)> = (1..=10).map(|i| (i, i, i as u8)).collect();
    let wal = WalFileReader::open(build_wal(PS, &frames)).unwrap();
    let mut last = 0u32;
    for step in [3u32, 2, 5] {
        let _ = r.submit_frames(step);
        let f = r.flush_step(Some(&wal), &mut store).unwrap();
        assert!(f >= last);
        last = f;
    }
    assert_eq!(last, 10);
}

#[test]
fn maybe_replicate_wal_flushes_at_commits() {
    let mut r = make_replicator(64);
    let mut store = StoreModel::new();
    let frames = vec![
        (1u32, 0u32, 1u8),
        (2, 2, 2),
        (3, 0, 3),
        (4, 4, 4),
        (5, 0, 5),
    ];
    let wal_bytes = build_wal(PS, &frames);
    r.maybe_replicate_wal(Some(wal_bytes), &mut store).unwrap();
    assert_eq!(r.next_frame_no(), 6);
    assert_eq!(r.check_committed(4).unwrap(), Some(4));
    // Frames beyond the last commit stay pending; the consistent marker
    // names frame 4.
    let last = store.log.last().unwrap();
    assert!(last.key.ends_with(b"/.consistent"));
    let (_, last_frame, _) = bottomless::meta::decode_consistent(&last.body).unwrap();
    assert_eq!(last_frame, 4);
    assert_eq!(r.pending_frames(), 1);
}

#[test]
fn maybe_replicate_wal_without_wal_is_a_no_op() {
    let mut r = make_replicator(64);
    let mut store = StoreModel::new();
    r.maybe_replicate_wal(None, &mut store).unwrap();
    assert_eq!(store.log.len(), 0);
    assert_eq!(r.next_frame_no(), 1);
}

#[test]
fn find_newest_generation_prefers_the_youngest() {
    let mut r = make_replicator(64);
    let mut store = StoreModel::new();
    r.set_page_size(PS as usize).unwrap();
    let frames: Vec<(u32, u32, u8)> = vec![(1, 1, 1)];
    // An older generation: a larger reversed timestamp.
    let mut old_id = [0x22u8; 16];
    old_id[0..6].copy_from_slice(&[0, 0, 0, 9, 0, 0]);
    let gen_old = bottomless::generation::Generation::from_bytes(old_id);
    r.set_generation(gen_old);
    r.set_page_size(PS as usize).unwrap();
    let wal1 = WalFileReader::open(build_wal(PS, &frames)).unwrap();
    let _ = r.submit_frames(1);
    r.flush_step(Some(&wal1), &mut store).unwrap();
    // A younger generation: a smaller reversed timestamp.
    let mut new_id = [0x22u8; 16];
    new_id[0..6].copy_from_slice(&[0, 0, 0, 8, 0, 0]);
    let gen_new = bottomless::generation::Generation::from_bytes(new_id);
    r.set_generation(gen_new);
    let wal2 = WalFileReader::open(build_wal(PS, &frames)).unwrap();
    let _ = r.submit_frames(1);
    r.flush_step(Some(&wal2), &mut store).unwrap();

    let found = r.find_newest_generation(&store).unwrap();
    assert_eq!(found.to_bytes(), gen_new.to_bytes());
    assert_ne!(gen_old.to_bytes(), gen_new.to_bytes());
}

#[test]
fn committed_frames_are_covered_by_stored_batches() {
    let mut r = make_replicator(4);
    let mut store = StoreModel::new();
    r.set_page_size(PS as usize).unwrap();
    let frames: Vec<(u32, u32, u8)> = (1..=10).map(|i| (i, i, i as u8)).collect();
    let wal = WalFileReader::open(build_wal(PS, &frames)).unwrap();
    let _ = r.submit_frames(10);
    let committed = r.flush_step(Some(&wal), &mut store).unwrap();
    assert_eq!(r.check_committed(10).unwrap(), Some(committed));
    // Every frame up to the committed frontier lies in some stored batch.
    let fs = 24 + PS as usize;
    for k in 1..=committed {
        let covered = store.log.iter().any(|o| {
            let key = String::from_utf8(o.key.clone()).unwrap();
            match key.rsplit('/').next().unwrap().parse::<u32>() {
                Ok(start) => {
                    let count = (o.body.len() / fs) as u32;
                    start <= k && k < start + count
                }
                Err(_) => false,
            }
        });
        assert!(covered, "frame {k} has no covering batch");
    }
}

#[test]
fn compressed_snapshot_and_batches_round_trip() {
    let mut options = Options::default();
    options.use_compression = true;
    let mut r = Replicator::create(b"data/db".to_vec(), options);
    let mut store = StoreModel::new();
    r.set_page_size(PS as usize).unwrap();
    let db = build_db(PS, 4, 0x77);
    r.snapshot_main_db_file(&db, &mut store);
    assert!(store.log[0].key.ends_with(b"/db.gz"));
    assert_ne!(store.log[0].body, db);
    let frames = vec![(2u32, 2u32, 0x99u8)];
    let wal = WalFileReader::open(build_wal(PS, &frames)).unwrap();
    let _ = r.submit_frames(1);
    let f = r.flush_step(Some(&wal), &mut store).unwrap();
    r.finalize_commit(f, wal.checksum(), &mut store);

    let generation = r.generation;
    let mut options2 = Options::default();
    options2.use_compression = true;
    let mut r2 = Replicator::create(b"data/db".to_vec(), options2);
    let (action, rebuilt) = r2.restore_from(generation, None, None, &store).unwrap();
    assert!(matches!(action, RestoreAction::SnapshotMainDbFile));
    let rebuilt = rebuilt.unwrap();
    let psu = PS as usize;
    let mut expected = db.clone();
    expected.resize(2 * psu, 0);
    expected[psu..2 * psu].copy_from_slice(&vec![0x99u8; psu]);
    assert_eq!(rebuilt, expected);
}

#[test]
fn restore_without_a_snapshot_replays_over_an_empty_file() {
    // Batches exist but no main database object: the rebuilt file is the
    // committed frames replayed over an empty base.
    let mut r = make_replicator(64);
    let mut store = StoreModel::new();
    r.set_page_size(PS as usize).unwrap();
    let frames = vec![(1u32, 1u32, 0x5Au8)];
    let wal_bytes = build_wal(PS, &frames);
    let wal = WalFileReader::open(wal_bytes).unwrap();
    let _ = r.submit_frames(1);
    let f = r.flush_step(Some(&wal), &mut store).unwrap();
    r.finalize_commit(f, wal.checksum(), &mut store);
    // Remote counter defaults to zero with no .changecounter object, so a
    // local counter of zero with a shorter WAL takes the apply path.
    let generation = r.generation;
    let mut r2 = make_replicator(64);
    let (action, rebuilt) = r2.restore_from(generation, None, None, &store).unwrap();
    assert!(matches!(action, RestoreAction::SnapshotMainDbFile));
    assert_eq!(rebuilt.unwrap(), vec![0x5Au8; PS as usize]);
}

#[test]
fn snapshot_writes_the_change_counter_sidecar() {
    let mut r = make_replicator(64);
    let mut store = StoreModel::new();
    r.set_page_size(PS as usize).unwrap();
    let db = build_db(PS, 0x01020304, 0xEE);
    r.snapshot_main_db_file(&db, &mut store);
    assert_eq!(store.log.len(), 2);
    assert!(store.log[0].key.ends_with(b"/db.db"));
    assert_eq!(store.log[0].body, db);
    assert!(store.log[1].key.ends_with(b"/.changecounter"));
    assert_eq!(store.log[1].body, vec![0x01, 0x02, 0x03, 0x04]);
}
