//! The replicator: frame accounting for one database, batching of committed
//! WAL frames into uploads under the current generation, and the durability
//! frontier that `wait_until_committed` observers read.
//!
//! The counters obey, at all times,
//! `last_committed <= last_uploaded <= last_sent <= next_frame_no - 1`.
//! The flush step uploads the frames between the uploaded frontier and
//! `next_frame_no`, so a failed flush is retried on the next trigger.

use vstd::prelude::*;
use crate::codec::{BatchWriter, spec_batch_plain, spec_body_frame_count, spec_frames_bytes};
use crate::error::ReplicationError;
use crate::generation::{Generation, generate_generation};
use crate::keys::{
    batch_key, spec_batch_key, meta_key, consistent_key, changecounter_key, main_db_key,
    spec_key_prefix, spec_suffix_meta, spec_suffix_consistent, spec_suffix_changecounter,
    spec_suffix_db, spec_suffix_db_gz, db_name_of, spec_basename,
};
use crate::meta::{encode_consistent, encode_meta, spec_consistent_bytes, spec_meta_bytes};
use crate::store::{StoreModel, StoredObject};
use crate::wal::{WalFileReader, spec_valid_page_size};

verus! {

/// How the replicator is configured.
pub struct Options {
    pub create_bucket_if_not_exists: bool,
    pub verify_crc: bool,
    pub use_compression: bool,
    pub aws_endpoint: Option<Vec<u8>>,
    pub db_id: Option<Vec<u8>>,
    pub bucket_name: Vec<u8>,
    pub max_frames_per_batch: u32,
    pub max_batch_interval_ms: u64,
}

impl Default for Options {
    /// The stock configuration: verify checksums, no compression, batches of
    /// 64 frames, a 15-second flush timer, and the bucket `bottomless`.
    fn default() -> (r: Options)
        ensures
            !r.create_bucket_if_not_exists,
            r.verify_crc,
            !r.use_compression,
            r.aws_endpoint is None,
            r.db_id is None,
            r.bucket_name@ == seq![98u8, 111u8, 116u8, 116u8, 111u8, 109u8, 108u8, 101u8, 115u8, 115u8],
            r.max_frames_per_batch == 64,
            r.max_batch_interval_ms == 15000,
    {
        let bucket_name: Vec<u8> = vec![98, 111, 116, 116, 111, 109, 108, 101, 115, 115];
        Options {
            create_bucket_if_not_exists: false,
            verify_crc: true,
            use_compression: false,
            aws_endpoint: None,
            db_id: None,
            bucket_name,
            max_frames_per_batch: 64,
            max_batch_interval_ms: 15000,
        }
    }
}

/// What a restore decided.
#[derive(Debug)]
pub enum RestoreAction {
    /// Nothing was applied; the local file already matches.
    NoAction,
    /// The local database is authoritative: publish a fresh snapshot.
    SnapshotMainDbFile,
    /// The remote generation matches the local state: keep writing into it.
    ReuseGeneration(Generation),
}

/// A page of listed restore results: pages fetched so far and the key to
/// continue listing from.
#[derive(Debug)]
pub struct FetchedResults {
    pub pages: Vec<(i32, Vec<u8>)>,
    pub next_marker: Option<Vec<u8>>,
}

/// The page size value meaning "not set yet".
pub const UNSET_PAGE_SIZE: usize = usize::MAX;

/// One object to upload: its key and its body.
pub struct PutOp {
    pub key: Vec<u8>,
    pub body: Vec<u8>,
}

/// What one flush uploads, in order: the generation metadata first when
/// present, then the frame batches by ascending starting frame, and the
/// frontier to publish once everything is stored.
pub struct FlushPlan {
    pub meta: Option<PutOp>,
    pub batches: Vec<PutOp>,
    pub publish: u32,
}

/// The batch ranges `[s, e)` a flush cuts the frame range `[start, end)`
/// into: each at most `m` frames, in ascending order, covering it exactly.
pub open spec fn spec_batch_ranges(start: int, end: int, m: int) -> Seq<(int, int)>
    decreases end - start,
{
    if start >= end || m < 1 {
        Seq::empty()
    } else if start + m < end {
        seq![(start, start + m)] + spec_batch_ranges(start + m, end, m)
    } else {
        seq![(start, end)]
    }
}

/// The batch ranges of a flush are ascending, dense, bounded by `m`, and
/// cover `[start, end)` exactly.
pub proof fn lemma_batch_ranges(start: int, end: int, m: int)
    requires
        m >= 1,
        start < end,
    ensures
        spec_batch_ranges(start, end, m).len() > 0,
        spec_batch_ranges(start, end, m)[0].0 == start,
        spec_batch_ranges(start, end, m).last().1 == end,
        forall|i: int|
            0 <= i < spec_batch_ranges(start, end, m).len() ==> (
            #[trigger] spec_batch_ranges(start, end, m)[i].0
                < spec_batch_ranges(start, end, m)[i].1 <= spec_batch_ranges(start, end, m)[i].0
                + m),
        forall|i: int|
            0 <= i < spec_batch_ranges(start, end, m).len() ==> start <= #[trigger] spec_batch_ranges(
                start,
                end,
                m,
            )[i].0 && spec_batch_ranges(start, end, m)[i].1 <= end,
        forall|i: int|
            0 < i < spec_batch_ranges(start, end, m).len() ==> #[trigger] spec_batch_ranges(
                start,
                end,
                m,
            )[i].0 == spec_batch_ranges(start, end, m)[i - 1].1,
    decreases end - start,
{
    let rs = spec_batch_ranges(start, end, m);
    if start + m < end {
        lemma_batch_ranges(start + m, end, m);
        let tail = spec_batch_ranges(start + m, end, m);
        assert(rs == seq![(start, start + m)] + tail);
        assert(rs.last() == tail.last());
        assert forall|i: int| 0 <= i < rs.len() implies (#[trigger] rs[i].0 < rs[i].1 <= rs[i].0
            + m) by {
            if i > 0 {
                assert(rs[i] == tail[i - 1]);
            }
        }
        assert forall|i: int| 0 <= i < rs.len() implies start <= #[trigger] rs[i].0 && rs[i].1
            <= end by {
            if i > 0 {
                assert(rs[i] == tail[i - 1]);
            }
        }
        assert forall|i: int| 0 < i < rs.len() implies #[trigger] rs[i].0 == rs[i - 1].1 by {
            assert(rs[i] == tail[i - 1]);
            if i > 1 {
                assert(rs[i - 1] == tail[i - 2]);
            }
        }
    }
}

/// The generation-scoped replicator state.
pub struct Replicator {
    /// The number the next submitted frame will get; frames are 1-indexed.
    pub next_frame_no: u32,
    /// The newest frame a flush has been asked to send.
    pub last_sent_frame_no: u32,
    /// The newest frame whose batch was uploaded; frames `1..=` this are in
    /// the store under the current generation.
    pub last_uploaded_frame_no: u32,
    /// The durability frontier observers wait on.
    pub last_committed_frame_no: u32,
    /// Set when the last flush failed; observers see the error.
    pub flush_error: bool,
    /// Whether this generation's metadata object has been uploaded.
    pub meta_uploaded: bool,
    pub commits_in_current_generation: u32,
    pub page_size: usize,
    pub generation: Generation,
    pub verify_crc: bool,
    pub use_compression: bool,
    pub bucket: Vec<u8>,
    pub db_path: Vec<u8>,
    pub db_name: Vec<u8>,
    pub max_frames_per_batch: u32,
}

impl Replicator {
    /// The counters stand in their documented order and a batch holds at
    /// least one frame.
    pub open spec fn wf(&self) -> bool {
        &&& 1 <= self.next_frame_no
        &&& self.last_sent_frame_no < self.next_frame_no
        &&& self.last_uploaded_frame_no <= self.last_sent_frame_no
        &&& self.last_committed_frame_no <= self.last_uploaded_frame_no
        &&& 1 <= self.max_frames_per_batch
        &&& (self.page_size == UNSET_PAGE_SIZE || spec_valid_page_size(self.page_size as int))
    }

    /// A fresh replicator for the database at `db_path`: counters at their
    /// start-of-generation values, a new generation, and the object name
    /// derived from the path's base name prefixed by the database id.
    pub fn create(db_path: Vec<u8>, options: Options) -> (r: Replicator)
        requires
            options.max_frames_per_batch >= 1,
        ensures
            r.wf(),
            r.next_frame_no == 1,
            r.last_sent_frame_no == 0,
            r.last_uploaded_frame_no == 0,
            r.last_committed_frame_no == 0,
            !r.flush_error,
            !r.meta_uploaded,
            r.commits_in_current_generation == 0,
            r.page_size == UNSET_PAGE_SIZE,
            r.verify_crc == options.verify_crc,
            r.use_compression == options.use_compression,
            r.bucket@ == options.bucket_name@,
            r.db_path@ == db_path@,
            r.db_name@ == match options.db_id {
                Some(id) => id@ + spec_basename(db_path@),
                None => spec_basename(db_path@),
            },
            r.max_frames_per_batch == options.max_frames_per_batch,
    {
        let db_name = db_name_of(&options.db_id, &db_path);
        let generation = generate_generation();
        Replicator {
            next_frame_no: 1,
            last_sent_frame_no: 0,
            last_uploaded_frame_no: 0,
            last_committed_frame_no: 0,
            flush_error: false,
            meta_uploaded: false,
            commits_in_current_generation: 0,
            page_size: UNSET_PAGE_SIZE,
            generation,
            verify_crc: options.verify_crc,
            use_compression: options.use_compression,
            bucket: options.bucket_name,
            db_path,
            db_name,
            max_frames_per_batch: options.max_frames_per_batch,
        }
    }

    /// The number the next submitted frame will get.
    pub fn next_frame_no(&self) -> (r: u32)
        ensures
            r == self.next_frame_no,
    {
        self.next_frame_no
    }

    /// The newest frame a flush has been asked to send.
    pub fn last_sent_frame_no(&self) -> (r: u32)
        ensures
            r == self.last_sent_frame_no,
    {
        self.last_sent_frame_no
    }

    /// How many commits this generation has seen.
    pub fn commits_in_current_generation(&self) -> (r: u32)
        ensures
            r == self.commits_in_current_generation,
    {
        self.commits_in_current_generation
    }

    /// How many frames wait to be replicated.
    pub fn pending_frames(&self) -> (r: u32)
        requires
            self.wf(),
        ensures
            r == self.next_frame_no - self.last_sent_frame_no - 1,
    {
        self.next_frame_no - self.last_sent_frame_no - 1
    }

    /// The newest frame number this replicator believes exists.
    pub fn peek_last_valid_frame(&self) -> (r: u32)
        requires
            self.wf(),
        ensures
            r == self.next_frame_no - 1,
    {
        self.next_frame_no - 1
    }

    /// Adopts the page size once. Setting the same value again is a no-op;
    /// setting a different value after one was set is an error, exactly.
    pub fn set_page_size(&mut self, page_size: usize) -> (r: Result<(), ReplicationError>)
        requires
            old(self).wf(),
            spec_valid_page_size(page_size as int),
        ensures
            final(self).wf(),
            *final(self) == (Replicator { page_size: final(self).page_size, ..*old(self) }),
            match r {
                Ok(()) => (old(self).page_size == UNSET_PAGE_SIZE || old(self).page_size
                    == page_size) && final(self).page_size == page_size,
                Err(e) => e == ReplicationError::PageSizeConflict && old(self).page_size
                    != UNSET_PAGE_SIZE && old(self).page_size != page_size
                    && final(self).page_size == old(self).page_size,
            },
    {
        if self.page_size != UNSET_PAGE_SIZE && self.page_size != page_size {
            return Err(ReplicationError::PageSizeConflict);
        }
        self.page_size = page_size;
        Ok(())
    }

    /// Resets the frame counters so that the next submitted frame gets
    /// `frame_no + 1`, clamping every frontier that lies above it.
    fn reset_frames(&mut self, frame_no: u32)
        requires
            old(self).wf(),
            frame_no < u32::MAX,
        ensures
            final(self).wf(),
            final(self).next_frame_no == frame_no + 1,
            final(self).last_sent_frame_no == if old(self).last_sent_frame_no <= frame_no {
                old(self).last_sent_frame_no
            } else {
                frame_no
            },
            final(self).last_uploaded_frame_no == if old(self).last_uploaded_frame_no <= frame_no {
                old(self).last_uploaded_frame_no
            } else {
                frame_no
            },
            final(self).last_committed_frame_no == if old(self).last_committed_frame_no
                <= frame_no {
                old(self).last_committed_frame_no
            } else {
                frame_no
            },
            *final(self) == (Replicator {
                next_frame_no: final(self).next_frame_no,
                last_sent_frame_no: final(self).last_sent_frame_no,
                last_uploaded_frame_no: final(self).last_uploaded_frame_no,
                last_committed_frame_no: final(self).last_committed_frame_no,
                ..*old(self)
            }),
    {
        self.next_frame_no = frame_no + 1;
        if self.last_sent_frame_no > frame_no {
            self.last_sent_frame_no = frame_no;
        }
        if self.last_uploaded_frame_no > frame_no {
            self.last_uploaded_frame_no = frame_no;
        }
        if self.last_committed_frame_no > frame_no {
            self.last_committed_frame_no = frame_no;
        }
    }

    /// Starts a new generation from the clock.
    pub fn new_generation(&mut self)
        requires
            old(self).wf(),
        ensures
            final(self).wf(),
            final(self).next_frame_no == 1,
            final(self).last_sent_frame_no == 0,
            final(self).last_uploaded_frame_no == 0,
            final(self).last_committed_frame_no == 0,
            final(self).commits_in_current_generation == 0,
            !final(self).meta_uploaded,
            crate::generation::spec_gen_version_ok(final(self).generation.id@),
            *final(self) == (Replicator {
                generation: final(self).generation,
                ..spec_generation_reset(*old(self))
            }),
    {
        let g = generate_generation();
        self.set_generation(g);
    }

    /// Adopts `generation` — for reuse of a remote generation — and resets
    /// the counters as if starting fresh.
    pub fn set_generation(&mut self, generation: Generation)
        requires
            old(self).wf(),
        ensures
            final(self).wf(),
            final(self).generation == generation,
            final(self).next_frame_no == 1,
            final(self).last_sent_frame_no == 0,
            final(self).last_uploaded_frame_no == 0,
            final(self).last_committed_frame_no == 0,
            final(self).commits_in_current_generation == 0,
            !final(self).meta_uploaded,
            *final(self) == (Replicator { generation, ..spec_generation_reset(*old(self)) }),
    {
        self.generation = generation;
        self.commits_in_current_generation = 0;
        self.meta_uploaded = false;
        self.flush_error = false;
        self.next_frame_no = 1;
        self.last_sent_frame_no = 0;
        self.last_uploaded_frame_no = 0;
        self.last_committed_frame_no = 0;
    }

    /// Reconciles the writer's view of the last valid frame: adopts `frame`
    /// when it differs. Returns `true` when the difference is a bug signal —
    /// the replicator already held a non-zero last valid frame.
    pub fn register_last_valid_frame(&mut self, frame: u32) -> (bug: bool)
        requires
            old(self).wf(),
            frame < u32::MAX,
        ensures
            final(self).wf(),
            bug == (frame != old(self).next_frame_no - 1 && old(self).next_frame_no != 1),
            (frame == old(self).next_frame_no - 1) ==> *final(self) == *old(self),
            (frame != old(self).next_frame_no - 1) ==> *final(self) == (Replicator {
                next_frame_no: (frame + 1) as u32,
                last_sent_frame_no: spec_min_u32(old(self).last_sent_frame_no, frame),
                last_uploaded_frame_no: spec_min_u32(old(self).last_uploaded_frame_no, frame),
                last_committed_frame_no: spec_min_u32(old(self).last_committed_frame_no, frame),
                ..*old(self)
            }),
    {
        let last_valid_frame = self.peek_last_valid_frame();
        if frame != last_valid_frame {
            let bug = last_valid_frame != 0;
            self.reset_frames(frame);
            bug
        } else {
            false
        }
    }

    /// Accounts for `frame_count` newly written frames. Returns `true` when
    /// a flush should be triggered: the pending frames reach a full batch.
    pub fn submit_frames(&mut self, frame_count: u32) -> (trigger: bool)
        requires
            old(self).wf(),
            old(self).next_frame_no + frame_count <= u32::MAX,
        ensures
            final(self).wf(),
            final(self).next_frame_no == old(self).next_frame_no + frame_count,
            trigger == (old(self).next_frame_no + frame_count - 1 - old(self).last_sent_frame_no
                >= old(self).max_frames_per_batch),
            *final(self) == (Replicator {
                next_frame_no: final(self).next_frame_no,
                ..*old(self)
            }),
    {
        self.next_frame_no = self.next_frame_no + frame_count;
        let last_known = self.next_frame_no - 1;
        last_known - self.last_sent_frame_no >= self.max_frames_per_batch
    }

    /// Drops the uncommitted tail: frames above `last_valid_frame` are
    /// forgotten, and the next submitted frame gets `last_valid_frame + 1`.
    /// Committed frames are never dropped.
    pub fn rollback_to_frame(&mut self, last_valid_frame: u32)
        requires
            old(self).wf(),
            last_valid_frame < u32::MAX,
            old(self).last_committed_frame_no <= last_valid_frame,
        ensures
            final(self).wf(),
            *final(self) == (Replicator {
                next_frame_no: (last_valid_frame + 1) as u32,
                last_sent_frame_no: spec_min_u32(old(self).last_sent_frame_no, last_valid_frame),
                last_uploaded_frame_no: spec_min_u32(
                    old(self).last_uploaded_frame_no,
                    last_valid_frame,
                ),
                ..*old(self)
            }),
            final(self).last_committed_frame_no == old(self).last_committed_frame_no,
    {
        self.reset_frames(last_valid_frame);
    }

    /// What an observer waiting for `frame_no` should do now: `Ok(Some(c))`
    /// when the durability frontier has reached it, `Ok(None)` to keep
    /// waiting, and the flush error when one is pending.
    pub fn check_committed(&self, frame_no: u32) -> (r: Result<Option<u32>, ReplicationError>)
        ensures
            match r {
                Ok(Some(c)) => !self.flush_error && c == self.last_committed_frame_no && c
                    >= frame_no,
                Ok(None) => !self.flush_error && self.last_committed_frame_no < frame_no,
                Err(e) => self.flush_error && e == ReplicationError::ObjectStoreUnavailable,
            },
    {
        if self.flush_error {
            return Err(ReplicationError::ObjectStoreUnavailable);
        }
        if self.last_committed_frame_no >= frame_no {
            Ok(Some(self.last_committed_frame_no))
        } else {
            Ok(None)
        }
    }

    /// Records that a flush failed: observers see the error, and the send
    /// frontier falls back to the uploaded frontier so the next trigger
    /// retries the frames that did not make it.
    pub fn fail_flush(&mut self)
        requires
            old(self).wf(),
        ensures
            final(self).wf(),
            final(self).flush_error,
            final(self).last_sent_frame_no == old(self).last_uploaded_frame_no,
            final(self).last_committed_frame_no == old(self).last_committed_frame_no,
            final(self).next_frame_no == old(self).next_frame_no,
    {
        self.flush_error = true;
        self.last_sent_frame_no = self.last_uploaded_frame_no;
    }
}

/// `true` when the object `o` is a frame batch of this generation whose
/// range contains frame `k`.
pub open spec fn spec_entry_covers(
    o: StoredObject,
    db_name: Seq<u8>,
    gen: Seq<u8>,
    ps: int,
    compressed: bool,
    k: int,
) -> bool {
    exists|s: u32|
        {
            &&& o.key@ == #[trigger] spec_batch_key(db_name, gen, s)
            &&& spec_batch_plain(o.body@, compressed) is Some
            &&& s <= k < s + spec_body_frame_count(
                spec_batch_plain(o.body@, compressed).unwrap(),
                ps,
            )
        }
}

/// `true` when some object in the store covers frame `k` of this generation.
pub open spec fn spec_covered_at(
    log: Seq<StoredObject>,
    db_name: Seq<u8>,
    gen: Seq<u8>,
    ps: int,
    compressed: bool,
    k: int,
) -> bool {
    exists|i: int|
        0 <= i < log.len() && spec_entry_covers(#[trigger] log[i], db_name, gen, ps, compressed, k)
}

/// `true` when every frame `1 ..= upto` of this generation is covered by
/// some batch object in the store.
pub open spec fn spec_store_covers(
    log: Seq<StoredObject>,
    db_name: Seq<u8>,
    gen: Seq<u8>,
    ps: int,
    compressed: bool,
    upto: int,
) -> bool {
    forall|k: int|
        1 <= k <= upto ==> #[trigger] spec_covered_at(log, db_name, gen, ps, compressed, k)
}

/// Appending an object never uncovers a frame.
pub proof fn lemma_covers_push(
    log: Seq<StoredObject>,
    o: StoredObject,
    db_name: Seq<u8>,
    gen: Seq<u8>,
    ps: int,
    compressed: bool,
    upto: int,
)
    requires
        spec_store_covers(log, db_name, gen, ps, compressed, upto),
    ensures
        spec_store_covers(log.push(o), db_name, gen, ps, compressed, upto),
{
    assert forall|k: int| 1 <= k <= upto implies #[trigger] spec_covered_at(
        log.push(o),
        db_name,
        gen,
        ps,
        compressed,
        k,
    ) by {
        assert(spec_covered_at(log, db_name, gen, ps, compressed, k));
        let i = choose|i: int|
            0 <= i < log.len() && spec_entry_covers(
                #[trigger] log[i],
                db_name,
                gen,
                ps,
                compressed,
                k,
            );
        assert(log.push(o)[i] == log[i]);
    }
}

/// Durability: every frame at or below the commit frontier has a batch
/// object covering it in the store. Observers that saw
/// `check_committed(k)` return a frame may rely on frames `1 ..= k` being
/// in the store.
pub proof fn lemma_commit_durability(
    r: Replicator,
    log: Seq<StoredObject>,
    ps: int,
    compressed: bool,
    k: int,
)
    requires
        r.wf(),
        spec_store_covers(log, r.db_name@, r.generation.id@, ps, compressed, r.last_uploaded_frame_no as int),
        1 <= k <= r.last_committed_frame_no,
    ensures
        spec_covered_at(log, r.db_name@, r.generation.id@, ps, compressed, k),
{
}

impl Replicator {
    /// One flush: sends every frame between the uploaded frontier and
    /// `next_frame_no` to the store in batches of at most
    /// `max_frames_per_batch` frames, in ascending order, writing the
    /// generation's metadata object before its first batch, and then
    /// publishes the new durability frontier. An empty range publishes at
    /// once; a missing WAL with a non-empty range fails the flush, leaving
    /// the store untouched and the frontier where it was, to be retried on
    /// the next trigger.
    #[verifier::rlimit(80)]
    pub fn flush_step(&mut self, wal: Option<&WalFileReader>, store: &mut StoreModel) -> (r:
        Result<u32, ReplicationError>)
        requires
            old(self).wf(),
            (match wal {
                Some(w) => w.wf() && old(self).next_frame_no - 1 <= w.frame_count,
                None => true,
            }),
            (match wal {
                Some(w) => spec_store_covers(
                    old(store).log@,
                    old(self).db_name@,
                    old(self).generation.id@,
                    w.page_size as int,
                    old(self).use_compression,
                    old(self).last_uploaded_frame_no as int,
                ),
                None => true,
            }),
        ensures
            final(self).wf(),
            final(self).next_frame_no == old(self).next_frame_no,
            final(self).generation == old(self).generation,
            final(self).db_name == old(self).db_name,
            final(self).db_path == old(self).db_path,
            final(self).bucket == old(self).bucket,
            final(self).use_compression == old(self).use_compression,
            final(self).verify_crc == old(self).verify_crc,
            final(self).max_frames_per_batch == old(self).max_frames_per_batch,
            final(self).page_size == old(self).page_size,
            old(store).log@.is_prefix_of(final(store).log@),
            match r {
                Ok(f) => {
                    &&& f == old(self).next_frame_no - 1
                    &&& final(self).last_committed_frame_no == f
                    &&& final(self).last_uploaded_frame_no == f
                    &&& final(self).last_sent_frame_no == f
                    &&& !final(self).flush_error
                    &&& f >= old(self).last_committed_frame_no
                    &&& (wal is None ==> old(self).last_uploaded_frame_no == old(self).next_frame_no
                        - 1)
                    &&& final(self).commits_in_current_generation == (
                    if old(self).last_uploaded_frame_no == old(self).next_frame_no - 1 {
                        old(self).commits_in_current_generation
                    } else {
                        old(self).commits_in_current_generation.wrapping_add(1)
                    })
                    &&& (match wal {
                        Some(w) => spec_store_covers(
                            final(store).log@,
                            old(self).db_name@,
                            old(self).generation.id@,
                            w.page_size as int,
                            old(self).use_compression,
                            f as int,
                        ),
                        None => true,
                    })
                    &&& (old(self).last_uploaded_frame_no == old(self).next_frame_no - 1
                        ==> final(store).log@ == old(store).log@
                        && final(self).commits_in_current_generation == old(self).commits_in_current_generation)
                },
                Err(e) => {
                    &&& e == ReplicationError::WalAbsent
                    &&& wal is None
                    &&& old(self).last_uploaded_frame_no < old(self).next_frame_no - 1
                    &&& final(self).flush_error
                    &&& final(store).log@ == old(store).log@
                    &&& final(self).last_committed_frame_no == old(self).last_committed_frame_no
                    &&& final(self).last_uploaded_frame_no == old(self).last_uploaded_frame_no
                },
            },
            (match (r, wal) {
                (Ok(f), Some(w)) => ({
                    let start = old(self).last_uploaded_frame_no as int + 1;
                    let end = old(self).next_frame_no as int;
                    let rs = spec_batch_ranges(start, end, old(self).max_frames_per_batch as int);
                    let base = old(store).log@.len() as int;
                    let meta_n: int = if old(self).last_uploaded_frame_no == 0 && start < end {
                        1int
                    } else {
                        0int
                    };
                    &&& final(store).log@.len() == base + meta_n + rs.len()
                    &&& (meta_n == 1 ==> final(self).meta_uploaded && final(store).log@[base].key@
                        == spec_key_prefix(old(self).db_name@, old(self).generation.id@)
                        + spec_suffix_meta() && final(store).log@[base].body@ == spec_meta_bytes(
                        w.page_size,
                        w.checksum,
                    ))
                    &&& forall|j: int|
                        #![trigger rs[j]]
                        0 <= j < rs.len() ==> final(store).log@[base + meta_n + j].key@
                            == spec_batch_key(
                            old(self).db_name@,
                            old(self).generation.id@,
                            rs[j].0 as u32,
                        ) && spec_batch_plain(
                            final(store).log@[base + meta_n + j].body@,
                            old(self).use_compression,
                        ) == Some(
                            spec_frames_bytes(w.data@, w.page_size as int, rs[j].0, rs[j].1),
                        )
                }),
                _ => true,
            }),
    {
        let next = self.next_frame_no;
        let start = self.last_uploaded_frame_no + 1;
        self.last_sent_frame_no = next - 1;
        if start == next {
            self.flush_error = false;
            let f = next - 1;
            self.last_committed_frame_no = f;
            proof {
                assert(spec_batch_ranges(start as int, next as int, self.max_frames_per_batch as int)
                    =~= Seq::<(int, int)>::empty());
            }
            return Ok(f);
        }
        let w = match wal {
            Some(w) => w,
            None => {
                self.flush_error = true;
                self.last_sent_frame_no = self.last_uploaded_frame_no;
                return Err(ReplicationError::WalAbsent);
            },
        };
        self.commits_in_current_generation = self.commits_in_current_generation.wrapping_add(1);
        let ghost base = store.log@.len() as int;
        let ghost meta_n: int = if start == 1 {
            1int
        } else {
            0int
        };
        if start == 1 {
            let mk = meta_key(&self.db_name, &self.generation);
            let mb = encode_meta(w.page_size(), w.checksum());
            store.put(mk, mb);
            self.meta_uploaded = true;
        }
        let m = self.max_frames_per_batch;
        let ghost rs = spec_batch_ranges(start as int, next as int, m as int);
        let ghost db_name_view = self.db_name@;
        let ghost gen_view = self.generation.id@;
        proof {
            lemma_batch_ranges(start as int, next as int, m as int);
        }
        let mut s: u32 = start;
        let ghost mut j: int = 0;
        while s < next
            invariant
                1 <= start <= s <= next,
                m == self.max_frames_per_batch,
                next == self.next_frame_no,
                self.wf(),
                self.last_sent_frame_no == next - 1,
                self.last_uploaded_frame_no == s - 1,
                self.last_committed_frame_no == old(self).last_committed_frame_no
                    || self.last_committed_frame_no <= s - 1,
                self.last_committed_frame_no == old(self).last_committed_frame_no,
                self.generation == old(self).generation,
                self.db_name == old(self).db_name,
                self.db_path == old(self).db_path,
                self.bucket == old(self).bucket,
                self.use_compression == old(self).use_compression,
                self.verify_crc == old(self).verify_crc,
                self.page_size == old(self).page_size,
                self.meta_uploaded == (old(self).meta_uploaded || start == 1),
                self.commits_in_current_generation == old(
                    self,
                ).commits_in_current_generation.wrapping_add(1),
                db_name_view == self.db_name@,
                gen_view == self.generation.id@,
                wal == Some(w),
                w.wf(),
                next - 1 <= w.frame_count,
                0 <= j <= rs.len(),
                rs == spec_batch_ranges(start as int, next as int, m as int),
                spec_batch_ranges(s as int, next as int, m as int) == rs.skip(j),
                base == old(store).log@.len() as int,
                0 <= base,
                store.log@.len() == base + meta_n + j,
                old(store).log@.is_prefix_of(store.log@),
                meta_n == if start == 1 {
                    1int
                } else {
                    0int
                },
                meta_n == 1 ==> self.meta_uploaded && store.log@[base].key@ == spec_key_prefix(
                    db_name_view,
                    gen_view,
                ) + spec_suffix_meta() && store.log@[base].body@ == spec_meta_bytes(
                    w.page_size,
                    w.checksum,
                ),
                forall|q: int|
                    #![trigger rs[q]]
                    0 <= q < j ==> store.log@[base + meta_n + q].key@ == spec_batch_key(
                        db_name_view,
                        gen_view,
                        rs[q].0 as u32,
                    ) && spec_batch_plain(
                        store.log@[base + meta_n + q].body@,
                        self.use_compression,
                    ) == Some(spec_frames_bytes(w.data@, w.page_size as int, rs[q].0, rs[q].1)),
                spec_store_covers(
                    store.log@,
                    db_name_view,
                    gen_view,
                    w.page_size as int,
                    self.use_compression,
                    s as int - 1,
                ),
            decreases next - s,
        {
            let e: u32 = if next - s > m {
                s + m
            } else {
                next
            };
            proof {
                assert(rs.skip(j).len() > 0) by {
                    lemma_batch_ranges(s as int, next as int, m as int);
                }
                assert(rs.skip(j)[0] == rs[j]);
                assert(rs[j].0 == s as int && rs[j].1 == e as int);
                assert(spec_batch_ranges(s as int, next as int, m as int).skip(1)
                    =~= spec_batch_ranges(e as int, next as int, m as int));
                assert(rs.skip(j).skip(1) =~= rs.skip(j + 1));
            }
            proof {
                crate::wal::lemma_frames_fit(
                    w.data@.len() as int,
                    w.page_size as int,
                    w.frame_count as int,
                    e as int - 1,
                );
                crate::wal::lemma_offset_step(w.page_size as int, e as int - 1);
            }
            let writer = BatchWriter::new(self.use_compression, s, e);
            let body = writer.read_frames(w);
            let key = batch_key(&self.db_name, &self.generation, s);
            let ghost prev_log = store.log@;
            store.put(key, body);
            proof {
                assert(prev_log.len() == base + meta_n + j);
                lemma_covers_push(
                    prev_log,
                    store.log@.last(),
                    db_name_view,
                    gen_view,
                    w.page_size as int,
                    self.use_compression,
                    s as int - 1,
                );
                crate::codec::lemma_codec_roundtrip(
                    w.data@,
                    w.page_size as int,
                    s as int,
                    e as int,
                    0,
                );
                let entry = store.log@[base + meta_n + j];
                assert(entry == store.log@.last());
                assert(spec_batch_plain(entry.body@, self.use_compression) == Some(
                    spec_frames_bytes(w.data@, w.page_size as int, s as int, e as int),
                ));
                assert(spec_body_frame_count(
                    spec_batch_plain(entry.body@, self.use_compression).unwrap(),
                    w.page_size as int,
                ) == e - s);
                assert forall|k: int| 1 <= k <= e as int - 1 implies #[trigger] spec_covered_at(
                    store.log@,
                    db_name_view,
                    gen_view,
                    w.page_size as int,
                    self.use_compression,
                    k,
                ) by {
                    if k >= s {
                        assert(spec_entry_covers(
                            entry,
                            db_name_view,
                            gen_view,
                            w.page_size as int,
                            self.use_compression,
                            k,
                        )) by {
                            assert(entry.key@ == spec_batch_key(db_name_view, gen_view, s));
                        }
                        assert(0 <= base + meta_n + j < store.log@.len());
                    }
                }
                assert(prev_log.is_prefix_of(store.log@));
                assert forall|q: int| #![trigger rs[q]] 0 <= q < j + 1 implies store.log@[base
                    + meta_n + q].key@ == spec_batch_key(db_name_view, gen_view, rs[q].0 as u32)
                    && spec_batch_plain(store.log@[base + meta_n + q].body@, self.use_compression)
                    == Some(
                    spec_frames_bytes(w.data@, w.page_size as int, rs[q].0, rs[q].1),
                ) by {
                    if q < j {
                        assert(store.log@[base + meta_n + q] == prev_log[base + meta_n + q]);
                    }
                }
                j = j + 1;
            }
            self.last_uploaded_frame_no = e - 1;
            s = e;
        }
        proof {
            assert(rs.skip(j) =~= spec_batch_ranges(next as int, next as int, m as int));
            assert(rs.skip(j).len() == 0);
            assert(j == rs.len());
        }
        self.flush_error = false;
        let f = next - 1;
        self.last_committed_frame_no = f;
        Ok(f)
    }

    /// Replicates a local WAL file into the current generation — called when
    /// the local file was found newer than the remote log. Frames are
    /// submitted in order; every commit boundary flushes; the last committed
    /// frame is finalized with the WAL header's checksum. A missing or
    /// malformed local WAL replicates nothing.
    pub fn maybe_replicate_wal(&mut self, local_wal: Option<Vec<u8>>, store: &mut StoreModel) -> (r:
        Result<(), ReplicationError>)
        requires
            old(self).wf(),
            old(self).next_frame_no == 1,
            old(self).last_uploaded_frame_no == 0,
        ensures
            final(self).wf(),
            old(store).log@.is_prefix_of(final(store).log@),
            (match local_wal {
                None => r is Ok && *final(self) == *old(self)
                    && final(store).log@ == old(store).log@,
                Some(b) => {
                    let ps = crate::wal::spec_wal_page_size(b@);
                    let count = crate::wal::spec_wal_frame_count(b@.len() as int, ps);
                    let lcf = crate::wal::spec_last_commit_frame(b@, ps, count);
                    if !crate::wal::spec_wal_header_ok(b@) {
                        r is Ok && *final(self) == *old(self)
                            && final(store).log@ == old(store).log@
                    } else if !(old(self).page_size == UNSET_PAGE_SIZE || old(self).page_size as int
                        == ps) {
                        (r matches Err(e) && e == ReplicationError::PageSizeConflict)
                            && *final(self) == *old(self)
                            && final(store).log@ == old(store).log@
                    } else if count == u32::MAX {
                        (r matches Err(e) && e == ReplicationError::WalMalformed)
                            && final(store).log@ == old(store).log@
                    } else {
                        &&& r is Ok
                        &&& final(self).next_frame_no == count + 1
                        &&& final(self).page_size as int == ps
                        &&& final(self).last_committed_frame_no == lcf
                        &&& final(self).last_uploaded_frame_no == lcf
                        &&& final(self).generation == old(self).generation
                        &&& spec_store_covers(
                            final(store).log@,
                            old(self).db_name@,
                            old(self).generation.id@,
                            ps,
                            old(self).use_compression,
                            lcf,
                        )
                        &&& (lcf > 0 ==> final(store).log@.len() > 0
                            && final(store).log@.last().key@ == spec_key_prefix(
                            old(self).db_name@,
                            old(self).generation.id@,
                        ) + spec_suffix_consistent() && final(store).log@.last().body@
                            == spec_consistent_bytes(
                            ps as u32,
                            lcf as u32,
                            crate::wal::spec_wal_checksum(b@) as u64,
                        ))
                    }
                },
            }),
    {
        let wal_bytes = match local_wal {
            Some(b) => b,
            None => {
                return Ok(());
            },
        };
        let wal = match WalFileReader::open(wal_bytes) {
            Ok(w) => w,
            Err(_) => {
                return Ok(());
            },
        };
        match self.set_page_size(wal.page_size() as usize) {
            Ok(()) => (),
            Err(e) => {
                return Err(e);
            },
        }
        let count = wal.frame_count();
        if count == u32::MAX {
            return Err(ReplicationError::WalMalformed);
        }
        let checksum = wal.checksum();
        let mut last_written: u32 = 0;
        let mut i: u32 = 0;
        proof {
            assert(spec_store_covers(
                store.log@,
                self.db_name@,
                self.generation.id@,
                wal.page_size as int,
                self.use_compression,
                0,
            ));
        }
        while i < count
            invariant
                i <= count < u32::MAX,
                self.wf(),
                wal.wf(),
                count == wal.frame_count,
                checksum == wal.checksum,
                self.next_frame_no == i + 1,
                self.last_uploaded_frame_no as int == crate::wal::spec_last_commit_frame(
                    wal.data@,
                    wal.page_size as int,
                    i as int,
                ),
                self.last_committed_frame_no == self.last_uploaded_frame_no,
                last_written == self.last_committed_frame_no,
                self.page_size == wal.page_size,
                spec_valid_page_size(self.page_size as int),
                self.generation == old(self).generation,
                self.db_name == old(self).db_name,
                self.use_compression == old(self).use_compression,
                old(store).log@.is_prefix_of(store.log@),
                spec_store_covers(
                    store.log@,
                    self.db_name@,
                    self.generation.id@,
                    wal.page_size as int,
                    self.use_compression,
                    self.last_uploaded_frame_no as int,
                ),
            decreases count - i,
        {
            let ghost pre_log = store.log@;
            let _ = self.submit_frames(1);
            let header = wal.read_frame_header(i + 1);
            if header.is_committed() {
                let f = match self.flush_step(Some(&wal), store) {
                    Ok(f) => f,
                    Err(e) => {
                        return Err(e);
                    },
                };
                last_written = f;
                proof {
                    assert(crate::wal::spec_last_commit_frame(
                        wal.data@,
                        wal.page_size as int,
                        i as int + 1,
                    ) == i + 1);
                    crate::store::lemma_prefix_transitive(old(store).log@, pre_log, store.log@);
                }
            } else {
                proof {
                    assert(crate::wal::spec_last_commit_frame(
                        wal.data@,
                        wal.page_size as int,
                        i as int + 1,
                    ) == crate::wal::spec_last_commit_frame(
                        wal.data@,
                        wal.page_size as int,
                        i as int,
                    ));
                }
            }
            i = i + 1;
        }
        if last_written > 0 {
            let ghost pre_log = store.log@;
            self.finalize_commit(last_written, checksum, store);
            proof {
                crate::store::lemma_prefix_transitive(old(store).log@, pre_log, store.log@);
                lemma_covers_push(
                    pre_log,
                    store.log@.last(),
                    self.db_name@,
                    self.generation.id@,
                    wal.page_size as int,
                    self.use_compression,
                    self.last_uploaded_frame_no as int,
                );
                assert(store.log@ == pre_log.push(store.log@.last())) by {
                    assert(store.log@.subrange(0, pre_log.len() as int) == pre_log);
                    assert(store.log@ =~= pre_log.push(store.log@.last()));
                }
            }
        }
        Ok(())
    }

    /// Starts one flush: the pending range `[last uploaded + 1, next)` is
    /// marked sent — new submissions open a fresh range — and a non-empty
    /// range counts as one commit of the generation. Returns the range.
    pub fn begin_flush(&mut self) -> (r: (u32, u32))
        requires
            old(self).wf(),
        ensures
            final(self).wf(),
            r.0 == old(self).last_uploaded_frame_no + 1,
            r.1 == old(self).next_frame_no,
            *final(self) == (Replicator {
                last_sent_frame_no: (old(self).next_frame_no - 1) as u32,
                commits_in_current_generation: final(self).commits_in_current_generation,
                ..*old(self)
            }),
            final(self).commits_in_current_generation == (if r.0 == r.1 {
                old(self).commits_in_current_generation
            } else {
                old(self).commits_in_current_generation.wrapping_add(1)
            }),
    {
        let next = self.next_frame_no;
        let start = self.last_uploaded_frame_no + 1;
        self.last_sent_frame_no = next - 1;
        if start < next {
            self.commits_in_current_generation = self.commits_in_current_generation.wrapping_add(
                1,
            );
        }
        (start, next)
    }

    /// The objects one flush uploads for the frame range `[start, end)`: the
    /// generation's metadata when the range starts the log, and the frame
    /// batches, at most `max_frames_per_batch` frames each, in ascending
    /// order of their starting frame.
    pub fn plan_flush_puts(&self, wal: &WalFileReader, start: u32, end: u32) -> (r: FlushPlan)
        requires
            self.wf(),
            wal.wf(),
            1 <= start <= end,
            end - 1 <= wal.frame_count,
        ensures
            ({
                let rs = spec_batch_ranges(
                    start as int,
                    end as int,
                    self.max_frames_per_batch as int,
                );
                &&& (r.meta is Some <==> (start == 1 && start < end))
                &&& (r.meta matches Some(op) ==> op.key@ == spec_key_prefix(
                    self.db_name@,
                    self.generation.id@,
                ) + spec_suffix_meta() && op.body@ == spec_meta_bytes(wal.page_size, wal.checksum))
                &&& r.batches@.len() == rs.len()
                &&& (forall|j: int|
                    #![trigger rs[j]]
                    0 <= j < rs.len() ==> r.batches@[j].key@ == spec_batch_key(
                        self.db_name@,
                        self.generation.id@,
                        rs[j].0 as u32,
                    ) && spec_batch_plain(r.batches@[j].body@, self.use_compression) == Some(
                        spec_frames_bytes(wal.data@, wal.page_size as int, rs[j].0, rs[j].1),
                    ))
                &&& r.publish == end - 1
            }),
    {
        let meta: Option<PutOp> = if start == 1 && start < end {
            Some(
                PutOp {
                    key: meta_key(&self.db_name, &self.generation),
                    body: encode_meta(wal.page_size(), wal.checksum()),
                },
            )
        } else {
            None
        };
        let m = self.max_frames_per_batch;
        let ghost rs = spec_batch_ranges(start as int, end as int, m as int);
        let mut batches: Vec<PutOp> = Vec::new();
        let mut s: u32 = start;
        let ghost mut j: int = 0;
        proof {
            if start < end {
                lemma_batch_ranges(start as int, end as int, m as int);
            }
        }
        while s < end
            invariant
                self.wf(),
                wal.wf(),
                1 <= start <= s <= end,
                end - 1 <= wal.frame_count,
                m == self.max_frames_per_batch,
                0 <= j <= rs.len(),
                rs == spec_batch_ranges(start as int, end as int, m as int),
                spec_batch_ranges(s as int, end as int, m as int) == rs.skip(j),
                batches@.len() == j,
                forall|q: int|
                    #![trigger rs[q]]
                    0 <= q < j ==> batches@[q].key@ == spec_batch_key(
                        self.db_name@,
                        self.generation.id@,
                        rs[q].0 as u32,
                    ) && spec_batch_plain(batches@[q].body@, self.use_compression) == Some(
                        spec_frames_bytes(wal.data@, wal.page_size as int, rs[q].0, rs[q].1),
                    ),
            decreases end - s,
        {
            let e: u32 = if end - s > m {
                s + m
            } else {
                end
            };
            proof {
                assert(rs.skip(j).len() > 0) by {
                    lemma_batch_ranges(s as int, end as int, m as int);
                }
                assert(rs.skip(j)[0] == rs[j]);
                assert(rs[j].0 == s as int && rs[j].1 == e as int);
                assert(spec_batch_ranges(s as int, end as int, m as int).skip(1)
                    =~= spec_batch_ranges(e as int, end as int, m as int));
                assert(rs.skip(j).skip(1) =~= rs.skip(j + 1));
                crate::wal::lemma_frames_fit(
                    wal.data@.len() as int,
                    wal.page_size as int,
                    wal.frame_count as int,
                    e as int - 1,
                );
                crate::wal::lemma_offset_step(wal.page_size as int, e as int - 1);
            }
            let writer = BatchWriter::new(self.use_compression, s, e);
            let body = writer.read_frames(wal);
            let key = batch_key(&self.db_name, &self.generation, s);
            let ghost prev = batches@;
            batches.push(PutOp { key, body });
            proof {
                assert forall|q: int| #![trigger rs[q]] 0 <= q < j + 1 implies batches@[q].key@
                    == spec_batch_key(self.db_name@, self.generation.id@, rs[q].0 as u32)
                    && spec_batch_plain(batches@[q].body@, self.use_compression) == Some(
                    spec_frames_bytes(wal.data@, wal.page_size as int, rs[q].0, rs[q].1),
                ) by {
                    if q < j {
                        assert(batches@[q] == prev[q]);
                    } else {
                        assert(batches@[q] == batches@.last());
                    }
                }
                j = j + 1;
            }
            s = e;
        }
        proof {
            assert(rs.skip(j) =~= spec_batch_ranges(end as int, end as int, m as int));
            assert(j == rs.len());
        }
        FlushPlan { meta, batches, publish: end - 1 }
    }

    /// Records that every object of one flush over `[start, end)` was
    /// uploaded: the uploaded and committed frontiers advance to the end of
    /// the range, observers see no error, and a range starting the log marks
    /// the metadata as written. The frontier never moves backwards. Frames
    /// submitted while the uploads ran only widen `next_frame_no`; they are
    /// caught by the next flush.
    pub fn complete_flush(&mut self, start: u32, end: u32)
        requires
            old(self).wf(),
            old(self).last_uploaded_frame_no + 1 == start,
            start <= end,
            end - 1 <= old(self).last_sent_frame_no,
        ensures
            final(self).wf(),
            final(self).last_uploaded_frame_no == end - 1,
            final(self).last_committed_frame_no == end - 1,
            final(self).last_committed_frame_no >= old(self).last_committed_frame_no,
            !final(self).flush_error,
            *final(self) == (Replicator {
                last_uploaded_frame_no: (end - 1) as u32,
                last_committed_frame_no: (end - 1) as u32,
                flush_error: false,
                meta_uploaded: old(self).meta_uploaded || (start == 1 && start < end),
                ..*old(self)
            }),
    {
        if start == 1 && start < end {
            self.meta_uploaded = true;
        }
        self.last_uploaded_frame_no = end - 1;
        self.last_committed_frame_no = end - 1;
        self.flush_error = false;
    }

    /// Writes the durable commit marker: the `.consistent` object carrying
    /// the page size, the last committed frame and its checksum.
    pub fn finalize_commit(&self, last_frame: u32, checksum: u64, store: &mut StoreModel)
        requires
            self.wf(),
            spec_valid_page_size(self.page_size as int),
        ensures
            final(store).log@.len() == old(store).log@.len() + 1,
            old(store).log@.is_prefix_of(final(store).log@),
            final(store).log@.last().key@ == spec_key_prefix(self.db_name@, self.generation.id@)
                + spec_suffix_consistent(),
            final(store).log@.last().body@ == spec_consistent_bytes(
                self.page_size as u32,
                last_frame,
                checksum,
            ),
    {
        let key = consistent_key(&self.db_name, &self.generation);
        let body = encode_consistent(self.page_size as u32, last_frame, checksum);
        store.put(key, body);
    }

    /// Whether a local database file is worth snapshotting: it must exist
    /// and hold at least a full header's change-counter field.
    pub fn snapshot_required(local_db: Option<&Vec<u8>>) -> (r: bool)
        ensures
            r == (match local_db {
                Some(db) => db@.len() >= 28,
                None => false,
            }),
    {
        match local_db {
            Some(db) => db.len() >= 28,
            None => false,
        }
    }

    /// Uploads the main database snapshot — compressed when configured — and
    /// its change-counter sidecar.
    pub fn snapshot_main_db_file(&self, db_bytes: &Vec<u8>, store: &mut StoreModel)
        requires
            self.wf(),
            db_bytes@.len() >= 28,
        ensures
            final(store).log@.len() == old(store).log@.len() + 2,
            old(store).log@.is_prefix_of(final(store).log@),
            ({
                let db_obj = final(store).log@[old(store).log@.len() as int];
                &&& db_obj.key@ == spec_key_prefix(self.db_name@, self.generation.id@)
                    + if self.use_compression {
                    spec_suffix_db_gz()
                } else {
                    spec_suffix_db()
                }
                &&& spec_batch_plain(db_obj.body@, self.use_compression) == Some(db_bytes@)
            }),
            final(store).log@.last().key@ == spec_key_prefix(self.db_name@, self.generation.id@)
                + spec_suffix_changecounter(),
            final(store).log@.last().body@ == db_bytes@.subrange(24, 28),
    {
        let key = main_db_key(&self.db_name, &self.generation, self.use_compression);
        let body = if self.use_compression {
            crate::codec::gzip_compress(db_bytes)
        } else {
            crate::store::clone_bytes(db_bytes)
        };
        store.put(key, body);
        let cc_key = changecounter_key(&self.db_name, &self.generation);
        let mut cc_body: Vec<u8> = Vec::new();
        crate::wal::push_bytes_range(&mut cc_body, db_bytes, 24, 28);
        store.put(cc_key, cc_body);
        proof {
            assert(cc_body@ =~= db_bytes@.subrange(24, 28));
        }
    }
}

/// The smaller of two frame numbers.
pub open spec fn spec_min_u32(a: u32, b: u32) -> u32 {
    if a <= b {
        a
    } else {
        b
    }
}

/// The fields `set_generation` resets, with everything else kept.
pub open spec fn spec_generation_reset(r: Replicator) -> Replicator {
    Replicator {
        next_frame_no: 1,
        last_sent_frame_no: 0,
        last_uploaded_frame_no: 0,
        last_committed_frame_no: 0,
        flush_error: false,
        meta_uploaded: false,
        commits_in_current_generation: 0,
        generation: r.generation,
        ..r
    }
}

} // verus!
