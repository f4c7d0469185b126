//! The restore planner: decides between reusing the remote generation,
//! snapshotting the local database, and applying the remote log; and the
//! apply session that rebuilds the database file from a snapshot and the
//! frame batches, transaction by transaction.

use vstd::prelude::*;
use crate::codec::{BatchReader, gzip_decompress, spec_batch_plain};
use crate::keys::{spec_key_prefix, spec_suffix_db, spec_suffix_db_gz};
use crate::encoding::{spec_be_value, read_u32_be, lemma_be_value_bound};
use crate::error::ReplicationError;
use crate::keys::{key_prefix, parse_frame_no, consistent_key, changecounter_key, main_db_key};
use crate::meta::{decode_consistent, spec_parse_consistent};
use crate::generation::Generation;
use crate::replicator::{Replicator, RestoreAction, UNSET_PAGE_SIZE};
use crate::store::{StoreModel, spec_get};
use crate::wal::{FrameHeader, WalFileReader, spec_valid_page_size};

verus! {

/// The page size the database header declares: a 16-bit field at offset 16,
/// where the value 1 stands for 65536.
pub fn read_page_size(db: &Vec<u8>) -> (r: u32)
    requires
        db@.len() >= 18,
    ensures
        r as int == ({
            let raw = spec_be_value(db@.subrange(16, 18));
            if raw == 1 {
                65536int
            } else {
                raw
            }
        }),
{
    let b0 = db[16];
    let b1 = db[17];
    proof {
        let s = db@.subrange(16, 18);
        assert(s.drop_last() =~= db@.subrange(16, 17));
        assert(db@.subrange(16, 17).drop_last() =~= Seq::<u8>::empty());
        assert(spec_be_value(Seq::<u8>::empty()) == 0);
        assert(spec_be_value(db@.subrange(16, 17)) == b0);
        assert(spec_be_value(s) == b0 * 256 + b1);
    }
    let raw: u32 = (b0 as u32) * 256 + (b1 as u32);
    if raw == 1 {
        65536
    } else {
        raw
    }
}

/// The change counter the database header carries: 4 bytes at offset 24,
/// compared as a big-endian number.
pub fn read_change_counter(db: &Vec<u8>) -> (r: u32)
    requires
        db@.len() >= 28,
    ensures
        r as int == spec_be_value(db@.subrange(24, 28)),
{
    proof {
        lemma_be_value_bound(db@.subrange(24, 28));
        crate::meta::lemma_pow256_small();
    }
    read_u32_be(db, 24)
}

/// What the comparison of local and remote state decided.
#[derive(Clone, Copy, Debug, PartialEq, Eq, Structural)]
pub enum RestorePlan {
    /// Local and remote agree exactly: keep writing into the remote
    /// generation.
    ReuseGeneration,
    /// The local database is ahead: publish a fresh snapshot instead.
    SnapshotMainDbFile,
    /// The remote log is ahead: rebuild the local database from it.
    ApplyRemote,
}

/// The restore decision table over the change counters and the WAL lengths:
/// equal counters decide by the local WAL length against the last consistent
/// frame; a larger local counter means the local file is ahead; a smaller
/// one means the remote log is.
pub fn plan_restore(
    local_counter: u32,
    remote_counter: u32,
    wal_pages: u32,
    last_consistent_frame: u32,
) -> (r: RestorePlan)
    ensures
        r == RestorePlan::ReuseGeneration <==> (local_counter == remote_counter && wal_pages
            == last_consistent_frame),
        r == RestorePlan::SnapshotMainDbFile <==> (local_counter > remote_counter || (local_counter
            == remote_counter && wal_pages > last_consistent_frame)),
        r == RestorePlan::ApplyRemote <==> (local_counter < remote_counter || (local_counter
            == remote_counter && wal_pages < last_consistent_frame)),
{
    if local_counter == remote_counter {
        if wal_pages == last_consistent_frame {
            RestorePlan::ReuseGeneration
        } else if wal_pages > last_consistent_frame {
            RestorePlan::SnapshotMainDbFile
        } else {
            RestorePlan::ApplyRemote
        }
    } else if local_counter > remote_counter {
        RestorePlan::SnapshotMainDbFile
    } else {
        RestorePlan::ApplyRemote
    }
}

/// The database bytes after writing `page` at page number `pgno`
/// (1-indexed): the file grows with zeroes as needed.
pub open spec fn spec_apply_page(db: Seq<u8>, ps: int, pgno: int, page: Seq<u8>) -> Seq<u8> {
    let off = (pgno - 1) * ps;
    let newlen = if db.len() >= off + ps {
        db.len() as int
    } else {
        off + ps
    };
    Seq::new(
        newlen as nat,
        |i: int|
            if off <= i < off + ps {
                page[i - off]
            } else if i < db.len() {
                db[i]
            } else {
                0u8
            },
    )
}

/// Writes `page` into the database image at page number `pgno`.
pub fn apply_page(db: &mut Vec<u8>, page_size: u32, pgno: u32, page: &Vec<u8>)
    requires
        spec_valid_page_size(page_size as int),
        1 <= pgno,
        page@.len() == page_size,
        pgno * page_size <= usize::MAX,
        old(db)@.len() <= usize::MAX,
    ensures
        final(db)@ == spec_apply_page(old(db)@, page_size as int, pgno as int, page@),
{
    let ps = page_size as usize;
    proof {
        assert((pgno as int - 1) * page_size as int == pgno as int * page_size as int
            - page_size as int) by (nonlinear_arith);
    }
    let off: usize = (pgno as usize - 1) * ps;
    while db.len() < off + ps
        invariant
            off + ps <= usize::MAX,
            old(db)@.len() <= db@.len() <= vstd::math::max(old(db)@.len() as int, off + ps),
            forall|i: int| 0 <= i < old(db)@.len() ==> db@[i] == #[trigger] old(db)@[i],
            forall|i: int| old(db)@.len() <= i < db@.len() ==> #[trigger] db@[i] == 0u8,
        decreases off + ps - db@.len(),
    {
        db.push(0);
    }
    let mut k: usize = 0;
    let ghost grown = db@;
    while k < ps
        invariant
            off + ps <= usize::MAX,
            k <= ps == page_size,
            page@.len() == ps,
            off + ps <= db@.len() == grown.len(),
            grown.len() <= usize::MAX,
            forall|i: int| 0 <= i < db@.len() && !(off <= i < off + k) ==> #[trigger] db@[i]
                == grown[i],
            forall|i: int| off <= i < off + k ==> #[trigger] db@[i] == page@[i - off],
        decreases ps - k,
    {
        db.set(off + k, page[k]);
        k = k + 1;
    }
    proof {
        assert(final(db)@ =~= spec_apply_page(old(db)@, page_size as int, pgno as int, page@));
    }
}

/// The database bytes after replaying a run of frames, in order.
pub open spec fn spec_replay(db: Seq<u8>, ps: int, frames: Seq<(FrameHeader, Seq<u8>)>) -> Seq<u8>
    decreases frames.len(),
{
    if frames.len() == 0 {
        db
    } else {
        spec_replay(
            spec_apply_page(db, ps, frames[0].0.pgno as int, frames[0].1),
            ps,
            frames.skip(1),
        )
    }
}

/// Replaying a concatenation replays the parts in order.
pub proof fn lemma_replay_concat(
    db: Seq<u8>,
    ps: int,
    a: Seq<(FrameHeader, Seq<u8>)>,
    b: Seq<(FrameHeader, Seq<u8>)>,
)
    ensures
        spec_replay(db, ps, a + b) == spec_replay(spec_replay(db, ps, a), ps, b),
    decreases a.len(),
{
    if a.len() == 0 {
        assert(a + b =~= b);
    } else {
        assert((a + b)[0] == a[0]);
        assert((a + b).skip(1) =~= a.skip(1) + b);
        lemma_replay_concat(
            spec_apply_page(db, ps, a[0].0.pgno as int, a[0].1),
            ps,
            a.skip(1),
            b,
        );
    }
}

/// The index just past the last committing frame of a run, or 0 when none
/// commits.
pub open spec fn spec_committed_len(frames: Seq<(FrameHeader, Seq<u8>)>) -> int
    decreases frames.len(),
{
    if frames.len() == 0 {
        0
    } else if frames.last().0.size_after != 0 {
        frames.len() as int
    } else {
        spec_committed_len(frames.drop_last())
    }
}

/// What a finished restore owes: the database image is the snapshot with
/// every committed transaction of the fed frames replayed over it, in order;
/// frames after the last commit are never applied.
pub open spec fn spec_restored_db(
    db0: Seq<u8>,
    ps: int,
    frames: Seq<(FrameHeader, Seq<u8>)>,
) -> Seq<u8> {
    spec_replay(db0, ps, frames.take(spec_committed_len(frames)))
}

/// Rebuilds a database image from a snapshot and the frames of the remote
/// log: pages of a transaction collect until its committing frame arrives,
/// and only then reach the image.
pub struct RestoreSession {
    pub db: Vec<u8>,
    pub page_size: u32,
    pub pending: Vec<(u32, Vec<u8>)>,
    pub applied_any: bool,
    /// The snapshot the session started from.
    pub db0: Ghost<Seq<u8>>,
    /// Every frame fed so far, in order.
    pub frames: Ghost<Seq<(FrameHeader, Seq<u8>)>>,
}

impl RestoreSession {
    /// The image equals the snapshot plus the committed prefix, and the
    /// pending pages are exactly the frames after the last commit.
    pub open spec fn wf(&self) -> bool {
        &&& spec_valid_page_size(self.page_size as int)
        &&& self.db@ == spec_restored_db(self.db0@, self.page_size as int, self.frames@)
        &&& forall|i: int|
            0 <= i < self.frames@.len() ==> (#[trigger] self.frames@[i].1).len()
                == self.page_size
        &&& self.pending@.len() == self.frames@.len() - spec_committed_len(self.frames@)
        &&& forall|i: int|
            0 <= i < self.pending@.len() ==> #[trigger] self.pending@[i].0
                == self.frames@[spec_committed_len(self.frames@) + i].0.pgno
                && self.pending@[i].1@ == self.frames@[spec_committed_len(self.frames@) + i].1
        &&& self.applied_any == (self.frames@.len() > 0)
        &&& spec_committed_len(self.frames@) <= self.frames@.len()
    }

    /// A session over the snapshot `db0`.
    pub fn new(db0: Vec<u8>, page_size: u32) -> (r: RestoreSession)
        requires
            spec_valid_page_size(page_size as int),
        ensures
            r.wf(),
            r.db0@ == db0@,
            r.frames@.len() == 0,
            !r.applied_any,
            r.db@ == db0@,
            r.page_size == page_size,
            r.pending@.len() == 0,
    {
        let ghost v = db0@;
        RestoreSession {
            db: db0,
            page_size,
            pending: Vec::new(),
            applied_any: false,
            db0: Ghost(v),
            frames: Ghost(Seq::empty()),
        }
    }

    /// Feeds one frame: its page joins the open transaction, and a
    /// committing frame flushes the whole transaction into the image.
    #[verifier::rlimit(100)]
    #[verifier::spinoff_prover]
    pub fn apply_frame(&mut self, header: FrameHeader, page: Vec<u8>)
        requires
            old(self).wf(),
            page@.len() == old(self).page_size,
            1 <= header.pgno,
            header.pgno * old(self).page_size <= usize::MAX,
            forall|i: int|
                0 <= i < old(self).pending@.len() ==> (#[trigger] old(self).pending@[i].0)
                    * old(self).page_size <= usize::MAX && 1 <= old(self).pending@[i].0,
            old(self).db@.len() <= usize::MAX,
        ensures
            final(self).wf(),
            final(self).frames@ == old(self).frames@.push((header, page@)),
            final(self).db0@ == old(self).db0@,
            final(self).page_size == old(self).page_size,
            final(self).applied_any,
            final(self).db@.len() <= usize::MAX,
            forall|i: int|
                0 <= i < final(self).pending@.len() ==> (#[trigger] final(self).pending@[i].0)
                    * final(self).page_size <= usize::MAX && 1 <= final(self).pending@[i].0,
    {
        let ghost oldframes = self.frames@;
        let ghost pv = page@;
        proof {
            self.frames@ = self.frames@.push((header, pv));
        }
        let pgno = header.pgno;
        let ghost oldpending = self.pending@;
        self.pending.push((pgno, page));
        self.applied_any = true;
        proof {
            let fs = self.frames@;
            lemma_committed_len_le(oldframes);
            assert(fs.drop_last() =~= oldframes);
            assert(fs.last() == (header, pv));
            assert(self.pending@ == oldpending.push((pgno, page)));
            assert forall|q: int| 0 <= q < oldpending.len() implies #[trigger] self.pending@[q]
                == oldpending[q] by {
                assert(oldpending.push((pgno, page))[q] == oldpending[q]);
            }
            assert(oldpending.push((pgno, page))[oldpending.len() as int] == (pgno, page));
            assert(self.pending@.last().0 == header.pgno && self.pending@.last().1@ == pv);
            let cl0 = spec_committed_len(oldframes);
            assert forall|q: int| 0 <= q < self.pending@.len() implies #[trigger] self.pending@[q].0
                == fs[cl0 + q].0.pgno && self.pending@[q].1@ == fs[cl0 + q].1 by {
                if q < oldpending.len() {
                    assert(self.pending@[q] == oldpending[q]);
                    assert(old(self).pending@[q].0 == oldpending[q].0);
                    assert(oldpending[q].0 == oldframes[cl0 + q].0.pgno && oldpending[q].1@
                        == oldframes[cl0 + q].1);
                    assert(fs.drop_last()[cl0 + q] == fs[cl0 + q]);
                    assert(fs[cl0 + q] == oldframes[cl0 + q]);
                } else {
                    assert(q == oldpending.len());
                    assert(cl0 + q == fs.len() - 1);
                    assert(self.pending@[q] == (pgno, page));
                    assert(fs[cl0 + q] == fs.last());
                }
            }
            assert forall|k: int| 0 <= k < fs.len() implies (#[trigger] fs[k].1).len()
                == self.page_size by {
                if k < fs.len() - 1 {
                    assert(fs[k] == oldframes[k]);
                }
            }
        }
        if header.size_after != 0 {
            proof {
                let fs = self.frames@;
                assert(spec_committed_len(fs) == fs.len());
                assert(fs.take(fs.len() as int) =~= fs);
            }
            let ghost cl0 = spec_committed_len(oldframes);
            let ghost fs = self.frames@;
            proof {
                assert(fs.take(cl0) =~= oldframes.take(cl0));
                assert(fs.subrange(cl0, cl0) =~= Seq::<(FrameHeader, Seq<u8>)>::empty());
                assert(spec_replay(
                    spec_replay(self.db0@, self.page_size as int, fs.take(cl0)),
                    self.page_size as int,
                    Seq::<(FrameHeader, Seq<u8>)>::empty(),
                ) == spec_replay(self.db0@, self.page_size as int, fs.take(cl0)));
            }
            let n = self.pending.len();
            let mut i: usize = 0;
            while i < n
                invariant
                    i <= n == self.pending@.len(),
                    spec_valid_page_size(self.page_size as int),
                    forall|q: int|
                        0 <= q < n ==> (#[trigger] self.pending@[q].0) * self.page_size
                            <= usize::MAX && 1 <= self.pending@[q].0 && self.pending@[q].1@.len()
                            == self.page_size,
                    forall|q: int|
                        0 <= q < n ==> #[trigger] self.pending@[q].0 == fs[cl0 + q].0.pgno
                            && self.pending@[q].1@ == fs[cl0 + q].1,
                    0 <= cl0 <= fs.len() - n,
                    n == fs.len() - cl0,
                    self.db@.len() <= usize::MAX,
                    self.db@ == spec_replay(
                        spec_replay(self.db0@, self.page_size as int, fs.take(cl0)),
                        self.page_size as int,
                        fs.subrange(cl0, cl0 + i as int),
                    ),
                    self.page_size == old(self).page_size,
                    self.db0@ == old(self).db0@,
                    fs == self.frames@,
                    self.applied_any,
                decreases n - i,
            {
                let (pgno_i, page_i) = (self.pending[i].0, clone_page(&self.pending[i].1));
                let ghost pre = self.db@;
                apply_page(&mut self.db, self.page_size, pgno_i, &page_i);
                proof {
                    let mid = spec_replay(self.db0@, self.page_size as int, fs.take(cl0));
                    let done = fs.subrange(cl0, cl0 + i as int);
                    assert(fs.subrange(cl0, cl0 + i as int + 1) =~= done.push(fs[cl0 + i as int]));
                    lemma_replay_snoc(mid, self.page_size as int, done, fs[cl0 + i as int]);
                    assert(fs[cl0 + i as int].0.pgno == pgno_i && fs[cl0 + i as int].1
                        == page_i@);
                    assert(pre == spec_replay(mid, self.page_size as int, done));
                    assert(self.db@ == spec_apply_page(
                        pre,
                        self.page_size as int,
                        pgno_i as int,
                        page_i@,
                    ));
                    assert(self.db@ == spec_replay(
                        mid,
                        self.page_size as int,
                        fs.subrange(cl0, cl0 + i as int + 1),
                    ));
                    lemma_apply_page_len(pre, self.page_size as int, pgno_i as int, page_i@);
                    assert((pgno_i as int - 1) * self.page_size as int + self.page_size as int
                        == pgno_i as int * self.page_size as int) by (nonlinear_arith);
                }
                i = i + 1;
            }
            self.pending = Vec::new();
            proof {
                assert(fs.subrange(cl0, cl0 + n as int) =~= fs.take(cl0 + n as int).skip(cl0));
                lemma_replay_concat(
                    self.db0@,
                    self.page_size as int,
                    fs.take(cl0),
                    fs.take(cl0 + n as int).skip(cl0),
                );
                assert(fs.take(cl0) + fs.take(cl0 + n as int).skip(cl0) =~= fs.take(
                    cl0 + n as int,
                ));
                assert(cl0 + n as int == fs.len());
                assert(fs.take(fs.len() as int) =~= fs);
                assert(self.db@ == spec_replay(self.db0@, self.page_size as int, fs));
                assert(self.db@ == spec_restored_db(
                    self.db0@,
                    self.page_size as int,
                    self.frames@,
                ));
                assert(self.pending@.len() == 0);
                assert(self.frames@ == oldframes.push((header, pv)));
                assert(self.applied_any == (self.frames@.len() > 0));
            }
        } else {
            proof {
                let fs = self.frames@;
                assert(spec_committed_len(fs) == spec_committed_len(oldframes));
                assert(fs.take(spec_committed_len(oldframes)) =~= oldframes.take(
                    spec_committed_len(oldframes),
                ));
            }
        }
    }

    /// The rebuilt image and whether any frame was applied.
    pub fn finish(self) -> (r: (Vec<u8>, bool))
        ensures
            r.0@ == self.db@,
            r.1 == self.applied_any,
    {
        (self.db, self.applied_any)
    }
}

/// Restoring is deterministic: two sessions that started from the same
/// snapshot with the same page size and were fed the same frames hold
/// identical database images — so restoring twice from one generation of
/// one store yields byte-identical files.
pub proof fn lemma_restore_deterministic(a: &RestoreSession, b: &RestoreSession)
    requires
        a.wf(),
        b.wf(),
        a.db0@ == b.db0@,
        a.page_size == b.page_size,
        a.frames@ == b.frames@,
    ensures
        a.db@ == b.db@,
{
}

/// The committed prefix never exceeds the run.
pub proof fn lemma_committed_len_le(frames: Seq<(FrameHeader, Seq<u8>)>)
    ensures
        0 <= spec_committed_len(frames) <= frames.len(),
    decreases frames.len(),
{
    if frames.len() > 0 {
        lemma_committed_len_le(frames.drop_last());
    }
}

/// Replaying one more frame applies its page to the replayed image.
proof fn lemma_replay_snoc(
    db: Seq<u8>,
    ps: int,
    a: Seq<(FrameHeader, Seq<u8>)>,
    f: (FrameHeader, Seq<u8>),
)
    ensures
        spec_replay(db, ps, a.push(f)) == spec_apply_page(
            spec_replay(db, ps, a),
            ps,
            f.0.pgno as int,
            f.1,
        ),
{
    lemma_replay_concat(db, ps, a, seq![f]);
    assert(a.push(f) =~= a + seq![f]);
    let mid = spec_replay(db, ps, a);
    assert(seq![f][0] == f);
    assert(seq![f].skip(1) =~= Seq::<(FrameHeader, Seq<u8>)>::empty());
    assert(spec_replay(
        spec_apply_page(mid, ps, f.0.pgno as int, f.1),
        ps,
        Seq::<(FrameHeader, Seq<u8>)>::empty(),
    ) == spec_apply_page(mid, ps, f.0.pgno as int, f.1));
    assert(spec_replay(mid, ps, seq![f]) == spec_apply_page(mid, ps, f.0.pgno as int, f.1));
}

/// Applying a page never shrinks the image, and grows it to at most the
/// written page's end.
pub proof fn lemma_apply_page_len(db: Seq<u8>, ps: int, pgno: int, page: Seq<u8>)
    requires
        ps >= 1,
        pgno >= 1,
    ensures
        spec_apply_page(db, ps, pgno, page).len() == vstd::math::max(
            db.len() as int,
            (pgno - 1) * ps + ps,
        ),
{
}

/// A copy of a page vector.
fn clone_page(v: &Vec<u8>) -> (r: Vec<u8>)
    ensures
        r@ == v@,
{
    crate::store::clone_bytes(v)
}

/// The change counter a local database file stands for: its header field,
/// or zero when the file is missing or too short.
pub open spec fn spec_local_counter(local_db: Option<Seq<u8>>) -> int {
    match local_db {
        Some(db) => if db.len() >= 28 {
            spec_be_value(db.subrange(24, 28))
        } else {
            0
        },
        None => 0,
    }
}

/// The remote change counter of a generation: the first four bytes of its
/// `.changecounter` object, or zero when absent or short.
pub open spec fn spec_remote_counter(
    log: Seq<crate::store::StoredObject>,
    db_name: Seq<u8>,
    gen: Seq<u8>,
) -> int {
    match spec_get(log, crate::keys::spec_key_prefix(db_name, gen)
        + crate::keys::spec_suffix_changecounter()) {
        Some(b) => if b.len() >= 4 {
            spec_be_value(b.subrange(0, 4))
        } else {
            0
        },
        None => 0,
    }
}

/// The consistency triple of a generation — page size, last consistent
/// frame, checksum — or all zeroes when the marker is absent or short.
pub open spec fn spec_remote_consistent(
    log: Seq<crate::store::StoredObject>,
    db_name: Seq<u8>,
    gen: Seq<u8>,
) -> (u32, u32, u64) {
    match spec_get(log, crate::keys::spec_key_prefix(db_name, gen)
        + crate::keys::spec_suffix_consistent()) {
        Some(b) => match spec_parse_consistent(b) {
            Some(t) => t,
            None => (0u32, 0u32, 0u64),
        },
        None => (0u32, 0u32, 0u64),
    }
}

impl Replicator {
    /// The remote change counter of `generation`, read from its
    /// `.changecounter` object; zero when the object is absent or short.
    pub fn get_remote_change_counter(&self, generation: &Generation, store: &StoreModel) -> (r:
        u32)
        ensures
            r as int == spec_remote_counter(store.log@, self.db_name@, generation.id@),
    {
        let key = changecounter_key(&self.db_name, generation);
        match store.get(&key) {
            Some(b) => {
                if b.len() >= 4 {
                    proof {
                        lemma_be_value_bound(b@.subrange(0, 4));
                        crate::meta::lemma_pow256_small();
                    }
                    read_u32_be(b, 0)
                } else {
                    0
                }
            },
            None => 0,
        }
    }

    /// The consistency triple of `generation` — page size, last consistent
    /// frame, checksum — from its `.consistent` object; zeroes when absent.
    pub fn get_last_consistent_frame(&self, generation: &Generation, store: &StoreModel) -> (r: (
        u32,
        u32,
        u64,
    ))
        ensures
            r == spec_remote_consistent(store.log@, self.db_name@, generation.id@),
    {
        let key = consistent_key(&self.db_name, generation);
        match store.get(&key) {
            Some(b) => match decode_consistent(b) {
                Some(t) => t,
                None => (0, 0, 0),
            },
            None => (0, 0, 0),
        }
    }

    /// The newest replicated generation: the lexically first key the store
    /// lists under this database's prefix, which the reversed clock makes the
    /// youngest. `None` exactly when no key carries the prefix, or the first
    /// such key embeds no identifier text.
    pub fn find_newest_generation(&self, store: &StoreModel) -> (r: Option<Generation>)
        ensures
            match r {
                Some(g) => exists|k: Seq<u8>|
                    #[trigger] crate::store::spec_has_key(store.log@, k)
                        && crate::store::spec_has_prefix(k, self.db_name@ + seq![45u8])
                        && spec_minimal_key(store.log@, self.db_name@ + seq![45u8], k)
                        && k.subrange(
                        self.db_name@.len() as int + 1,
                        self.db_name@.len() as int + 37,
                    ) == crate::generation::spec_gen_text(g.id@),
                None => (forall|k: Seq<u8>|
                    !(#[trigger] crate::store::spec_has_key(store.log@, k)
                        && crate::store::spec_has_prefix(k, self.db_name@ + seq![45u8]))) || (exists|
                    k: Seq<u8>,
                |
                    #[trigger] crate::store::spec_has_key(store.log@, k)
                        && crate::store::spec_has_prefix(k, self.db_name@ + seq![45u8])
                        && spec_minimal_key(store.log@, self.db_name@ + seq![45u8], k) && (k.len()
                        < self.db_name@.len() + 37 || !crate::generation::spec_is_gen_text(
                        k.subrange(
                            self.db_name@.len() as int + 1,
                            self.db_name@.len() as int + 37,
                        ),
                    ))),
            },
    {
        let prefix = crate::keys::db_prefix(&self.db_name);
        let keys = store.list_prefix(&prefix);
        if keys.len() == 0 {
            proof {
                assert forall|k: Seq<u8>|
                    !(#[trigger] crate::store::spec_has_key(store.log@, k)
                        && crate::store::spec_has_prefix(k, prefix@)) by {
                    if crate::store::spec_has_key(store.log@, k) && crate::store::spec_has_prefix(
                        k,
                        prefix@,
                    ) {
                        let a = choose|a: int| 0 <= a < keys@.len() && keys@[a]@ == k;
                    }
                }
            }
            return None;
        }
        let first = &keys[0];
        proof {
            lemma_first_listed_is_minimal(store.log@, prefix@, keys@);
        }
        let r = crate::keys::generation_from_key(first, self.db_name.len());
        proof {
            if r is None {
                assert(crate::store::spec_has_key(store.log@, first@)
                    && crate::store::spec_has_prefix(first@, prefix@) && spec_minimal_key(
                    store.log@,
                    prefix@,
                    first@,
                ) && (first@.len() < self.db_name@.len() + 37
                    || !crate::generation::spec_is_gen_text(first@.subrange(
                        self.db_name@.len() as int + 1,
                        self.db_name@.len() as int + 37,
                    ))));
            }
        }
        r
    }

    /// How many frames the local WAL file holds: zero, with nothing changed,
    /// when it is missing, malformed, or declares a conflicting page size;
    /// otherwise its frame count, with its page size adopted.
    pub fn get_local_wal_page_count(&mut self, local_wal: Option<Vec<u8>>) -> (r: u32)
        requires
            old(self).wf(),
        ensures
            final(self).wf(),
            r as int == spec_local_wal_pages(
                match local_wal {
                    Some(b) => Some(b@),
                    None => None,
                },
                old(self).page_size as int,
            ),
            *final(self) == (Replicator { page_size: final(self).page_size, ..*old(self) }),
            final(self).page_size as int == spec_page_size_after_wal(
                match local_wal {
                    Some(b) => Some(b@),
                    None => None,
                },
                old(self).page_size as int,
            ),
    {
        let wal_bytes = match local_wal {
            Some(b) => b,
            None => {
                return 0;
            },
        };
        let wal = match WalFileReader::open(wal_bytes) {
            Ok(w) => w,
            Err(_) => {
                return 0;
            },
        };
        let ps = wal.page_size();
        match self.set_page_size(ps as usize) {
            Ok(()) => wal.frame_count(),
            Err(_) => 0,
        }
    }

    /// Restores the database from `generation`: compares the change counters
    /// and the local WAL length against the last consistent frame, then
    /// either reuses the generation, asks for a fresh snapshot, or rebuilds
    /// the database file from the remote snapshot and frame batches.
    /// A rebuilt file comes back as the second component.
    /// Reads the local header, adopts the page size from the header and then
    /// from the consistency marker, and counts the local WAL frames: the
    /// inputs of the restore decision, failing exactly on a page-size
    /// conflict or an impossible remote page size.
    fn restore_prelude(
        &mut self,
        generation: &Generation,
        local_db: Option<&Vec<u8>>,
        local_wal: Option<Vec<u8>>,
        store: &StoreModel,
    ) -> (r: Result<(u32, u32, u32, u32), ReplicationError>)
        requires
            old(self).wf(),
        ensures
            final(self).wf(),
            ({
                let ldb = match local_db {
                    Some(db) => Some(db@),
                    None => None,
                };
                let lwal = match local_wal {
                    Some(b) => Some(b@),
                    None => None,
                };
                let lc = spec_local_counter(ldb);
                let rc = spec_remote_counter(store.log@, old(self).db_name@, generation.id@);
                let con = spec_remote_consistent(store.log@, old(self).db_name@, generation.id@);
                let local_conflict = spec_local_ps_conflict(old(self).page_size as int, ldb);
                let ps1 = spec_ps_after_local_db(old(self).page_size as int, ldb);
                let remote_invalid = spec_remote_ps_invalid(con.0);
                let remote_conflict = spec_remote_ps_conflict(ps1, con.0);
                let ps2 = spec_ps_after_remote(ps1, con.0);
                &&& (local_conflict ==> (r matches Err(e) && e
                    == ReplicationError::PageSizeConflict) && *final(self) == *old(self))
                &&& (!local_conflict && remote_invalid ==> (r matches Err(e) && e
                    == ReplicationError::WalMalformed) && *final(self) == spec_with_page_size(
                    *old(self),
                    ps1,
                ))
                &&& (!local_conflict && !remote_invalid && remote_conflict ==> (r matches Err(e)
                    && e == ReplicationError::PageSizeConflict) && *final(self)
                    == spec_with_page_size(*old(self), ps1))
                &&& (!local_conflict && !remote_invalid && !remote_conflict ==> (r matches Ok(t)
                    && t.0 as int == lc && t.1 as int == rc && t.2 as int == spec_local_wal_pages(
                    lwal,
                    ps2,
                ) && t.3 == con.1) && *final(self) == spec_with_page_size(
                    *old(self),
                    spec_page_size_after_wal(lwal, ps2),
                ))
            }),
    {
        let local_counter: u32 = match local_db {
            Some(db) => {
                if db.len() >= 28 {
                    let ps_local = read_page_size(db);
                    if ps_local == 512 || ps_local == 1024 || ps_local == 2048 || ps_local == 4096
                        || ps_local == 8192 || ps_local == 16384 || ps_local == 32768 || ps_local
                        == 65536 {
                        match self.set_page_size(ps_local as usize) {
                            Ok(()) => (),
                            Err(e) => {
                                return Err(e);
                            },
                        }
                    }
                    read_change_counter(db)
                } else {
                    0
                }
            },
            None => 0,
        };
        let remote_counter = self.get_remote_change_counter(generation, store);
        let (remote_page_size, last_consistent_frame, _checksum) = self.get_last_consistent_frame(
            generation,
            store,
        );
        if remote_page_size != 0 {
            if !(remote_page_size == 512 || remote_page_size == 1024 || remote_page_size == 2048
                || remote_page_size == 4096 || remote_page_size == 8192 || remote_page_size
                == 16384 || remote_page_size == 32768 || remote_page_size == 65536) {
                return Err(ReplicationError::WalMalformed);
            }
            match self.set_page_size(remote_page_size as usize) {
                Ok(()) => (),
                Err(e) => {
                    return Err(e);
                },
            }
        }
        let wal_pages = self.get_local_wal_page_count(local_wal);
        Ok((local_counter, remote_counter, wal_pages, last_consistent_frame))
    }

    /// Restores the database from `generation`: compares the change counters
    /// and the local WAL length against the last consistent frame, then
    /// either reuses the generation, asks for a fresh snapshot, or rebuilds
    /// the database file from the remote snapshot and frame batches.
    /// A rebuilt file comes back as the second component.
    #[verifier::rlimit(100)]
    #[verifier::spinoff_prover]
    pub fn restore_from(
        &mut self,
        generation: Generation,
        local_db: Option<&Vec<u8>>,
        local_wal: Option<Vec<u8>>,
        store: &StoreModel,
    ) -> (r: Result<(RestoreAction, Option<Vec<u8>>), ReplicationError>)
        requires
            old(self).wf(),
        ensures
            final(self).wf(),
            final(self).generation == old(self).generation,
            spec_restore_from_post(
                *old(self),
                *final(self),
                generation.id@,
                store.log@,
                match local_db {
                    Some(db) => Some(db@),
                    None => None,
                },
                match local_wal {
                    Some(b) => Some(b@),
                    None => None,
                },
                r,
            ),
    {
        let t = match self.restore_prelude(&generation, local_db, local_wal, store) {
            Ok(t) => t,
            Err(e) => {
                return Err(e);
            },
        };
        let (local_counter, remote_counter, wal_pages, last_consistent_frame) = t;
        match plan_restore(local_counter, remote_counter, wal_pages, last_consistent_frame) {
            RestorePlan::ReuseGeneration => {
                if wal_pages == u32::MAX {
                    return Err(ReplicationError::WalMalformed);
                }
                self.reset_frames_for_reuse(wal_pages);
                Ok((RestoreAction::ReuseGeneration(generation), None))
            },
            RestorePlan::SnapshotMainDbFile => Ok((RestoreAction::SnapshotMainDbFile, None)),
            RestorePlan::ApplyRemote => self.apply_remote_log(
                generation,
                last_consistent_frame,
                store,
            ),
        }
    }

    /// Rebuilds the database file from the generation's snapshot object and
    /// its frame batches: scans the listed keys in ascending order, skips the
    /// sentinels, stops at the first batch past the last consistent frame,
    /// verifies the checksum chain when configured, and feeds every decoded
    /// frame to the session. The outcome is exactly the listing's scan.
    #[verifier::rlimit(100)]
    #[verifier::spinoff_prover]
    fn apply_remote_log(
        &mut self,
        generation: Generation,
        last_consistent_frame: u32,
        store: &StoreModel,
    ) -> (r: Result<(RestoreAction, Option<Vec<u8>>), ReplicationError>)
        requires
            old(self).wf(),
        ensures
            final(self).wf(),
            *final(self) == *old(self),
            old(self).page_size == UNSET_PAGE_SIZE ==> (r matches Err(e) && e
                == ReplicationError::WalMalformed),
            old(self).page_size != UNSET_PAGE_SIZE ==> spec_apply_outcome(
                *old(self),
                generation.id@,
                store.log@,
                last_consistent_frame as int,
                r,
            ),
    {
        if self.page_size == UNSET_PAGE_SIZE {
            return Err(ReplicationError::WalMalformed);
        }
        let ghost log = store.log@;
        let ghost prefixv = spec_key_prefix(old(self).db_name@, generation.id@);
        let ghost psi = self.page_size as int;
        let ghost comp = self.use_compression;
        let ghost verify = self.verify_crc;
        let ghost lcfi = last_consistent_frame as int;
        let ps32: u32 = self.page_size as u32;
        let db_key = main_db_key(&self.db_name, &generation, self.use_compression);
        let db0: Vec<u8> = match store.get(&db_key) {
            Some(b) => {
                if self.use_compression {
                    match gzip_decompress(b) {
                        Some(p) => p,
                        None => {
                            return Err(ReplicationError::WalMalformed);
                        },
                    }
                } else {
                    crate::store::clone_bytes(b)
                }
            },
            None => Vec::new(),
        };
        let ghost db0v = db0@;
        proof {
            assert(spec_snapshot_plain(log, self.db_name@, generation.id@, comp) == Some(db0v));
        }
        let mut session = RestoreSession::new(db0, ps32);
        let _db_len = session.db.len();
        assert(session.db@.len() <= usize::MAX);
        let mut prev_crc: u64 = 0;
        let prefix = key_prefix(&self.db_name, &generation);
        let keys = store.list_prefix(&prefix);
        let ghost ks = Seq::new(keys@.len(), |i: int| keys@[i]@);
        proof {
            assert(spec_is_key_listing(log, prefixv, ks)) by {
                assert forall|k: Seq<u8>|
                    #[trigger] crate::store::spec_has_key(log, k)
                        && crate::store::spec_has_prefix(k, prefixv) implies exists|a: int|
                    0 <= a < ks.len() && ks[a] == k by {
                    let a = choose|a: int| 0 <= a < keys@.len() && keys@[a]@ == k;
                    assert(ks[a] == k);
                }
            }
            lemma_prepend_empty(spec_apply_scan(log, ks, 0, psi, comp, verify, 0, lcfi));
            assert(Seq::<(FrameHeader, Seq<u8>)>::empty() + Seq::<(FrameHeader, Seq<u8>)>::empty()
                =~= Seq::<(FrameHeader, Seq<u8>)>::empty());
        }
        let nkeys = keys.len();
        let mut ki: usize = 0;
        let mut stopped = false;
        while ki < nkeys && !stopped
            invariant
                *self == *old(self),
                self.wf(),
                old(self).page_size != UNSET_PAGE_SIZE,
                psi == old(self).page_size as int,
                comp == old(self).use_compression,
                verify == old(self).verify_crc,
                lcfi == last_consistent_frame as int,
                log == store.log@,
                prefixv == spec_key_prefix(old(self).db_name@, generation.id@),
                spec_snapshot_plain(log, self.db_name@, generation.id@, comp) == Some(db0v),
                spec_is_key_listing(log, prefixv, ks),
                ks.len() == keys@.len(),
                forall|a: int| 0 <= a < ks.len() ==> #[trigger] ks[a] == keys@[a]@,
                ki <= nkeys == keys@.len(),
                ps32 as int == psi,
                session.wf(),
                session.db0@ == db0v,
                session.page_size == ps32,
                spec_valid_page_size(ps32 as int),
                session.db@.len() <= usize::MAX,
                forall|i: int|
                    0 <= i < session.pending@.len() ==> (#[trigger] session.pending@[i].0)
                        * session.page_size <= usize::MAX && 1 <= session.pending@[i].0,
                stopped ==> spec_apply_scan(log, ks, 0, psi, comp, verify, 0, lcfi)
                    == ScanResult::Frames(session.frames@),
                !stopped ==> spec_apply_scan(log, ks, 0, psi, comp, verify, 0, lcfi)
                    == spec_scan_prepend(
                    session.frames@,
                    spec_apply_scan(log, ks, ki as int, psi, comp, verify, prev_crc, lcfi),
                ),
            decreases nkeys - ki,
        {
            let ghost ki0 = ki as int;
            proof {
                assert(!stopped);
                assert(spec_apply_scan(log, ks, 0, psi, comp, verify, 0, lcfi)
                    == spec_scan_prepend(
                    session.frames@,
                    spec_apply_scan(log, ks, ki0, psi, comp, verify, prev_crc, lcfi),
                ));
            }
            let key = &keys[ki];
            ki = ki + 1;
            let ghost cur = ki0;
            proof {
                assert(ks[cur] == keys@[cur]@);
            }
            let parsed = parse_frame_no(key);
            proof {
                assert(crate::keys::spec_frame_no_of_key(ks[cur]) == parsed);
            }
            if let Some(frame_no) = parsed {
                if frame_no > last_consistent_frame {
                    stopped = true;
                    proof {
                        assert(spec_apply_scan(log, ks, cur, psi, comp, verify, prev_crc, lcfi)
                            == ScanResult::Frames(Seq::empty()));
                        assert(session.frames@ + Seq::<(FrameHeader, Seq<u8>)>::empty()
                            =~= session.frames@);
                    }
                } else {
                    let fetched = store.get(key);
                    if let Some(b) = fetched {
                        let body = crate::store::clone_bytes(b);
                        let ghost bodyv = body@;
                        proof {
                            assert(spec_get(log, ks[cur]) == Some(bodyv));
                        }
                        let verify_from: Option<u64> = if self.verify_crc {
                            Some(prev_crc)
                        } else {
                            None
                        };
                        let mut reader = match BatchReader::new(
                            frame_no,
                            body,
                            ps32,
                            self.use_compression,
                            verify_from,
                        ) {
                            Ok(rd) => rd,
                            Err(e) => {
                                proof {
                                    assert(spec_batch_plain(bodyv, comp) is None);
                                    assert(spec_apply_scan(log, ks, cur, psi, comp, verify,
                                        prev_crc, lcfi) == ScanResult::BadBatch) by {
                                        reveal_with_fuel(spec_apply_scan, 2);
                                    }
                                    assert(spec_apply_scan(log, ks, 0, psi, comp, verify, 0, lcfi)
                                        == spec_scan_prepend(
                                        session.frames@,
                                        spec_apply_scan(log, ks, cur, psi, comp, verify, prev_crc,
                                            lcfi),
                                    ));
                                    assert(spec_apply_scan(log, ks, 0, psi, comp, verify, 0, lcfi)
                                        == ScanResult::BadBatch);
                                    lemma_outcome_from_scan(
*old(self),
generation.id@,
store.log@,
last_consistent_frame as int,
ks,
Err::<(RestoreAction, Option<Vec<u8>>), ReplicationError>(
                                            e,
                                        ),
);
                                }
                                return Err(e);
                            },
                        };
                        proof {
                            assert(spec_batch_plain(bodyv, comp) == Some(reader.plain@));
                            assert(spec_apply_scan(log, ks, cur, psi, comp, verify, prev_crc, lcfi)
                                == spec_scan_mid_batch(
                                log,
                                ks,
                                ki as int,
                                psi,
                                comp,
                                verify,
                                reader.plain@,
                                0,
                                prev_crc,
                                lcfi,
                            )) by {
                                reveal_with_fuel(spec_apply_scan, 2);
                            }
                        }
                        loop
                            invariant
                                *self == *old(self),
                                self.wf(),
                                old(self).page_size != UNSET_PAGE_SIZE,
                                psi == old(self).page_size as int,
                                comp == old(self).use_compression,
                                verify == old(self).verify_crc,
                                lcfi == last_consistent_frame as int,
                                log == store.log@,
                                prefixv == spec_key_prefix(old(self).db_name@, generation.id@),
                                spec_snapshot_plain(log, self.db_name@, generation.id@, comp)
                                    == Some(db0v),
                                spec_is_key_listing(log, prefixv, ks),
                                ki <= keys@.len(),
                                ks.len() == keys@.len(),
                                reader.wf(),
                                reader.page_size == ps32,
                                reader.verify_crc == verify,
                                verify ==> reader.prev_crc == prev_crc,
                                ps32 as int == psi,
                                spec_valid_page_size(ps32 as int),
                                session.wf(),
                                session.db0@ == db0v,
                                session.page_size == ps32,
                                session.db@.len() <= usize::MAX,
                                forall|i: int|
                                    0 <= i < session.pending@.len() ==> (
                                    #[trigger] session.pending@[i].0) * session.page_size
                                        <= usize::MAX && 1 <= session.pending@[i].0,
                                spec_apply_scan(log, ks, 0, psi, comp, verify, 0, lcfi)
                                    == spec_scan_prepend(
                                    session.frames@,
                                    spec_scan_mid_batch(
                                        log,
                                        ks,
                                        ki as int,
                                        psi,
                                        comp,
                                        verify,
                                        reader.plain@,
                                        reader.idx as int,
                                        prev_crc,
                                        lcfi,
                                    ),
                                ),
                            ensures
                                session.wf(),
                                session.db0@ == db0v,
                                session.page_size == ps32,
                                session.db@.len() <= usize::MAX,
                                forall|i: int|
                                    0 <= i < session.pending@.len() ==> (
                                    #[trigger] session.pending@[i].0) * session.page_size
                                        <= usize::MAX && 1 <= session.pending@[i].0,
                                spec_apply_scan(log, ks, 0, psi, comp, verify, 0, lcfi)
                                    == spec_scan_prepend(
                                    session.frames@,
                                    spec_apply_scan(
                                        log,
                                        ks,
                                        ki as int,
                                        psi,
                                        comp,
                                        verify,
                                        prev_crc,
                                        lcfi,
                                    ),
                                ),
                            decreases spec_body_frame_count_left(&reader),
                        {
                            let ghost idx0 = reader.idx as int;
                            let ghost prev0 = prev_crc;
                            let step = match reader.next_frame() {
                                Ok(s) => s,
                                Err(e) => {
                                    proof {
                                        assert(spec_decode_from(
                                            reader.plain@,
                                            psi,
                                            idx0,
                                            verify,
                                            prev0,
                                        ) == ScanResult::ChainBreak);
                                        assert(spec_scan_mid_batch(log, ks, ki as int, psi, comp,
                                            verify, reader.plain@, idx0, prev0, lcfi)
                                            == ScanResult::ChainBreak) by {
                                            reveal_with_fuel(spec_scan_mid_batch, 2);
                                        }
                                        assert(spec_apply_scan(log, ks, 0, psi, comp, verify, 0,
                                            lcfi) == spec_scan_prepend(
                                            session.frames@,
                                            spec_scan_mid_batch(log, ks, ki as int, psi, comp,
                                                verify, reader.plain@, idx0, prev0, lcfi),
                                        ));
                                        assert(spec_apply_scan(log, ks, 0, psi, comp, verify, 0,
                                            lcfi) == ScanResult::ChainBreak);
                                        lemma_outcome_from_scan(
*old(self),
generation.id@,
store.log@,
last_consistent_frame as int,
ks,
Err::<
                                                (RestoreAction, Option<Vec<u8>>),
                                                ReplicationError,
                                            >(e),
);
                                    }
                                    return Err(e);
                                },
                            };
                            match step {
                                Some((header, page)) => {
                                    let ghost pg = page@;
                                    if header.pgno == 0 {
                                        proof {
                                            assert(spec_decode_from(
                                                reader.plain@,
                                                psi,
                                                idx0,
                                                verify,
                                                prev0,
                                            ) == ScanResult::BadBatch);
                                            assert(spec_scan_mid_batch(log, ks, ki as int, psi,
                                                comp, verify, reader.plain@, idx0, prev0, lcfi)
                                                == ScanResult::BadBatch) by {
                                                reveal_with_fuel(spec_scan_mid_batch, 2);
                                            }
                                            assert(spec_apply_scan(log, ks, 0, psi, comp, verify,
                                                0, lcfi) == spec_scan_prepend(
                                                session.frames@,
                                                spec_scan_mid_batch(log, ks, ki as int, psi, comp,
                                                    verify, reader.plain@, idx0, prev0, lcfi),
                                            ));
                                            assert(spec_apply_scan(log, ks, 0, psi, comp, verify,
                                                0, lcfi) == ScanResult::BadBatch);
                                            lemma_outcome_from_scan(
*old(self),
generation.id@,
store.log@,
last_consistent_frame as int,
ks,
Err::<
                                                    (RestoreAction, Option<Vec<u8>>),
                                                    ReplicationError,
                                                >(ReplicationError::WalMalformed),
);
                                        }
                                        return Err(ReplicationError::WalMalformed);
                                    }
                                    proof {
                                        assert(header.pgno as int * ps32 as int <= u64::MAX)
                                            by (nonlinear_arith)
                                            requires
                                                header.pgno <= u32::MAX,
                                                ps32 <= 65536,
                                        ;
                                    }
                                    if (header.pgno as u64) * (ps32 as u64) > (usize::MAX as u64) {
                                        proof {
                                            assert(spec_decode_from(
                                                reader.plain@,
                                                psi,
                                                idx0,
                                                verify,
                                                prev0,
                                            ) == ScanResult::BadBatch);
                                            assert(spec_scan_mid_batch(log, ks, ki as int, psi,
                                                comp, verify, reader.plain@, idx0, prev0, lcfi)
                                                == ScanResult::BadBatch) by {
                                                reveal_with_fuel(spec_scan_mid_batch, 2);
                                            }
                                            assert(spec_apply_scan(log, ks, 0, psi, comp, verify,
                                                0, lcfi) == spec_scan_prepend(
                                                session.frames@,
                                                spec_scan_mid_batch(log, ks, ki as int, psi, comp,
                                                    verify, reader.plain@, idx0, prev0, lcfi),
                                            ));
                                            assert(spec_apply_scan(log, ks, 0, psi, comp, verify,
                                                0, lcfi) == ScanResult::BadBatch);
                                            lemma_outcome_from_scan(
*old(self),
generation.id@,
store.log@,
last_consistent_frame as int,
ks,
Err::<
                                                    (RestoreAction, Option<Vec<u8>>),
                                                    ReplicationError,
                                                >(ReplicationError::WalMalformed),
);
                                        }
                                        return Err(ReplicationError::WalMalformed);
                                    }
                                    prev_crc = header.crc;
                                    let ghost oldframes = session.frames@;
                                    session.apply_frame(header, page);
                                    proof {
                                        lemma_mid_batch_step(
                                            log,
                                            ks,
                                            ki as int,
                                            psi,
                                            comp,
                                            verify,
                                            reader.plain@,
                                            idx0,
                                            prev0,
                                            lcfi,
                                        );
                                        lemma_prepend_assoc(
                                            oldframes,
                                            seq![(header, pg)],
                                            spec_scan_mid_batch(
                                                log,
                                                ks,
                                                ki as int,
                                                psi,
                                                comp,
                                                verify,
                                                reader.plain@,
                                                idx0 + 1,
                                                header.crc,
                                                lcfi,
                                            ),
                                        );
                                        assert(oldframes + seq![(header, pg)]
                                            =~= session.frames@);
                                    }
                                },
                                None => {
                                    proof {
                                        assert(spec_decode_from(
                                            reader.plain@,
                                            psi,
                                            reader.idx as int,
                                            verify,
                                            prev_crc,
                                        ) == ScanResult::Frames(Seq::empty()));
                                        lemma_prepend_empty(spec_apply_scan(
                                            log,
                                            ks,
                                            ki as int,
                                            psi,
                                            comp,
                                            verify,
                                            prev_crc,
                                            lcfi,
                                        ));
                                    }
                                    break ;
                                },
                            }
                        }
                    } else {
                        proof {
                            assert(spec_get(log, ks[cur]) is None);
                        }
                    }
                }
            }
        }
        proof {
            if !stopped {
                assert(spec_apply_scan(log, ks, ki as int, psi, comp, verify, prev_crc, lcfi)
                    == ScanResult::Frames(Seq::empty()));
                assert(session.frames@ + Seq::<(FrameHeader, Seq<u8>)>::empty()
                    =~= session.frames@);
            }
            assert(spec_apply_scan(log, ks, 0, psi, comp, verify, 0, lcfi) == ScanResult::Frames(
                session.frames@,
            ));
            let fs = session.frames@;
            assert(session.db@ == spec_restored_db(session.db0@, session.page_size as int, fs));
            assert(session.db@ == spec_restored_db(db0v, old(self).page_size as int, fs));
            assert(session.applied_any == (fs.len() > 0));
        }
        let ghost fs = session.frames@;
        let (rebuilt, applied) = session.finish();
        proof {
            assert(*self == *old(self));
            let snap = spec_snapshot_plain(
                store.log@,
                old(self).db_name@,
                generation.id@,
                old(self).use_compression,
            );
            assert(snap == Some(db0v));
            assert(rebuilt@ == spec_restored_db(snap.unwrap(), old(self).page_size as int, fs));
        }
        if applied {
            proof {
                assert(spec_apply_outcome(
                    *old(self),
                    generation.id@,
                    store.log@,
                    last_consistent_frame as int,
                    Ok::<(RestoreAction, Option<Vec<u8>>), ReplicationError>(
                        (RestoreAction::SnapshotMainDbFile, Some(rebuilt)),
                    ),
                ));
            }
            Ok((RestoreAction::SnapshotMainDbFile, Some(rebuilt)))
        } else {
            proof {
                assert(spec_apply_outcome(
                    *old(self),
                    generation.id@,
                    store.log@,
                    last_consistent_frame as int,
                    Ok::<(RestoreAction, Option<Vec<u8>>), ReplicationError>(
                        (RestoreAction::NoAction, Some(rebuilt)),
                    ),
                ));
            }
            Ok((RestoreAction::NoAction, Some(rebuilt)))
        }
    }

    /// Resets the counters for reusing a generation whose log already holds
    /// `wal_pages` frames: the next submitted frame gets `wal_pages + 1`.
    fn reset_frames_for_reuse(&mut self, wal_pages: u32)
        requires
            old(self).wf(),
            wal_pages < u32::MAX,
        ensures
            final(self).wf(),
            *final(self) == (Replicator {
                next_frame_no: (wal_pages + 1) as u32,
                last_sent_frame_no: crate::replicator::spec_min_u32(
                    old(self).last_sent_frame_no,
                    wal_pages,
                ),
                last_uploaded_frame_no: crate::replicator::spec_min_u32(
                    old(self).last_uploaded_frame_no,
                    wal_pages,
                ),
                last_committed_frame_no: crate::replicator::spec_min_u32(
                    old(self).last_committed_frame_no,
                    wal_pages,
                ),
                ..*old(self)
            }),
    {
        self.next_frame_no = wal_pages + 1;
        if self.last_sent_frame_no > wal_pages {
            self.last_sent_frame_no = wal_pages;
        }
        if self.last_uploaded_frame_no > wal_pages {
            self.last_uploaded_frame_no = wal_pages;
        }
        if self.last_committed_frame_no > wal_pages {
            self.last_committed_frame_no = wal_pages;
        }
    }

    /// Restores from the given generation, or from the newest one found;
    /// with none to restore from, asks for a fresh snapshot.
    pub fn restore(
        &mut self,
        generation: Option<Generation>,
        local_db: Option<&Vec<u8>>,
        local_wal: Option<Vec<u8>>,
        store: &StoreModel,
    ) -> (r: Result<(RestoreAction, Option<Vec<u8>>), ReplicationError>)
        requires
            old(self).wf(),
        ensures
            final(self).wf(),
            ({
                let ldb = match local_db {
                    Some(db) => Some(db@),
                    None => None,
                };
                let lwal = match local_wal {
                    Some(b) => Some(b@),
                    None => None,
                };
                let prefix = old(self).db_name@ + seq![45u8];
                let nl = old(self).db_name@.len() as int;
                match generation {
                    Some(g) => spec_restore_from_post(
                        *old(self),
                        *final(self),
                        g.id@,
                        store.log@,
                        ldb,
                        lwal,
                        r,
                    ),
                    None => {
                        ||| ((forall|k: Seq<u8>|
                            !(#[trigger] crate::store::spec_has_key(store.log@, k)
                                && crate::store::spec_has_prefix(k, prefix))) && (r matches Ok(p)
                            && p.0 is SnapshotMainDbFile && p.1 is None) && *final(self) == *old(
                            self,
                        ))
                        ||| (exists|gid: Seq<u8>|
                            #![trigger crate::generation::spec_gen_text(gid)]
                            gid.len() == 16 && (exists|k: Seq<u8>|
                                #[trigger] crate::store::spec_has_key(store.log@, k)
                                    && crate::store::spec_has_prefix(k, prefix)
                                    && spec_minimal_key(store.log@, prefix, k) && k.subrange(
                                    nl + 1,
                                    nl + 37,
                                ) == crate::generation::spec_gen_text(gid))
                                && spec_restore_from_post(
                                *old(self),
                                *final(self),
                                gid,
                                store.log@,
                                ldb,
                                lwal,
                                r,
                            ))
                        ||| ((exists|k: Seq<u8>|
                            #[trigger] crate::store::spec_has_key(store.log@, k)
                                && crate::store::spec_has_prefix(k, prefix) && spec_minimal_key(
                                store.log@,
                                prefix,
                                k,
                            ) && (k.len() < nl + 37 || !crate::generation::spec_is_gen_text(
                                k.subrange(nl + 1, nl + 37),
                            ))) && (r matches Ok(p) && p.0 is SnapshotMainDbFile && p.1 is None)
                            && *final(self) == *old(self))
                    },
                }
            }),
    {
        let target = match generation {
            Some(g) => g,
            None => match self.find_newest_generation(store) {
                Some(g) => g,
                None => {
                    return Ok((RestoreAction::SnapshotMainDbFile, None));
                },
            },
        };
        let ghost had_explicit = generation is Some;
        let r = self.restore_from(target, local_db, local_wal, store);
        proof {
            if !had_explicit {
                assert(target.id@.len() == 16);
            }
        }
        r
    }
}

/// `k` is lexically no later than every key of the store under `prefix`.
pub open spec fn spec_minimal_key(
    log: Seq<crate::store::StoredObject>,
    prefix: Seq<u8>,
    k: Seq<u8>,
) -> bool {
    forall|k2: Seq<u8>|
        #[trigger] crate::store::spec_has_key(log, k2) && crate::store::spec_has_prefix(k2, prefix)
            ==> !crate::encoding::lex_lt(k2, k)
}

/// The first key a sorted, sound and complete listing returns is minimal
/// among the store's keys under the prefix.
proof fn lemma_first_listed_is_minimal(
    log: Seq<crate::store::StoredObject>,
    prefix: Seq<u8>,
    keys: Seq<Vec<u8>>,
)
    requires
        keys.len() > 0,
        forall|a: int, b: int|
            #![trigger keys[a], keys[b]]
            0 <= a < b < keys.len() ==> crate::encoding::lex_lt(keys[a]@, keys[b]@),
        forall|a: int|
            0 <= a < keys.len() ==> crate::store::spec_has_key(log, #[trigger] keys[a]@)
                && crate::store::spec_has_prefix(keys[a]@, prefix),
        forall|k: Seq<u8>|
            #[trigger] crate::store::spec_has_key(log, k) && crate::store::spec_has_prefix(
                k,
                prefix,
            ) ==> exists|a: int| 0 <= a < keys.len() && keys[a]@ == k,
    ensures
        spec_minimal_key(log, prefix, keys[0]@),
{
    assert forall|k2: Seq<u8>|
        #[trigger] crate::store::spec_has_key(log, k2) && crate::store::spec_has_prefix(
            k2,
            prefix,
        ) implies !crate::encoding::lex_lt(k2, keys[0]@) by {
        let a = choose|a: int| 0 <= a < keys.len() && keys[a]@ == k2;
        if a == 0 {
            crate::encoding::lemma_lex_irrefl(keys[0]@);
        } else {
            crate::encoding::lemma_lex_asym(keys[0]@, keys[a]@);
        }
    }
}

/// The frames a local WAL file contributes at restore time: zero when it is
/// missing or malformed or its page size conflicts with `ps0`, else its
/// frame count.
pub open spec fn spec_local_wal_pages(local_wal: Option<Seq<u8>>, ps0: int) -> int {
    match local_wal {
        None => 0,
        Some(b) => if !crate::wal::spec_wal_header_ok(b) {
            0
        } else if ps0 == UNSET_PAGE_SIZE as int || ps0 == crate::wal::spec_wal_page_size(b) {
            crate::wal::spec_wal_frame_count(b.len() as int, crate::wal::spec_wal_page_size(b))
        } else {
            0
        },
    }
}

/// The page size after the local WAL was consulted: adopted from a
/// well-formed, non-conflicting WAL, otherwise kept.
pub open spec fn spec_page_size_after_wal(local_wal: Option<Seq<u8>>, ps0: int) -> int {
    match local_wal {
        None => ps0,
        Some(b) => if crate::wal::spec_wal_header_ok(b) && (ps0 == UNSET_PAGE_SIZE as int || ps0
            == crate::wal::spec_wal_page_size(b)) {
            crate::wal::spec_wal_page_size(b)
        } else {
            ps0
        },
    }
}

/// The page size a local database header declares, with 1 standing for
/// 65536.
pub open spec fn spec_db_header_page_size(db: Seq<u8>) -> int {
    let raw = spec_be_value(db.subrange(16, 18));
    if raw == 1 {
        65536int
    } else {
        raw
    }
}

/// `true` when the local database header declares a valid page size that
/// conflicts with the one already set.
pub open spec fn spec_local_ps_conflict(ps0: int, local_db: Option<Seq<u8>>) -> bool {
    match local_db {
        Some(db) => db.len() >= 28 && spec_valid_page_size(spec_db_header_page_size(db)) && ps0
            != UNSET_PAGE_SIZE as int && ps0 != spec_db_header_page_size(db),
        None => false,
    }
}

/// The page size after the local database header was consulted.
pub open spec fn spec_ps_after_local_db(ps0: int, local_db: Option<Seq<u8>>) -> int {
    match local_db {
        Some(db) => if db.len() >= 28 && spec_valid_page_size(spec_db_header_page_size(db)) && (ps0
            == UNSET_PAGE_SIZE as int || ps0 == spec_db_header_page_size(db)) {
            spec_db_header_page_size(db)
        } else {
            ps0
        },
        None => ps0,
    }
}

/// `true` when the consistency marker names a page size that is no page
/// size at all.
pub open spec fn spec_remote_ps_invalid(remote_ps: u32) -> bool {
    remote_ps != 0 && !spec_valid_page_size(remote_ps as int)
}

/// `true` when the consistency marker's page size conflicts with the one
/// already set.
pub open spec fn spec_remote_ps_conflict(ps1: int, remote_ps: u32) -> bool {
    remote_ps != 0 && spec_valid_page_size(remote_ps as int) && ps1 != UNSET_PAGE_SIZE as int && ps1
        != remote_ps as int
}

/// The page size after the consistency marker was consulted.
pub open spec fn spec_ps_after_remote(ps1: int, remote_ps: u32) -> int {
    if remote_ps != 0 && spec_valid_page_size(remote_ps as int) && (ps1 == UNSET_PAGE_SIZE as int
        || ps1 == remote_ps as int) {
        remote_ps as int
    } else {
        ps1
    }
}

/// The replicator with only its page size replaced.
pub open spec fn spec_with_page_size(r: Replicator, ps: int) -> Replicator {
    Replicator { page_size: ps as usize, ..r }
}

/// The decompressed snapshot object of a generation: the empty file when
/// the object is absent, `None` when its body does not decompress.
pub open spec fn spec_snapshot_plain(
    log: Seq<crate::store::StoredObject>,
    db_name: Seq<u8>,
    gen: Seq<u8>,
    compressed: bool,
) -> Option<Seq<u8>> {
    match spec_get(log, spec_key_prefix(db_name, gen) + (if compressed {
        spec_suffix_db_gz()
    } else {
        spec_suffix_db()
    })) {
        Some(b) => spec_batch_plain(b, compressed),
        None => Some(Seq::empty()),
    }
}

/// What scanning the generation's listed keys produced: the frames to
/// replay, in order, or the first failure.
pub enum ScanResult {
    /// Every qualifying batch decoded — and, when asked, continued the
    /// checksum chain.
    Frames(Seq<(FrameHeader, Seq<u8>)>),
    /// A batch body did not decompress, or a frame named page zero or a
    /// page past the addressable range.
    BadBatch,
    /// A frame's checksum did not continue the chain.
    ChainBreak,
}

/// The frames of a batch body from slot `idx` on, checking — when `verify`
/// holds — that each one's checksum continues the chain from `prev`, then
/// that its page number is usable; the first offence ends the decode.
pub open spec fn spec_decode_from(plain: Seq<u8>, ps: int, idx: int, verify: bool, prev: u64) -> ScanResult
    decreases crate::codec::spec_body_frame_count(plain, ps) - idx,
{
    let count = crate::codec::spec_body_frame_count(plain, ps);
    if idx < 0 || idx >= count {
        ScanResult::Frames(Seq::empty())
    } else {
        let h = crate::codec::spec_body_frame_header(plain, ps, idx);
        let pg = crate::codec::spec_body_frame_page(plain, ps, idx);
        if verify && h.crc != crate::wal::spec_frame_crc(prev, h.pgno, h.size_after, pg) {
            ScanResult::ChainBreak
        } else if h.pgno == 0 || h.pgno * ps > usize::MAX {
            ScanResult::BadBatch
        } else {
            match spec_decode_from(plain, ps, idx + 1, verify, h.crc) {
                ScanResult::Frames(rest) => ScanResult::Frames(seq![(h, pg)] + rest),
                ScanResult::BadBatch => ScanResult::BadBatch,
                ScanResult::ChainBreak => ScanResult::ChainBreak,
            }
        }
    }
}

/// Frames already fed, prepended to a scan outcome.
pub open spec fn spec_scan_prepend(fs: Seq<(FrameHeader, Seq<u8>)>, sr: ScanResult) -> ScanResult {
    match sr {
        ScanResult::Frames(r) => ScanResult::Frames(fs + r),
        ScanResult::BadBatch => ScanResult::BadBatch,
        ScanResult::ChainBreak => ScanResult::ChainBreak,
    }
}

/// The checksum chain's value after `fr`, continuing from `prev`.
pub open spec fn spec_chain_after(prev: u64, fr: Seq<(FrameHeader, Seq<u8>)>) -> u64 {
    if fr.len() > 0 {
        fr.last().0.crc
    } else {
        prev
    }
}

/// The scan of the listed keys from index `i`: keys without a frame number —
/// the sentinels — are skipped, the scan stops at the first batch whose
/// start lies past `lcf`, and every other batch decodes in ascending key
/// order, the chain carried across batches.
pub open spec fn spec_apply_scan(
    log: Seq<crate::store::StoredObject>,
    ks: Seq<Seq<u8>>,
    i: int,
    ps: int,
    comp: bool,
    verify: bool,
    prev: u64,
    lcf: int,
) -> ScanResult
    decreases ks.len() - i, 1int,
{
    if i < 0 || i >= ks.len() {
        ScanResult::Frames(Seq::empty())
    } else {
        match crate::keys::spec_frame_no_of_key(ks[i]) {
            None => spec_apply_scan(log, ks, i + 1, ps, comp, verify, prev, lcf),
            Some(fno) => if fno > lcf {
                ScanResult::Frames(Seq::empty())
            } else {
                match spec_get(log, ks[i]) {
                    None => spec_apply_scan(log, ks, i + 1, ps, comp, verify, prev, lcf),
                    Some(body) => match spec_batch_plain(body, comp) {
                        None => ScanResult::BadBatch,
                        Some(plain) => spec_scan_mid_batch(
                            log,
                            ks,
                            i + 1,
                            ps,
                            comp,
                            verify,
                            plain,
                            0,
                            prev,
                            lcf,
                        ),
                    },
                }
            },
        }
    }
}

/// Mid-batch continuation of the scan: the rest of the current batch from
/// slot `idx`, then the remaining keys from `next_i`, the chain carried on.
pub open spec fn spec_scan_mid_batch(
    log: Seq<crate::store::StoredObject>,
    ks: Seq<Seq<u8>>,
    next_i: int,
    ps: int,
    comp: bool,
    verify: bool,
    plain: Seq<u8>,
    idx: int,
    prev: u64,
    lcf: int,
) -> ScanResult
    decreases (if 0 <= next_i <= ks.len() {
        ks.len() - next_i + 1
    } else {
        1int
    }), 0int,
{
    let cont_i = if 0 <= next_i <= ks.len() {
        next_i
    } else {
        ks.len() as int
    };
    match spec_decode_from(plain, ps, idx, verify, prev) {
        ScanResult::Frames(fr) => spec_scan_prepend(
            fr,
            spec_apply_scan(log, ks, cont_i, ps, comp, verify, spec_chain_after(prev, fr), lcf),
        ),
        ScanResult::BadBatch => ScanResult::BadBatch,
        ScanResult::ChainBreak => ScanResult::ChainBreak,
    }
}

/// Reading one good frame peels it off the mid-batch continuation.
proof fn lemma_mid_batch_step(
    log: Seq<crate::store::StoredObject>,
    ks: Seq<Seq<u8>>,
    next_i: int,
    ps: int,
    comp: bool,
    verify: bool,
    plain: Seq<u8>,
    idx: int,
    prev: u64,
    lcf: int,
)
    requires
        0 <= idx < crate::codec::spec_body_frame_count(plain, ps),
        ({
            let h = crate::codec::spec_body_frame_header(plain, ps, idx);
            let pg = crate::codec::spec_body_frame_page(plain, ps, idx);
            &&& !(verify && h.crc != crate::wal::spec_frame_crc(prev, h.pgno, h.size_after, pg))
            &&& h.pgno != 0
            &&& h.pgno * ps <= usize::MAX
        }),
    ensures
        spec_scan_mid_batch(log, ks, next_i, ps, comp, verify, plain, idx, prev, lcf)
            == spec_scan_prepend(
            seq![
                (
                    crate::codec::spec_body_frame_header(plain, ps, idx),
                    crate::codec::spec_body_frame_page(plain, ps, idx),
                ),
            ],
            spec_scan_mid_batch(
                log,
                ks,
                next_i,
                ps,
                comp,
                verify,
                plain,
                idx + 1,
                crate::codec::spec_body_frame_header(plain, ps, idx).crc,
                lcf,
            ),
        ),
{
    let h = crate::codec::spec_body_frame_header(plain, ps, idx);
    let pg = crate::codec::spec_body_frame_page(plain, ps, idx);
    let f = (h, pg);
    match spec_decode_from(plain, ps, idx + 1, verify, h.crc) {
        ScanResult::Frames(rest) => {
            lemma_chain_after_cons(prev, f, rest);
            let cont = spec_apply_scan(
                log,
                ks,
                next_i,
                ps,
                comp,
                verify,
                spec_chain_after(h.crc, rest),
                lcf,
            );
            lemma_prepend_assoc(seq![f], rest, cont);
        },
        ScanResult::BadBatch => {},
        ScanResult::ChainBreak => {},
    }
}

/// `ks` lists exactly the store's keys under `prefix`, each once, in
/// ascending lexicographic order — such a listing is unique, so anything
/// stated over it is stated over *the* listing.
pub open spec fn spec_is_key_listing(
    log: Seq<crate::store::StoredObject>,
    prefix: Seq<u8>,
    ks: Seq<Seq<u8>>,
) -> bool {
    &&& (forall|a: int, b: int|
        #![trigger ks[a], ks[b]]
        0 <= a < b < ks.len() ==> crate::encoding::lex_lt(ks[a], ks[b]))
    &&& (forall|a: int|
        0 <= a < ks.len() ==> crate::store::spec_has_key(log, #[trigger] ks[a])
            && crate::store::spec_has_prefix(ks[a], prefix))
    &&& (forall|k: Seq<u8>|
        #[trigger] crate::store::spec_has_key(log, k) && crate::store::spec_has_prefix(k, prefix)
            ==> exists|a: int| 0 <= a < ks.len() && ks[a] == k)
}

/// What the apply path owes, given the last consistent frame: for the store's
/// key listing, a completed scan returns `Ok` with the rebuilt image equal to
/// the scanned frames replayed over the decompressed snapshot — and a fresh
/// snapshot is requested exactly when a frame was fed; a batch that does not
/// decode fails with the malformed error; a chain break fails with the
/// checksum error. An undecodable snapshot object is the malformed error.
pub open spec fn spec_apply_outcome(
    pre: Replicator,
    gen: Seq<u8>,
    log: Seq<crate::store::StoredObject>,
    lcf: int,
    r: Result<(RestoreAction, Option<Vec<u8>>), ReplicationError>,
) -> bool {
    let prefix = spec_key_prefix(pre.db_name@, gen);
    let snap = spec_snapshot_plain(log, pre.db_name@, gen, pre.use_compression);
    if snap is None {
        (r matches Err(e) && e == ReplicationError::WalMalformed)
    } else {
        exists|ks: Seq<Seq<u8>>|
            #![trigger spec_is_key_listing(log, prefix, ks)]
            spec_is_key_listing(log, prefix, ks) && (match spec_apply_scan(
                log,
                ks,
                0,
                pre.page_size as int,
                pre.use_compression,
                pre.verify_crc,
                0,
                lcf,
            ) {
                ScanResult::Frames(fs) => (r matches Ok(p) && (p.1 matches Some(db) && db@
                    == spec_restored_db(snap.unwrap(), pre.page_size as int, fs)) && (p.0
                    is SnapshotMainDbFile <==> fs.len() > 0) && (p.0 is SnapshotMainDbFile || p.0
                    is NoAction)),
                ScanResult::BadBatch => (r matches Err(e) && e
                    == ReplicationError::WalMalformed),
                ScanResult::ChainBreak => (r matches Err(e) && e
                    == ReplicationError::CrcMismatch),
            })
    }
}

/// Two key listings of one store and prefix agree up to `i`.
proof fn lemma_listing_agree_upto(
    log: Seq<crate::store::StoredObject>,
    prefix: Seq<u8>,
    ks1: Seq<Seq<u8>>,
    ks2: Seq<Seq<u8>>,
    i: int,
)
    requires
        spec_is_key_listing(log, prefix, ks1),
        spec_is_key_listing(log, prefix, ks2),
        0 <= i,
    ensures
        forall|q: int| 0 <= q < i && q < ks1.len() && q < ks2.len() ==> #[trigger] ks1[q] == ks2[q],
    decreases i,
{
    if i > 0 {
        lemma_listing_agree_upto(log, prefix, ks1, ks2, i - 1);
        let p = i - 1;
        if p < ks1.len() && p < ks2.len() && ks1[p] != ks2[p] {
            if ks1[p].len() == ks2[p].len() {
                crate::encoding::lemma_lex_trichotomy(ks1[p], ks2[p]);
            } else {
                crate::store::lemma_lex_total_on_distinct(ks1[p], ks2[p]);
            }
            lemma_listing_not_earlier(log, prefix, ks1, ks2, p);
            lemma_listing_not_earlier(log, prefix, ks2, ks1, p);
        }
    }
}

/// With the listings agreeing below `p`, the key at `p` of one cannot sort
/// before the other's: it would have to appear earlier in the other listing,
/// where the two agree — one listing holding a key twice, against its
/// strict order.
proof fn lemma_listing_not_earlier(
    log: Seq<crate::store::StoredObject>,
    prefix: Seq<u8>,
    ks1: Seq<Seq<u8>>,
    ks2: Seq<Seq<u8>>,
    p: int,
)
    requires
        spec_is_key_listing(log, prefix, ks1),
        spec_is_key_listing(log, prefix, ks2),
        0 <= p < ks1.len(),
        p < ks2.len(),
        forall|q: int| 0 <= q < p && q < ks1.len() && q < ks2.len() ==> #[trigger] ks1[q] == ks2[q],
    ensures
        !crate::encoding::lex_lt(ks1[p], ks2[p]),
{
    if crate::encoding::lex_lt(ks1[p], ks2[p]) {
        assert(crate::store::spec_has_key(log, ks1[p]) && crate::store::spec_has_prefix(
            ks1[p],
            prefix,
        ));
        let j = choose|j: int| 0 <= j < ks2.len() && ks2[j] == ks1[p];
        crate::encoding::lemma_lex_irrefl(ks2[p]);
        if j > p {
            crate::encoding::lemma_lex_asym(ks2[p], ks2[j]);
        }
        assert(j < p);
        assert(ks2[j] == ks1[j]);
        assert(ks1[j] == ks1[p]);
        crate::encoding::lemma_lex_irrefl(ks1[p]);
    }
}

/// A store and a prefix have exactly one listing: sortedness, soundness and
/// completeness pin both the keys and their order.
pub proof fn lemma_key_listing_unique(
    log: Seq<crate::store::StoredObject>,
    prefix: Seq<u8>,
    ks1: Seq<Seq<u8>>,
    ks2: Seq<Seq<u8>>,
)
    requires
        spec_is_key_listing(log, prefix, ks1),
        spec_is_key_listing(log, prefix, ks2),
    ensures
        ks1 == ks2,
{
    lemma_listing_agree_upto(
        log,
        prefix,
        ks1,
        ks2,
        if ks1.len() <= ks2.len() {
            ks2.len() as int
        } else {
            ks1.len() as int
        },
    );
    if ks1.len() < ks2.len() {
        let extra = ks2[ks1.len() as int];
        assert(crate::store::spec_has_key(log, extra) && crate::store::spec_has_prefix(
            extra,
            prefix,
        ));
        let j = choose|j: int| 0 <= j < ks1.len() && ks1[j] == extra;
        assert(ks1[j] == ks2[j]);
        assert(ks2[j] == ks2[ks1.len() as int]);
        crate::encoding::lemma_lex_irrefl(extra);
    }
    if ks2.len() < ks1.len() {
        let extra = ks1[ks2.len() as int];
        assert(crate::store::spec_has_key(log, extra) && crate::store::spec_has_prefix(
            extra,
            prefix,
        ));
        let j = choose|j: int| 0 <= j < ks2.len() && ks2[j] == extra;
        assert(ks2[j] == ks1[j]);
        assert(ks1[j] == ks1[ks2.len() as int]);
        crate::encoding::lemma_lex_irrefl(extra);
    }
    assert(ks1 =~= ks2);
}

/// The outcome follows from any witness listing: packaging the existential
/// introduction.
proof fn lemma_outcome_from_scan(
    pre: Replicator,
    gen: Seq<u8>,
    log: Seq<crate::store::StoredObject>,
    lcf: int,
    ks: Seq<Seq<u8>>,
    r: Result<(RestoreAction, Option<Vec<u8>>), ReplicationError>,
)
    requires
        spec_snapshot_plain(log, pre.db_name@, gen, pre.use_compression) is Some,
        spec_is_key_listing(log, spec_key_prefix(pre.db_name@, gen), ks),
        match spec_apply_scan(
            log,
            ks,
            0,
            pre.page_size as int,
            pre.use_compression,
            pre.verify_crc,
            0,
            lcf,
        ) {
            ScanResult::Frames(fs) => (r matches Ok(p) && (p.1 matches Some(db) && db@
                == spec_restored_db(
                spec_snapshot_plain(log, pre.db_name@, gen, pre.use_compression).unwrap(),
                pre.page_size as int,
                fs,
            )) && (p.0 is SnapshotMainDbFile <==> fs.len() > 0) && (p.0 is SnapshotMainDbFile
                || p.0 is NoAction)),
            ScanResult::BadBatch => (r matches Err(e) && e == ReplicationError::WalMalformed),
            ScanResult::ChainBreak => (r matches Err(e) && e == ReplicationError::CrcMismatch),
        },
    ensures
        spec_apply_outcome(pre, gen, log, lcf, r),
{
}

/// Nothing prepends to a scan without changing it.
proof fn lemma_prepend_empty(sr: ScanResult)
    ensures
        spec_scan_prepend(Seq::empty(), sr) == sr,
{
    match sr {
        ScanResult::Frames(r) => {
            assert(Seq::empty() + r =~= r);
        },
        _ => {},
    }
}

/// Prepending twice is prepending the concatenation.
proof fn lemma_prepend_assoc(
    a: Seq<(FrameHeader, Seq<u8>)>,
    b: Seq<(FrameHeader, Seq<u8>)>,
    sr: ScanResult,
)
    ensures
        spec_scan_prepend(a, spec_scan_prepend(b, sr)) == spec_scan_prepend(a + b, sr),
{
    match sr {
        ScanResult::Frames(r) => {
            assert(a + (b + r) =~= (a + b) + r);
        },
        _ => {},
    }
}

/// The chain after a cons is the chain after the tail, from the head's
/// checksum.
proof fn lemma_chain_after_cons(
    prev: u64,
    f: (FrameHeader, Seq<u8>),
    rest: Seq<(FrameHeader, Seq<u8>)>,
)
    ensures
        spec_chain_after(prev, seq![f] + rest) == spec_chain_after(f.0.crc, rest),
{
    if rest.len() == 0 {
        assert((seq![f] + rest).last() == f);
    } else {
        assert((seq![f] + rest).last() == rest.last());
    }
}

/// Everything a restore from generation `gen` guarantees, relating the state
/// before (`pre`) and after (`post`) and the result `r` to the values the
/// store and the local files held: the page-size adoption chain, then the
/// decision table over the change counters and WAL length, then — on the
/// apply path — the rebuilt image as a replay over the remote snapshot.
pub open spec fn spec_restore_from_post(
    pre: Replicator,
    post: Replicator,
    gen: Seq<u8>,
    log: Seq<crate::store::StoredObject>,
    local_db: Option<Seq<u8>>,
    local_wal: Option<Seq<u8>>,
    r: Result<(RestoreAction, Option<Vec<u8>>), ReplicationError>,
) -> bool {
    let lc = spec_local_counter(local_db);
    let rc = spec_remote_counter(log, pre.db_name@, gen);
    let con = spec_remote_consistent(log, pre.db_name@, gen);
    let remote_ps = con.0;
    let lcf = con.1;
    let local_conflict = spec_local_ps_conflict(pre.page_size as int, local_db);
    let ps1 = spec_ps_after_local_db(pre.page_size as int, local_db);
    let remote_invalid = spec_remote_ps_invalid(remote_ps);
    let remote_conflict = spec_remote_ps_conflict(ps1, remote_ps);
    let ps2 = spec_ps_after_remote(ps1, remote_ps);
    let wp = spec_local_wal_pages(local_wal, ps2);
    let ps3 = spec_page_size_after_wal(local_wal, ps2);
    let clean = !local_conflict && !remote_invalid && !remote_conflict;
    &&& (local_conflict ==> (r matches Err(e) && e == ReplicationError::PageSizeConflict) && post
        == pre)
    &&& (!local_conflict && remote_invalid ==> (r matches Err(e) && e
        == ReplicationError::WalMalformed) && post == spec_with_page_size(pre, ps1))
    &&& (!local_conflict && !remote_invalid && remote_conflict ==> (r matches Err(e) && e
        == ReplicationError::PageSizeConflict) && post == spec_with_page_size(pre, ps1))
    &&& (clean && lc == rc && wp == lcf ==> (if wp < u32::MAX {
        (r matches Ok(p) && (p.0 matches RestoreAction::ReuseGeneration(g) && g.id@ == gen)
            && p.1 is None) && post == (Replicator {
            next_frame_no: (wp + 1) as u32,
            last_sent_frame_no: crate::replicator::spec_min_u32(
                pre.last_sent_frame_no,
                wp as u32,
            ),
            last_uploaded_frame_no: crate::replicator::spec_min_u32(
                pre.last_uploaded_frame_no,
                wp as u32,
            ),
            last_committed_frame_no: crate::replicator::spec_min_u32(
                pre.last_committed_frame_no,
                wp as u32,
            ),
            page_size: ps3 as usize,
            ..pre
        })
    } else {
        (r matches Err(e) && e == ReplicationError::WalMalformed) && post == spec_with_page_size(
            pre,
            ps3,
        )
    }))
    &&& (clean && (lc > rc || (lc == rc && wp > lcf)) ==> (r matches Ok(p) && p.0
        is SnapshotMainDbFile && p.1 is None) && post == spec_with_page_size(pre, ps3))
    &&& (clean && (lc < rc || (lc == rc && wp < lcf)) ==> {
        &&& post == spec_with_page_size(pre, ps3)
        &&& (ps3 == UNSET_PAGE_SIZE as int ==> (r matches Err(e) && e
            == ReplicationError::WalMalformed))
        &&& (ps3 != UNSET_PAGE_SIZE as int ==> spec_apply_outcome(
            spec_with_page_size(pre, ps3),
            gen,
            log,
            lcf as int,
            r,
        ))
    })
}

/// `true` when key `k` embeds, after a database name of length `nl` and its
/// hyphen, the text of the 16-byte identifier `gid`.
pub open spec fn spec_key_embeds(k: Seq<u8>, nl: int, gid: Seq<u8>) -> bool {
    gid.len() == 16 && nl + 37 <= k.len() && k.subrange(nl + 1, nl + 37)
        == crate::generation::spec_gen_text(gid)
}

/// The first listed generation born at or before a target instant. Keys
/// arrive youngest-first under the reversed clock, so the pick is the newest
/// generation whose reversed timestamp is at or above the reversed target;
/// `None` exactly when no listed key embeds such a generation.
pub fn resolve_generation_at(keys: &Vec<Vec<u8>>, db_name_len: usize, rev_target_ms: u64) -> (r:
    Option<Generation>)
    ensures
        match r {
            Some(g) => crate::generation::spec_gen_ms(g.id@) >= rev_target_ms && (exists|i: int|
                #![trigger keys@[i]]
                0 <= i < keys@.len() && spec_key_embeds(keys@[i]@, db_name_len as int, g.id@) && (
                forall|q: int, gid: Seq<u8>|
                    0 <= q < i && #[trigger] spec_key_embeds(keys@[q]@, db_name_len as int, gid)
                        ==> crate::generation::spec_gen_ms(gid) < rev_target_ms)),
            None => forall|i: int, gid: Seq<u8>|
                0 <= i < keys@.len() && #[trigger] spec_key_embeds(
                    keys@[i]@,
                    db_name_len as int,
                    gid,
                ) ==> crate::generation::spec_gen_ms(gid) < rev_target_ms,
        },
{
    let n = keys.len();
    let mut i: usize = 0;
    while i < n
        invariant
            i <= n == keys@.len(),
            forall|q: int, gid: Seq<u8>|
                0 <= q < i && #[trigger] spec_key_embeds(keys@[q]@, db_name_len as int, gid)
                    ==> crate::generation::spec_gen_ms(gid) < rev_target_ms,
        decreases n - i,
    {
        let key = &keys[i];
        match crate::keys::generation_from_key(key, db_name_len) {
            Some(g) => {
                if g.timestamp_ms() >= rev_target_ms {
                    proof {
                        assert(spec_key_embeds(keys@[i as int]@, db_name_len as int, g.id@));
                    }
                    return Some(g);
                }
                proof {
                    assert forall|gid: Seq<u8>|
                        #[trigger] spec_key_embeds(keys@[i as int]@, db_name_len as int, gid)
                            implies crate::generation::spec_gen_ms(gid) < rev_target_ms by {
                        crate::generation::lemma_gen_text_injective(gid, g.id@);
                    }
                }
            },
            None => {
                proof {
                    assert forall|gid: Seq<u8>|
                        #[trigger] spec_key_embeds(keys@[i as int]@, db_name_len as int, gid)
                            implies crate::generation::spec_gen_ms(gid) < rev_target_ms by {
                        crate::generation::lemma_gen_text_shape(gid);
                    }
                }
            },
        }
        i = i + 1;
    }
    None
}

/// How many frames the reader has left: its decreasing measure.
pub open spec fn spec_body_frame_count_left(reader: &BatchReader) -> int {
    crate::codec::spec_body_frame_count(reader.plain@, reader.page_size as int) - reader.idx
}

} // verus!
