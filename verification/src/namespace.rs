//! The pure pieces of namespace management: namespace names, deriving a
//! namespaced database id for the replicator's options, the fresh-database
//! test, and the statement accumulator used when loading an SQL dump.

use vstd::prelude::*;
use crate::error::ReplicationError;
use crate::keys::push_all;
use crate::replicator::Options;
use crate::store::bytes_eq;

verus! {

/// The name of a namespace: a non-empty string of UTF-8 bytes.
#[derive(Clone, Debug)]
pub struct NamespaceName {
    pub bytes: Vec<u8>,
}

/// Whether a byte string is valid UTF-8 — the verdict of `str::from_utf8`,
/// named here because stating the encoding takes pages.
pub uninterp spec fn spec_utf8_valid(s: Seq<u8>) -> bool;

/// The UTF-8 bytes of a string — what `String::into_bytes` returns, a
/// function of the characters alone.
pub uninterp spec fn spec_utf8_bytes(s: Seq<char>) -> Seq<u8>;

/// Relies on `str::from_utf8`: it succeeds exactly on valid UTF-8.
#[verifier::external_body]
fn utf8_valid(bytes: &Vec<u8>) -> (r: bool)
    ensures
        r == spec_utf8_valid(bytes@),
{
    std::str::from_utf8(bytes).is_ok()
}

/// Relies on `String::into_bytes`: the UTF-8 encoding of the string — valid
/// UTF-8 by construction, and empty exactly when the string is empty.
#[verifier::external_body]
fn string_into_bytes(s: String) -> (r: Vec<u8>)
    ensures
        r@ == spec_utf8_bytes(s@),
        spec_utf8_valid(r@),
        (r@.len() == 0) <==> (s@.len() == 0),
{
    s.into_bytes()
}

impl NamespaceName {
    /// A name is valid exactly when it is non-empty, valid UTF-8.
    pub open spec fn spec_valid(bytes: Seq<u8>) -> bool {
        bytes.len() > 0 && spec_utf8_valid(bytes)
    }

    /// Checks that candidate name bytes are acceptable.
    pub fn validate(bytes: &Vec<u8>) -> (r: Result<(), ReplicationError>)
        ensures
            r is Ok <==> Self::spec_valid(bytes@),
            r matches Err(e) ==> e == ReplicationError::InvalidNamespace,
    {
        if bytes.len() == 0 {
            return Err(ReplicationError::InvalidNamespace);
        }
        if !utf8_valid(bytes) {
            return Err(ReplicationError::InvalidNamespace);
        }
        Ok(())
    }

    /// Wraps a string as a namespace name: the name's bytes are the string's
    /// UTF-8 bytes; rejects the empty string, exactly.
    pub fn from_string(s: String) -> (r: Result<NamespaceName, ReplicationError>)
        ensures
            r is Ok <==> s@.len() > 0,
            r matches Ok(n) ==> n.bytes@ == spec_utf8_bytes(s@) && Self::spec_valid(n.bytes@),
            r matches Err(e) ==> e == ReplicationError::InvalidNamespace,
    {
        let bytes = string_into_bytes(s);
        match Self::validate(&bytes) {
            Ok(()) => Ok(NamespaceName { bytes }),
            Err(e) => Err(e),
        }
    }

    /// Wraps name bytes; rejects, exactly, bytes that are empty or not valid
    /// UTF-8.
    pub fn from_bytes(bytes: Vec<u8>) -> (r: Result<NamespaceName, ReplicationError>)
        ensures
            r is Ok <==> Self::spec_valid(bytes@),
            r matches Ok(n) ==> n.bytes@ == bytes@,
            r matches Err(e) ==> e == ReplicationError::InvalidNamespace,
    {
        match Self::validate(&bytes) {
            Ok(()) => Ok(NamespaceName { bytes }),
            Err(e) => Err(e),
        }
    }

    /// The name's bytes.
    pub fn as_slice(&self) -> (r: &Vec<u8>)
        ensures
            r@ == self.bytes@,
    {
        &self.bytes
    }
}

/// The default namespace name.
impl Default for NamespaceName {
    fn default() -> (r: NamespaceName)
        ensures
            r.bytes@ == seq![100u8, 101u8, 102u8, 97u8, 117u8, 108u8, 116u8],
    {
        let bytes: Vec<u8> = vec![100, 101, 102, 97, 117, 108, 116];
        NamespaceName { bytes }
    }
}

/// The database id a namespaced replicator runs under:
/// `"ns-" ++ db_id ++ ":" ++ name`.
pub open spec fn spec_namespaced_db_id(db_id: Option<Seq<u8>>, name: Seq<u8>) -> Seq<u8> {
    seq![110u8, 115u8, 45u8] + (match db_id {
        Some(id) => id,
        None => Seq::empty(),
    }) + seq![58u8] + name
}

/// Rewrites the replicator options for one namespace: the database id gains
/// the namespace prefix; everything else is kept.
pub fn make_bottomless_options(options: Options, name: &NamespaceName) -> (r: Options)
    ensures
        r.db_id matches Some(id) && id@ == spec_namespaced_db_id(
            match options.db_id {
                Some(v) => Some(v@),
                None => None,
            },
            name.bytes@,
        ),
        r.create_bucket_if_not_exists == options.create_bucket_if_not_exists,
        r.verify_crc == options.verify_crc,
        r.use_compression == options.use_compression,
        r.bucket_name@ == options.bucket_name@,
        r.max_frames_per_batch == options.max_frames_per_batch,
        r.max_batch_interval_ms == options.max_batch_interval_ms,
{
    let mut id: Vec<u8> = Vec::new();
    id.push(110);
    id.push(115);
    id.push(45);
    match &options.db_id {
        Some(old_id) => push_all(&mut id, old_id),
        None => (),
    }
    id.push(58);
    push_all(&mut id, &name.bytes);
    proof {
        assert(id@ =~= spec_namespaced_db_id(
            match options.db_id {
                Some(v) => Some(v@),
                None => None,
            },
            name.bytes@,
        ));
    }
    Options { db_id: Some(id), ..options }
}

/// A database directory is fresh exactly when it has no write-ahead log
/// journal yet.
pub fn check_fresh_db(wallog_exists: bool) -> (r: bool)
    ensures
        r == !wallog_exists,
{
    !wallog_exists
}

/// Accumulates trimmed dump lines into SQL statements: blank lines and `--`
/// comments are dropped, and a statement completes at a line ending in `;`.
/// One designated statement — a table the system creates itself — can be
/// skipped the first time it accumulates.
pub struct DumpParser {
    pub stmt: Vec<u8>,
    pub skip_once: Option<Vec<u8>>,
    pub skipped: bool,
}

/// `true` for a line the dump loader ignores: blank, or a `--` comment.
pub open spec fn spec_dump_line_ignored(line: Seq<u8>) -> bool {
    line.len() == 0 || (line.len() >= 2 && line[0] == 45 && line[1] == 45)
}

impl DumpParser {
    /// `true` when the accumulated text `joined` is the statement this
    /// parser still has to skip.
    pub open spec fn spec_skips(&self, joined: Seq<u8>) -> bool {
        !self.skipped && (match self.skip_once {
            Some(k) => k@ == joined,
            None => false,
        })
    }

    /// A parser with nothing accumulated and nothing to skip.
    pub fn new() -> (r: DumpParser)
        ensures
            r.stmt@.len() == 0,
            r.skip_once is None,
            !r.skipped,
    {
        DumpParser { stmt: Vec::new(), skip_once: None, skipped: false }
    }

    /// A parser that drops the first occurrence of `statement` instead of
    /// completing it.
    pub fn with_skipped_statement(statement: Vec<u8>) -> (r: DumpParser)
        ensures
            r.stmt@.len() == 0,
            r.skip_once matches Some(k) && k@ == statement@,
            !r.skipped,
    {
        DumpParser { stmt: Vec::new(), skip_once: Some(statement), skipped: false }
    }

    /// Feeds one trimmed line. Ignored lines change nothing. Otherwise the
    /// line joins the accumulated text; if that text is the designated
    /// statement and it was not skipped yet, it is dropped; else a trailing
    /// `;` completes the statement, and anything else waits, followed by one
    /// space.
    pub fn feed_line(&mut self, line: &Vec<u8>) -> (r: Option<Vec<u8>>)
        ensures
            final(self).skip_once == old(self).skip_once,
            ({
                let joined = old(self).stmt@ + line@;
                &&& (spec_dump_line_ignored(line@) ==> r is None && *final(self) == *old(self))
                &&& (!spec_dump_line_ignored(line@) && old(self).spec_skips(joined) ==> r is None
                    && final(self).stmt@.len() == 0 && final(self).skipped)
                &&& (!spec_dump_line_ignored(line@) && !old(self).spec_skips(joined)
                    ==> final(self).skipped == old(self).skipped && (if line@.last() == 59 {
                    (r matches Some(done) && done@ == joined) && final(self).stmt@.len() == 0
                } else {
                    r is None && final(self).stmt@ == joined + seq![32u8]
                }))
            }),
    {
        let n = line.len();
        if n == 0 {
            return None;
        }
        if n >= 2 && line[0] == 45 && line[1] == 45 {
            return None;
        }
        push_all(&mut self.stmt, line);
        if !self.skipped {
            let hit = match &self.skip_once {
                Some(k) => bytes_eq(&self.stmt, k),
                None => false,
            };
            if hit {
                self.stmt = Vec::new();
                self.skipped = true;
                return None;
            }
        }
        if line[n - 1] == 59 {
            let mut done: Vec<u8> = Vec::new();
            std::mem::swap(&mut done, &mut self.stmt);
            Some(done)
        } else {
            self.stmt.push(32);
            None
        }
    }
}

} // verus!
