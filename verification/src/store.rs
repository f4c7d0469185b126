//! An in-memory model of the object store: a log of `put` operations in
//! upload order, last write per key winning, and listing in ascending
//! lexicographic key order — the order an object store serves lists in.
//!
//! The replicator's laws are stated and proved against this model; the
//! surrounding program performs the same puts against the real store.

use vstd::prelude::*;
use crate::encoding::{lex_lt, lex_less, lemma_lex_trichotomy};

verus! {

/// One uploaded object: its key and its body.
pub struct StoredObject {
    pub key: Vec<u8>,
    pub body: Vec<u8>,
}

/// The store model: every put that ever happened, in order.
pub struct StoreModel {
    pub log: Vec<StoredObject>,
}

/// `true` when some entry of `log` has key `key`.
pub open spec fn spec_has_key(log: Seq<StoredObject>, key: Seq<u8>) -> bool {
    exists|i: int| 0 <= i < log.len() && #[trigger] log[i].key@ == key
}

/// The body of the *last* entry with key `key`, if any: a later put of the
/// same key overwrites an earlier one.
pub open spec fn spec_get(log: Seq<StoredObject>, key: Seq<u8>) -> Option<Seq<u8>>
    decreases log.len(),
{
    if log.len() == 0 {
        None
    } else if log.last().key@ == key {
        Some(log.last().body@)
    } else {
        spec_get(log.drop_last(), key)
    }
}

/// `true` when `p` is a prefix of `s`.
pub open spec fn spec_has_prefix(s: Seq<u8>, p: Seq<u8>) -> bool {
    p.len() <= s.len() && s.subrange(0, p.len() as int) == p
}

/// Byte-for-byte equality of two vectors.
pub fn bytes_eq(a: &Vec<u8>, b: &Vec<u8>) -> (r: bool)
    ensures
        r == (a@ == b@),
{
    let na = a.len();
    let nb = b.len();
    if na != nb {
        return false;
    }
    let mut i: usize = 0;
    while i < na
        invariant
            i <= na == a@.len(),
            na == nb == b@.len(),
            forall|k: int| 0 <= k < i ==> a@[k] == #[trigger] b@[k],
        decreases na - i,
    {
        if a[i] != b[i] {
            return false;
        }
        i = i + 1;
    }
    proof {
        assert(a@ =~= b@);
    }
    true
}

/// `true` when `p` is a prefix of `s`.
pub fn has_prefix(s: &Vec<u8>, p: &Vec<u8>) -> (r: bool)
    ensures
        r == spec_has_prefix(s@, p@),
{
    let np = p.len();
    let ns = s.len();
    if np > ns {
        return false;
    }
    let mut i: usize = 0;
    while i < np
        invariant
            i <= np == p@.len(),
            np <= ns == s@.len(),
            forall|k: int| 0 <= k < i ==> s@[k] == #[trigger] p@[k],
        decreases np - i,
    {
        if s[i] != p[i] {
            proof {
                assert(s@.subrange(0, np as int)[i as int] == s@[i as int]);
            }
            return false;
        }
        i = i + 1;
    }
    proof {
        assert(s@.subrange(0, np as int) =~= p@);
    }
    true
}

impl StoreModel {
    /// An empty store.
    pub fn new() -> (r: StoreModel)
        ensures
            r.log@.len() == 0,
    {
        StoreModel { log: Vec::new() }
    }

    /// Uploads one object: appends it to the log.
    pub fn put(&mut self, key: Vec<u8>, body: Vec<u8>)
        ensures
            final(self).log@ == old(self).log@.push(StoredObject { key, body }),
            final(self).log@.len() == old(self).log@.len() + 1,
            final(self).log@.last().key@ == key@,
            final(self).log@.last().body@ == body@,
            forall|q: int|
                0 <= q < old(self).log@.len() ==> #[trigger] final(self).log@[q] == old(
                    self,
                ).log@[q],
            old(self).log@.is_prefix_of(final(self).log@),
    {
        let ghost prev = self.log@;
        self.log.push(StoredObject { key, body });
        proof {
            let o = StoredObject { key, body };
            assert(self.log@ == prev.push(o));
            assert(prev.push(o)[prev.len() as int] == o);
            assert forall|q: int| 0 <= q < prev.len() implies #[trigger] self.log@[q]
                == prev[q] by {
                assert(prev.push(o)[q] == prev[q]);
            }
            assert(self.log@.subrange(0, prev.len() as int) =~= prev);
        }
    }

    /// Downloads the object at `key`: the body of its last put.
    pub fn get(&self, key: &Vec<u8>) -> (r: Option<&Vec<u8>>)
        ensures
            match r {
                Some(b) => spec_get(self.log@, key@) == Some(b@),
                None => spec_get(self.log@, key@) is None,
            },
    {
        let n = self.log.len();
        let mut i: usize = n;
        proof {
            assert(self.log@.subrange(0, n as int) =~= self.log@);
        }
        while i > 0
            invariant
                i <= n == self.log@.len(),
                spec_get(self.log@, key@) == spec_get(self.log@.subrange(0, i as int), key@),
            decreases i,
        {
            i = i - 1;
            let entry = &self.log[i];
            proof {
                let pre = self.log@.subrange(0, i as int + 1);
                assert(pre.last() == self.log@[i as int]);
                assert(pre.drop_last() =~= self.log@.subrange(0, i as int));
            }
            if bytes_eq(&entry.key, key) {
                return Some(&entry.body);
            }
        }
        proof {
            assert(self.log@.subrange(0, 0) =~= Seq::<StoredObject>::empty());
        }
        None
    }

    /// Lists the keys under `prefix`, each once, in ascending lexicographic
    /// order — the order an object store returns them in.
    pub fn list_prefix(&self, prefix: &Vec<u8>) -> (r: Vec<Vec<u8>>)
        ensures
            forall|a: int, b: int|
                #![trigger r@[a], r@[b]]
                0 <= a < b < r@.len() ==> lex_lt(r@[a]@, r@[b]@),
            forall|a: int|
                0 <= a < r@.len() ==> spec_has_key(self.log@, #[trigger] r@[a]@) && spec_has_prefix(
                    r@[a]@,
                    prefix@,
                ),
            forall|k: Seq<u8>|
                #[trigger] spec_has_key(self.log@, k) && spec_has_prefix(k, prefix@) ==> exists|
                    a: int,
                |
                    0 <= a < r@.len() && r@[a]@ == k,
    {
        let n = self.log.len();
        let mut out: Vec<Vec<u8>> = Vec::new();
        let mut i: usize = 0;
        while i < n
            invariant
                i <= n == self.log@.len(),
                forall|a: int, b: int|
                    #![trigger out@[a], out@[b]]
                    0 <= a < b < out@.len() ==> lex_lt(out@[a]@, out@[b]@),
                forall|a: int|
                    0 <= a < out@.len() ==> spec_has_key(self.log@, #[trigger] out@[a]@)
                        && spec_has_prefix(out@[a]@, prefix@),
                forall|k: Seq<u8>|
                    #[trigger] spec_has_key(self.log@.subrange(0, i as int), k) && spec_has_prefix(
                        k,
                        prefix@,
                    ) ==> exists|a: int| 0 <= a < out@.len() && out@[a]@ == k,
            decreases n - i,
        {
            let entry_key = clone_bytes(&self.log[i].key);
            proof {
                assert(self.log@[i as int].key@ == entry_key@);
            }
            if has_prefix(&entry_key, prefix) {
                insert_sorted(&mut out, entry_key);
            }
            i = i + 1;
            proof {
                let pre = self.log@.subrange(0, i as int);
                assert forall|k: Seq<u8>|
                    #[trigger] spec_has_key(pre, k) && spec_has_prefix(k, prefix@) implies exists|
                    a: int,
                |
                    0 <= a < out@.len() && out@[a]@ == k by {
                    let w = choose|w: int| 0 <= w < pre.len() && #[trigger] pre[w].key@ == k;
                    assert(pre[w] == self.log@[w]);
                    if w < i - 1 {
                        assert(spec_has_key(self.log@.subrange(0, i as int - 1), k)) by {
                            assert(self.log@.subrange(0, i as int - 1)[w].key@ == k);
                        }
                    } else {
                        assert(k == entry_key@);
                    }
                }
            }
        }
        proof {
            assert(self.log@.subrange(0, n as int) =~= self.log@);
        }
        out
    }
}

/// Prefixes chain: a prefix of a prefix of `c` is a prefix of `c`.
pub proof fn lemma_prefix_transitive(a: Seq<StoredObject>, b: Seq<StoredObject>, c: Seq<StoredObject>)
    requires
        a.is_prefix_of(b),
        b.is_prefix_of(c),
    ensures
        a.is_prefix_of(c),
{
    assert(a =~= c.subrange(0, a.len() as int)) by {
        assert forall|i: int| 0 <= i < a.len() implies #[trigger] a[i] == c.subrange(
            0,
            a.len() as int,
        )[i] by {
            assert(a[i] == b.subrange(0, a.len() as int)[i]);
            assert(b[i] == c.subrange(0, b.len() as int)[i]);
        }
    }
}

/// A copy of a byte vector.
pub fn clone_bytes(v: &Vec<u8>) -> (r: Vec<u8>)
    ensures
        r@ == v@,
{
    let mut out: Vec<u8> = Vec::new();
    crate::keys::push_all(&mut out, v);
    out
}

/// Inserts `key` into the sorted vector `out`, keeping it sorted and
/// duplicate-free; inserting a key already present changes nothing.
#[verifier::rlimit(60)]
#[verifier::spinoff_prover]
fn insert_sorted(out: &mut Vec<Vec<u8>>, key: Vec<u8>)
    requires
        forall|a: int, b: int|
            #![trigger old(out)@[a], old(out)@[b]]
            0 <= a < b < old(out)@.len() ==> lex_lt(old(out)@[a]@, old(out)@[b]@),
    ensures
        forall|a: int, b: int|
            #![trigger final(out)@[a], final(out)@[b]]
            0 <= a < b < final(out)@.len() ==> lex_lt(final(out)@[a]@, final(out)@[b]@),
        forall|a: int|
            #![trigger final(out)@[a]]
            0 <= a < final(out)@.len() ==> (exists|b: int|
                0 <= b < old(out)@.len() && #[trigger] old(out)@[b]@ == final(out)@[a]@)
                || final(out)@[a]@ == key@,
        exists|a: int| 0 <= a < final(out)@.len() && #[trigger] final(out)@[a]@ == key@,
        forall|b: int|
            #![trigger old(out)@[b]]
            0 <= b < old(out)@.len() ==> exists|a: int|
                0 <= a < final(out)@.len() && #[trigger] final(out)@[a]@ == old(out)@[b]@,
{
    let n = out.len();
    let mut i: usize = 0;
    while i < n && lex_less(&out[i], &key)
        invariant
            i <= n == out@.len(),
            out@ == old(out)@,
            forall|a: int| 0 <= a < i ==> lex_lt(#[trigger] out@[a]@, key@),
        decreases n - i,
    {
        i = i + 1;
    }
    if i < n {
        if bytes_eq(&out[i], &key) {
            proof {
                assert(out@[i as int]@ == key@);
            }
            return ;
        }
    }
    proof {
        if i < n {
            let x = out@[i as int]@;
            if x.len() == key@.len() {
                lemma_lex_trichotomy(x, key@);
            } else {
                assert(x != key@);
                lemma_lex_total_on_distinct(x, key@);
            }
            assert(lex_lt(key@, x));
        }
    }
    out.insert(i, key);
    proof {
        let f = out@;
        let o = old(out)@;
        assert(f.len() == o.len() + 1);
        assert forall|a: int, b: int|
            #![trigger f[a], f[b]]
            0 <= a < b < f.len() implies lex_lt(f[a]@, f[b]@) by {
            if a < i && b < i {
                assert(f[a] == o[a] && f[b] == o[b]);
            } else if a < i && b == i {
                assert(f[a] == o[a]);
            } else if a < i && b > i {
                assert(f[a] == o[a] && f[b] == o[b - 1]);
            } else if a == i && b > i {
                assert(f[b] == o[b - 1]);
                if b - 1 > i {
                    lemma_lex_transitive_helper(f[a]@, o[i as int]@, f[b]@);
                }
            } else {
                assert(f[a] == o[a - 1] && f[b] == o[b - 1]);
            }
        }
        assert(f[i as int]@ == key@);
        assert forall|b: int|
            #![trigger o[b]]
            0 <= b < o.len() implies exists|a: int| 0 <= a < f.len() && #[trigger] f[a]@
            == o[b]@ by {
            if b < i {
                assert(f[b]@ == o[b]@);
            } else {
                assert(f[b + 1]@ == o[b]@);
            }
        }
        assert forall|a: int|
            #![trigger f[a]]
            0 <= a < f.len() implies (exists|b: int| 0 <= b < o.len() && #[trigger] o[b]@
            == f[a]@) || f[a]@ == key@ by {
            if a < i {
                assert(o[a]@ == f[a]@);
            } else if a > i {
                assert(o[a - 1]@ == f[a]@);
            }
        }
    }
}

/// Distinct keys of different lengths still compare one way or the other.
pub proof fn lemma_lex_total_on_distinct(a: Seq<u8>, b: Seq<u8>)
    requires
        a != b,
    ensures
        lex_lt(a, b) || lex_lt(b, a),
    decreases a.len(),
{
    if a.len() == 0 {
        if b.len() == 0 {
            assert(a =~= b);
        }
    } else if b.len() == 0 {
    } else if a[0] == b[0] {
        if a.len() == b.len() {
            assert(a.skip(1) != b.skip(1)) by {
                if a.skip(1) == b.skip(1) {
                    crate::encoding::lemma_seq_head_tail_eq(a, b);
                }
            }
        } else {
            assert(a.skip(1).len() != b.skip(1).len());
        }
        lemma_lex_total_on_distinct(a.skip(1), b.skip(1));
    }
}

/// Transitivity of the lexicographic order.
proof fn lemma_lex_transitive_helper(a: Seq<u8>, b: Seq<u8>, c: Seq<u8>)
    requires
        lex_lt(a, b),
        lex_lt(b, c),
    ensures
        lex_lt(a, c),
    decreases a.len(),
{
    if a.len() > 0 && b.len() > 0 && c.len() > 0 {
        if a[0] == b[0] && b[0] == c[0] {
            lemma_lex_transitive_helper(a.skip(1), b.skip(1), c.skip(1));
        }
    }
}

} // verus!
