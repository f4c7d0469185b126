//! Object keys. Every object of a generation lives under the prefix
//! `"{db_name}-{generation}/"`; a frame batch's key ends in the 12-digit
//! zero-padded number of its first frame, and the sentinels end in fixed
//! names. Keys are byte strings; the store lists them in ascending
//! lexicographic order.

use vstd::prelude::*;
use crate::encoding::{
    spec_dec_bytes, lex_lt, pow10, format_u32_dec12, parse_u32_dec, spec_dec_value,
    is_ascii_digits, lemma_dec_bytes_len, lemma_dec_bytes_order, lemma_lex_skip,
};
use crate::generation::{Generation, spec_gen_text, parse_generation};
use crate::wal::push_bytes_range;

verus! {

/// `".meta"` — page size and WAL header checksum of a generation.
pub open spec fn spec_suffix_meta() -> Seq<u8> {
    seq![46u8, 109u8, 101u8, 116u8, 97u8]
}

/// `".consistent"` — the durable commit marker of a generation.
pub open spec fn spec_suffix_consistent() -> Seq<u8> {
    seq![46u8, 99u8, 111u8, 110u8, 115u8, 105u8, 115u8, 116u8, 101u8, 110u8, 116u8]
}

/// `".changecounter"` — the database header change counter.
pub open spec fn spec_suffix_changecounter() -> Seq<u8> {
    seq![
        46u8,
        99u8,
        104u8,
        97u8,
        110u8,
        103u8,
        101u8,
        99u8,
        111u8,
        117u8,
        110u8,
        116u8,
        101u8,
        114u8,
    ]
}

/// `"db.db"` — the raw main database snapshot.
pub open spec fn spec_suffix_db() -> Seq<u8> {
    seq![100u8, 98u8, 46u8, 100u8, 98u8]
}

/// `"db.gz"` — the compressed main database snapshot.
pub open spec fn spec_suffix_db_gz() -> Seq<u8> {
    seq![100u8, 98u8, 46u8, 103u8, 122u8]
}

/// The prefix every object of one generation shares:
/// `db_name ++ "-" ++ generation ++ "/"`.
pub open spec fn spec_key_prefix(db_name: Seq<u8>, gen: Seq<u8>) -> Seq<u8> {
    db_name + seq![45u8] + spec_gen_text(gen) + seq![47u8]
}

/// The key of the batch whose first frame is `start`.
pub open spec fn spec_batch_key(db_name: Seq<u8>, gen: Seq<u8>, start: u32) -> Seq<u8> {
    spec_key_prefix(db_name, gen) + spec_dec_bytes(start as int, 12)
}

/// Appends all of `src` to `out`.
pub fn push_all(out: &mut Vec<u8>, src: &Vec<u8>)
    ensures
        final(out)@ == old(out)@ + src@,
{
    let n = src.len();
    push_bytes_range(out, src, 0, n);
    proof {
        assert(src@.subrange(0, src@.len() as int) =~= src@);
    }
}

/// The shared generation prefix, as bytes.
pub fn key_prefix(db_name: &Vec<u8>, gen: &Generation) -> (r: Vec<u8>)
    ensures
        r@ == spec_key_prefix(db_name@, gen.id@),
{
    let mut out: Vec<u8> = Vec::new();
    push_all(&mut out, db_name);
    out.push(45);
    let text = gen.to_text();
    push_all(&mut out, &text);
    out.push(47);
    proof {
        assert(out@ =~= spec_key_prefix(db_name@, gen.id@));
    }
    out
}

/// The key of the batch whose first frame is `start`.
pub fn batch_key(db_name: &Vec<u8>, gen: &Generation, start: u32) -> (r: Vec<u8>)
    ensures
        r@ == spec_batch_key(db_name@, gen.id@, start),
{
    let mut out = key_prefix(db_name, gen);
    let digits = format_u32_dec12(start);
    push_all(&mut out, &digits);
    proof {
        assert(out@ =~= spec_batch_key(db_name@, gen.id@, start));
    }
    out
}

/// The `".meta"` key of a generation.
pub fn meta_key(db_name: &Vec<u8>, gen: &Generation) -> (r: Vec<u8>)
    ensures
        r@ == spec_key_prefix(db_name@, gen.id@) + spec_suffix_meta(),
{
    let mut out = key_prefix(db_name, gen);
    out.push(46);
    out.push(109);
    out.push(101);
    out.push(116);
    out.push(97);
    proof {
        assert(out@ =~= spec_key_prefix(db_name@, gen.id@) + spec_suffix_meta());
    }
    out
}

/// The `".consistent"` key of a generation.
pub fn consistent_key(db_name: &Vec<u8>, gen: &Generation) -> (r: Vec<u8>)
    ensures
        r@ == spec_key_prefix(db_name@, gen.id@) + spec_suffix_consistent(),
{
    let mut out = key_prefix(db_name, gen);
    out.push(46);
    out.push(99);
    out.push(111);
    out.push(110);
    out.push(115);
    out.push(105);
    out.push(115);
    out.push(116);
    out.push(101);
    out.push(110);
    out.push(116);
    proof {
        assert(out@ =~= spec_key_prefix(db_name@, gen.id@) + spec_suffix_consistent());
    }
    out
}

/// The `".changecounter"` key of a generation.
pub fn changecounter_key(db_name: &Vec<u8>, gen: &Generation) -> (r: Vec<u8>)
    ensures
        r@ == spec_key_prefix(db_name@, gen.id@) + spec_suffix_changecounter(),
{
    let mut out = key_prefix(db_name, gen);
    out.push(46);
    out.push(99);
    out.push(104);
    out.push(97);
    out.push(110);
    out.push(103);
    out.push(101);
    out.push(99);
    out.push(111);
    out.push(117);
    out.push(110);
    out.push(116);
    out.push(101);
    out.push(114);
    proof {
        assert(out@ =~= spec_key_prefix(db_name@, gen.id@) + spec_suffix_changecounter());
    }
    out
}

/// The key of the main database snapshot: `"db.gz"` when compressed,
/// `"db.db"` otherwise.
pub fn main_db_key(db_name: &Vec<u8>, gen: &Generation, use_compression: bool) -> (r: Vec<u8>)
    ensures
        r@ == spec_key_prefix(db_name@, gen.id@) + if use_compression {
            spec_suffix_db_gz()
        } else {
            spec_suffix_db()
        },
{
    let mut out = key_prefix(db_name, gen);
    out.push(100);
    out.push(98);
    out.push(46);
    if use_compression {
        out.push(103);
        out.push(122);
        proof {
            assert(out@ =~= spec_key_prefix(db_name@, gen.id@) + spec_suffix_db_gz());
        }
    } else {
        out.push(100);
        out.push(98);
        proof {
            assert(out@ =~= spec_key_prefix(db_name@, gen.id@) + spec_suffix_db());
        }
    }
    out
}

/// The prefix shared by all generations of one database: `db_name ++ "-"`.
pub fn db_prefix(db_name: &Vec<u8>) -> (r: Vec<u8>)
    ensures
        r@ == db_name@ + seq![45u8],
{
    let mut out: Vec<u8> = Vec::new();
    push_all(&mut out, db_name);
    out.push(45);
    proof {
        assert(out@ =~= db_name@ + seq![45u8]);
    }
    out
}

/// The largest index where `c` occurs in `s`, or `-1` when it does not.
pub open spec fn spec_rfind(s: Seq<u8>, c: u8) -> int
    decreases s.len(),
{
    if s.len() == 0 {
        -1
    } else if s.last() == c {
        s.len() - 1
    } else {
        spec_rfind(s.drop_last(), c)
    }
}

/// Finds the last occurrence of `c` in `v`.
pub fn rfind(v: &Vec<u8>, c: u8) -> (r: Option<usize>)
    ensures
        match r {
            Some(i) => i as int == spec_rfind(v@, c),
            None => spec_rfind(v@, c) == -1,
        },
{
    let n = v.len();
    let mut i: usize = n;
    proof {
        assert(v@.subrange(0, n as int) =~= v@);
    }
    while i > 0
        invariant
            i <= n == v@.len(),
            spec_rfind(v@, c) == spec_rfind(v@.subrange(0, i as int), c),
        decreases i,
    {
        i = i - 1;
        if v[i] == c {
            proof {
                let pre = v@.subrange(0, i as int + 1);
                assert(pre.last() == v@[i as int]);
            }
            return Some(i);
        }
        proof {
            let pre = v@.subrange(0, i as int + 1);
            assert(pre.last() == v@[i as int]);
            assert(pre.drop_last() =~= v@.subrange(0, i as int));
        }
    }
    proof {
        assert(v@.subrange(0, 0) =~= Seq::<u8>::empty());
    }
    None
}

/// What `parse_frame_no` accepts of a key: a `/` occurs, and everything
/// after its last occurrence is one or more decimal digits whose value fits.
pub open spec fn spec_frame_no_of_key(key: Seq<u8>) -> Option<u32> {
    let i = spec_rfind(key, 47);
    if i >= 0 {
        let digits = key.skip(i + 1);
        if digits.len() > 0 && is_ascii_digits(digits) && spec_dec_value(digits) <= u32::MAX {
            Some(spec_dec_value(digits) as u32)
        } else {
            None
        }
    } else {
        None
    }
}

/// Reads the starting frame number from a batch key: the digits after the
/// last `/`. Sentinel keys and foreign keys give `None`.
pub fn parse_frame_no(key: &Vec<u8>) -> (r: Option<u32>)
    ensures
        r == spec_frame_no_of_key(key@),
{
    let n = key.len();
    let slash = match rfind(key, 47) {
        Some(i) => i,
        None => {
            return None;
        },
    };
    proof {
        lemma_rfind_bound(key@, 47);
    }
    let r = parse_u32_dec(key, slash + 1, n);
    proof {
        assert(key@.subrange(slash as int + 1, n as int) =~= key@.skip(slash as int + 1));
    }
    r
}

/// `spec_rfind` returns an index into the string.
pub proof fn lemma_rfind_bound(s: Seq<u8>, c: u8)
    ensures
        -1 <= spec_rfind(s, c) < s.len(),
        spec_rfind(s, c) >= 0 ==> s[spec_rfind(s, c)] == c,
    decreases s.len(),
{
    if s.len() > 0 && s.last() != c {
        lemma_rfind_bound(s.drop_last(), c);
        if spec_rfind(s.drop_last(), c) >= 0 {
            assert(s.drop_last()[spec_rfind(s.drop_last(), c)] == c);
        }
    }
}

/// Reads the generation embedded in a key of the form
/// `db_name ++ "-" ++ generation ++ ...`, given the database name's length.
/// Fails exactly when the key is too short or the 36 characters after the
/// name's hyphen do not have the shape of an identifier's text.
pub fn generation_from_key(key: &Vec<u8>, db_name_len: usize) -> (r: Option<Generation>)
    ensures
        match r {
            Some(g) => db_name_len + 37 <= key@.len() && key@.subrange(
                db_name_len as int + 1,
                db_name_len as int + 37,
            ) == spec_gen_text(g.id@),
            None => key@.len() < db_name_len + 37 || !crate::generation::spec_is_gen_text(
                key@.subrange(db_name_len as int + 1, db_name_len as int + 37),
            ),
        },
{
    let n = key.len();
    if n < 37 || db_name_len > n - 37 {
        return None;
    }
    parse_generation(key, db_name_len + 1)
}

/// Batch keys of one generation sort exactly by their starting frame.
pub proof fn lemma_batch_key_order(db_name: Seq<u8>, gen: Seq<u8>, s1: u32, s2: u32)
    requires
        gen.len() == 16,
        s1 < s2,
    ensures
        lex_lt(spec_batch_key(db_name, gen, s1), spec_batch_key(db_name, gen, s2)),
{
    let p = spec_key_prefix(db_name, gen);
    let k1 = spec_batch_key(db_name, gen, s1);
    let k2 = spec_batch_key(db_name, gen, s2);
    lemma_pow10_12();
    lemma_dec_bytes_order(s1 as int, s2 as int, 12);
    lemma_dec_bytes_len(s1 as int, 12);
    lemma_dec_bytes_len(s2 as int, 12);
    assert(k1.subrange(0, p.len() as int) =~= p);
    assert(k2.subrange(0, p.len() as int) =~= p);
    lemma_lex_skip(k1, k2, p.len() as int);
    assert(k1.skip(p.len() as int) =~= spec_dec_bytes(s1 as int, 12));
    assert(k2.skip(p.len() as int) =~= spec_dec_bytes(s2 as int, 12));
}

/// Ten to the twelfth: the capacity of a 12-digit numeral.
pub proof fn lemma_pow10_12()
    ensures
        pow10(12) == 1000000000000,
{
    assert(pow10(0) == 1);
    assert(pow10(1) == 10);
    assert(pow10(2) == 100);
    assert(pow10(3) == 1000);
    assert(pow10(4) == 10000);
    assert(pow10(5) == 100000);
    assert(pow10(6) == 1000000);
    assert(pow10(7) == 10000000);
    assert(pow10(8) == 100000000);
    assert(pow10(9) == 1000000000);
    assert(pow10(10) == 10000000000);
    assert(pow10(11) == 100000000000);
    assert(pow10(12) == 1000000000000);
}

/// The base name of a path: everything after the last `/`, or the whole
/// path when it has none.
pub open spec fn spec_basename(p: Seq<u8>) -> Seq<u8> {
    p.skip(spec_rfind(p, 47) + 1)
}

/// The name objects of this database carry: an optional database id,
/// then the base name of the database path.
pub fn db_name_of(db_id: &Option<Vec<u8>>, db_path: &Vec<u8>) -> (r: Vec<u8>)
    ensures
        r@ == match db_id {
            Some(id) => id@ + spec_basename(db_path@),
            None => spec_basename(db_path@),
        },
{
    let mut out: Vec<u8> = Vec::new();
    match db_id {
        Some(id) => push_all(&mut out, id),
        None => (),
    }
    let n = db_path.len();
    proof {
        lemma_rfind_bound(db_path@, 47);
    }
    let from = match rfind(db_path, 47) {
        Some(i) => i + 1,
        None => 0,
    };
    push_bytes_range(&mut out, db_path, from, n);
    proof {
        assert(db_path@.subrange(from as int, n as int) =~= spec_basename(db_path@));
    }
    out
}

} // verus!
