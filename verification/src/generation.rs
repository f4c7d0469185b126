//! Generation identifiers: 128-bit, time-ordered, binary-sortable. The
//! embedded timestamp counts backwards from a far-future instant, so that the
//! ascending lexical order an object store lists keys in is exactly reverse
//! chronological order — the newest generation comes first.

use vstd::prelude::*;
use crate::encoding::{
    spec_be_bytes, spec_be_value, pow256, lex_lt, lemma_be_value_bound, lemma_be_bytes_len,
    lemma_be_bytes_order, lemma_lex_concat_lt, lemma_lex_skip,
};

verus! {

/// The far-future second the clock counts back from.
pub const MAX_UNIX_SECONDS: u64 = 253370761200;

/// A generation identifier: 16 bytes laid out as a version-7 UUID whose
/// timestamp field holds the *reversed* wall clock.
#[derive(Clone, Copy, Debug)]
pub struct Generation {
    pub id: [u8; 16],
}

/// The 48-bit reversed-millisecond timestamp embedded in an identifier.
pub open spec fn spec_gen_ms(id: Seq<u8>) -> int {
    spec_be_value(id.subrange(0, 6))
}

/// Version and variant bits of a generated identifier.
pub open spec fn spec_gen_version_ok(id: Seq<u8>) -> bool {
    &&& 0x70 <= id[6] < 0x80
    &&& 0x80 <= id[8] < 0xC0
}

/// Relies on `uuid::Timestamp::now` (backed by the system clock): the wall
/// clock as unix seconds plus a nanosecond fraction below one second.
/// It aborts when the system clock reads before the Unix epoch.
#[verifier::external_body]
fn unix_now() -> (r: (u64, u32))
    ensures
        r.1 < 1_000_000_000,
{
    uuid::Timestamp::now(uuid::NoContext).to_unix()
}

/// Relies on `uuid::Uuid::new_v7`: the first 48 bits of the identifier are
/// the millisecond timestamp `seconds * 1000 + nanos / 1_000_000`, big-endian;
/// the version nibble is 7; the variant bits are `10`. The rest is random.
#[verifier::external_body]
fn uuid_v7_bytes(seconds: u64, nanos: u32) -> (r: [u8; 16])
    requires
        seconds * 1000 + nanos as int / 1_000_000 < 0x1000000000000,
    ensures
        r@.subrange(0, 6) == spec_be_bytes(
            seconds as int * 1000 + nanos as int / 1_000_000,
            6,
        ),
        spec_gen_version_ok(r@),
{
    let ts = uuid::Timestamp::from_unix(uuid::NoContext, seconds, nanos);
    *uuid::Uuid::new_v7(ts).as_bytes()
}

impl Generation {
    /// Wraps raw identifier bytes, as read back from an object key.
    pub fn from_bytes(id: [u8; 16]) -> (g: Generation)
        ensures
            g.id@ == id@,
    {
        Generation { id }
    }

    /// The identifier's bytes.
    pub fn to_bytes(&self) -> (r: [u8; 16])
        ensures
            r@ == self.id@,
    {
        self.id
    }

    /// The reversed-millisecond timestamp this identifier embeds.
    pub fn timestamp_ms(&self) -> (r: u64)
        ensures
            r as int == spec_gen_ms(self.id@),
    {
        let hi = crate::encoding::read_u32_be_arr(&self.id, 0);
        let lo0 = self.id[4];
        let lo1 = self.id[5];
        proof {
            let s = self.id@.subrange(0, 6);
            crate::encoding::lemma_be_value_concat(s.subrange(0, 4), s.subrange(4, 6));
            lemma_be_value_bound(s.subrange(0, 4));
            assert(s.subrange(0, 4) + s.subrange(4, 6) =~= s);
            assert(s.subrange(0, 4) =~= self.id@.subrange(0, 4));
            assert(s.subrange(4, 6) =~= self.id@.subrange(4, 6));
            assert(pow256(2) == 0x10000) by {
                assert(pow256(0) == 1);
                assert(pow256(1) == 256);
            }
            assert(self.id@.subrange(4, 6).drop_last() =~= self.id@.subrange(4, 5));
            assert(self.id@.subrange(4, 5).drop_last() =~= Seq::<u8>::empty());
            assert(spec_be_value(Seq::<u8>::empty()) == 0);
            assert(spec_be_value(self.id@.subrange(4, 5)) == lo0);
            assert(spec_be_value(self.id@.subrange(4, 6)) == lo0 * 256 + lo1);
        }
        (hi as u64) * 0x10000 + (lo0 as u64) * 0x100 + (lo1 as u64)
    }
}

/// The reversed timestamp a clock reading of `s` seconds and `n` nanoseconds
/// embeds: the milliseconds left until the far-future instant.
pub open spec fn spec_reversed_ms(s: u64, n: u32) -> int {
    (MAX_UNIX_SECONDS - s) * 1000 + (999_999_999 - n) as int / 1_000_000
}

/// A fresh generation identifier from the system clock: a version-7 UUID
/// whose timestamp field holds the reversed clock — the milliseconds left
/// until the far-future instant for some clock reading — so later readings
/// give lexically smaller identifiers.
pub fn generate_generation() -> (g: Generation)
    ensures
        spec_gen_version_ok(g.id@),
        spec_gen_ms(g.id@) <= MAX_UNIX_SECONDS * 1000 + 999,
        exists|s: u64, n: u32|
            n < 1_000_000_000 && s <= MAX_UNIX_SECONDS && spec_gen_ms(g.id@)
                == #[trigger] spec_reversed_ms(s, n),
{
    let (seconds, nanos) = unix_now();
    let rev_seconds: u64 = if seconds >= MAX_UNIX_SECONDS {
        0
    } else {
        MAX_UNIX_SECONDS - seconds
    };
    let rev_nanos: u32 = 999_999_999 - nanos;
    let id = uuid_v7_bytes(rev_seconds, rev_nanos);
    proof {
        let ms = rev_seconds as int * 1000 + rev_nanos as int / 1_000_000;
        lemma_pow256_6();
        lemma_be_bytes_len(ms, 6);
        crate::encoding::lemma_be_value_of_bytes(ms, 6);
        assert(id@.subrange(0, 6) == spec_be_bytes(ms, 6));
        let w_s: u64 = if seconds >= MAX_UNIX_SECONDS {
            MAX_UNIX_SECONDS
        } else {
            seconds
        };
        assert(rev_seconds == MAX_UNIX_SECONDS - w_s);
        assert(spec_gen_ms(id@) == spec_reversed_ms(w_s, nanos));
    }
    Generation { id }
}

/// 256 to the sixth: the bound of a 48-bit field.
pub proof fn lemma_pow256_6()
    ensures
        pow256(6) == 0x1000000000000,
{
    assert(pow256(0) == 1);
    assert(pow256(1) == 256);
    assert(pow256(2) == 0x10000);
    assert(pow256(3) == 0x1000000);
    assert(pow256(4) == 0x100000000);
    assert(pow256(5) == 0x10000000000);
    assert(pow256(6) == 0x1000000000000);
}

/// The lowercase hex digit for a value below 16.
pub open spec fn spec_hex_digit(d: int) -> u8 {
    if d < 10 {
        (48 + d) as u8
    } else {
        (87 + d) as u8
    }
}

/// The two lowercase hex digits of one byte.
pub open spec fn spec_hex_byte(b: u8) -> Seq<u8> {
    seq![spec_hex_digit(b as int / 16), spec_hex_digit(b as int % 16)]
}

/// The lowercase hex digits of a byte string.
pub open spec fn spec_hex_bytes(s: Seq<u8>) -> Seq<u8>
    decreases s.len(),
{
    if s.len() == 0 {
        Seq::empty()
    } else {
        spec_hex_byte(s[0]) + spec_hex_bytes(s.skip(1))
    }
}

/// `true` for a lowercase hex digit character.
pub open spec fn spec_is_lower_hex(c: u8) -> bool {
    (48 <= c <= 57) || (97 <= c <= 102)
}

/// The canonical text of an identifier: five hyphen-separated hex groups of
/// 4, 2, 2, 2 and 6 bytes.
pub open spec fn spec_gen_text(id: Seq<u8>) -> Seq<u8> {
    spec_hex_bytes(id.subrange(0, 4)) + seq![45u8] + spec_hex_bytes(id.subrange(4, 6))
        + seq![45u8] + spec_hex_bytes(id.subrange(6, 8)) + seq![45u8] + spec_hex_bytes(
        id.subrange(8, 10),
    ) + seq![45u8] + spec_hex_bytes(id.subrange(10, 16))
}

/// `true` when `s` is the text form of some identifier: 36 characters,
/// hyphens at the group boundaries, lowercase hex digits everywhere else.
pub open spec fn spec_is_gen_text(s: Seq<u8>) -> bool {
    &&& s.len() == 36
    &&& forall|j: int|
        0 <= j < 36 ==> if j == 8 || j == 13 || j == 18 || j == 23 {
            #[trigger] s[j] == 45
        } else {
            spec_is_lower_hex(s[j])
        }
}

/// Appending a byte appends its two hex digits.
proof fn lemma_hex_bytes_snoc(s: Seq<u8>, b: u8)
    ensures
        spec_hex_bytes(s.push(b)) == spec_hex_bytes(s) + spec_hex_byte(b),
    decreases s.len(),
{
    if s.len() == 0 {
        assert(s.push(b).skip(1) =~= Seq::<u8>::empty());
        assert(s.push(b)[0] == b);
        assert(spec_hex_bytes(Seq::<u8>::empty()) =~= Seq::<u8>::empty());
        assert(spec_hex_bytes(s.push(b)) =~= spec_hex_bytes(s) + spec_hex_byte(b));
    } else {
        assert(s.push(b)[0] == s[0]);
        assert(s.push(b).skip(1) =~= s.skip(1).push(b));
        lemma_hex_bytes_snoc(s.skip(1), b);
        assert(spec_hex_byte(s[0]) + (spec_hex_bytes(s.skip(1)) + spec_hex_byte(b))
            =~= spec_hex_bytes(s) + spec_hex_byte(b));
    }
}

/// Hex text is twice as long as its bytes.
pub proof fn lemma_hex_bytes_len(s: Seq<u8>)
    ensures
        spec_hex_bytes(s).len() == 2 * s.len(),
    decreases s.len(),
{
    if s.len() > 0 {
        lemma_hex_bytes_len(s.skip(1));
    }
}

/// Every character of hex text is a lowercase hex digit.
proof fn lemma_hex_bytes_digits(s: Seq<u8>)
    ensures
        forall|j: int|
            0 <= j < spec_hex_bytes(s).len() ==> spec_is_lower_hex(#[trigger] spec_hex_bytes(s)[j]),
    decreases s.len(),
{
    if s.len() > 0 {
        lemma_hex_bytes_digits(s.skip(1));
        let h = spec_hex_bytes(s);
        let h0 = spec_hex_byte(s[0]);
        let h1 = spec_hex_bytes(s.skip(1));
        assert(0 <= s[0] as int / 16 < 16 && 0 <= s[0] as int % 16 < 16);
        assert forall|j: int| 0 <= j < h.len() implies spec_is_lower_hex(#[trigger] h[j]) by {
            if j >= 2 {
                assert(h[j] == h1[j - 2]);
            }
        }
    }
}

/// One executable hex digit.
fn hex_digit(d: u8) -> (r: u8)
    requires
        d < 16,
    ensures
        r == spec_hex_digit(d as int),
{
    if d < 10 {
        48 + d
    } else {
        87 + d
    }
}

/// The value of a lowercase hex digit character, or `None` for anything else.
fn hex_val(c: u8) -> (r: Option<u8>)
    ensures
        match r {
            Some(d) => d < 16 && c == spec_hex_digit(d as int) && spec_is_lower_hex(c),
            None => !spec_is_lower_hex(c),
        },
{
    if 48 <= c && c <= 57 {
        Some(c - 48)
    } else if 97 <= c && c <= 102 {
        Some(c - 87)
    } else {
        None
    }
}

/// Appends the hex digits of `id[from .. to]` to `out`.
fn push_hex_group(out: &mut Vec<u8>, id: &[u8; 16], from: usize, to: usize)
    requires
        from <= to <= 16,
    ensures
        final(out)@ == old(out)@ + spec_hex_bytes(id@.subrange(from as int, to as int)),
{
    let mut i: usize = from;
    proof {
        assert(id@.subrange(from as int, from as int) =~= Seq::<u8>::empty());
        assert(out@ =~= old(out)@ + spec_hex_bytes(id@.subrange(from as int, from as int)));
    }
    while i < to
        invariant
            from <= i <= to <= 16,
            out@ == old(out)@ + spec_hex_bytes(id@.subrange(from as int, i as int)),
        decreases to - i,
    {
        let b = id[i];
        out.push(hex_digit(b / 16));
        out.push(hex_digit(b % 16));
        i = i + 1;
        proof {
            let pre = id@.subrange(from as int, i as int - 1);
            let cur = id@.subrange(from as int, i as int);
            assert(cur =~= pre.push(b));
            lemma_hex_bytes_snoc(pre, b);
            assert(out@ =~= old(out)@ + spec_hex_bytes(cur));
        }
    }
}

impl Generation {
    /// The canonical lowercase hyphenated text of the identifier.
    pub fn to_text(&self) -> (r: Vec<u8>)
        ensures
            r@ == spec_gen_text(self.id@),
            r@.len() == 36,
    {
        let mut out: Vec<u8> = Vec::new();
        push_hex_group(&mut out, &self.id, 0, 4);
        out.push(45);
        push_hex_group(&mut out, &self.id, 4, 6);
        out.push(45);
        push_hex_group(&mut out, &self.id, 6, 8);
        out.push(45);
        push_hex_group(&mut out, &self.id, 8, 10);
        out.push(45);
        push_hex_group(&mut out, &self.id, 10, 16);
        proof {
            assert(out@ =~= spec_gen_text(self.id@));
            lemma_hex_bytes_len(self.id@.subrange(0, 4));
            lemma_hex_bytes_len(self.id@.subrange(4, 6));
            lemma_hex_bytes_len(self.id@.subrange(6, 8));
            lemma_hex_bytes_len(self.id@.subrange(8, 10));
            lemma_hex_bytes_len(self.id@.subrange(10, 16));
        }
        out
    }
}

/// Parses `count` bytes of hex text at `v[tpos ..]` into `id[apos ..]`.
/// On success the consumed text is exactly the hex of the written bytes.
fn parse_hex_group(v: &Vec<u8>, tpos: usize, id: &mut [u8; 16], apos: usize, count: usize) -> (r:
    Result<(), usize>)
    requires
        tpos + 2 * count <= v@.len(),
        apos + count <= 16,
    ensures
        forall|k: int|
            0 <= k < 16 && !(apos <= k < apos + count) ==> final(id)@[k] == #[trigger] old(
                id,
            )@[k],
        match r {
            Ok(()) => v@.subrange(tpos as int, tpos as int + 2 * count as int) == spec_hex_bytes(
                final(id)@.subrange(apos as int, apos as int + count as int),
            ),
            Err(j) => tpos <= j < tpos + 2 * count && !spec_is_lower_hex(v@[j as int]),
        },
{
    let n = v.len();
    let mut i: usize = 0;
    proof {
        assert(id@.subrange(apos as int, apos as int) =~= Seq::<u8>::empty());
        assert(v@.subrange(tpos as int, tpos as int) =~= Seq::<u8>::empty());
    }
    while i < count
        invariant
            0 <= i <= count,
            tpos + 2 * count <= n == v@.len(),
            apos + count <= 16,
            forall|k: int|
                0 <= k < 16 && !(apos <= k < apos + count) ==> id@[k] == #[trigger] old(id)@[k],
            v@.subrange(tpos as int, tpos as int + 2 * i as int) == spec_hex_bytes(
                id@.subrange(apos as int, apos as int + i as int),
            ),
        decreases count - i,
    {
        let c1 = v[tpos + 2 * i];
        let c2 = v[tpos + 2 * i + 1];
        let hv = match hex_val(c1) {
            Some(d) => d,
            None => {
                return Err(tpos + 2 * i);
            },
        };
        let lv = match hex_val(c2) {
            Some(d) => d,
            None => {
                return Err(tpos + 2 * i + 1);
            },
        };
        let b: u8 = hv * 16 + lv;
        let ghost pre = id@;
        id[apos + i] = b;
        i = i + 1;
        proof {
            let done = id@.subrange(apos as int, apos as int + i as int);
            let prev = id@.subrange(apos as int, apos as int + i as int - 1);
            assert(prev =~= pre.subrange(apos as int, apos as int + i as int - 1));
            assert(done =~= prev.push(b));
            lemma_hex_bytes_snoc(prev, b);
            vstd::arithmetic::div_mod::lemma_fundamental_div_mod_converse_div(
                b as int,
                16,
                hv as int,
                lv as int,
            );
            vstd::arithmetic::div_mod::lemma_fundamental_div_mod_converse_mod(
                b as int,
                16,
                hv as int,
                lv as int,
            );
            assert(spec_hex_byte(b) =~= seq![c1, c2]);
            assert(v@.subrange(tpos as int, tpos as int + 2 * i as int) =~= v@.subrange(
                tpos as int,
                tpos as int + 2 * i as int - 2,
            ) + seq![c1, c2]);
        }
    }
    Ok(())
}

/// Parses the 36-character text form at `v[from ..]`. Succeeds exactly when
/// those characters have the shape of an identifier's text, and then returns
/// the identifier whose text they are.
pub fn parse_generation(v: &Vec<u8>, from: usize) -> (r: Option<Generation>)
    requires
        from + 36 <= v@.len(),
    ensures
        match r {
            Some(g) => v@.subrange(from as int, from as int + 36) == spec_gen_text(g.id@)
                && spec_is_gen_text(v@.subrange(from as int, from as int + 36)),
            None => !spec_is_gen_text(v@.subrange(from as int, from as int + 36)),
        },
{
    let ghost sub = v@.subrange(from as int, from as int + 36);
    let n = v.len();
    if v[from + 8] != 45 || v[from + 13] != 45 || v[from + 18] != 45 || v[from + 23] != 45 {
        proof {
            assert(sub[8] == v@[from as int + 8]);
            assert(sub[13] == v@[from as int + 13]);
            assert(sub[18] == v@[from as int + 18]);
            assert(sub[23] == v@[from as int + 23]);
        }
        return None;
    }
    let mut id: [u8; 16] = [0u8; 16];
    if let Err(j) = parse_hex_group(v, from, &mut id, 0, 4) {
        proof {
            lemma_bad_digit_rejects(v@, from as int, j as int);
        }
        return None;
    }
    let ghost id_a = id@;
    if let Err(j) = parse_hex_group(v, from + 9, &mut id, 4, 2) {
        proof {
            lemma_bad_digit_rejects(v@, from as int, j as int);
        }
        return None;
    }
    let ghost id_b = id@;
    if let Err(j) = parse_hex_group(v, from + 14, &mut id, 6, 2) {
        proof {
            lemma_bad_digit_rejects(v@, from as int, j as int);
        }
        return None;
    }
    let ghost id_c = id@;
    if let Err(j) = parse_hex_group(v, from + 19, &mut id, 8, 2) {
        proof {
            lemma_bad_digit_rejects(v@, from as int, j as int);
        }
        return None;
    }
    let ghost id_d = id@;
    if let Err(j) = parse_hex_group(v, from + 24, &mut id, 10, 6) {
        proof {
            lemma_bad_digit_rejects(v@, from as int, j as int);
        }
        return None;
    }
    let g = Generation { id };
    proof {
        let t = spec_gen_text(id@);
        assert(id@.subrange(0, 4) =~= id_a.subrange(0, 4));
        assert(id@.subrange(4, 6) =~= id_b.subrange(4, 6));
        assert(id@.subrange(6, 8) =~= id_c.subrange(6, 8));
        assert(id@.subrange(8, 10) =~= id_d.subrange(8, 10));
        let h1 = spec_hex_bytes(id@.subrange(0, 4));
        let h2 = spec_hex_bytes(id@.subrange(4, 6));
        let h3 = spec_hex_bytes(id@.subrange(6, 8));
        let h4 = spec_hex_bytes(id@.subrange(8, 10));
        let h5 = spec_hex_bytes(id@.subrange(10, 16));
        lemma_hex_bytes_len(id@.subrange(0, 4));
        lemma_hex_bytes_len(id@.subrange(4, 6));
        lemma_hex_bytes_len(id@.subrange(6, 8));
        lemma_hex_bytes_len(id@.subrange(8, 10));
        lemma_hex_bytes_len(id@.subrange(10, 16));
        assert forall|j: int| 0 <= j < 36 implies sub[j] == #[trigger] t[j] by {
            assert(sub[j] == v@[from + j]);
            if j < 8 {
                assert(t[j] == h1[j]);
                assert(v@.subrange(from as int, from as int + 8)[j] == v@[from + j]);
            } else if j == 8 {
                assert(t[j] == 45);
            } else if j < 13 {
                assert(t[j] == h2[j - 9]);
                assert(v@.subrange(from as int + 9, from as int + 13)[j - 9] == v@[from + j]);
            } else if j == 13 {
                assert(t[j] == 45);
            } else if j < 18 {
                assert(t[j] == h3[j - 14]);
                assert(v@.subrange(from as int + 14, from as int + 18)[j - 14] == v@[from + j]);
            } else if j == 18 {
                assert(t[j] == 45);
            } else if j < 23 {
                assert(t[j] == h4[j - 19]);
                assert(v@.subrange(from as int + 19, from as int + 23)[j - 19] == v@[from + j]);
            } else if j == 23 {
                assert(t[j] == 45);
            } else {
                assert(t[j] == h5[j - 24]);
                assert(v@.subrange(from as int + 24, from as int + 36)[j - 24] == v@[from + j]);
            }
        }
        assert(sub =~= t);
        lemma_gen_text_shape(id@);
    }
    Some(g)
}

/// A non-hex character at a digit position refutes the text shape.
proof fn lemma_bad_digit_rejects(v: Seq<u8>, from: int, j: int)
    requires
        0 <= from,
        from <= j < from + 36,
        !(j - from == 8 || j - from == 13 || j - from == 18 || j - from == 23),
        from + 36 <= v.len(),
        !spec_is_lower_hex(v[j]),
    ensures
        !spec_is_gen_text(v.subrange(from, from + 36)),
{
    let sub = v.subrange(from, from + 36);
    assert(sub[j - from] == v[j]);
}

/// The text of any identifier has the identifier-text shape.
pub proof fn lemma_gen_text_shape(id: Seq<u8>)
    requires
        id.len() == 16,
    ensures
        spec_is_gen_text(spec_gen_text(id)),
{
    let t = spec_gen_text(id);
    lemma_hex_bytes_len(id.subrange(0, 4));
    lemma_hex_bytes_len(id.subrange(4, 6));
    lemma_hex_bytes_len(id.subrange(6, 8));
    lemma_hex_bytes_len(id.subrange(8, 10));
    lemma_hex_bytes_len(id.subrange(10, 16));
    lemma_hex_bytes_digits(id.subrange(0, 4));
    lemma_hex_bytes_digits(id.subrange(4, 6));
    lemma_hex_bytes_digits(id.subrange(6, 8));
    lemma_hex_bytes_digits(id.subrange(8, 10));
    lemma_hex_bytes_digits(id.subrange(10, 16));
    assert forall|j: int| 0 <= j < 36 implies (if j == 8 || j == 13 || j == 18 || j == 23 {
        #[trigger] t[j] == 45
    } else {
        spec_is_lower_hex(t[j])
    }) by {
        if j < 8 {
            assert(t[j] == spec_hex_bytes(id.subrange(0, 4))[j]);
        } else if j == 8 {
        } else if j < 13 {
            assert(t[j] == spec_hex_bytes(id.subrange(4, 6))[j - 9]);
        } else if j == 13 {
        } else if j < 18 {
            assert(t[j] == spec_hex_bytes(id.subrange(6, 8))[j - 14]);
        } else if j == 18 {
        } else if j < 23 {
            assert(t[j] == spec_hex_bytes(id.subrange(8, 10))[j - 19]);
        } else if j == 23 {
        } else {
            assert(t[j] == spec_hex_bytes(id.subrange(10, 16))[j - 24]);
        }
    }
}

/// Hex text compares exactly as the bytes it encodes.
pub proof fn lemma_hex_lex(s: Seq<u8>, t: Seq<u8>)
    requires
        s.len() == t.len(),
    ensures
        lex_lt(spec_hex_bytes(s), spec_hex_bytes(t)) == lex_lt(s, t),
        (spec_hex_bytes(s) == spec_hex_bytes(t)) == (s == t),
    decreases s.len(),
{
    lemma_hex_bytes_len(s);
    lemma_hex_bytes_len(t);
    if s.len() == 0 {
        assert(s =~= t);
        assert(spec_hex_bytes(s) =~= spec_hex_bytes(t));
        crate::encoding::lemma_lex_irrefl(s);
        crate::encoding::lemma_lex_irrefl(spec_hex_bytes(s));
    } else {
        let s1 = s.skip(1);
        let t1 = t.skip(1);
        let hs = spec_hex_bytes(s);
        let ht = spec_hex_bytes(t);
        let hbs = spec_hex_byte(s[0]);
        let hbt = spec_hex_byte(t[0]);
        lemma_hex_lex(s1, t1);
        lemma_hex_bytes_len(s1);
        lemma_hex_bytes_len(t1);
        crate::encoding::lemma_lex_pair(hbs[0], hbs[1], hbt[0], hbt[1]);
        assert(hbs =~= seq![hbs[0], hbs[1]]);
        assert(hbt =~= seq![hbt[0], hbt[1]]);
        assert(lex_lt(hbs, hbt) == (s[0] < t[0]) && ((hbs == hbt) == (s[0] == t[0]))) by {
            lemma_hex_byte_order(s[0], t[0]);
        }
        crate::encoding::lemma_lex_concat_split(hbs, hbt, spec_hex_bytes(s1), spec_hex_bytes(t1));
        assert(lex_lt(s, t) == (s[0] < t[0] || (s[0] == t[0] && lex_lt(s1, t1)))) by {
            if s[0] == t[0] {
                assert(s.subrange(0, 1) =~= t.subrange(0, 1));
                crate::encoding::lemma_lex_skip(s, t, 1);
            }
        }
        assert((s == t) == (s[0] == t[0] && s1 == t1)) by {
            if s[0] == t[0] && s1 == t1 {
                crate::encoding::lemma_seq_head_tail_eq(s, t);
            }
        }
        assert(hbs =~= hs.subrange(0, 2));
        assert(hbt =~= ht.subrange(0, 2));
        assert(spec_hex_bytes(s1) =~= hs.skip(2));
        assert(spec_hex_bytes(t1) =~= ht.skip(2));
    }
}

/// The two hex digits of a byte compare as the byte does.
proof fn lemma_hex_byte_order(x: u8, y: u8)
    ensures
        lex_lt(spec_hex_byte(x), spec_hex_byte(y)) == (x < y),
        (spec_hex_byte(x) == spec_hex_byte(y)) == (x == y),
{
    let hx = spec_hex_byte(x);
    let hy = spec_hex_byte(y);
    crate::encoding::lemma_lex_pair(hx[0], hx[1], hy[0], hy[1]);
    assert(hx =~= seq![hx[0], hx[1]]);
    assert(hy =~= seq![hy[0], hy[1]]);
    assert(0 <= x as int / 16 < 16 && 0 <= x as int % 16 < 16);
    assert(0 <= y as int / 16 < 16 && 0 <= y as int % 16 < 16);
    assert((x < y) == (x as int / 16 < y as int / 16 || (x as int / 16 == y as int / 16 && x as int
        % 16 < y as int % 16)));
    if hx == hy {
        assert(hx[0] == hy[0] && hx[1] == hy[1]);
    }
}

/// A smaller embedded timestamp also sorts the *text* of the identifier
/// lexically earlier, hyphens included.
pub proof fn lemma_generation_sort_text(a: Seq<u8>, b: Seq<u8>)
    requires
        a.len() == 16,
        b.len() == 16,
        spec_gen_ms(a) < spec_gen_ms(b),
    ensures
        lex_lt(spec_gen_text(a), spec_gen_text(b)),
{
    let a1 = a.subrange(0, 4);
    let b1 = b.subrange(0, 4);
    let a2 = a.subrange(4, 6);
    let b2 = b.subrange(4, 6);
    let pa = a.subrange(0, 6);
    let pb = b.subrange(0, 6);
    lemma_be_value_bound(pa);
    lemma_be_value_bound(pb);
    lemma_be_bytes_of_value(pa);
    lemma_be_bytes_of_value(pb);
    lemma_be_bytes_order(spec_be_value(pa), spec_be_value(pb), 6);
    assert(pa =~= a1 + a2);
    assert(pb =~= b1 + b2);
    crate::encoding::lemma_lex_concat_split(a1, b1, a2, b2);
    let ta = spec_gen_text(a);
    let tb = spec_gen_text(b);
    lemma_hex_bytes_len(a1);
    lemma_hex_bytes_len(b1);
    lemma_hex_bytes_len(a2);
    lemma_hex_bytes_len(b2);
    lemma_hex_bytes_len(a.subrange(6, 8));
    lemma_hex_bytes_len(b.subrange(6, 8));
    lemma_hex_bytes_len(a.subrange(8, 10));
    lemma_hex_bytes_len(b.subrange(8, 10));
    lemma_hex_bytes_len(a.subrange(10, 16));
    lemma_hex_bytes_len(b.subrange(10, 16));
    let resta = seq![45u8] + spec_hex_bytes(a2) + seq![45u8] + spec_hex_bytes(a.subrange(6, 8))
        + seq![45u8] + spec_hex_bytes(a.subrange(8, 10)) + seq![45u8] + spec_hex_bytes(
        a.subrange(10, 16),
    );
    let restb = seq![45u8] + spec_hex_bytes(b2) + seq![45u8] + spec_hex_bytes(b.subrange(6, 8))
        + seq![45u8] + spec_hex_bytes(b.subrange(8, 10)) + seq![45u8] + spec_hex_bytes(
        b.subrange(10, 16),
    );
    assert(ta =~= spec_hex_bytes(a1) + resta);
    assert(tb =~= spec_hex_bytes(b1) + restb);
    if lex_lt(a1, b1) {
        lemma_hex_lex(a1, b1);
        lemma_lex_concat_lt(spec_hex_bytes(a1), spec_hex_bytes(b1), resta, restb);
    } else {
        assert(a1 == b1 && lex_lt(a2, b2));
        lemma_hex_lex(a2, b2);
        let ha2 = spec_hex_bytes(a2);
        let hb2 = spec_hex_bytes(b2);
        let tail_a = seq![45u8] + spec_hex_bytes(a.subrange(6, 8)) + seq![45u8] + spec_hex_bytes(
            a.subrange(8, 10),
        ) + seq![45u8] + spec_hex_bytes(a.subrange(10, 16));
        let tail_b = seq![45u8] + spec_hex_bytes(b.subrange(6, 8)) + seq![45u8] + spec_hex_bytes(
            b.subrange(8, 10),
        ) + seq![45u8] + spec_hex_bytes(b.subrange(10, 16));
        let head = spec_hex_bytes(a1) + seq![45u8];
        assert(ta =~= head + (ha2 + tail_a));
        assert(tb =~= head + (hb2 + tail_b));
        lemma_lex_concat_lt(ha2, hb2, tail_a, tail_b);
        assert(ta.subrange(0, 9) =~= head);
        assert(tb.subrange(0, 9) =~= head);
        crate::encoding::lemma_lex_skip(ta, tb, 9);
        assert(ta.skip(9) =~= ha2 + tail_a);
        assert(tb.skip(9) =~= hb2 + tail_b);
    }
}

/// Two identifiers with one text are one identifier.
pub proof fn lemma_gen_text_injective(a: Seq<u8>, b: Seq<u8>)
    requires
        a.len() == 16,
        b.len() == 16,
        spec_gen_text(a) == spec_gen_text(b),
    ensures
        a == b,
{
    let ta = spec_gen_text(a);
    let tb = spec_gen_text(b);
    lemma_hex_bytes_len(a.subrange(0, 4));
    lemma_hex_bytes_len(a.subrange(4, 6));
    lemma_hex_bytes_len(a.subrange(6, 8));
    lemma_hex_bytes_len(a.subrange(8, 10));
    lemma_hex_bytes_len(a.subrange(10, 16));
    lemma_hex_bytes_len(b.subrange(0, 4));
    lemma_hex_bytes_len(b.subrange(4, 6));
    lemma_hex_bytes_len(b.subrange(6, 8));
    lemma_hex_bytes_len(b.subrange(8, 10));
    lemma_hex_bytes_len(b.subrange(10, 16));
    assert(spec_hex_bytes(a.subrange(0, 4)) =~= ta.subrange(0, 8));
    assert(spec_hex_bytes(a.subrange(4, 6)) =~= ta.subrange(9, 13));
    assert(spec_hex_bytes(a.subrange(6, 8)) =~= ta.subrange(14, 18));
    assert(spec_hex_bytes(a.subrange(8, 10)) =~= ta.subrange(19, 23));
    assert(spec_hex_bytes(a.subrange(10, 16)) =~= ta.subrange(24, 36));
    assert(spec_hex_bytes(b.subrange(0, 4)) =~= tb.subrange(0, 8));
    assert(spec_hex_bytes(b.subrange(4, 6)) =~= tb.subrange(9, 13));
    assert(spec_hex_bytes(b.subrange(6, 8)) =~= tb.subrange(14, 18));
    assert(spec_hex_bytes(b.subrange(8, 10)) =~= tb.subrange(19, 23));
    assert(spec_hex_bytes(b.subrange(10, 16)) =~= tb.subrange(24, 36));
    lemma_hex_lex(a.subrange(0, 4), b.subrange(0, 4));
    lemma_hex_lex(a.subrange(4, 6), b.subrange(4, 6));
    lemma_hex_lex(a.subrange(6, 8), b.subrange(6, 8));
    lemma_hex_lex(a.subrange(8, 10), b.subrange(8, 10));
    lemma_hex_lex(a.subrange(10, 16), b.subrange(10, 16));
    assert forall|i: int| 0 <= i < 16 implies #[trigger] a[i] == b[i] by {
        if i < 4 {
            assert(a.subrange(0, 4)[i] == b.subrange(0, 4)[i]);
        } else if i < 6 {
            assert(a.subrange(4, 6)[i - 4] == b.subrange(4, 6)[i - 4]);
        } else if i < 8 {
            assert(a.subrange(6, 8)[i - 6] == b.subrange(6, 8)[i - 6]);
        } else if i < 10 {
            assert(a.subrange(8, 10)[i - 8] == b.subrange(8, 10)[i - 8]);
        } else {
            assert(a.subrange(10, 16)[i - 10] == b.subrange(10, 16)[i - 10]);
        }
    }
    assert(a =~= b);
}

/// A smaller embedded timestamp sorts the whole identifier lexically earlier.
/// Since generations embed the *reversed* clock, the newer generation is the
/// one with the smaller timestamp: ascending lexical order over identifiers
/// is reverse chronological order.
pub proof fn lemma_generation_sort(a: Seq<u8>, b: Seq<u8>)
    requires
        a.len() == 16,
        b.len() == 16,
        spec_gen_ms(a) < spec_gen_ms(b),
    ensures
        lex_lt(a, b),
{
    let pa = a.subrange(0, 6);
    let pb = b.subrange(0, 6);
    lemma_be_value_bound(pa);
    lemma_be_value_bound(pb);
    lemma_be_bytes_of_value(pa);
    lemma_be_bytes_of_value(pb);
    lemma_be_bytes_order(spec_be_value(pa), spec_be_value(pb), 6);
    lemma_lex_concat_lt(pa, pb, a.skip(6), b.skip(6));
    assert(pa + a.skip(6) =~= a);
    assert(pb + b.skip(6) =~= b);
}

/// Decoding a big-endian byte string and re-encoding it at the same width
/// gives the bytes back.
pub proof fn lemma_be_bytes_of_value(s: Seq<u8>)
    ensures
        spec_be_bytes(spec_be_value(s), s.len()) == s,
    decreases s.len(),
{
    if s.len() > 0 {
        let s0 = s.drop_last();
        lemma_be_value_bound(s0);
        let v = spec_be_value(s);
        vstd::arithmetic::div_mod::lemma_fundamental_div_mod_converse_mod(
            v,
            256,
            spec_be_value(s0),
            s.last() as int,
        );
        vstd::arithmetic::div_mod::lemma_fundamental_div_mod_converse_div(
            v,
            256,
            spec_be_value(s0),
            s.last() as int,
        );
        lemma_be_bytes_of_value(s0);
        assert(spec_be_bytes(v, s.len()) =~= s);
    } else {
        assert(spec_be_bytes(spec_be_value(s), 0) =~= s);
    }
}

} // verus!
