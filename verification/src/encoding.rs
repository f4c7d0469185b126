//! Byte-level encodings shared by the WAL codec, the sentinel objects and the
//! object keys: big-endian integers, fixed-width decimal numerals, and the
//! lexicographic order on byte strings that the object store lists keys in.

use vstd::prelude::*;

verus! {

/// Big-endian bytes of `x`, `n` bytes wide (the low `8 * n` bits of `x`).
pub open spec fn spec_be_bytes(x: int, n: nat) -> Seq<u8>
    decreases n,
{
    if n == 0 {
        Seq::empty()
    } else {
        spec_be_bytes(x / 256, (n - 1) as nat).push((x % 256) as u8)
    }
}

/// The integer a big-endian byte string stands for.
pub open spec fn spec_be_value(s: Seq<u8>) -> int
    decreases s.len(),
{
    if s.len() == 0 {
        0
    } else {
        spec_be_value(s.drop_last()) * 256 + s.last()
    }
}

pub proof fn lemma_be_bytes_len(x: int, n: nat)
    ensures
        spec_be_bytes(x, n).len() == n,
    decreases n,
{
    if n > 0 {
        lemma_be_bytes_len(x / 256, (n - 1) as nat);
    }
}

/// Encoding then decoding yields the value back, for values in range.
pub proof fn lemma_be_value_of_bytes(x: int, n: nat)
    requires
        0 <= x < pow256(n),
    ensures
        spec_be_value(spec_be_bytes(x, n)) == x,
    decreases n,
{
    if n > 0 {
        lemma_be_bytes_len(x / 256, (n - 1) as nat);
        assert(spec_be_bytes(x, n).drop_last() =~= spec_be_bytes(x / 256, (n - 1) as nat));
        assert(x / 256 < pow256((n - 1) as nat)) by {
            lemma_pow256_unfold(n);
        }
        lemma_be_value_of_bytes(x / 256, (n - 1) as nat);
    }
}

/// 256 to the power `n`.
pub open spec fn pow256(n: nat) -> int
    decreases n,
{
    if n == 0 {
        1
    } else {
        256 * pow256((n - 1) as nat)
    }
}

proof fn lemma_pow256_unfold(n: nat)
    requires
        n > 0,
    ensures
        pow256(n) == 256 * pow256((n - 1) as nat),
        pow256((n - 1) as nat) >= 1,
    decreases n,
{
    if n > 1 {
        lemma_pow256_unfold((n - 1) as nat);
    }
}

/// Appends the 4 big-endian bytes of `x` to `out`.
pub fn push_u32_be(out: &mut Vec<u8>, x: u32)
    ensures
        final(out)@ == old(out)@ + spec_be_bytes(x as int, 4),
{
    proof {
        lemma_be_bytes_len(x as int, 4);
    }
    out.push((x / 0x1000000) as u8);
    out.push((x / 0x10000 % 0x100) as u8);
    out.push((x / 0x100 % 0x100) as u8);
    out.push((x % 0x100) as u8);
    proof {
        assert(out@ =~= old(out)@ + spec_be_bytes(x as int, 4)) by {
            lemma_be4_unfold(x);
        }
    }
}

proof fn lemma_be4_unfold(x: u32)
    ensures
        spec_be_bytes(x as int, 4) =~= seq![
            (x as int / 0x1000000 % 0x100) as u8,
            (x as int / 0x10000 % 0x100) as u8,
            (x as int / 0x100 % 0x100) as u8,
            (x as int % 0x100) as u8,
        ],
        x as int / 0x1000000 % 0x100 == x as int / 0x1000000,
{
    let v = x as int;
    assert(v / 256 / 256 == v / 0x10000 && v / 0x10000 / 256 == v / 0x1000000 && v / 0x1000000 / 256
        == 0 && 0 <= v / 0x1000000 < 0x100 && 0 <= v / 0x10000 && 0 <= v / 256) by (nonlinear_arith)
        requires
            0 <= v < 0x100000000,
    ;
    let a = v / 256;
    let b = v / 0x10000;
    let c = v / 0x1000000;
    assert(spec_be_bytes(v, 4) == spec_be_bytes(a, 3).push((v % 256) as u8));
    assert(spec_be_bytes(a, 3) == spec_be_bytes(b, 2).push((a % 256) as u8));
    assert(spec_be_bytes(b, 2) == spec_be_bytes(c, 1).push((b % 256) as u8));
    assert(spec_be_bytes(c, 1) == spec_be_bytes(0, 0).push((c % 256) as u8));
    assert(c % 256 == c);
}

/// The 4 big-endian bytes of `x` as a fresh vector.
pub fn u32_to_be_bytes(x: u32) -> (r: Vec<u8>)
    ensures
        r@ == spec_be_bytes(x as int, 4),
{
    let mut out: Vec<u8> = Vec::new();
    push_u32_be(&mut out, x);
    out
}

/// The low `8 * n` bytes of `x` split at `n`: high bytes first, low bytes last.
pub proof fn lemma_be_bytes_concat(x: int, m: nat, n: nat)
    requires
        x >= 0,
    ensures
        spec_be_bytes(x, (m + n) as nat) == spec_be_bytes(x / pow256(n), m) + spec_be_bytes(x, n),
    decreases n,
{
    if n == 0 {
        assert(spec_be_bytes(x, m) + spec_be_bytes(x, 0) =~= spec_be_bytes(x, m));
    } else {
        lemma_pow256_unfold(n);
        assert(x / 256 >= 0 && x / 256 / pow256((n - 1) as nat) == x / pow256(n))
            by (nonlinear_arith)
            requires
                x >= 0,
                pow256(n) == 256 * pow256((n - 1) as nat),
                pow256((n - 1) as nat) >= 1,
        ;
        lemma_be_bytes_concat(x / 256, m, (n - 1) as nat);
        assert((spec_be_bytes(x / pow256(n), m) + spec_be_bytes(x / 256, (n - 1) as nat)).push(
            (x % 256) as u8,
        ) =~= spec_be_bytes(x / pow256(n), m) + spec_be_bytes(x, n));
    }
}

/// Appends the 8 big-endian bytes of `x` to `out`.
pub fn push_u64_be(out: &mut Vec<u8>, x: u64)
    ensures
        final(out)@ == old(out)@ + spec_be_bytes(x as int, 8),
{
    let hi: u32 = (x / 0x100000000) as u32;
    let lo: u32 = (x % 0x100000000) as u32;
    push_u32_be(out, hi);
    push_u32_be(out, lo);
    proof {
        lemma_be_bytes_concat(x as int, 4, 4);
        lemma_pow256_4();
        lemma_be_low_bytes(x as int, lo as int, 4);
        assert(final(out)@ =~= old(out)@ + spec_be_bytes(x as int, 8));
    }
}

/// The low `n` bytes of an encoding ignore everything above `pow256(n)`.
proof fn lemma_be_low_bytes(x: int, y: int, n: nat)
    requires
        x >= 0,
        y == x % pow256(n),
    ensures
        spec_be_bytes(x, n) == spec_be_bytes(y, n),
    decreases n,
{
    if n > 0 {
        let p = pow256((n - 1) as nat);
        lemma_pow256_unfold(n);
        vstd::arithmetic::div_mod::lemma_breakdown(x, 256, p);
        let a = (x / 256) % p;
        vstd::arithmetic::div_mod::lemma_div_pos_is_pos(x, 256);
        vstd::arithmetic::div_mod::lemma_mod_division_less_than_divisor(x / 256, p);
        vstd::arithmetic::div_mod::lemma_mod_division_less_than_divisor(x, 256);
        assert(y == 256 * a + x % 256);
        assert(y == a * 256 + x % 256) by {
            vstd::arithmetic::mul::lemma_mul_is_commutative(256, a);
        }
        vstd::arithmetic::div_mod::lemma_fundamental_div_mod_converse_mod(y, 256, a, x % 256);
        vstd::arithmetic::div_mod::lemma_fundamental_div_mod_converse_div(y, 256, a, x % 256);
        lemma_be_low_bytes(x / 256, y / 256, (n - 1) as nat);
    }
}

proof fn lemma_pow256_4()
    ensures
        pow256(4) == 0x100000000,
{
    assert(pow256(0) == 1);
    assert(pow256(1) == 256);
    assert(pow256(2) == 0x10000);
    assert(pow256(3) == 0x1000000);
    assert(pow256(4) == 0x100000000);
}

/// Reads 4 bytes of `v` at `off` as a big-endian integer.
pub fn read_u32_be(v: &Vec<u8>, off: usize) -> (r: u32)
    requires
        off + 4 <= v@.len(),
    ensures
        r as int == spec_be_value(v@.subrange(off as int, off as int + 4)),
{
    let n = v.len();
    assert(off + 4 <= n);
    let b0 = v[off] as u32;
    let b1 = v[off + 1] as u32;
    let b2 = v[off + 2] as u32;
    let b3 = v[off + 3] as u32;
    let r = b0 * 0x1000000 + b1 * 0x10000 + b2 * 0x100 + b3;
    proof {
        lemma_be_value4(v@.subrange(off as int, off as int + 4));
    }
    r
}

proof fn lemma_be_value4(s: Seq<u8>)
    requires
        s.len() == 4,
    ensures
        spec_be_value(s) == ((s[0] * 0x100 + s[1]) * 0x100 + s[2]) * 0x100 + s[3],
{
    let s3 = s.drop_last();
    let s2 = s3.drop_last();
    let s1 = s2.drop_last();
    let s0 = s1.drop_last();
    assert(s0 =~= Seq::<u8>::empty());
    assert(spec_be_value(s0) == 0);
    assert(spec_be_value(s1) == s[0]);
    assert(spec_be_value(s2) == s[0] * 0x100 + s[1]);
    assert(spec_be_value(s3) == (s[0] * 0x100 + s[1]) * 0x100 + s[2]);
}

/// Reads 4 bytes of the array `v` at `off` as a big-endian integer.
pub fn read_u32_be_arr<const N: usize>(v: &[u8; N], off: usize) -> (r: u32)
    requires
        off + 4 <= N,
    ensures
        r as int == spec_be_value(v@.subrange(off as int, off as int + 4)),
{
    let b0 = v[off] as u32;
    let b1 = v[off + 1] as u32;
    let b2 = v[off + 2] as u32;
    let b3 = v[off + 3] as u32;
    let r = b0 * 0x1000000 + b1 * 0x10000 + b2 * 0x100 + b3;
    proof {
        lemma_be_value4(v@.subrange(off as int, off as int + 4));
    }
    r
}

/// Reads 8 bytes of `v` at `off` as a big-endian integer.
pub fn read_u64_be(v: &Vec<u8>, off: usize) -> (r: u64)
    requires
        off + 8 <= v@.len(),
    ensures
        r as int == spec_be_value(v@.subrange(off as int, off as int + 8)),
{
    let n = v.len();
    assert(off + 8 <= n);
    let hi = read_u32_be(v, off);
    let lo = read_u32_be(v, off + 4);
    let r = (hi as u64) * 0x100000000 + (lo as u64);
    proof {
        let s = v@.subrange(off as int, off as int + 8);
        lemma_be_value_concat(s.subrange(0, 4), s.subrange(4, 8));
        lemma_pow256_4();
        assert(s.subrange(0, 4) + s.subrange(4, 8) =~= s);
        assert(s.subrange(0, 4) =~= v@.subrange(off as int, off as int + 4));
        assert(s.subrange(4, 8) =~= v@.subrange(off as int + 4, off as int + 8));
    }
    r
}

/// The value of a concatenation: the high part shifted, plus the low part.
pub proof fn lemma_be_value_concat(a: Seq<u8>, b: Seq<u8>)
    ensures
        spec_be_value(a + b) == spec_be_value(a) * pow256(b.len()) + spec_be_value(b),
    decreases b.len(),
{
    if b.len() == 0 {
        assert(a + b =~= a);
    } else {
        let b0 = b.drop_last();
        assert((a + b).drop_last() =~= a + b0);
        lemma_be_value_concat(a, b0);
        lemma_pow256_unfold(b.len());
        assert((spec_be_value(a) * pow256(b0.len()) + spec_be_value(b0)) * 256 + b.last()
            == spec_be_value(a) * pow256(b.len()) + spec_be_value(b)) by (nonlinear_arith)
            requires
                pow256(b.len()) == 256 * pow256(b0.len()),
                spec_be_value(b) == spec_be_value(b0) * 256 + b.last(),
        ;
    }
}

/// 10 to the power `n`.
pub open spec fn pow10(n: nat) -> int
    decreases n,
{
    if n == 0 {
        1
    } else {
        10 * pow10((n - 1) as nat)
    }
}

pub proof fn lemma_pow10_unfold(n: nat)
    requires
        n > 0,
    ensures
        pow10(n) == 10 * pow10((n - 1) as nat),
        pow10((n - 1) as nat) >= 1,
    decreases n,
{
    if n > 1 {
        lemma_pow10_unfold((n - 1) as nat);
    }
}

/// The decimal numeral of `x`, exactly `n` ASCII digits, zero-padded.
pub open spec fn spec_dec_bytes(x: int, n: nat) -> Seq<u8>
    decreases n,
{
    if n == 0 {
        Seq::empty()
    } else {
        spec_dec_bytes(x / 10, (n - 1) as nat).push((48 + x % 10) as u8)
    }
}

pub proof fn lemma_dec_bytes_len(x: int, n: nat)
    ensures
        spec_dec_bytes(x, n).len() == n,
    decreases n,
{
    if n > 0 {
        lemma_dec_bytes_len(x / 10, (n - 1) as nat);
    }
}

/// `true` when every byte of `s` is an ASCII decimal digit.
pub open spec fn is_ascii_digits(s: Seq<u8>) -> bool {
    forall|i: int| 0 <= i < s.len() ==> 48 <= #[trigger] s[i] <= 57
}

/// The number an ASCII digit string stands for.
pub open spec fn spec_dec_value(s: Seq<u8>) -> int
    decreases s.len(),
{
    if s.len() == 0 {
        0
    } else {
        spec_dec_value(s.drop_last()) * 10 + (s.last() - 48)
    }
}

/// Strict lexicographic order on byte strings, as an object store lists keys.
pub open spec fn lex_lt(a: Seq<u8>, b: Seq<u8>) -> bool
    decreases a.len(),
{
    if b.len() == 0 {
        false
    } else if a.len() == 0 {
        true
    } else if a[0] < b[0] {
        true
    } else if a[0] > b[0] {
        false
    } else {
        lex_lt(a.skip(1), b.skip(1))
    }
}

/// Dropping a shared prefix does not change the order.
pub proof fn lemma_lex_skip(a: Seq<u8>, b: Seq<u8>, i: int)
    requires
        0 <= i <= a.len(),
        i <= b.len(),
        a.subrange(0, i) == b.subrange(0, i),
    ensures
        lex_lt(a, b) == lex_lt(a.skip(i), b.skip(i)),
    decreases i,
{
    if i == 0 {
        assert(a.skip(0) =~= a);
        assert(b.skip(0) =~= b);
    } else {
        assert(a.subrange(0, i)[0] == a[0]);
        assert(b.subrange(0, i)[0] == b[0]);
        let a1 = a.skip(1);
        let b1 = b.skip(1);
        assert(a1.subrange(0, i - 1) =~= b1.subrange(0, i - 1)) by {
            assert forall|k: int| 0 <= k < i - 1 implies #[trigger] a1.subrange(0, i - 1)[k]
                == b1.subrange(0, i - 1)[k] by {
                assert(a1.subrange(0, i - 1)[k] == a1[k]);
                assert(b1.subrange(0, i - 1)[k] == b1[k]);
                assert(a1[k] == a[k + 1]);
                assert(b1[k] == b[k + 1]);
                assert(a.subrange(0, i)[k + 1] == a[k + 1]);
                assert(b.subrange(0, i)[k + 1] == b[k + 1]);
            }
        }
        lemma_lex_skip(a1, b1, i - 1);
        assert(a1.skip(i - 1) =~= a.skip(i));
        assert(b1.skip(i - 1) =~= b.skip(i));
    }
}

/// Equal heads and equal tails make equal byte strings.
pub proof fn lemma_seq_head_tail_eq(a: Seq<u8>, b: Seq<u8>)
    requires
        a.len() == b.len(),
        a.len() > 0,
        a[0] == b[0],
        a.skip(1) == b.skip(1),
    ensures
        a == b,
{
    assert forall|k: int| 0 <= k < a.len() implies #[trigger] a[k] == b[k] by {
        if k > 0 {
            assert(a.skip(1)[k - 1] == a[k]);
            assert(b.skip(1)[k - 1] == b[k]);
        }
    }
    assert(a =~= b);
}

/// Appending one byte on the right: order is decided by the stems first.
proof fn lemma_lex_push(u: Seq<u8>, v: Seq<u8>, a: u8, b: u8)
    requires
        u.len() == v.len(),
    ensures
        lex_lt(u.push(a), v.push(b)) == (lex_lt(u, v) || (u == v && a < b)),
    decreases u.len(),
{
    if u.len() == 0 {
        assert(u =~= v);
        assert(u.push(a).skip(1) =~= Seq::<u8>::empty());
        assert(v.push(b).skip(1) =~= Seq::<u8>::empty());
        assert(u.push(a)[0] == a && v.push(b)[0] == b);
        assert(!lex_lt(Seq::<u8>::empty(), Seq::<u8>::empty()));
    } else {
        let u1 = u.skip(1);
        let v1 = v.skip(1);
        assert(u.push(a)[0] == u[0]);
        assert(v.push(b)[0] == v[0]);
        assert(u.push(a).skip(1) =~= u1.push(a));
        assert(v.push(b).skip(1) =~= v1.push(b));
        lemma_lex_push(u1, v1, a, b);
        if u[0] == v[0] {
            assert((u == v) == (u1 == v1)) by {
                if u1 == v1 {
                    lemma_seq_head_tail_eq(u, v);
                }
            }
        }
    }
}

/// The order is irreflexive.
pub proof fn lemma_lex_irrefl(a: Seq<u8>)
    ensures
        !lex_lt(a, a),
    decreases a.len(),
{
    if a.len() > 0 {
        lemma_lex_irrefl(a.skip(1));
    }
}

/// The order is asymmetric.
pub proof fn lemma_lex_asym(a: Seq<u8>, b: Seq<u8>)
    requires
        lex_lt(a, b),
    ensures
        !lex_lt(b, a),
    decreases a.len(),
{
    if a.len() > 0 && b.len() > 0 && a[0] == b[0] {
        lemma_lex_asym(a.skip(1), b.skip(1));
    }
}

/// Comparison of two-character strings, written out.
pub proof fn lemma_lex_pair(x1: u8, x2: u8, y1: u8, y2: u8)
    ensures
        lex_lt(seq![x1, x2], seq![y1, y2]) == (x1 < y1 || (x1 == y1 && x2 < y2)),
{
    let a = seq![x1, x2];
    let b = seq![y1, y2];
    assert(a[0] == x1 && b[0] == y1);
    assert(a.skip(1) =~= seq![x2]);
    assert(b.skip(1) =~= seq![y2]);
    assert(seq![x2][0] == x2 && seq![y2][0] == y2);
    assert(seq![x2].skip(1) =~= Seq::<u8>::empty());
    assert(seq![y2].skip(1) =~= Seq::<u8>::empty());
    assert(!lex_lt(Seq::<u8>::empty(), Seq::<u8>::empty()));
    assert(lex_lt(seq![x2], seq![y2]) == (x2 < y2));
    assert(lex_lt(a, b) == (x1 < y1 || (x1 == y1 && lex_lt(seq![x2], seq![y2]))));
}

/// Splitting a comparison of equal-length concatenations at the seam.
pub proof fn lemma_lex_concat_split(x: Seq<u8>, y: Seq<u8>, u: Seq<u8>, v: Seq<u8>)
    requires
        x.len() == y.len(),
        u.len() == v.len(),
    ensures
        lex_lt(x + u, y + v) == (lex_lt(x, y) || (x == y && lex_lt(u, v))),
{
    lemma_lex_trichotomy(x, y);
    if lex_lt(x, y) {
        lemma_lex_concat_lt(x, y, u, v);
    } else if lex_lt(y, x) {
        lemma_lex_concat_lt(y, x, v, u);
        lemma_lex_asym(y + v, x + u);
    } else {
        assert((x + u).subrange(0, x.len() as int) =~= x);
        assert((y + v).subrange(0, y.len() as int) =~= y);
        lemma_lex_skip(x + u, y + v, x.len() as int);
        assert((x + u).skip(x.len() as int) =~= u);
        assert((y + v).skip(y.len() as int) =~= v);
    }
}

/// Executable comparison in the order `lex_lt` describes.
pub fn lex_less(a: &Vec<u8>, b: &Vec<u8>) -> (r: bool)
    ensures
        r == lex_lt(a@, b@),
{
    let na = a.len();
    let nb = b.len();
    let mut i: usize = 0;
    while i < na && i < nb
        invariant
            i <= na == a@.len(),
            i <= nb == b@.len(),
            a@.subrange(0, i as int) == b@.subrange(0, i as int),
        decreases na - i,
    {
        if a[i] < b[i] {
            proof {
                lemma_lex_skip(a@, b@, i as int);
                assert(a@.skip(i as int)[0] == a@[i as int]);
                assert(b@.skip(i as int)[0] == b@[i as int]);
            }
            return true;
        }
        if a[i] > b[i] {
            proof {
                lemma_lex_skip(a@, b@, i as int);
                assert(a@.skip(i as int)[0] == a@[i as int]);
                assert(b@.skip(i as int)[0] == b@[i as int]);
            }
            return false;
        }
        i = i + 1;
        proof {
            assert(a@.subrange(0, i as int) =~= b@.subrange(0, i as int));
        }
    }
    proof {
        lemma_lex_skip(a@, b@, i as int);
        if i == na {
            assert(a@.skip(i as int) =~= Seq::<u8>::empty());
        }
        if i == nb {
            assert(b@.skip(i as int) =~= Seq::<u8>::empty());
        }
    }
    na < nb
}

/// Two distinct byte strings of one length are ordered one way or the other.
pub proof fn lemma_lex_trichotomy(a: Seq<u8>, b: Seq<u8>)
    requires
        a.len() == b.len(),
    ensures
        lex_lt(a, b) || lex_lt(b, a) || a == b,
    decreases a.len(),
{
    if a.len() > 0 && a[0] == b[0] {
        lemma_lex_trichotomy(a.skip(1), b.skip(1));
        if a.skip(1) == b.skip(1) {
            lemma_seq_head_tail_eq(a, b);
        }
    } else if a.len() == 0 {
        assert(a =~= b);
    }
}

/// A strict order on equal-length strings survives appending suffixes.
pub proof fn lemma_lex_concat_lt(a: Seq<u8>, b: Seq<u8>, x: Seq<u8>, y: Seq<u8>)
    requires
        a.len() == b.len(),
        lex_lt(a, b),
    ensures
        lex_lt(a + x, b + y),
    decreases a.len(),
{
    assert(a.len() > 0);
    assert((a + x)[0] == a[0] && (b + y)[0] == b[0]);
    if a[0] == b[0] {
        assert((a + x).skip(1) =~= a.skip(1) + x);
        assert((b + y).skip(1) =~= b.skip(1) + y);
        lemma_lex_concat_lt(a.skip(1), b.skip(1), x, y);
    }
}

/// On fixed-width numerals, the lexicographic order is the numeric order.
pub proof fn lemma_dec_bytes_order(x: int, y: int, n: nat)
    requires
        0 <= x < pow10(n),
        0 <= y < pow10(n),
    ensures
        lex_lt(spec_dec_bytes(x, n), spec_dec_bytes(y, n)) == (x < y),
        (spec_dec_bytes(x, n) == spec_dec_bytes(y, n)) == (x == y),
    decreases n,
{
    if n == 0 {
        assert(spec_dec_bytes(x, 0) =~= spec_dec_bytes(y, 0));
    } else {
        lemma_pow10_unfold(n);
        assert(x / 10 >= 0 && x / 10 < pow10((n - 1) as nat) && y / 10 >= 0 && y / 10 < pow10(
            (n - 1) as nat,
        )) by (nonlinear_arith)
            requires
                0 <= x < 10 * pow10((n - 1) as nat),
                0 <= y < 10 * pow10((n - 1) as nat),
        ;
        lemma_dec_bytes_order(x / 10, y / 10, (n - 1) as nat);
        lemma_dec_bytes_len(x / 10, (n - 1) as nat);
        lemma_dec_bytes_len(y / 10, (n - 1) as nat);
        lemma_lex_push(
            spec_dec_bytes(x / 10, (n - 1) as nat),
            spec_dec_bytes(y / 10, (n - 1) as nat),
            (48 + x % 10) as u8,
            (48 + y % 10) as u8,
        );
        assert((x < y) == (x / 10 < y / 10 || (x / 10 == y / 10 && x % 10 < y % 10)))
            by (nonlinear_arith)
            requires
                x >= 0,
                y >= 0,
        ;
        if spec_dec_bytes(x, n) == spec_dec_bytes(y, n) {
            assert(spec_dec_bytes(x, n).drop_last() =~= spec_dec_bytes(x / 10, (n - 1) as nat));
            assert(spec_dec_bytes(y, n).drop_last() =~= spec_dec_bytes(y / 10, (n - 1) as nat));
            assert(spec_dec_bytes(x, n).last() == spec_dec_bytes(y, n).last());
        }
    }
}

/// On fixed-width big-endian encodings, lexicographic order is numeric order.
pub proof fn lemma_be_bytes_order(x: int, y: int, n: nat)
    requires
        0 <= x < pow256(n),
        0 <= y < pow256(n),
    ensures
        lex_lt(spec_be_bytes(x, n), spec_be_bytes(y, n)) == (x < y),
        (spec_be_bytes(x, n) == spec_be_bytes(y, n)) == (x == y),
    decreases n,
{
    if n == 0 {
        assert(spec_be_bytes(x, 0) =~= spec_be_bytes(y, 0));
    } else {
        lemma_pow256_unfold(n);
        assert(x / 256 >= 0 && x / 256 < pow256((n - 1) as nat) && y / 256 >= 0 && y / 256 < pow256(
            (n - 1) as nat,
        )) by (nonlinear_arith)
            requires
                0 <= x < 256 * pow256((n - 1) as nat),
                0 <= y < 256 * pow256((n - 1) as nat),
        ;
        lemma_be_bytes_order(x / 256, y / 256, (n - 1) as nat);
        lemma_be_bytes_len(x / 256, (n - 1) as nat);
        lemma_be_bytes_len(y / 256, (n - 1) as nat);
        lemma_lex_push(
            spec_be_bytes(x / 256, (n - 1) as nat),
            spec_be_bytes(y / 256, (n - 1) as nat),
            (x % 256) as u8,
            (y % 256) as u8,
        );
        assert((x < y) == (x / 256 < y / 256 || (x / 256 == y / 256 && x % 256 < y % 256)))
            by (nonlinear_arith)
            requires
                x >= 0,
                y >= 0,
        ;
        if spec_be_bytes(x, n) == spec_be_bytes(y, n) {
            assert(spec_be_bytes(x, n).drop_last() =~= spec_be_bytes(x / 256, (n - 1) as nat));
            assert(spec_be_bytes(y, n).drop_last() =~= spec_be_bytes(y / 256, (n - 1) as nat));
            assert(spec_be_bytes(x, n).last() == spec_be_bytes(y, n).last());
        }
    }
}

/// The 12-digit zero-padded decimal numeral of `x`.
pub fn format_u32_dec12(x: u32) -> (r: Vec<u8>)
    ensures
        r@ == spec_dec_bytes(x as int, 12),
{
    let mut rev: Vec<u8> = Vec::new();
    let mut v: u32 = x;
    let mut j: usize = 0;
    while j < 12
        invariant
            j <= 12,
            rev@.len() == j,
            spec_dec_bytes(x as int, 12) == spec_dec_bytes(v as int, (12 - j) as nat)
                + rev@.reverse(),
        decreases 12 - j,
    {
        let ghost old_rev = rev@;
        let ghost old_v = v as int;
        let d: u8 = 48 + (v % 10) as u8;
        rev.push(d);
        v = v / 10;
        j = j + 1;
        proof {
            assert(rev@.reverse() =~= seq![d] + old_rev.reverse());
            assert(spec_dec_bytes(old_v, (13 - j) as nat) == spec_dec_bytes(
                v as int,
                (12 - j) as nat,
            ).push(d));
            assert(spec_dec_bytes(v as int, (12 - j) as nat).push(d) + old_rev.reverse()
                =~= spec_dec_bytes(v as int, (12 - j) as nat) + rev@.reverse());
        }
    }
    let mut out: Vec<u8> = Vec::new();
    let mut k: usize = 0;
    while k < 12
        invariant
            k <= 12,
            rev@.len() == 12,
            out@ == rev@.reverse().subrange(0, k as int),
            spec_dec_bytes(x as int, 12) == rev@.reverse(),
        decreases 12 - k,
    {
        out.push(rev[11 - k]);
        k = k + 1;
        proof {
            assert(out@ =~= rev@.reverse().subrange(0, k as int));
        }
    }
    proof {
        lemma_dec_bytes_len(x as int, 12);
        assert(out@ =~= rev@.reverse());
    }
    out
}

/// Parses an ASCII digit string as a number: `Some` exactly when the whole
/// input is one or more digits whose value fits in `u32`.
pub fn parse_u32_dec(v: &Vec<u8>, from: usize, to: usize) -> (r: Option<u32>)
    requires
        from <= to <= v@.len(),
    ensures
        ({
            let s = v@.subrange(from as int, to as int);
            match r {
                Some(x) => s.len() > 0 && is_ascii_digits(s) && x as int == spec_dec_value(s),
                None => s.len() == 0 || !is_ascii_digits(s) || spec_dec_value(s) > u32::MAX,
            }
        }),
{
    let ghost s = v@.subrange(from as int, to as int);
    if from == to {
        return None;
    }
    let n = v.len();
    let mut acc: u64 = 0;
    let mut i: usize = from;
    while i < to
        invariant
            from <= i <= to <= n == v@.len(),
            acc as int == spec_dec_value(v@.subrange(from as int, i as int)),
            acc <= u32::MAX,
            is_ascii_digits(v@.subrange(from as int, i as int)),
            s == v@.subrange(from as int, to as int),
        decreases to - i,
    {
        let c = v[i];
        if c < 48 || c > 57 {
            proof {
                assert(s[i - from] == c);
            }
            return None;
        }
        let ghost pre = v@.subrange(from as int, i as int);
        acc = acc * 10 + (c - 48) as u64;
        i = i + 1;
        proof {
            let cur = v@.subrange(from as int, i as int);
            assert(cur.drop_last() =~= pre);
            assert(cur.last() == c);
        }
        if acc > 0xFFFF_FFFF {
            proof {
                if is_ascii_digits(s) {
                    let cur = v@.subrange(from as int, i as int);
                    lemma_dec_value_prefix_bound(s, i - from);
                    assert(s.subrange(0, i - from) =~= cur);
                }
            }
            return None;
        }
    }
    proof {
        assert(v@.subrange(from as int, i as int) =~= s);
    }
    Some(acc as u32)
}

/// A digit string is worth at least its prefix's value.
proof fn lemma_dec_value_prefix_bound(s: Seq<u8>, i: int)
    requires
        0 <= i <= s.len(),
        is_ascii_digits(s),
    ensures
        spec_dec_value(s) >= spec_dec_value(s.subrange(0, i)),
    decreases s.len() - i,
{
    if i == s.len() {
        assert(s.subrange(0, i) =~= s);
    } else {
        lemma_dec_value_prefix_bound(s, i + 1);
        let p = s.subrange(0, i);
        let q = s.subrange(0, i + 1);
        assert(q.drop_last() =~= p);
        assert(48 <= q.last() <= 57);
        lemma_dec_value_nonneg(p);
        assert(spec_dec_value(q) >= spec_dec_value(p)) by (nonlinear_arith)
            requires
                spec_dec_value(q) == spec_dec_value(p) * 10 + (q.last() - 48),
                spec_dec_value(p) >= 0,
                q.last() >= 48,
        ;
    }
}

/// The value of a digit string is never negative.
pub proof fn lemma_dec_value_nonneg(s: Seq<u8>)
    requires
        is_ascii_digits(s),
    ensures
        spec_dec_value(s) >= 0,
    decreases s.len(),
{
    if s.len() > 0 {
        assert(is_ascii_digits(s.drop_last())) by {
            assert(forall|i: int|
                0 <= i < s.len() - 1 ==> s.drop_last()[i] == #[trigger] s[i]);
        }
        lemma_dec_value_nonneg(s.drop_last());
        assert(48 <= s.last() <= 57);
    }
}

/// `spec_be_value` is bounded by the length of its input.
pub proof fn lemma_be_value_bound(s: Seq<u8>)
    ensures
        0 <= spec_be_value(s) < pow256(s.len()),
    decreases s.len(),
{
    if s.len() == 0 {
    } else {
        let s0 = s.drop_last();
        lemma_be_value_bound(s0);
        lemma_pow256_unfold(s.len());
        assert(spec_be_value(s0) * 256 + s.last() < pow256(s.len())) by (nonlinear_arith)
            requires
                0 <= spec_be_value(s0) < pow256(s0.len()),
                pow256(s.len()) == 256 * pow256(s0.len()),
                s.last() < 256,
        ;
    }
}

} // verus!
