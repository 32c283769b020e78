//! The variable-length integer encoding used by the frame boundary format:
//! the top two bits of the first byte select a total width of 1, 2, 4 or 8
//! bytes, and the remaining bits hold the value big-endian.

use vstd::prelude::*;
use vstd::arithmetic::div_mod::{lemma_fundamental_div_mod, lemma_fundamental_div_mod_converse};
use vstd::arithmetic::mul::{lemma_mul_inequality, lemma_mul_is_associative};
use crate::chunks::ChunkBuffer;

verus! {

/// Frame lengths and identifiers are varints, so they stay below 2^62; the
/// ingestion state machine caps its buffer the same way, which keeps every
/// byte count of this crate inside a `u64`.
pub const VARINT_LIMIT: u64 = 0x4000_0000_0000_0000;

pub open spec fn p256(n: nat) -> int
    decreases n,
{
    if n == 0 {
        1
    } else {
        256 * p256((n - 1) as nat)
    }
}

pub proof fn lemma_p256_pos(n: nat)
    ensures
        p256(n) >= 1,
    decreases n,
{
    if n > 0 {
        lemma_p256_pos((n - 1) as nat);
    }
}

pub proof fn lemma_p256_mono(a: nat, b: nat)
    requires
        a <= b,
    ensures
        p256(a) <= p256(b),
    decreases b,
{
    if a < b {
        lemma_p256_mono(a, (b - 1) as nat);
        lemma_p256_pos((b - 1) as nat);
    }
}

pub proof fn lemma_p256_vals()
    ensures
        p256(0) == 1,
        p256(1) == 0x100,
        p256(2) == 0x10000,
        p256(3) == 0x1000000,
        p256(4) == 0x100000000,
        p256(5) == 0x10000000000,
        p256(6) == 0x1000000000000,
        p256(7) == 0x100000000000000,
        p256(8) == 0x10000000000000000,
{
    assert(p256(0) == 1);
    assert(p256(1) == 0x100);
    assert(p256(2) == 0x10000);
    assert(p256(3) == 0x1000000);
    assert(p256(4) == 0x100000000);
    assert(p256(5) == 0x10000000000);
    assert(p256(6) == 0x1000000000000);
    assert(p256(7) == 0x100000000000000);
    assert(p256(8) == 0x10000000000000000);
}

/// The integer that the bytes of `s` spell big-endian.
pub open spec fn be_value(s: Seq<u8>) -> int
    decreases s.len(),
{
    if s.len() == 0 {
        0
    } else {
        be_value(s.drop_last()) * 256 + s.last()
    }
}

/// The `n` low-order base-256 digits of `v`, most significant first.
pub open spec fn be_bytes(v: int, n: nat) -> Seq<u8>
    decreases n,
{
    if n == 0 {
        Seq::empty()
    } else {
        be_bytes(v / 256, (n - 1) as nat).push((v % 256) as u8)
    }
}

pub proof fn lemma_be_bytes_len(v: int, n: nat)
    ensures
        be_bytes(v, n).len() == n,
    decreases n,
{
    if n > 0 {
        lemma_be_bytes_len(v / 256, (n - 1) as nat);
    }
}

pub proof fn lemma_be_value_nonneg(s: Seq<u8>)
    ensures
        be_value(s) >= 0,
    decreases s.len(),
{
    if s.len() > 0 {
        lemma_be_value_nonneg(s.drop_last());
    }
}

pub proof fn lemma_be_value_of_bytes(v: int, n: nat)
    requires
        0 <= v < p256(n),
    ensures
        be_value(be_bytes(v, n)) == v,
    decreases n,
{
    if n > 0 {
        lemma_be_bytes_len(v / 256, (n - 1) as nat);
        assert(be_bytes(v, n).drop_last() =~= be_bytes(v / 256, (n - 1) as nat));
        lemma_fundamental_div_mod(v, 256);
        if v / 256 >= p256((n - 1) as nat) {
            lemma_mul_inequality(p256((n - 1) as nat), v / 256, 256);
            assert(false);
        }
        lemma_be_value_of_bytes(v / 256, (n - 1) as nat);
    }
}

#[verifier::rlimit(30)]
pub proof fn lemma_be_value_first_bound(s: Seq<u8>, b: int)
    requires
        s.len() >= 1,
        0 <= b,
        s[0] < b,
    ensures
        be_value(s) < b * p256((s.len() - 1) as nat),
    decreases s.len(),
{
    if s.len() == 1 {
        assert(s.drop_last().len() == 0);
        assert(be_value(s.drop_last()) == 0);
        assert(be_value(s) == s[0]);
        assert(p256(0) == 1);
        assert(b * 1 == b);
    } else {
        assert(s.drop_last()[0] == s[0]);
        lemma_be_value_first_bound(s.drop_last(), b);
        let p = p256((s.len() - 2) as nat);
        lemma_p256_pos((s.len() - 2) as nat);
        assert(be_value(s.drop_last()) * 256 <= (b * p - 1) * 256);
        assert(be_value(s) <= (b * p - 1) * 256 + 255);
        assert((b * p - 1) * 256 + 255 < (b * p) * 256);
        lemma_mul_is_associative(b, p, 256);
        lemma_mul_is_associative(b, 256, p);
        assert((b * p) * 256 == b * (256 * p));
        assert(p256((s.len() - 1) as nat) == 256 * p256((s.len() - 2) as nat));
        assert(be_value(s) < b * p256((s.len() - 1) as nat));
    }
}

pub proof fn lemma_be_bytes_split_high(h: int, v: int, n: nat)
    requires
        n >= 1,
        0 <= h < 256,
        0 <= v < p256((n - 1) as nat),
    ensures
        be_bytes(h * p256((n - 1) as nat) + v, n) == seq![h as u8] + be_bytes(v, (n - 1) as nat),
    decreases n,
{
    let p = p256((n - 1) as nat);
    let x = h * p + v;
    if n == 1 {
        assert(p == 1);
        assert(x == h);
        lemma_fundamental_div_mod_converse(x, 256, 0, h);
        assert(be_bytes(x, 1) =~= seq![h as u8] + be_bytes(v, 0));
    } else {
        let p2 = p256((n - 2) as nat);
        lemma_p256_pos((n - 2) as nat);
        assert(p == 256 * p2);
        lemma_fundamental_div_mod(v, 256);
        lemma_mul_is_associative(h, 256, p2);
        lemma_mul_is_associative(h, p2, 256);
        assert(h * p == (h * p2) * 256);
        assert((h * p2 + v / 256) * 256 == (h * p2) * 256 + (v / 256) * 256);
        assert(x == (h * p2 + v / 256) * 256 + v % 256);
        assert(h * p2 >= 0) by {
            lemma_mul_inequality(0, h, p2);
        }
        lemma_fundamental_div_mod_converse(x, 256, h * p2 + v / 256, v % 256);
        if v / 256 >= p2 {
            lemma_mul_inequality(p2, v / 256, 256);
            assert(false);
        }
        lemma_be_bytes_split_high(h, v / 256, (n - 1) as nat);
        assert(be_bytes(x, n) =~= seq![h as u8] + be_bytes(v, (n - 1) as nat));
    }
}

/// Total width of a varint whose first byte is `first`.
pub open spec fn varint_len(first: u8) -> int {
    if first < 0x40 {
        1
    } else if first < 0x80 {
        2
    } else if first < 0xc0 {
        4
    } else {
        8
    }
}

/// The varint bytes with the two tag bits of the first byte cleared.
pub open spec fn masked_bytes(s: Seq<u8>, pos: int, l: int) -> Seq<u8> {
    seq![(s[pos] % 64) as u8] + s.subrange(pos + 1, pos + l)
}

pub enum VarintStep {
    Val { v: int, end: int },
    Need { min: int },
}

/// One varint read at byte `pos` of `s`: its value and the position just
/// past it, or the least total length at which the read could succeed.
pub open spec fn parse_varint(s: Seq<u8>, pos: int) -> VarintStep
    recommends
        0 <= pos,
{
    if pos >= s.len() {
        VarintStep::Need { min: pos + 1 }
    } else {
        let l = varint_len(s[pos]);
        if s.len() < pos + l {
            VarintStep::Need { min: pos + l }
        } else {
            VarintStep::Val { v: be_value(masked_bytes(s, pos, l)), end: pos + l }
        }
    }
}

pub proof fn lemma_parse_varint_shape(s: Seq<u8>, pos: int)
    requires
        0 <= pos,
    ensures
        parse_varint(s, pos) matches VarintStep::Val { v, end } ==> 0 <= v < VARINT_LIMIT
            && pos < end <= s.len() && end <= pos + 8,
        parse_varint(s, pos) matches VarintStep::Need { min } ==> s.len() < min <= pos + 8 && pos
            < min,
{
    if pos < s.len() {
        let l = varint_len(s[pos]);
        if s.len() >= pos + l {
            let m = masked_bytes(s, pos, l);
            assert(m.len() == l);
            assert(m[0] < 64);
            lemma_be_value_nonneg(m);
            lemma_be_value_first_bound(m, 64);
            lemma_p256_mono((l - 1) as nat, 7);
            lemma_p256_vals();
            lemma_mul_inequality(p256((l - 1) as nat), p256(7), 64);
        }
    }
}

/// A successful read is unaffected by bytes arriving behind it, and a read
/// still short of `min` bytes keeps asking for `min`.
pub proof fn lemma_parse_varint_extend(s: Seq<u8>, w: Seq<u8>, pos: int)
    requires
        0 <= pos,
        s.is_prefix_of(w),
    ensures
        parse_varint(s, pos) matches VarintStep::Val { v, end } ==> parse_varint(w, pos)
            == (VarintStep::Val { v, end }),
        parse_varint(s, pos) matches VarintStep::Need { min } ==> (w.len() < min ==> parse_varint(
            w,
            pos,
        ) == (VarintStep::Need { min })),
{
    if pos < s.len() {
        assert(w[pos] == s[pos]);
        let l = varint_len(s[pos]);
        if s.len() >= pos + l {
            assert(w.subrange(pos + 1, pos + l) =~= s.subrange(pos + 1, pos + l));
            assert(masked_bytes(w, pos, l) =~= masked_bytes(s, pos, l));
        }
    }
}

/// A read cut anywhere short of its end comes back asking for more.
pub proof fn lemma_parse_varint_truncated(s: Seq<u8>, pos: int, v: int, end: int, k: int)
    requires
        0 <= pos,
        parse_varint(s, pos) == (VarintStep::Val { v, end }),
        pos <= k < end,
        k <= s.len(),
    ensures
        parse_varint(s.take(k), pos) matches VarintStep::Need { min: _ },
{
    let w = s.take(k);
    if k > pos {
        assert(w[pos] == s[pos]);
    }
}

/// Width class of `v` in the encoding: 1, 2, 4 or 8 bytes.
pub open spec fn varint_size(v: int) -> nat {
    if v < 64 {
        1
    } else if v < 16384 {
        2
    } else if v < 0x4000_0000 {
        4
    } else {
        8
    }
}

pub open spec fn varint_tag(v: int) -> int {
    if v < 64 {
        0
    } else if v < 16384 {
        1
    } else if v < 0x4000_0000 {
        2
    } else {
        3
    }
}

/// The shortest encoding of `v`: its width class with the tag bits set.
pub open spec fn encode_varint(v: int) -> Seq<u8>
    recommends
        0 <= v < VARINT_LIMIT,
{
    be_bytes(varint_tag(v) * 64 * p256((varint_size(v) - 1) as nat) + v, varint_size(v))
}

pub proof fn lemma_encode_varint_len(v: int)
    requires
        0 <= v < VARINT_LIMIT,
    ensures
        encode_varint(v).len() == varint_size(v),
        1 <= encode_varint(v).len() <= 8,
{
    lemma_be_bytes_len(
        varint_tag(v) * 64 * p256((varint_size(v) - 1) as nat) + v,
        varint_size(v),
    );
}

/// Reading an encoded varint embedded at `pos` yields exactly the value that
/// was encoded, consuming exactly its bytes.
#[verifier::rlimit(30)]
pub proof fn lemma_parse_encode_varint(s: Seq<u8>, pos: int, v: int)
    requires
        0 <= v < VARINT_LIMIT,
        0 <= pos,
        pos + varint_size(v) <= s.len(),
        s.subrange(pos, pos + varint_size(v)) == encode_varint(v),
    ensures
        parse_varint(s, pos) == (VarintStep::Val { v, end: pos + varint_size(v) }),
{
    let n = varint_size(v);
    let t = varint_tag(v);
    let p = p256((n - 1) as nat);
    lemma_p256_vals();
    lemma_p256_pos((n - 1) as nat);
    assert(v < 64 * p);
    lemma_fundamental_div_mod(v, p);
    let q = v / p;
    let r = v % p;
    if q >= 64 {
        lemma_mul_inequality(64, q, p);
        assert(q * p == p * q) by {
            vstd::arithmetic::mul::lemma_mul_is_commutative(q, p);
        }
        assert(false);
    }
    assert(0 <= q < 64);
    let h = t * 64 + q;
    assert((t * 64 + q) * p == t * 64 * p + q * p) by {
        vstd::arithmetic::mul::lemma_mul_is_distributive_add_other_way(p, t * 64, q);
    }
    assert(q * p == p * q) by {
        vstd::arithmetic::mul::lemma_mul_is_commutative(q, p);
    }
    assert(h * p + r == t * 64 * p + v);
    lemma_be_bytes_split_high(h, r, n);
    assert(encode_varint(v) == seq![h as u8] + be_bytes(r, (n - 1) as nat));
    lemma_be_bytes_len(r, (n - 1) as nat);
    assert(s[pos] == s.subrange(pos, pos + varint_size(v))[0]);
    assert(s[pos] == h as u8);
    assert(varint_len(s[pos]) == n);
    assert(parse_varint(s, pos) matches VarintStep::Val { v: _, end: _ });
    lemma_fundamental_div_mod_converse(h, 64, t, q);
    assert(h % 64 == q);
    assert(s.subrange(pos + 1, pos + n) =~= encode_varint(v).subrange(1, n as int));
    assert(encode_varint(v).subrange(1, n as int) =~= be_bytes(r, (n - 1) as nat));
    assert(masked_bytes(s, pos, n as int) =~= seq![q as u8] + be_bytes(r, (n - 1) as nat));
    lemma_be_bytes_split_high(q, r, n);
    assert(q * p + r == v);
    assert(masked_bytes(s, pos, n as int) == be_bytes(v, n));
    assert(v < p256(n)) by {
        lemma_mul_inequality(64, 256, p);
        assert(64 * p <= 256 * p);
    }
    lemma_be_value_of_bytes(v, n);
}

/// Outcome of one executable varint read.
pub enum VarintParsed {
    Val { v: u64, end: usize },
    Need { min: u64 },
}

/// Reads one varint at cursor offset `pos` through the buffer's speculative
/// cursor, consuming nothing.
pub fn parse_varint_at(buf: &ChunkBuffer, pos: usize) -> (r: VarintParsed)
    requires
        buf.wf(),
        pos <= buf@.len(),
        buf@.len() <= VARINT_LIMIT,
    ensures
        ({
            let st = parse_varint(buf@, pos as int);
            match r {
                VarintParsed::Val { v, end } => st == (VarintStep::Val {
                    v: v as int,
                    end: end as int,
                }) && pos < end <= buf@.len() && v < VARINT_LIMIT,
                VarintParsed::Need { min } => st == (VarintStep::Need { min: min as int })
                    && buf@.len() < min,
            }
        }),
{
    proof {
        lemma_parse_varint_shape(buf@, pos as int);
        lemma_p256_vals();
    }
    let n = buf.remaining();
    if pos >= n {
        return VarintParsed::Need { min: pos as u64 + 1 };
    }
    let b0 = buf.byte_at(pos);
    let l: usize = if b0 < 0x40 {
        1
    } else if b0 < 0x80 {
        2
    } else if b0 < 0xc0 {
        4
    } else {
        8
    };
    if n - pos < l {
        return VarintParsed::Need { min: pos as u64 + l as u64 };
    }
    let ghost m = masked_bytes(buf@, pos as int, l as int);
    let mut acc: u64 = (b0 % 64) as u64;
    proof {
        assert(m.len() == l);
        assert(m.take(1) =~= seq![(b0 % 64) as u8]);
        assert(m.take(1).drop_last() =~= Seq::<u8>::empty());
        assert(be_value(Seq::<u8>::empty()) == 0);
        assert(m.take(1).last() == (b0 % 64) as u8);
        assert(be_value(m.take(1)) == be_value(m.take(1).drop_last()) * 256 + m.take(1).last());
        assert(be_value(m.take(1)) == acc);
    }
    let mut i: usize = 1;
    while i < l
        invariant
            buf.wf(),
            pos + l <= buf@.len(),
            buf@.len() <= usize::MAX,
            m == masked_bytes(buf@, pos as int, l as int),
            m.len() == l,
            l == 1 || l == 2 || l == 4 || l == 8,
            1 <= i <= l,
            acc == be_value(m.take(i as int)),
            acc < 64 * p256((i - 1) as nat),
        decreases l - i,
    {
        let b = buf.byte_at(pos + i);
        proof {
            lemma_p256_vals();
            lemma_p256_mono((i - 1) as nat, 6);
            assert(m.take(i + 1).drop_last() =~= m.take(i as int));
            assert(m.take(i + 1).last() == m[i as int]);
            assert(m[i as int] == buf@[pos + i]);
            assert(64 * p256((i - 1) as nat) * 256 == 64 * p256(i as nat)) by {
                lemma_mul_is_associative(64, p256((i - 1) as nat), 256);
                lemma_mul_is_associative(64, 256, p256((i - 1) as nat));
                assert(p256((i - 1) as nat) * 256 == 256 * p256((i - 1) as nat));
            }
        }
        acc = acc * 256 + b as u64;
        i = i + 1;
    }
    proof {
        assert(m.take(l as int) =~= m);
    }
    VarintParsed::Val { v: acc, end: pos + l }
}

/// Appends the `n` low-order base-256 digits of `v`, most significant first.
fn push_be(v: u64, n: usize, out: &mut Vec<u8>)
    ensures
        final(out)@ == old(out)@ + be_bytes(v as int, n as nat),
    decreases n,
{
    if n == 0 {
        proof {
            assert(old(out)@ + be_bytes(v as int, 0) =~= old(out)@);
        }
        return;
    }
    push_be(v / 256, n - 1, out);
    out.push((v % 256) as u8);
    proof {
        assert(old(out)@ + be_bytes(v as int, n as nat) =~= (old(out)@ + be_bytes(
            v as int / 256,
            (n - 1) as nat,
        )).push((v as int % 256) as u8));
    }
}

/// Appends the shortest varint encoding of `v`.
pub fn encode_varint_push(v: u64, out: &mut Vec<u8>)
    requires
        v < VARINT_LIMIT,
    ensures
        final(out)@ == old(out)@ + encode_varint(v as int),
{
    proof {
        lemma_p256_vals();
    }
    if v < 64 {
        push_be(v, 1, out);
    } else if v < 16384 {
        push_be(0x4000u64 + v, 2, out);
    } else if v < 0x4000_0000 {
        push_be(0x8000_0000u64 + v, 4, out);
    } else {
        push_be(0xc000_0000_0000_0000u64 + v, 8, out);
    }
}

/// Width the shortest encoding of `v` will take.
pub fn varint_size_of(v: u64) -> (r: usize)
    requires
        v < VARINT_LIMIT,
    ensures
        r as nat == varint_size(v as int),
{
    if v < 64 {
        1
    } else if v < 16384 {
        2
    } else if v < 0x4000_0000 {
        4
    } else {
        8
    }
}

} // verus!
