//! Byte-level encoding primitives shared by the on-disk structures:
//! big-endian integer fields and the lexicographic order on keys.
use vstd::prelude::*;

verus! {

/// Big-endian encoding of a `u32`, most significant byte first.
pub open spec fn u32_be(v: u32) -> Seq<u8> {
    seq![
        ((v >> 24) & 0xff) as u8,
        ((v >> 16) & 0xff) as u8,
        ((v >> 8) & 0xff) as u8,
        (v & 0xff) as u8,
    ]
}

/// Big-endian encoding of a `u64`, most significant byte first.
pub open spec fn u64_be(v: u64) -> Seq<u8> {
    seq![
        ((v >> 56) & 0xff) as u8,
        ((v >> 48) & 0xff) as u8,
        ((v >> 40) & 0xff) as u8,
        ((v >> 32) & 0xff) as u8,
        ((v >> 24) & 0xff) as u8,
        ((v >> 16) & 0xff) as u8,
        ((v >> 8) & 0xff) as u8,
        (v & 0xff) as u8,
    ]
}

/// The `u32` denoted by four big-endian bytes.
pub open spec fn u32_from_be(s: Seq<u8>) -> u32
    recommends
        s.len() == 4,
{
    (((s[0] as u32) << 24) | ((s[1] as u32) << 16) | ((s[2] as u32) << 8) | (s[3] as u32)) as u32
}

/// The `u64` denoted by eight big-endian bytes.
pub open spec fn u64_from_be(s: Seq<u8>) -> u64
    recommends
        s.len() == 8,
{
    (((s[0] as u64) << 56) | ((s[1] as u64) << 48) | ((s[2] as u64) << 40) | ((s[3] as u64)
        << 32) | ((s[4] as u64) << 24) | ((s[5] as u64) << 16) | ((s[6] as u64) << 8) | (
    s[7] as u64)) as u64
}

/// Decoding inverts encoding for `u32`, so the encoding is injective.
pub proof fn lemma_u32_be_round_trip(v: u32)
    ensures
        u32_from_be(u32_be(v)) == v,
{
    let s = u32_be(v);
    let b0 = s[0];
    let b1 = s[1];
    let b2 = s[2];
    let b3 = s[3];
    assert(b0 == ((v >> 24) & 0xff) as u8 && b1 == ((v >> 16) & 0xff) as u8 && b2 == ((v >> 8)
        & 0xff) as u8 && b3 == (v & 0xff) as u8 ==> (((b0 as u32) << 24) | ((b1 as u32) << 16) | ((
    b2 as u32) << 8) | (b3 as u32)) as u32 == v) by (bit_vector);
}

/// Decoding inverts encoding for `u64`, so the encoding is injective.
pub proof fn lemma_u64_be_round_trip(v: u64)
    ensures
        u64_from_be(u64_be(v)) == v,
{
    let s = u64_be(v);
    let b0 = s[0];
    let b1 = s[1];
    let b2 = s[2];
    let b3 = s[3];
    let b4 = s[4];
    let b5 = s[5];
    let b6 = s[6];
    let b7 = s[7];
    assert(b0 == ((v >> 56) & 0xff) as u8 && b1 == ((v >> 48) & 0xff) as u8 && b2 == ((v >> 40)
        & 0xff) as u8 && b3 == ((v >> 32) & 0xff) as u8 && b4 == ((v >> 24) & 0xff) as u8 && b5 == (
    (v >> 16) & 0xff) as u8 && b6 == ((v >> 8) & 0xff) as u8 && b7 == (v & 0xff) as u8 ==> (((
    b0 as u64) << 56) | ((b1 as u64) << 48) | ((b2 as u64) << 40) | ((b3 as u64) << 32) | ((
    b4 as u64) << 24) | ((b5 as u64) << 16) | ((b6 as u64) << 8) | (b7 as u64)) as u64 == v)
        by (bit_vector);
}

/// Appends the four big-endian bytes of `v` to `out`.
pub fn push_u32_be(out: &mut Vec<u8>, v: u32)
    ensures
        final(out)@ == old(out)@ + u32_be(v),
{
    out.push(((v >> 24) & 0xff) as u8);
    out.push(((v >> 16) & 0xff) as u8);
    out.push(((v >> 8) & 0xff) as u8);
    out.push((v & 0xff) as u8);
    assert(out@ =~= old(out)@ + u32_be(v));
}

/// Appends the eight big-endian bytes of `v` to `out`.
pub fn push_u64_be(out: &mut Vec<u8>, v: u64)
    ensures
        final(out)@ == old(out)@ + u64_be(v),
{
    out.push(((v >> 56) & 0xff) as u8);
    out.push(((v >> 48) & 0xff) as u8);
    out.push(((v >> 40) & 0xff) as u8);
    out.push(((v >> 32) & 0xff) as u8);
    out.push(((v >> 24) & 0xff) as u8);
    out.push(((v >> 16) & 0xff) as u8);
    out.push(((v >> 8) & 0xff) as u8);
    out.push((v & 0xff) as u8);
    assert(out@ =~= old(out)@ + u64_be(v));
}

/// Reads the big-endian `u32` stored at `buf[off .. off + 4]`.
pub fn read_u32_be(buf: &Vec<u8>, off: usize) -> (r: u32)
    requires
        off + 4 <= buf@.len(),
    ensures
        r == u32_from_be(buf@.subrange(off as int, off + 4)),
{
    let n = buf.len();
    let r = ((buf[off] as u32) << 24) | ((buf[off + 1] as u32) << 16) | ((buf[off + 2] as u32)
        << 8) | (buf[off + 3] as u32);
    proof {
        let s = buf@.subrange(off as int, off + 4);
        assert(s[0] == buf@[off as int] && s[1] == buf@[off + 1] && s[2] == buf@[off + 2] && s[3]
            == buf@[off + 3]);
    }
    r
}

/// Reads the big-endian `u64` stored at `buf[off .. off + 8]`.
pub fn read_u64_be(buf: &Vec<u8>, off: usize) -> (r: u64)
    requires
        off + 8 <= buf@.len(),
    ensures
        r == u64_from_be(buf@.subrange(off as int, off + 8)),
{
    let n = buf.len();
    let r = ((buf[off] as u64) << 56) | ((buf[off + 1] as u64) << 48) | ((buf[off + 2] as u64)
        << 40) | ((buf[off + 3] as u64) << 32) | ((buf[off + 4] as u64) << 24) | ((buf[off
        + 5] as u64) << 16) | ((buf[off + 6] as u64) << 8) | (buf[off + 7] as u64);
    proof {
        let s = buf@.subrange(off as int, off + 8);
        assert(s[0] == buf@[off as int] && s[1] == buf@[off + 1] && s[2] == buf@[off + 2] && s[3]
            == buf@[off + 3] && s[4] == buf@[off + 4] && s[5] == buf@[off + 5] && s[6] == buf@[off
            + 6] && s[7] == buf@[off + 7]);
    }
    r
}

/// Strict lexicographic order on byte strings: `a` comes before `b`.
/// A proper prefix comes before every extension of it.
pub open spec fn lex_lt(a: Seq<u8>, b: Seq<u8>) -> bool
    decreases a.len(),
{
    if b.len() == 0 {
        false
    } else if a.len() == 0 {
        true
    } else if a[0] < b[0] {
        true
    } else if a[0] > b[0] {
        false
    } else {
        lex_lt(a.drop_first(), b.drop_first())
    }
}

/// Skipping a shared prefix does not change how two keys compare.
pub proof fn lemma_lex_skip(a: Seq<u8>, b: Seq<u8>, i: int)
    requires
        0 <= i <= a.len(),
        i <= b.len(),
        forall|j: int| 0 <= j < i ==> a[j] == b[j],
    ensures
        lex_lt(a, b) == lex_lt(a.skip(i), b.skip(i)),
    decreases i,
{
    if i > 0 {
        assert(a.len() > 0 && b.len() > 0 && a[0] == b[0]);
        assert(lex_lt(a, b) == lex_lt(a.drop_first(), b.drop_first()));
        assert(a.drop_first() =~= a.skip(1));
        assert(b.drop_first() =~= b.skip(1));
        lemma_lex_skip(a.skip(1), b.skip(1), i - 1);
        assert(a.skip(1).skip(i - 1) =~= a.skip(i));
        assert(b.skip(1).skip(i - 1) =~= b.skip(i));
    } else {
        assert(a.skip(0) =~= a);
        assert(b.skip(0) =~= b);
    }
}

/// Exactly one of `lex_lt(a, b)`, `lex_lt(b, a)`, `a == b` holds.
pub proof fn lemma_lex_trichotomy(a: Seq<u8>, b: Seq<u8>)
    ensures
        lex_lt(a, b) ==> !lex_lt(b, a) && a != b,
        lex_lt(b, a) ==> !lex_lt(a, b) && a != b,
        !lex_lt(a, b) && !lex_lt(b, a) ==> a == b,
    decreases a.len(),
{
    if a.len() == 0 || b.len() == 0 {
        if a.len() == 0 && b.len() == 0 {
            assert(a =~= b);
        }
    } else if a[0] == b[0] {
        lemma_lex_trichotomy(a.drop_first(), b.drop_first());
        if !lex_lt(a, b) && !lex_lt(b, a) {
            assert(a.drop_first() == b.drop_first());
            assert(a.len() == b.len());
            assert forall|i: int| 0 <= i < a.len() implies a[i] == b[i] by {
                if i > 0 {
                    assert(a[i] == a.drop_first()[i - 1]);
                    assert(b[i] == b.drop_first()[i - 1]);
                }
            }
            assert(a =~= b);
        }
        if a.drop_first() != b.drop_first() {
            assert(a != b) by {
                if a == b {
                    assert(a.drop_first() =~= b.drop_first());
                }
            }
        }
    }
}

/// Lexicographic order is transitive.
pub proof fn lemma_lex_trans(a: Seq<u8>, b: Seq<u8>, c: Seq<u8>)
    requires
        lex_lt(a, b),
        lex_lt(b, c),
    ensures
        lex_lt(a, c),
    decreases a.len() + b.len() + c.len(),
{
    assert(b.len() > 0 && c.len() > 0);
    if a.len() == 0 {
    } else {
        if a[0] < b[0] {
            if b[0] <= c[0] {
            }
        } else {
            assert(a[0] == b[0]);
            if b[0] < c[0] {
            } else {
                assert(b[0] == c[0]);
                lemma_lex_trans(a.drop_first(), b.drop_first(), c.drop_first());
            }
        }
    }
}

/// Three-way comparison result for byte keys.
#[derive(Clone, Copy, PartialEq, Eq, Structural, Debug)]
pub enum KeyOrder {
    Less,
    Equal,
    Greater,
}

/// Byte-lexicographic three-way comparison of two keys.
pub fn key_compare(a: &Vec<u8>, b: &Vec<u8>) -> (r: KeyOrder)
    ensures
        r == KeyOrder::Less <==> lex_lt(a@, b@),
        r == KeyOrder::Greater <==> lex_lt(b@, a@),
        r == KeyOrder::Equal <==> a@ == b@,
{
    let a_len = a.len();
    let b_len = b.len();
    let min_len = if a_len < b_len {
        a_len
    } else {
        b_len
    };
    let mut i: usize = 0;
    while i < min_len
        invariant
            0 <= i <= min_len,
            min_len <= a@.len(),
            min_len <= b@.len(),
            min_len == a@.len() || min_len == b@.len(),
            forall|j: int| 0 <= j < i ==> a@[j] == b@[j],
        decreases min_len - i,
    {
        if a[i] < b[i] {
            proof {
                lemma_lex_skip(a@, b@, i as int);
                lemma_lex_trichotomy(a@, b@);
            }
            return KeyOrder::Less;
        }
        if a[i] > b[i] {
            proof {
                lemma_lex_skip(a@, b@, i as int);
                lemma_lex_trichotomy(a@, b@);
            }
            return KeyOrder::Greater;
        }
        i = i + 1;
    }
    proof {
        lemma_lex_skip(a@, b@, min_len as int);
        lemma_lex_trichotomy(a@, b@);
    }
    if a_len < b_len {
        KeyOrder::Less
    } else if a_len > b_len {
        KeyOrder::Greater
    } else {
        proof {
            assert(a@ =~= b@);
        }
        KeyOrder::Equal
    }
}

/// Overwrites the eight bytes at `buf[off .. off + 8]` with the
/// big-endian form of `v`, leaving every other byte unchanged.
pub fn set_u64_be_at(buf: &mut Vec<u8>, off: usize, v: u64)
    requires
        off + 8 <= old(buf)@.len(),
    ensures
        final(buf)@.len() == old(buf)@.len(),
        final(buf)@.subrange(off as int, off + 8) == u64_be(v),
        forall|i: int|
            0 <= i < old(buf)@.len() && !(off <= i < off + 8) ==> final(buf)@[i] == old(buf)@[i],
{
    let n = buf.len();
    buf.set(off, ((v >> 56) & 0xff) as u8);
    buf.set(off + 1, ((v >> 48) & 0xff) as u8);
    buf.set(off + 2, ((v >> 40) & 0xff) as u8);
    buf.set(off + 3, ((v >> 32) & 0xff) as u8);
    buf.set(off + 4, ((v >> 24) & 0xff) as u8);
    buf.set(off + 5, ((v >> 16) & 0xff) as u8);
    buf.set(off + 6, ((v >> 8) & 0xff) as u8);
    buf.set(off + 7, (v & 0xff) as u8);
    proof {
        assert(buf@.subrange(off as int, off + 8) =~= u64_be(v));
    }
}

/// A fresh byte string holding the same bytes.
pub fn copy_bytes(v: &Vec<u8>) -> (r: Vec<u8>)
    ensures
        r@ == v@,
{
    let mut out: Vec<u8> = Vec::new();
    let mut i: usize = 0;
    let n = v.len();
    while i < n
        invariant
            0 <= i <= n,
            n == v@.len(),
            out@ == v@.subrange(0, i as int),
        decreases n - i,
    {
        out.push(v[i]);
        proof {
            assert(out@ =~= v@.subrange(0, i + 1));
        }
        i = i + 1;
    }
    proof {
        assert(out@ =~= v@);
    }
    out
}

/// True iff the two byte strings hold the same bytes.
pub fn bytes_eq(a: &Vec<u8>, b: &Vec<u8>) -> (r: bool)
    ensures
        r <==> a@ == b@,
{
    match key_compare(a, b) {
        KeyOrder::Equal => true,
        _ => false,
    }
}

} // verus!
