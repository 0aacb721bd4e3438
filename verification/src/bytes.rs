//! Byte-string encodings used for table keys: big-endian fixed-width
//! integers, length-prefixed framing, and the lexicographic order that the
//! backing store sorts its keys by.
use vstd::prelude::*;

verus! {

/// Byte-wise lexicographic order on byte strings: the order in which the
/// backing store's range scans walk their keys.
pub open spec fn lex_le(a: Seq<u8>, b: Seq<u8>) -> bool
    decreases a.len(),
{
    if a.len() == 0 {
        true
    } else if b.len() == 0 {
        false
    } else if a[0] < b[0] {
        true
    } else if a[0] > b[0] {
        false
    } else {
        lex_le(a.drop_first(), b.drop_first())
    }
}

/// `p` is a (not necessarily proper) prefix of `s`.
pub open spec fn starts_with(s: Seq<u8>, p: Seq<u8>) -> bool {
    s.len() >= p.len() && s.take(p.len() as int) == p
}

/// Appending on the right of a common prefix does not disturb the order:
/// comparing `x + a` with `x + b` is comparing `a` with `b`.
pub proof fn lemma_lex_le_append(x: Seq<u8>, a: Seq<u8>, b: Seq<u8>)
    ensures
        lex_le(x + a, x + b) == lex_le(a, b),
    decreases x.len(),
{
    if x.len() == 0 {
        assert(x + a =~= a);
        assert(x + b =~= b);
    } else {
        assert((x + a).drop_first() =~= x.drop_first() + a);
        assert((x + b).drop_first() =~= x.drop_first() + b);
        lemma_lex_le_append(x.drop_first(), a, b);
    }
}

/// Any byte string lying between two extensions of `x` (by a nonempty tail
/// below, any tail above) must itself extend `x`.
pub proof fn lemma_lex_squeeze(x: Seq<u8>, a: Seq<u8>, b: Seq<u8>, y: Seq<u8>)
    requires
        a.len() > 0,
        lex_le(x + a, y),
        lex_le(y, x + b),
    ensures
        y.len() >= x.len(),
        y.take(x.len() as int) == x,
    decreases x.len(),
{
    if x.len() == 0 {
        assert(y.take(0) =~= x);
    } else {
        assert((x + a).len() > 0);
        assert(y.len() > 0) by {
            if y.len() == 0 {
                assert(!lex_le(x + a, y));
            }
        }
        assert((x + a)[0] == x[0]);
        assert((x + b)[0] == x[0]);
        assert(y[0] == x[0]);
        assert((x + a).drop_first() =~= x.drop_first() + a);
        assert((x + b).drop_first() =~= x.drop_first() + b);
        lemma_lex_squeeze(x.drop_first(), a, b, y.drop_first());
        assert(y.take(x.len() as int) =~= x) by {
            assert(y.drop_first().take(x.len() - 1) == x.drop_first());
            assert(forall|i: int|
                1 <= i < x.len() ==> y[i] == #[trigger] y.drop_first()[i - 1]);
            assert(forall|i: int|
                1 <= i < x.len() ==> x.drop_first()[i - 1] == #[trigger] x[i]);
        }
    }
}

/// One comparison step: a shared head byte decides, or defers to the tails.
pub proof fn lemma_lex_le_cons(x: u8, y: u8, a: Seq<u8>, b: Seq<u8>)
    ensures
        lex_le(seq![x] + a, seq![y] + b) == (x < y || (x == y && lex_le(a, b))),
{
    assert((seq![x] + a).drop_first() =~= a);
    assert((seq![y] + b).drop_first() =~= b);
    assert((seq![x] + a)[0] == x);
    assert((seq![y] + b)[0] == y);
}

/// The eight-byte big-endian notation of a height or value.
pub open spec fn be8_bytes(h: u64) -> Seq<u8> {
    seq![
        ((h >> 56) & 0xff) as u8,
        ((h >> 48) & 0xff) as u8,
        ((h >> 40) & 0xff) as u8,
        ((h >> 32) & 0xff) as u8,
        ((h >> 24) & 0xff) as u8,
        ((h >> 16) & 0xff) as u8,
        ((h >> 8) & 0xff) as u8,
        (h & 0xff) as u8,
    ]
}

/// The value an eight-byte big-endian string denotes.
pub open spec fn be8_value(b: Seq<u8>) -> u64
    recommends
        b.len() == 8,
{
    ((b[0] as u64) << 56) | ((b[1] as u64) << 48) | ((b[2] as u64) << 40) | ((b[3] as u64) << 32)
        | ((b[4] as u64) << 24) | ((b[5] as u64) << 16) | ((b[6] as u64) << 8) | (b[7] as u64)
}

/// Reading back an encoded value recovers it.
pub proof fn lemma_be8_round_trip(h: u64)
    ensures
        be8_value(be8_bytes(h)) == h,
{
    assert((((((h >> 56) & 0xff) as u8) as u64) << 56) | (((((h >> 48) & 0xff) as u8) as u64)
        << 48) | (((((h >> 40) & 0xff) as u8) as u64) << 40) | (((((h >> 32) & 0xff) as u8) as u64)
        << 32) | (((((h >> 24) & 0xff) as u8) as u64) << 24) | (((((h >> 16) & 0xff) as u8) as u64)
        << 16) | (((((h >> 8) & 0xff) as u8) as u64) << 8) | (((h & 0xff) as u8) as u64)
        == h) by (bit_vector);
}

/// Encoding the value an eight-byte string denotes gives the string back.
pub proof fn lemma_be8_canonical(b: Seq<u8>)
    requires
        b.len() == 8,
    ensures
        be8_bytes(be8_value(b)) == b,
{
    let x0 = b[0];
    let x1 = b[1];
    let x2 = b[2];
    let x3 = b[3];
    let x4 = b[4];
    let x5 = b[5];
    let x6 = b[6];
    let x7 = b[7];
    assert({
        let w = ((x0 as u64) << 56) | ((x1 as u64) << 48) | ((x2 as u64) << 40) | ((x3 as u64)
            << 32) | ((x4 as u64) << 24) | ((x5 as u64) << 16) | ((x6 as u64) << 8) | (x7 as u64);
        ((w >> 56) & 0xff) as u8 == x0 && ((w >> 48) & 0xff) as u8 == x1 && ((w >> 40)
            & 0xff) as u8 == x2 && ((w >> 32) & 0xff) as u8 == x3 && ((w >> 24) & 0xff) as u8 == x4
            && ((w >> 16) & 0xff) as u8 == x5 && ((w >> 8) & 0xff) as u8 == x6 && (w
            & 0xff) as u8 == x7
    }) by (bit_vector);
    assert(be8_bytes(be8_value(b)) =~= b);
}

/// Big-endian notation respects numeric order, and conversely.
pub proof fn lemma_be8_le(h1: u64, h2: u64)
    ensures
        lex_le(be8_bytes(h1), be8_bytes(h2)) == (h1 <= h2),
{
    let a = be8_bytes(h1);
    let b = be8_bytes(h2);
    let a0 = a[0];
    let a1 = a[1];
    let a2 = a[2];
    let a3 = a[3];
    let a4 = a[4];
    let a5 = a[5];
    let a6 = a[6];
    let a7 = a[7];
    let b0 = b[0];
    let b1 = b[1];
    let b2 = b[2];
    let b3 = b[3];
    let b4 = b[4];
    let b5 = b[5];
    let b6 = b[6];
    let b7 = b[7];
    let ta = seq![a1] + (seq![a2] + (seq![a3] + (seq![a4] + (seq![a5] + (seq![a6] + seq![a7])))));
    let tb = seq![b1] + (seq![b2] + (seq![b3] + (seq![b4] + (seq![b5] + (seq![b6] + seq![b7])))));
    assert(a =~= seq![a0] + ta);
    assert(b =~= seq![b0] + tb);
    lemma_lex_le_cons(a0, b0, ta, tb);
    lemma_lex_le_cons(
        a1,
        b1,
        seq![a2] + (seq![a3] + (seq![a4] + (seq![a5] + (seq![a6] + seq![a7])))),
        seq![b2] + (seq![b3] + (seq![b4] + (seq![b5] + (seq![b6] + seq![b7])))),
    );
    lemma_lex_le_cons(
        a2,
        b2,
        seq![a3] + (seq![a4] + (seq![a5] + (seq![a6] + seq![a7]))),
        seq![b3] + (seq![b4] + (seq![b5] + (seq![b6] + seq![b7]))),
    );
    lemma_lex_le_cons(
        a3,
        b3,
        seq![a4] + (seq![a5] + (seq![a6] + seq![a7])),
        seq![b4] + (seq![b5] + (seq![b6] + seq![b7])),
    );
    lemma_lex_le_cons(a4, b4, seq![a5] + (seq![a6] + seq![a7]), seq![b5] + (seq![b6] + seq![b7]));
    lemma_lex_le_cons(a5, b5, seq![a6] + seq![a7], seq![b6] + seq![b7]);
    lemma_lex_le_cons(a6, b6, seq![a7], seq![b7]);
    lemma_lex_le_cons(a7, b7, Seq::empty(), Seq::empty());
    assert(seq![a7] + Seq::<u8>::empty() =~= seq![a7]);
    assert(seq![b7] + Seq::<u8>::empty() =~= seq![b7]);
    assert(lex_le(a, b) == (a0 < b0 || (a0 == b0 && (a1 < b1 || (a1 == b1 && (a2 < b2 || (a2 == b2
        && (a3 < b3 || (a3 == b3 && (a4 < b4 || (a4 == b4 && (a5 < b5 || (a5 == b5 && (a6 < b6 || (
    a6 == b6 && (a7 < b7 || (a7 == b7 && true)))))))))))))))));
    assert({
        let c0 = ((h1 >> 56) & 0xff) as u8;
        let c1 = ((h1 >> 48) & 0xff) as u8;
        let c2 = ((h1 >> 40) & 0xff) as u8;
        let c3 = ((h1 >> 32) & 0xff) as u8;
        let c4 = ((h1 >> 24) & 0xff) as u8;
        let c5 = ((h1 >> 16) & 0xff) as u8;
        let c6 = ((h1 >> 8) & 0xff) as u8;
        let c7 = (h1 & 0xff) as u8;
        let d0 = ((h2 >> 56) & 0xff) as u8;
        let d1 = ((h2 >> 48) & 0xff) as u8;
        let d2 = ((h2 >> 40) & 0xff) as u8;
        let d3 = ((h2 >> 32) & 0xff) as u8;
        let d4 = ((h2 >> 24) & 0xff) as u8;
        let d5 = ((h2 >> 16) & 0xff) as u8;
        let d6 = ((h2 >> 8) & 0xff) as u8;
        let d7 = (h2 & 0xff) as u8;
        (c0 < d0 || (c0 == d0 && (c1 < d1 || (c1 == d1 && (c2 < d2 || (c2 == d2 && (c3 < d3 || (c3
            == d3 && (c4 < d4 || (c4 == d4 && (c5 < d5 || (c5 == d5 && (c6 < d6 || (c6 == d6 && (c7
            < d7 || (c7 == d7 && true)))))))))))))))) == (h1 <= h2)
    }) by (bit_vector);
}

/// The two-byte big-endian notation of a length.
pub open spec fn be2_bytes(l: u64) -> Seq<u8> {
    seq![((l >> 8) & 0xff) as u8, (l & 0xff) as u8]
}

/// The longest key or namespace a two-byte length prefix can frame.
pub open spec fn max_framed_len() -> nat {
    0xFFFF
}

pub proof fn lemma_be2_inj(l1: u64, l2: u64)
    requires
        l1 <= 0xFFFF,
        l2 <= 0xFFFF,
        be2_bytes(l1) == be2_bytes(l2),
    ensures
        l1 == l2,
{
    assert(be2_bytes(l1)[0] == be2_bytes(l2)[0]);
    assert(be2_bytes(l1)[1] == be2_bytes(l2)[1]);
    assert((((l1 >> 8) & 0xff) as u8 == ((l2 >> 8) & 0xff) as u8 && (l1 & 0xff) as u8 == (l2
        & 0xff) as u8 && l1 <= 0xFFFF && l2 <= 0xFFFF) ==> l1 == l2) by (bit_vector);
}

/// Length-prefixed framing of a byte string: a two-byte big-endian length,
/// then the bytes themselves. Framed strings can stand side by side in one
/// byte key without ambiguity, which keeps distinct table regions and
/// distinct keys apart.
pub open spec fn lenpfx(s: Seq<u8>) -> Seq<u8> {
    be2_bytes(s.len() as u64) + s
}

/// Framed concatenation is injective in its first component: whenever two
/// framed strings agree as prefixes of one byte string, the strings agree.
pub proof fn lemma_lenpfx_frame(a: Seq<u8>, b: Seq<u8>, x: Seq<u8>, y: Seq<u8>)
    requires
        a.len() <= max_framed_len(),
        b.len() <= max_framed_len(),
        lenpfx(a) + x == lenpfx(b) + y,
    ensures
        a == b,
        x == y,
{
    let la = lenpfx(a) + x;
    let lb = lenpfx(b) + y;
    assert(be2_bytes(a.len() as u64) =~= la.take(2));
    assert(be2_bytes(b.len() as u64) =~= lb.take(2));
    lemma_be2_inj(a.len() as u64, b.len() as u64);
    assert(a =~= la.subrange(2, 2 + a.len() as int));
    assert(b =~= lb.subrange(2, 2 + b.len() as int));
    assert(x =~= la.subrange(2 + a.len() as int, la.len() as int));
    assert(y =~= lb.subrange(2 + b.len() as int, lb.len() as int));
}

/// A byte string that begins with the frame of `b`, and whose own first
/// framed component is `a`, forces `a == b`.
pub proof fn lemma_lenpfx_prefix_frame(a: Seq<u8>, b: Seq<u8>, x: Seq<u8>)
    requires
        a.len() <= max_framed_len(),
        b.len() <= max_framed_len(),
        starts_with(lenpfx(a) + x, lenpfx(b)),
    ensures
        a == b,
{
    let la = lenpfx(a) + x;
    assert(be2_bytes(a.len() as u64) =~= la.take(2));
    assert(be2_bytes(b.len() as u64) =~= lenpfx(b).take(2));
    assert(lenpfx(b).take(2) =~= la.take(lenpfx(b).len() as int).take(2));
    assert(la.take(lenpfx(b).len() as int).take(2) =~= la.take(2));
    lemma_be2_inj(a.len() as u64, b.len() as u64);
    assert(a =~= la.subrange(2, 2 + a.len() as int));
    assert(lenpfx(b) == la.take(lenpfx(b).len() as int));
    assert(b =~= lenpfx(b).subrange(2, 2 + b.len() as int));
    assert(la.take(lenpfx(b).len() as int).subrange(2, 2 + b.len() as int) =~= la.subrange(
        2,
        2 + b.len() as int,
    ));
}

/// Appends the bytes of `src` to `out`.
pub fn append_bytes(out: &mut Vec<u8>, src: &Vec<u8>)
    ensures
        final(out)@ == old(out)@ + src@,
{
    let mut i: usize = 0;
    while i < src.len()
        invariant
            i <= src.len(),
            out@ == old(out)@ + src@.take(i as int),
        decreases src.len() - i,
    {
        out.push(src[i]);
        assert(old(out)@ + src@.take(i as int) + seq![src@[i as int]] =~= old(out)@ + src@.take(
            i + 1,
        ));
        i += 1;
    }
    assert(src@.take(src@.len() as int) =~= src@);
}

/// Appends the eight-byte big-endian notation of `h` to `out`.
pub fn append_be8(out: &mut Vec<u8>, h: u64)
    ensures
        final(out)@ == old(out)@ + be8_bytes(h),
{
    out.push(((h >> 56) & 0xff) as u8);
    out.push(((h >> 48) & 0xff) as u8);
    out.push(((h >> 40) & 0xff) as u8);
    out.push(((h >> 32) & 0xff) as u8);
    out.push(((h >> 24) & 0xff) as u8);
    out.push(((h >> 16) & 0xff) as u8);
    out.push(((h >> 8) & 0xff) as u8);
    out.push((h & 0xff) as u8);
    assert(out@ =~= old(out)@ + be8_bytes(h));
}

/// Appends the two-byte big-endian length of `src`, then `src` itself.
pub fn append_framed(out: &mut Vec<u8>, src: &Vec<u8>)
    requires
        src@.len() <= max_framed_len(),
    ensures
        final(out)@ == old(out)@ + lenpfx(src@),
{
    let l = src.len() as u64;
    out.push(((l >> 8) & 0xff) as u8);
    out.push((l & 0xff) as u8);
    assert(out@ =~= old(out)@ + be2_bytes(src@.len() as u64));
    append_bytes(out, src);
    assert(old(out)@ + be2_bytes(src@.len() as u64) + src@ =~= old(out)@ + lenpfx(src@));
}

/// Reads back an eight-byte big-endian value; `None` unless exactly eight
/// bytes are given.
pub fn read_be8(b: &Vec<u8>) -> (r: Option<u64>)
    ensures
        match r {
            Some(v) => b@.len() == 8 && b@ == be8_bytes(v),
            None => b@.len() != 8,
        },
{
    if b.len() != 8 {
        return None;
    }
    let v = ((b[0] as u64) << 56) | ((b[1] as u64) << 48) | ((b[2] as u64) << 40) | ((
    b[3] as u64) << 32) | ((b[4] as u64) << 24) | ((b[5] as u64) << 16) | ((b[6] as u64) << 8) | (
    b[7] as u64);
    proof {
        assert(v == be8_value(b@));
        lemma_be8_canonical(b@);
    }
    Some(v)
}

} // verus!
