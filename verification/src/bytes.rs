//! Little-endian integer encoding on byte sequences, shared by every binary
//! container format in the crate.
use vstd::prelude::*;

verus! {

/// The value of the little-endian `u16` stored at `s[i..i + 2]`.
pub open spec fn le_u16(s: Seq<u8>, i: int) -> nat {
    (s[i] as nat) + 256 * (s[i + 1] as nat)
}

/// The value of the little-endian `u32` stored at `s[i..i + 4]`.
pub open spec fn le_u32(s: Seq<u8>, i: int) -> nat {
    (s[i] as nat) + 256 * ((s[i + 1] as nat) + 256 * ((s[i + 2] as nat) + 256 * (s[i + 3] as nat)))
}

/// The value of the little-endian `u64` stored at `s[i..i + 8]`.
pub open spec fn le_u64(s: Seq<u8>, i: int) -> nat {
    le_u32(s, i) + 4294967296 * le_u32(s, i + 4)
}

/// The four little-endian bytes of `x`.
pub open spec fn u32_le(x: u32) -> Seq<u8> {
    seq![
        (x % 256) as u8,
        ((x / 256) % 256) as u8,
        ((x / 65536) % 256) as u8,
        ((x / 16777216) % 256) as u8,
    ]
}

/// The eight little-endian bytes of `x`.
pub open spec fn u64_le(x: u64) -> Seq<u8> {
    u32_le((x % 4294967296) as u32) + u32_le((x / 4294967296) as u32)
}

/// Reading back the four bytes of `x` gives `x`.
pub proof fn lemma_u32_le_roundtrip(x: u32, pre: Seq<u8>, post: Seq<u8>)
    ensures
        (pre + u32_le(x) + post).len() == pre.len() + 4 + post.len(),
        le_u32(pre + u32_le(x) + post, pre.len() as int) == x,
{
    let s = pre + u32_le(x) + post;
    let i = pre.len() as int;
    assert(s[i] == u32_le(x)[0]);
    assert(s[i + 1] == u32_le(x)[1]);
    assert(s[i + 2] == u32_le(x)[2]);
    assert(s[i + 3] == u32_le(x)[3]);
    let b0 = (x % 256) as nat;
    let b1 = ((x / 256) % 256) as nat;
    let b2 = ((x / 65536) % 256) as nat;
    let b3 = ((x / 16777216) % 256) as nat;
    assert(b0 + 256 * (b1 + 256 * (b2 + 256 * b3)) == x as nat) by (nonlinear_arith)
        requires
            b0 == (x % 256) as nat,
            b1 == ((x / 256) % 256) as nat,
            b2 == ((x / 65536) % 256) as nat,
            b3 == ((x / 16777216) % 256) as nat,
            x < 4294967296,
    {
        assert(x as nat == (x % 256) as nat + 256 * ((x / 256) as nat));
        assert((x / 256) as nat == b1 + 256 * ((x / 65536) as nat));
        assert((x / 65536) as nat == b2 + 256 * ((x / 16777216) as nat));
        assert((x / 16777216) as nat == b3);
    }
}

/// Reading back the eight bytes of `x` gives `x`.
pub proof fn lemma_u64_le_roundtrip(x: u64, pre: Seq<u8>, post: Seq<u8>)
    ensures
        (pre + u64_le(x) + post).len() == pre.len() + 8 + post.len(),
        le_u64(pre + u64_le(x) + post, pre.len() as int) == x,
{
    let lo = (x % 4294967296) as u32;
    let hi = (x / 4294967296) as u32;
    assert(pre + u64_le(x) + post == pre + u32_le(lo) + (u32_le(hi) + post));
    lemma_u32_le_roundtrip(lo, pre, u32_le(hi) + post);
    assert(pre + u64_le(x) + post == (pre + u32_le(lo)) + u32_le(hi) + post);
    lemma_u32_le_roundtrip(hi, pre + u32_le(lo), post);
    assert(x as nat == lo as nat + 4294967296 * (hi as nat));
}

/// The little-endian `u16` at `bytes[off..off + 2]`.
pub fn read_u16_le(bytes: &[u8], off: usize) -> (r: u16)
    requires
        off + 2 <= bytes@.len(),
    ensures
        r == le_u16(bytes@, off as int),
{
    let b0 = bytes[off];
    let b1 = bytes[off + 1];
    let r = (b0 as u16) | ((b1 as u16) << 8u16);
    assert(r == (b0 as u16) + 256 * (b1 as u16)) by (bit_vector)
        requires
            r == (b0 as u16) | ((b1 as u16) << 8u16),
    ;
    r
}

/// The little-endian `u32` at `bytes[off..off + 4]`.
pub fn read_u32_le(bytes: &[u8], off: usize) -> (r: u32)
    requires
        off + 4 <= bytes@.len(),
    ensures
        r == le_u32(bytes@, off as int),
{
    let b0 = bytes[off];
    let b1 = bytes[off + 1];
    let b2 = bytes[off + 2];
    let b3 = bytes[off + 3];
    let r = (b0 as u32) | ((b1 as u32) << 8u32) | ((b2 as u32) << 16u32) | ((b3 as u32) << 24u32);
    assert(r == (b0 as u32) + 256 * ((b1 as u32) + 256 * ((b2 as u32) + 256 * (b3 as u32))))
        by (bit_vector)
        requires
            r == (b0 as u32) | ((b1 as u32) << 8u32) | ((b2 as u32) << 16u32) | ((b3 as u32) << 24u32),
    ;
    r
}

/// The little-endian `u64` at `bytes[off..off + 8]`.
pub fn read_u64_le(bytes: &[u8], off: usize) -> (r: u64)
    requires
        off + 8 <= bytes@.len(),
    ensures
        r == le_u64(bytes@, off as int),
{
    let lo = read_u32_le(bytes, off);
    assert(bytes@.len() == bytes.len());
    let hi = read_u32_le(bytes, off + 4);
    (lo as u64) + (hi as u64) * 4294967296u64
}

/// Appends the four little-endian bytes of `x`.
pub fn push_u32_le(out: &mut Vec<u8>, x: u32)
    ensures
        final(out)@ == old(out)@ + u32_le(x),
{
    out.push((x % 256) as u8);
    out.push(((x / 256) % 256) as u8);
    out.push(((x / 65536) % 256) as u8);
    out.push(((x / 16777216) % 256) as u8);
    assert(out@ =~= old(out)@ + u32_le(x));
}

/// Appends the eight little-endian bytes of `x`.
pub fn push_u64_le(out: &mut Vec<u8>, x: u64)
    ensures
        final(out)@ == old(out)@ + u64_le(x),
{
    push_u32_le(out, (x % 4294967296) as u32);
    push_u32_le(out, (x / 4294967296) as u32);
    assert(out@ =~= old(out)@ + u64_le(x));
}

/// Appends all of `src`.
pub fn push_all(out: &mut Vec<u8>, src: &[u8])
    ensures
        final(out)@ == old(out)@ + src@,
{
    let mut i: usize = 0;
    while i < src.len()
        invariant
            i <= src@.len(),
            out@ == old(out)@ + src@.subrange(0, i as int),
        decreases src@.len() - i,
    {
        out.push(src[i]);
        assert(src@.subrange(0, i + 1) == src@.subrange(0, i as int).push(src@[i as int]));
        i += 1;
    }
    assert(src@.subrange(0, src@.len() as int) == src@);
}

/// A copy of `bytes[start..end]`.
pub fn copy_range(bytes: &[u8], start: usize, end: usize) -> (r: Vec<u8>)
    requires
        start <= end <= bytes@.len(),
    ensures
        r@ == bytes@.subrange(start as int, end as int),
{
    let mut out: Vec<u8> = Vec::new();
    let mut i: usize = start;
    while i < end
        invariant
            start <= i <= end <= bytes@.len(),
            out@ == bytes@.subrange(start as int, i as int),
        decreases end - i,
    {
        out.push(bytes[i]);
        assert(bytes@.subrange(start as int, i + 1) == bytes@.subrange(start as int, i as int).push(
            bytes@[i as int],
        ));
        i += 1;
    }
    out
}

/// Little-endian bytes of a sequence of words, in order.
pub open spec fn words_le(v: Seq<u32>) -> Seq<u8>
    decreases v.len(),
{
    if v.len() == 0 {
        Seq::empty()
    } else {
        words_le(v.drop_last()) + u32_le(v.last())
    }
}

/// The `k` little-endian words stored from byte `at` on.
pub open spec fn words_at(b: Seq<u8>, at: int, k: int) -> Seq<u32> {
    Seq::new(k as nat, |i: int| le_u32(b, at + 4 * i) as u32)
}

/// Every word takes four bytes.
pub proof fn lemma_words_le_len(v: Seq<u32>)
    ensures
        words_le(v).len() == 4 * v.len(),
    decreases v.len(),
{
    if v.len() > 0 {
        lemma_words_le_len(v.drop_last());
    }
}

/// The bytes of a concatenation are the concatenated bytes.
pub proof fn lemma_words_le_concat(a: Seq<u32>, b: Seq<u32>)
    ensures
        words_le(a + b) == words_le(a) + words_le(b),
    decreases b.len(),
{
    if b.len() == 0 {
        assert(a + b == a);
        assert(words_le(b) == Seq::<u8>::empty());
        assert(words_le(a) + words_le(b) == words_le(a));
    } else {
        assert((a + b).drop_last() == a + b.drop_last());
        assert((a + b).last() == b.last());
        lemma_words_le_concat(a, b.drop_last());
        assert(words_le(a + b) == words_le(a + b.drop_last()) + u32_le(b.last()));
        assert(words_le(a) + words_le(b) == words_le(a) + (words_le(b.drop_last()) + u32_le(
            b.last(),
        )));
    }
}

/// Reading back the words of `v`, wherever they sit, gives `v`.
pub proof fn lemma_words_roundtrip(v: Seq<u32>, pre: Seq<u8>, post: Seq<u8>)
    ensures
        words_at(pre + words_le(v) + post, pre.len() as int, v.len() as int) == v,
        words_le(v).len() == 4 * v.len(),
{
    lemma_words_le_len(v);
    let s = pre + words_le(v) + post;
    assert forall|i: int| 0 <= i < v.len() implies #[trigger] words_at(
        s,
        pre.len() as int,
        v.len() as int,
    )[i] == v[i] by {
        let a = v.take(i);
        let rest = v.skip(i + 1);
        assert(v == a + seq![v[i]] + rest);
        lemma_words_le_concat(a + seq![v[i]], rest);
        lemma_words_le_concat(a, seq![v[i]]);
        assert(seq![v[i]].drop_last() == Seq::<u32>::empty());
        assert(words_le(seq![v[i]]) == words_le(Seq::<u32>::empty()) + u32_le(v[i]));
        assert(words_le(seq![v[i]]) == u32_le(v[i]));
        lemma_words_le_len(a);
        let pre2 = pre + words_le(a);
        let post2 = words_le(rest) + post;
        assert(s == pre2 + u32_le(v[i]) + post2);
        lemma_u32_le_roundtrip(v[i], pre2, post2);
        assert(pre2.len() == pre.len() + 4 * i);
    }
    assert(words_at(s, pre.len() as int, v.len() as int) =~= v);
}

/// Appends the little-endian bytes of every word of `v`.
pub fn push_words(out: &mut Vec<u8>, v: &[u32])
    ensures
        final(out)@ == old(out)@ + words_le(v@),
{
    let mut i: usize = 0;
    while i < v.len()
        invariant
            i <= v@.len(),
            out@ == old(out)@ + words_le(v@.subrange(0, i as int)),
        decreases v@.len() - i,
    {
        push_u32_le(out, v[i]);
        proof {
            let s = v@.subrange(0, i + 1);
            assert(s.drop_last() == v@.subrange(0, i as int));
            assert(s.last() == v@[i as int]);
            assert(out@ == old(out)@ + words_le(s));
        }
        i += 1;
    }
    assert(v@.subrange(0, v@.len() as int) == v@);
}

/// The `k` little-endian words stored from byte `at` on.
pub fn read_words(bytes: &[u8], at: usize, k: usize) -> (r: Vec<u32>)
    requires
        at + 4 * k <= bytes@.len(),
    ensures
        r@ == words_at(bytes@, at as int, k as int),
{
    let mut out: Vec<u32> = Vec::new();
    let mut i: usize = 0;
    assert(bytes@.len() == bytes.len());
    while i < k
        invariant
            i <= k,
            bytes@.len() == bytes.len(),
            at + 4 * k <= bytes@.len(),
            out@ == words_at(bytes@, at as int, i as int),
        decreases k - i,
    {
        let w = read_u32_le(bytes, at + 4 * i);
        out.push(w);
        assert(out@ =~= words_at(bytes@, at as int, i + 1));
        i += 1;
    }
    out
}

} // verus!
