//! Codebook-index streams of the MesonGS++ container: the symbol
//! histograms that the entropy models are rebuilt from, and the framing
//! that carries them with the range coder's words.
//!
//! Layout, all little-endian `u32`: alphabet size `k`, dense context size
//! `kk = min(k, 256)`, `k` marginal counts, `kk * kk` transition counts,
//! the number of coder words, the words, and the number of symbols.
use vstd::prelude::*;
use crate::bytes::{le_u32, u32_le, words_le, words_at, read_u32_le, read_words, push_u32_le, push_words,
    lemma_u32_le_roundtrip, lemma_words_roundtrip, lemma_words_le_len};
use crate::meson::MesonError;

verus! {

/// The message of a read that runs past the end of the data.
pub open spec fn eof_message() -> Seq<char> {
    "failed to fill whole buffer"@
}

/// How often `s` occurs in `codes`.
pub open spec fn count_sym(codes: Seq<u16>, s: int) -> nat
    decreases codes.len(),
{
    if codes.len() == 0 {
        0
    } else {
        count_sym(codes.drop_last(), s) + if codes.last() as int == s {
            1nat
        } else {
            0nat
        }
    }
}

/// A symbol clamped into the dense context table.
pub open spec fn ctx(c: u16, kk: int) -> int {
    if (c as int) < kk - 1 {
        c as int
    } else {
        kk - 1
    }
}

/// How often symbol `c` directly follows symbol `p` in `codes`, both
/// clamped to the context table.
pub open spec fn count_pair(codes: Seq<u16>, kk: int, p: int, c: int) -> nat
    decreases codes.len(),
{
    if codes.len() < 2 {
        0
    } else {
        let n = codes.len();
        count_pair(codes.drop_last(), kk, p, c) + if ctx(codes[n - 2], kk) == p && ctx(codes[n - 1], kk) == c {
            1nat
        } else {
            0nat
        }
    }
}

/// The dense context size for an alphabet of `k` symbols.
pub open spec fn dense_size(k: int) -> int {
    if k < 256 {
        k
    } else {
        256
    }
}

/// Add-one smoothed histograms of a symbol stream: `marg[s]` is one more
/// than the occurrences of `s`; `cond[p * kk + c]` is one more than the
/// transitions from `p` to `c` (clamped to the dense table).
pub fn index_histograms(codes: &[u16], k: usize) -> (r: (Vec<u64>, Vec<u32>))
    requires
        k >= 1,
        codes@.len() < u32::MAX,
        forall|i: int| 0 <= i < codes@.len() ==> (#[trigger] codes@[i] as int) < k,
    ensures
        r.0@.len() == k,
        forall|s: int| 0 <= s < k ==> #[trigger] r.0@[s] == 1 + count_sym(codes@, s),
        r.1@.len() == dense_size(k as int) * dense_size(k as int),
        forall|p: int, c: int|
            0 <= p < dense_size(k as int) && 0 <= c < dense_size(k as int) ==> #[trigger] r.1@[p
                * dense_size(k as int) + c] == 1 + count_pair(codes@, dense_size(k as int), p, c),
{
    let n = codes.len();
    let mut marg: Vec<u64> = Vec::new();
    let mut i: usize = 0;
    while i < k
        invariant
            i <= k,
            marg@.len() == i,
            forall|s: int| 0 <= s < i ==> #[trigger] marg@[s] == 1,
        decreases k - i,
    {
        marg.push(1);
        i += 1;
    }
    let mut i: usize = 0;
    while i < n
        invariant
            n == codes@.len(),
            n < u32::MAX,
            i <= n,
            marg@.len() == k,
            forall|j: int| 0 <= j < n ==> (#[trigger] codes@[j] as int) < k,
            forall|s: int| 0 <= s < k ==> #[trigger] marg@[s] == 1 + count_sym(codes@.take(i as int), s),
            forall|s: int| 0 <= s < k ==> #[trigger] count_sym(codes@.take(i as int), s) <= i,
        decreases n - i,
    {
        let c = codes[i] as usize;
        proof {
            let t = codes@.take(i + 1);
            assert(t.drop_last() == codes@.take(i as int));
            assert(t.last() == codes@[i as int]);
        }
        let ghost t0 = codes@.take(i as int);
        let old_v = marg[c];
        marg.set(c, old_v + 1);
        i += 1;
        proof {
            let t1 = codes@.take(i as int);
            assert(t1.drop_last() == t0);
            assert forall|s: int| 0 <= s < k implies #[trigger] count_sym(t1, s) <= i by {
                assert(count_sym(t0, s) <= i - 1);
            }
        }
    }
    assert(codes@.take(n as int) == codes@);
    let kk: usize = if k < 256 { k } else { 256 };
    assert(kk * kk <= 65536) by (nonlinear_arith)
        requires
            1 <= kk <= 256,
    ;
    let total = kk * kk;
    let mut cond: Vec<u32> = Vec::new();
    let mut i: usize = 0;
    while i < total
        invariant
            1 <= kk <= 256,
            total == kk * kk,
            i <= kk * kk,
            cond@.len() == i,
            forall|s: int| 0 <= s < i ==> #[trigger] cond@[s] == 1,
        decreases total - i,
    {
        cond.push(1);
        i += 1;
    }
    if n == 0 {
        assert forall|p: int, c: int| 0 <= p < kk && 0 <= c < kk implies #[trigger] cond@[p * kk + c]
            == 1 + count_pair(codes@, kk as int, p, c) by {
            assert(0 <= p * kk + c < kk * kk) by (nonlinear_arith)
                requires
                    0 <= p < kk,
                    0 <= c < kk,
            {
                assert(p * kk + c < (p + 1) * kk);
                assert((p + 1) * kk <= kk * kk);
            }
        }
        return (marg, cond);
    }
    proof {
        assert forall|p: int, c: int| 0 <= p < kk && 0 <= c < kk implies #[trigger] cond@[p * kk + c]
            == 1 + count_pair(codes@.take(1), kk as int, p, c) by {
            assert(0 <= p * kk + c < kk * kk) by (nonlinear_arith)
                requires
                    0 <= p < kk,
                    0 <= c < kk,
            {
                assert(p * kk + c < (p + 1) * kk);
                assert((p + 1) * kk <= kk * kk);
            }
        }
    }
    let mut i: usize = 1;
    while i < n
        invariant
            n == codes@.len(),
            n < u32::MAX,
            1 <= i <= n,
            1 <= kk <= 256,
            kk as int == dense_size(k as int),
            cond@.len() == kk * kk,
            forall|p: int, c: int|
                0 <= p < kk && 0 <= c < kk ==> #[trigger] cond@[p * kk + c] == 1 + count_pair(
                    codes@.take(i as int),
                    kk as int,
                    p,
                    c,
                ),
            forall|p: int, c: int|
                0 <= p < kk && 0 <= c < kk ==> #[trigger] count_pair(codes@.take(i as int), kk as int, p, c) < i,
        decreases n - i,
    {
        let a = codes[i - 1];
        let b = codes[i];
        let p: usize = if (a as usize) < kk - 1 { a as usize } else { kk - 1 };
        let c: usize = if (b as usize) < kk - 1 { b as usize } else { kk - 1 };
        proof {
            let t = codes@.take(i + 1);
            assert(t.drop_last() == codes@.take(i as int));
            assert(t[t.len() - 2] == a);
            assert(t[t.len() - 1] == b);
            assert(p * kk + c < kk * kk) by (nonlinear_arith)
                requires
                    p < kk,
                    c < kk,
            ;
        }
        let ghost before = cond@;
        let ghost t0 = codes@.take(i as int);
        assert(p * kk + c < 65536) by (nonlinear_arith)
            requires
                p < kk,
                c < kk,
                kk <= 256,
        {
            assert(p * kk + c < (p + 1) * kk);
            assert((p + 1) * kk <= kk * kk);
        }
        let old_v = cond[p * kk + c];
        cond.set(p * kk + c, old_v + 1);
        i += 1;
        proof {
            let t1 = codes@.take(i as int);
            assert(t1.drop_last() == t0);
            assert forall|p2: int, c2: int| 0 <= p2 < kk && 0 <= c2 < kk implies #[trigger] cond@[p2 * kk + c2]
                == 1 + count_pair(t1, kk as int, p2, c2) by {
                if p2 != p || c2 != c {
                    assert(p2 * kk + c2 != p * kk + c) by (nonlinear_arith)
                        requires
                            p2 != p || c2 != c,
                            0 <= c2 < kk,
                            0 <= c < kk,
                            0 <= p2,
                            0 <= p,
                    {
                        if p2 < p {
                            assert(p2 * kk + c2 < (p2 + 1) * kk);
                            assert((p2 + 1) * kk <= p * kk);
                        } else if p2 > p {
                            assert(p * kk + c < (p + 1) * kk);
                            assert((p + 1) * kk <= p2 * kk);
                        }
                    }
                    assert(0 <= p2 * kk + c2 < kk * kk) by (nonlinear_arith)
                        requires
                            0 <= p2 < kk,
                            0 <= c2 < kk,
                    {
                        assert(p2 * kk + c2 < (p2 + 1) * kk);
                        assert((p2 + 1) * kk <= kk * kk);
                    }
                    assert(before[p2 * kk + c2] == cond@[p2 * kk + c2]);
                }
            }
            assert forall|p2: int, c2: int| 0 <= p2 < kk && 0 <= c2 < kk implies #[trigger] count_pair(
                t1,
                kk as int,
                p2,
                c2,
            ) < i by {
                assert(count_pair(t0, kk as int, p2, c2) < i - 1);
            }
        }
    }
    assert(codes@.take(n as int) == codes@);
    (marg, cond)
}

/// An index stream as carried in the container.
#[derive(Debug, Clone)]
pub struct IndexStream {
    /// Alphabet size.
    pub k: u32,
    /// Dense context size.
    pub kk: u32,
    /// Marginal counts, `k` of them.
    pub marg: Vec<u32>,
    /// Transition counts, `kk * kk` of them, row `p` for predecessor `p`.
    pub cond: Vec<u32>,
    /// The range coder's compressed words.
    pub words: Vec<u32>,
    /// Number of coded symbols.
    pub n_codes: u32,
}

/// The bytes of an index stream.
pub open spec fn stream_bytes(s: IndexStream) -> Seq<u8> {
    u32_le(s.k) + u32_le(s.kk) + words_le(s.marg@) + words_le(s.cond@) + u32_le(s.words@.len() as u32)
        + words_le(s.words@) + u32_le(s.n_codes)
}

/// The marginal counts as written: each saturated to `u32::MAX`.
pub open spec fn saturated(v: Seq<u64>) -> Seq<u32> {
    Seq::new(v.len(), |i: int| if v[i] > u32::MAX { u32::MAX } else { v[i] as u32 })
}

/// Saturates 64-bit counts to `u32`.
pub fn saturate_counts(v: &Vec<u64>) -> (r: Vec<u32>)
    ensures
        r@ == saturated(v@),
{
    let mut out: Vec<u32> = Vec::new();
    let mut i: usize = 0;
    while i < v.len()
        invariant
            i <= v@.len(),
            out@ == saturated(v@).take(i as int),
        decreases v@.len() - i,
    {
        let x = v[i];
        out.push(if x > 4294967295u64 { 4294967295u32 } else { x as u32 });
        i += 1;
        assert(out@ =~= saturated(v@).take(i as int));
    }
    assert(saturated(v@).take(v@.len() as int) =~= saturated(v@));
    out
}

/// The bytes of an index stream; the word count is stored modulo 2^32.
pub fn encode_index_stream(s: &IndexStream) -> (r: Vec<u8>)
    ensures
        r@ == stream_bytes(*s),
{
    let mut out: Vec<u8> = Vec::new();
    push_u32_le(&mut out, s.k);
    push_u32_le(&mut out, s.kk);
    push_words(&mut out, s.marg.as_slice());
    push_words(&mut out, s.cond.as_slice());
    push_u32_le(&mut out, s.words.len() as u32);
    push_words(&mut out, s.words.as_slice());
    push_u32_le(&mut out, s.n_codes);
    assert(out@ =~= stream_bytes(*s));
    out
}

/// Where the transition counts start, end, and where the words end, for
/// the sizes stored in `b`.
pub open spec fn cond_at(b: Seq<u8>) -> int {
    8 + 4 * (le_u32(b, 0) as int)
}

pub open spec fn words_count_at(b: Seq<u8>) -> int {
    cond_at(b) + 4 * (le_u32(b, 4) * le_u32(b, 4))
}

pub open spec fn codes_count_at(b: Seq<u8>) -> int {
    words_count_at(b) + 4 + 4 * le_u32(b, words_count_at(b))
}

/// `b` is long enough for every field its sizes announce.
pub open spec fn stream_fits(b: Seq<u8>) -> bool {
    &&& b.len() >= 8
    &&& b.len() >= words_count_at(b) + 4
    &&& b.len() >= codes_count_at(b) + 4
}

/// `s` holds the fields stored in `b`.
pub open spec fn stream_read(b: Seq<u8>, s: IndexStream) -> bool {
    &&& s.k == le_u32(b, 0)
    &&& s.kk == le_u32(b, 4)
    &&& s.marg@ == words_at(b, 8, le_u32(b, 0) as int)
    &&& s.cond@ == words_at(b, cond_at(b), (le_u32(b, 4) * le_u32(b, 4)) as int)
    &&& s.words@ == words_at(b, words_count_at(b) + 4, le_u32(b, words_count_at(b)) as int)
    &&& s.n_codes == le_u32(b, codes_count_at(b))
}

fn eof_error() -> (e: MesonError)
    ensures
        e matches MesonError::Io(m) && m@ == eof_message(),
{
    MesonError::Io(crate::text::lit("failed to fill whole buffer"))
}

/// Reads an index stream. An empty stream holds no symbols (`None`); a
/// stream shorter than the sizes it announces is an `Io` error.
pub fn decode_index_stream(bytes: &[u8]) -> (r: Result<Option<IndexStream>, MesonError>)
    ensures
        bytes@.len() == 0 ==> r matches Ok(None),
        bytes@.len() > 0 && stream_fits(bytes@) ==> (r matches Ok(Some(s)) && stream_read(bytes@, s)),
        bytes@.len() > 0 && !stream_fits(bytes@) ==> (r matches Err(MesonError::Io(m)) && m@ == eof_message()),
{
    let len = bytes.len();
    if len == 0 {
        return Ok(None);
    }
    if len < 8 {
        return Err(eof_error());
    }
    let k = read_u32_le(bytes, 0);
    let kk = read_u32_le(bytes, 4);
    let wide_len: u128 = len as u128;
    let cond_at_w: u128 = 8 + 4 * (k as u128);
    assert((kk as int) * (kk as int) <= 0xFFFF_FFFE_0000_0001) by (nonlinear_arith)
        requires
            kk <= 0xFFFF_FFFF,
    ;
    let words_count_at_w: u128 = cond_at_w + 4 * ((kk as u128) * (kk as u128));
    if wide_len < words_count_at_w + 4 {
        return Err(eof_error());
    }
    let wc_at = words_count_at_w as usize;
    let nw = read_u32_le(bytes, wc_at);
    let codes_at_w: u128 = words_count_at_w + 4 + 4 * (nw as u128);
    if wide_len < codes_at_w + 4 {
        return Err(eof_error());
    }
    let c_at = cond_at_w as usize;
    let codes_at = codes_at_w as usize;
    let n_codes = read_u32_le(bytes, codes_at);
    let kk_sq = (kk as usize) * (kk as usize);
    let marg = read_words(bytes, 8, k as usize);
    let cond = read_words(bytes, c_at, kk_sq);
    let words = read_words(bytes, wc_at + 4, nw as usize);
    Ok(Some(IndexStream { k, kk, marg, cond, words, n_codes }))
}

/// Reading the bytes of a stream whose counts have the sizes it announces
/// gives the stream back.
#[verifier::rlimit(80)]
#[verifier::spinoff_prover]
pub proof fn lemma_index_stream_roundtrip(s: IndexStream)
    requires
        s.marg@.len() == s.k,
        s.cond@.len() == s.kk * s.kk,
        s.words@.len() <= u32::MAX,
    ensures
        stream_fits(stream_bytes(s)),
        stream_read(stream_bytes(s), s),
{
    let b = stream_bytes(s);
    let m = words_le(s.marg@);
    let c = words_le(s.cond@);
    let w = words_le(s.words@);
    let nw = s.words@.len() as u32;
    lemma_words_le_len(s.marg@);
    lemma_words_le_len(s.cond@);
    lemma_words_le_len(s.words@);
    // k
    assert(b =~= Seq::<u8>::empty() + u32_le(s.k) + (u32_le(s.kk) + m + c + u32_le(nw) + w + u32_le(s.n_codes)));
    lemma_u32_le_roundtrip(s.k, Seq::<u8>::empty(), u32_le(s.kk) + m + c + u32_le(nw) + w + u32_le(s.n_codes));
    // kk
    assert(b =~= u32_le(s.k) + u32_le(s.kk) + (m + c + u32_le(nw) + w + u32_le(s.n_codes)));
    lemma_u32_le_roundtrip(s.kk, u32_le(s.k), m + c + u32_le(nw) + w + u32_le(s.n_codes));
    // marg
    let p0 = u32_le(s.k) + u32_le(s.kk);
    assert(b =~= p0 + m + (c + u32_le(nw) + w + u32_le(s.n_codes)));
    lemma_words_roundtrip(s.marg@, p0, c + u32_le(nw) + w + u32_le(s.n_codes));
    // cond
    let p1 = p0 + m;
    assert(b =~= p1 + c + (u32_le(nw) + w + u32_le(s.n_codes)));
    lemma_words_roundtrip(s.cond@, p1, u32_le(nw) + w + u32_le(s.n_codes));
    assert(cond_at(b) == p1.len());
    // word count
    let p2 = p1 + c;
    assert(words_count_at(b) == p2.len()) by {
        assert(le_u32(b, 4) * le_u32(b, 4) == s.cond@.len());
    }
    assert(b =~= p2 + u32_le(nw) + (w + u32_le(s.n_codes)));
    lemma_u32_le_roundtrip(nw, p2, w + u32_le(s.n_codes));
    // words
    let p3 = p2 + u32_le(nw);
    assert(b =~= p3 + w + u32_le(s.n_codes));
    lemma_words_roundtrip(s.words@, p3, u32_le(s.n_codes));
    // symbol count
    let p4 = p3 + w;
    assert(codes_count_at(b) == p4.len());
    assert(b =~= p4 + u32_le(s.n_codes) + Seq::<u8>::empty());
    lemma_u32_le_roundtrip(s.n_codes, p4, Seq::<u8>::empty());
}

} // verus!
