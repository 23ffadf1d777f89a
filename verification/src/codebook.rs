//! The codebook blob of a MesonGS++ container: each codebook's centroid
//! table and per-channel statistics, stored back to back as little-endian
//! `f32` words, and the descriptors that locate them.
use vstd::prelude::*;
use crate::bytes::{words_le, push_words, push_u32_le, u32_le, words_at, read_words, read_u32_le, le_u32};
use crate::bytes::{lemma_words_roundtrip, lemma_words_le_len, lemma_words_le_concat};
use crate::meson::{CodebookDesc, MesonError};
use crate::text::lit;

verus! {

/// Quantization statistics of one channel, every `f32` as its bit pattern.
#[derive(Debug, Clone)]
pub struct ChannelStatsBits {
    pub min: u32,
    pub max: u32,
    /// The 257 quantiles of the channel's flattening CDF.
    pub cdf: Vec<u32>,
}

/// A codebook: `k` centroids of dimension `d` and `d` channel statistics,
/// every `f32` as its bit pattern.
#[derive(Debug, Clone)]
pub struct CodebookBits {
    pub centroids: Vec<Vec<u32>>,
    pub stats: Vec<ChannelStatsBits>,
}

/// The centroids, row after row.
pub open spec fn flat_rows(rows: Seq<Vec<u32>>) -> Seq<u32>
    decreases rows.len(),
{
    if rows.len() == 0 {
        Seq::empty()
    } else {
        flat_rows(rows.drop_last()) + rows.last()@
    }
}

/// One channel's words: min, max, then the CDF.
pub open spec fn stat_words(s: ChannelStatsBits) -> Seq<u32> {
    seq![s.min, s.max] + s.cdf@
}

/// The channel statistics, channel after channel.
pub open spec fn flat_stats(st: Seq<ChannelStatsBits>) -> Seq<u32>
    decreases st.len(),
{
    if st.len() == 0 {
        Seq::empty()
    } else {
        flat_stats(st.drop_last()) + stat_words(st.last())
    }
}

/// The bytes of one codebook: its centroid words, then its stats words.
pub open spec fn codebook_bytes(cb: CodebookBits) -> Seq<u8> {
    words_le(flat_rows(cb.centroids@)) + words_le(flat_stats(cb.stats@))
}

/// The blob of a list of codebooks, one after the other.
pub open spec fn blob_of(cbs: Seq<CodebookBits>) -> Seq<u8>
    decreases cbs.len(),
{
    if cbs.len() == 0 {
        Seq::empty()
    } else {
        blob_of(cbs.drop_last()) + codebook_bytes(cbs.last())
    }
}

/// The centroid dimension: the length of the first centroid, 0 for none.
pub open spec fn dim_of(cb: CodebookBits) -> int {
    if cb.centroids@.len() == 0 {
        0
    } else {
        cb.centroids@[0]@.len() as int
    }
}

/// The descriptor of a codebook stored from byte `off` of the blob.
pub open spec fn desc_of(cb: CodebookBits, off: int) -> CodebookDesc {
    CodebookDesc {
        k: cb.centroids@.len() as u32,
        d: dim_of(cb) as u32,
        centroids_off: off as u64,
        stats_off: (off + 4 * flat_rows(cb.centroids@).len()) as u64,
    }
}

/// The descriptors of a list of codebooks in their blob.
pub open spec fn descs_of(cbs: Seq<CodebookBits>) -> Seq<CodebookDesc> {
    Seq::new(cbs.len(), |i: int| desc_of(cbs[i], blob_of(cbs.take(i)).len() as int))
}

/// Serializes codebooks into one blob and describes where each one lies.
pub fn pack_codebook_blob(cbs: &[CodebookBits]) -> (r: (Vec<u8>, Vec<CodebookDesc>))
    ensures
        r.0@ == blob_of(cbs@),
        r.1@ == descs_of(cbs@),
{
    let mut blob: Vec<u8> = Vec::new();
    let mut descs: Vec<CodebookDesc> = Vec::new();
    let mut i: usize = 0;
    while i < cbs.len()
        invariant
            i <= cbs@.len(),
            blob@ == blob_of(cbs@.take(i as int)),
            descs@ == descs_of(cbs@.take(i as int)),
        decreases cbs@.len() - i,
    {
        let cb = &cbs[i];
        let k = cb.centroids.len();
        let d = if k > 0 {
            cb.centroids[0].len()
        } else {
            0
        };
        let centroids_off = blob.len() as u64;
        let ghost before = blob@;
        let mut r: usize = 0;
        while r < k
            invariant
                r <= k == cb.centroids@.len(),
                blob@ == before + words_le(flat_rows(cb.centroids@.take(r as int))),
            decreases k - r,
        {
            push_words(&mut blob, cb.centroids[r].as_slice());
            proof {
                let t = cb.centroids@.take(r + 1);
                assert(t.drop_last() == cb.centroids@.take(r as int));
                assert(t.last() == cb.centroids@[r as int]);
                lemma_words_le_concat(flat_rows(cb.centroids@.take(r as int)), cb.centroids@[r as int]@);
            }
            r += 1;
        }
        assert(cb.centroids@.take(k as int) == cb.centroids@);
        let stats_off = blob.len() as u64;
        let ghost mid = blob@;
        proof {
            lemma_words_le_len(flat_rows(cb.centroids@));
        }
        let mut c: usize = 0;
        while c < cb.stats.len()
            invariant
                c <= cb.stats@.len(),
                blob@ == mid + words_le(flat_stats(cb.stats@.take(c as int))),
            decreases cb.stats@.len() - c,
        {
            let s = &cb.stats[c];
            let ghost b0 = blob@;
            push_u32_le(&mut blob, s.min);
            push_u32_le(&mut blob, s.max);
            push_words(&mut blob, s.cdf.as_slice());
            proof {
                let t = cb.stats@.take(c + 1);
                assert(t.drop_last() == cb.stats@.take(c as int));
                assert(t.last() == cb.stats@[c as int]);
                assert(seq![s.min].drop_last() == Seq::<u32>::empty());
                assert(words_le(seq![s.min]) == words_le(Seq::<u32>::empty()) + u32_le(s.min));
                assert(seq![s.min, s.max].drop_last() == seq![s.min]);
                assert(words_le(seq![s.min, s.max]) == words_le(seq![s.min]) + u32_le(s.max));
                lemma_words_le_concat(seq![s.min, s.max], s.cdf@);
                lemma_words_le_concat(flat_stats(cb.stats@.take(c as int)), stat_words(*s));
                assert(blob@ == b0 + words_le(stat_words(*s)));
            }
            c += 1;
        }
        assert(cb.stats@.take(cb.stats@.len() as int) == cb.stats@);
        descs.push(CodebookDesc { k: k as u32, d: d as u32, centroids_off, stats_off });
        proof {
            let t = cbs@.take(i + 1);
            assert(t.drop_last() == cbs@.take(i as int));
            assert(t.last() == cbs@[i as int]);
            assert(blob@ == blob_of(t));
            assert forall|j: int| 0 <= j < i + 1 implies #[trigger] descs@[j] == descs_of(t)[j] by {
                assert(t.take(j) == cbs@.take(i as int).take(j) || j == i);
                if j < i {
                    assert(t.take(j) == cbs@.take(i as int).take(j));
                    assert(t[j] == cbs@.take(i as int)[j]);
                } else {
                    assert(t.take(j) == cbs@.take(i as int));
                }
            }
            assert(descs@ =~= descs_of(t));
        }
        i += 1;
    }
    assert(cbs@.take(cbs@.len() as int) == cbs@);
    (blob, descs)
}

/// Where a descriptor's centroid table ends.
pub open spec fn centroids_end(desc: CodebookDesc) -> int {
    desc.centroids_off as usize as int + 4 * (desc.k as int) * (desc.d as int)
}

/// Where a descriptor's stats table ends: 259 words per channel.
pub open spec fn stats_end(desc: CodebookDesc) -> int {
    desc.stats_off as usize as int + 1036 * (desc.d as int)
}

/// `cb` holds the tables `desc` locates in `blob`: `k` rows of `d` words
/// from the centroid offset, and `d` channels of min, max and 257 CDF
/// words from the stats offset.
pub open spec fn unpacked_from(cb: CodebookBits, desc: CodebookDesc, blob: Seq<u8>) -> bool {
    let cs = desc.centroids_off as usize as int;
    let ss = desc.stats_off as usize as int;
    let k = desc.k as int;
    let d = desc.d as int;
    &&& cb.centroids@.len() == k
    &&& forall|i: int| 0 <= i < k ==> (#[trigger] cb.centroids@[i])@ == words_at(blob, cs + 4 * d * i, d)
    &&& cb.stats@.len() == d
    &&& forall|j: int| 0 <= j < d ==> stat_words(#[trigger] cb.stats@[j]) == words_at(blob, ss + 1036 * j, 259)
}

/// `r` is `MalformedMeta` with message `m`.
pub open spec fn malformed_meta<T>(r: Result<T, MesonError>, m: Seq<char>) -> bool {
    r matches Err(MesonError::MalformedMeta(s)) && s@ == m
}

/// Reads the codebook a descriptor locates in the blob; an error when its
/// centroid or stats table runs past the end.
pub fn unpack_codebook(desc: &CodebookDesc, blob: &[u8]) -> (r: Result<CodebookBits, MesonError>)
    requires
        centroids_end(*desc) <= usize::MAX,
        stats_end(*desc) <= usize::MAX,
    ensures
        centroids_end(*desc) > blob@.len() ==> malformed_meta(r, "codebook centroid offset out of range"@),
        centroids_end(*desc) <= blob@.len() && stats_end(*desc) > blob@.len() ==> malformed_meta(
            r,
            "codebook stats offset out of range"@,
        ),
        centroids_end(*desc) <= blob@.len() && stats_end(*desc) <= blob@.len() ==> (r matches Ok(cb)
            && unpacked_from(cb, *desc, blob@)),
{
    let k = desc.k as usize;
    let d = desc.d as usize;
    let cent_start = desc.centroids_off as usize;
    proof {
        assert(4 * (k as int) * (d as int) == k * d * 4) by (nonlinear_arith);
        assert(k * d <= k * d * 4) by (nonlinear_arith);
    }
    let cent_end = cent_start + k * d * 4;
    if cent_end > blob.len() {
        return Err(MesonError::MalformedMeta(lit("codebook centroid offset out of range")));
    }
    let mut centroids: Vec<Vec<u32>> = Vec::new();
    let mut pos: usize = cent_start;
    let mut i: usize = 0;
    while i < k
        invariant
            i <= k,
            k == desc.k as int,
            d == desc.d as int,
            cent_start == desc.centroids_off as usize,
            cent_end == cent_start + 4 * k * d,
            cent_end <= blob@.len(),
            pos == cent_start + 4 * d * i,
            centroids@.len() == i,
            forall|t: int| 0 <= t < i ==> (#[trigger] centroids@[t])@ == words_at(blob@, cent_start + 4 * d * t, d as int),
        decreases k - i,
    {
        proof {
            assert(4 * d * i + 4 * d <= 4 * k * d) by (nonlinear_arith)
                requires
                    i < k,
            ;
            assert(4 * d * (i + 1) == 4 * d * i + 4 * d) by (nonlinear_arith);
        }
        let row = read_words(blob, pos, d);
        centroids.push(row);
        pos = pos + 4 * d;
        i += 1;
    }
    let stats_start = desc.stats_off as usize;
    let stats_end_x = stats_start + d * 1036;
    if stats_end_x > blob.len() {
        return Err(MesonError::MalformedMeta(lit("codebook stats offset out of range")));
    }
    let mut stats: Vec<ChannelStatsBits> = Vec::new();
    let mut p: usize = stats_start;
    let mut j: usize = 0;
    while j < d
        invariant
            j <= d,
            d == desc.d as int,
            stats_start == desc.stats_off as usize,
            stats_end_x == stats_start + 1036 * d,
            stats_end_x <= blob@.len(),
            p == stats_start + 1036 * j,
            stats@.len() == j,
            forall|t: int| 0 <= t < j ==> stat_words(#[trigger] stats@[t]) == words_at(blob@, stats_start + 1036 * t, 259),
        decreases d - j,
    {
        let min = read_u32_le(blob, p);
        let max = read_u32_le(blob, p + 4);
        let cdf = read_words(blob, p + 8, 257);
        let st = ChannelStatsBits { min, max, cdf };
        proof {
            assert(stat_words(st) =~= words_at(blob@, p as int, 259));
        }
        stats.push(st);
        p = p + 1036;
        j += 1;
    }
    Ok(CodebookBits { centroids, stats })
}

/// Blobs of concatenated lists concatenate.
pub proof fn lemma_blob_concat(a: Seq<CodebookBits>, b: Seq<CodebookBits>)
    ensures
        blob_of(a + b) == blob_of(a) + blob_of(b),
    decreases b.len(),
{
    if b.len() == 0 {
        assert(a + b =~= a);
        assert(blob_of(a) + blob_of(b) =~= blob_of(a));
    } else {
        assert((a + b).drop_last() =~= a + b.drop_last());
        assert((a + b).last() == b.last());
        lemma_blob_concat(a, b.drop_last());
        assert(blob_of(a) + blob_of(b) =~= blob_of(a) + blob_of(b.drop_last()) + codebook_bytes(b.last()));
    }
}

/// Flattened rows of concatenated lists concatenate.
pub proof fn lemma_flat_rows_concat(a: Seq<Vec<u32>>, b: Seq<Vec<u32>>)
    ensures
        flat_rows(a + b) == flat_rows(a) + flat_rows(b),
    decreases b.len(),
{
    if b.len() == 0 {
        assert(a + b =~= a);
        assert(flat_rows(a) + flat_rows(b) =~= flat_rows(a));
    } else {
        assert((a + b).drop_last() =~= a + b.drop_last());
        assert((a + b).last() == b.last());
        lemma_flat_rows_concat(a, b.drop_last());
        assert(flat_rows(a) + flat_rows(b) =~= flat_rows(a) + flat_rows(b.drop_last()) + b.last()@);
    }
}

/// Flattened stats of concatenated lists concatenate.
pub proof fn lemma_flat_stats_concat(a: Seq<ChannelStatsBits>, b: Seq<ChannelStatsBits>)
    ensures
        flat_stats(a + b) == flat_stats(a) + flat_stats(b),
    decreases b.len(),
{
    if b.len() == 0 {
        assert(a + b =~= a);
        assert(flat_stats(a) + flat_stats(b) =~= flat_stats(a));
    } else {
        assert((a + b).drop_last() =~= a + b.drop_last());
        assert((a + b).last() == b.last());
        lemma_flat_stats_concat(a, b.drop_last());
        assert(flat_stats(a) + flat_stats(b) =~= flat_stats(a) + flat_stats(b.drop_last()) + stat_words(b.last()));
    }
}

/// Rows of `d` words flatten to `d` words each.
pub proof fn lemma_flat_rows_len(rows: Seq<Vec<u32>>, d: int)
    requires
        forall|i: int| 0 <= i < rows.len() ==> (#[trigger] rows[i])@.len() == d,
    ensures
        flat_rows(rows).len() == d * rows.len(),
    decreases rows.len(),
{
    if rows.len() > 0 {
        let init = rows.drop_last();
        assert forall|i: int| 0 <= i < init.len() implies (#[trigger] init[i])@.len() == d by {
            assert(init[i] == rows[i]);
        }
        lemma_flat_rows_len(init, d);
        assert(rows.last() == rows[rows.len() - 1]);
        assert(d * rows.len() == d * init.len() + d) by (nonlinear_arith)
            requires
                rows.len() == init.len() + 1,
        ;
    }
}

/// Channels with 257 CDF entries flatten to 259 words each.
pub proof fn lemma_flat_stats_len(st: Seq<ChannelStatsBits>)
    requires
        forall|i: int| 0 <= i < st.len() ==> (#[trigger] st[i]).cdf@.len() == 257,
    ensures
        flat_stats(st).len() == 259 * st.len(),
    decreases st.len(),
{
    if st.len() > 0 {
        let init = st.drop_last();
        assert forall|i: int| 0 <= i < init.len() implies (#[trigger] init[i]).cdf@.len() == 257 by {
            assert(init[i] == st[i]);
        }
        lemma_flat_stats_len(init);
        assert(st.last() == st[st.len() - 1]);
    }
}

/// A codebook the blob format can describe: every centroid has the first
/// one's dimension, there is one channel per dimension, each with 257 CDF
/// entries, and its sizes fit the descriptor's 32-bit fields.
pub open spec fn codebook_shaped(cb: CodebookBits) -> bool {
    let d = dim_of(cb);
    &&& forall|i: int| 0 <= i < cb.centroids@.len() ==> (#[trigger] cb.centroids@[i])@.len() == d
    &&& cb.stats@.len() == d
    &&& forall|j: int| 0 <= j < cb.stats@.len() ==> (#[trigger] cb.stats@[j]).cdf@.len() == 257
    &&& cb.centroids@.len() <= u32::MAX
    &&& d <= u32::MAX
}

/// Codebook `i` sits in the blob after the ones before it.
pub proof fn lemma_codebook_at(cbs: Seq<CodebookBits>, i: int)
    requires
        0 <= i < cbs.len(),
    ensures
        blob_of(cbs) == blob_of(cbs.take(i)) + codebook_bytes(cbs[i]) + blob_of(cbs.skip(i + 1)),
{
    let cb = cbs[i];
    assert(cbs =~= cbs.take(i) + seq![cb] + cbs.skip(i + 1));
    lemma_blob_concat(cbs.take(i) + seq![cb], cbs.skip(i + 1));
    lemma_blob_concat(cbs.take(i), seq![cb]);
    let one = seq![cb];
    assert(one.drop_last() =~= Seq::<CodebookBits>::empty());
    assert(one.last() == cb);
    assert(blob_of(one.drop_last()) == Seq::<u8>::empty());
    assert(blob_of(one) == blob_of(one.drop_last()) + codebook_bytes(cb));
    assert(blob_of(one) =~= codebook_bytes(cb));
}

/// The row words of a table around row `r`: those before it, its own, and
/// those after it.
pub proof fn lemma_rows_split(rows: Seq<Vec<u32>>, r: int, d: int)
    requires
        0 <= r < rows.len(),
        forall|i: int| 0 <= i < rows.len() ==> (#[trigger] rows[i])@.len() == d,
    ensures
        words_le(flat_rows(rows)) == words_le(flat_rows(rows.take(r))) + words_le(rows[r]@) + words_le(
            flat_rows(rows.skip(r + 1)),
        ),
        words_le(flat_rows(rows.take(r))).len() == 4 * d * r,
{
    let a = rows.take(r);
    let b = rows.skip(r + 1);
    let one = seq![rows[r]];
    assert(rows =~= a + one + b);
    lemma_flat_rows_concat(a + one, b);
    lemma_flat_rows_concat(a, one);
    assert(one.drop_last() =~= Seq::<Vec<u32>>::empty());
    assert(one.last() == rows[r]);
    assert(flat_rows(one.drop_last()) == Seq::<u32>::empty());
    assert(flat_rows(one) =~= rows[r]@);
    assert forall|t: int| 0 <= t < a.len() implies (#[trigger] a[t])@.len() == d by {
        assert(a[t] == rows[t]);
    }
    lemma_flat_rows_len(a, d);
    lemma_words_le_concat(flat_rows(a) + rows[r]@, flat_rows(b));
    lemma_words_le_concat(flat_rows(a), rows[r]@);
    lemma_words_le_len(flat_rows(a));
    assert(4 * flat_rows(a).len() == 4 * d * r) by (nonlinear_arith)
        requires
            flat_rows(a).len() == d * r,
    ;
}

/// The channel words of a stats table around channel `j`.
pub proof fn lemma_stats_split(st: Seq<ChannelStatsBits>, j: int)
    requires
        0 <= j < st.len(),
        forall|i: int| 0 <= i < st.len() ==> (#[trigger] st[i]).cdf@.len() == 257,
    ensures
        words_le(flat_stats(st)) == words_le(flat_stats(st.take(j))) + words_le(stat_words(st[j])) + words_le(
            flat_stats(st.skip(j + 1)),
        ),
        words_le(flat_stats(st.take(j))).len() == 1036 * j,
{
    let a = st.take(j);
    let b = st.skip(j + 1);
    let one = seq![st[j]];
    assert(st =~= a + one + b);
    lemma_flat_stats_concat(a + one, b);
    lemma_flat_stats_concat(a, one);
    assert(one.drop_last() =~= Seq::<ChannelStatsBits>::empty());
    assert(one.last() == st[j]);
    assert(flat_stats(one.drop_last()) == Seq::<u32>::empty());
    assert(flat_stats(one) =~= stat_words(st[j]));
    assert forall|t: int| 0 <= t < a.len() implies (#[trigger] a[t]).cdf@.len() == 257 by {
        assert(a[t] == st[t]);
    }
    lemma_flat_stats_len(a);
    lemma_words_le_concat(flat_stats(a) + stat_words(st[j]), flat_stats(b));
    lemma_words_le_concat(flat_stats(a), stat_words(st[j]));
    lemma_words_le_len(flat_stats(a));
}

/// Centroid row `r` of codebook `i` is stored at `4 * d * r` past the
/// codebook's start.
pub proof fn lemma_row_at(cbs: Seq<CodebookBits>, i: int, r: int)
    requires
        0 <= i < cbs.len(),
        codebook_shaped(cbs[i]),
        0 <= r < cbs[i].centroids@.len(),
    ensures
        words_at(blob_of(cbs), blob_of(cbs.take(i)).len() + 4 * dim_of(cbs[i]) * r, dim_of(cbs[i]))
            == cbs[i].centroids@[r]@,
{
    let cb = cbs[i];
    let rows = cb.centroids@;
    let before = blob_of(cbs.take(i));
    let after = blob_of(cbs.skip(i + 1));
    lemma_codebook_at(cbs, i);
    lemma_rows_split(rows, r, dim_of(cb));
    let pre = before + words_le(flat_rows(rows.take(r)));
    let post = words_le(flat_rows(rows.skip(r + 1))) + words_le(flat_stats(cb.stats@)) + after;
    assert(blob_of(cbs) =~= pre + words_le(rows[r]@) + post);
    lemma_words_roundtrip(rows[r]@, pre, post);
}

/// Channel `j` of codebook `i` is stored at `1036 * j` past its stats
/// table.
pub proof fn lemma_stat_at(cbs: Seq<CodebookBits>, i: int, j: int)
    requires
        0 <= i < cbs.len(),
        codebook_shaped(cbs[i]),
        0 <= j < cbs[i].stats@.len(),
    ensures
        words_at(
            blob_of(cbs),
            blob_of(cbs.take(i)).len() + 4 * flat_rows(cbs[i].centroids@).len() + 1036 * j,
            259,
        ) == stat_words(cbs[i].stats@[j]),
{
    let cb = cbs[i];
    let st = cb.stats@;
    let before = blob_of(cbs.take(i));
    let after = blob_of(cbs.skip(i + 1));
    lemma_codebook_at(cbs, i);
    let fr = flat_rows(cb.centroids@);
    lemma_words_le_len(fr);
    lemma_stats_split(st, j);
    let pre = before + words_le(fr) + words_le(flat_stats(st.take(j)));
    let post = words_le(flat_stats(st.skip(j + 1))) + after;
    assert(blob_of(cbs) =~= pre + words_le(stat_words(st[j])) + post);
    lemma_words_roundtrip(stat_words(st[j]), pre, post);
}

/// Reading back a packed codebook through its descriptor gives the
/// codebook: both of its tables lie inside the blob, and the rows and
/// channel words the reader takes are the codebook's own.
pub proof fn lemma_codebook_roundtrip(cbs: Seq<CodebookBits>, i: int)
    requires
        0 <= i < cbs.len(),
        codebook_shaped(cbs[i]),
        blob_of(cbs).len() <= usize::MAX,
    ensures
        centroids_end(descs_of(cbs)[i]) <= blob_of(cbs).len(),
        stats_end(descs_of(cbs)[i]) <= blob_of(cbs).len(),
        forall|cb: CodebookBits|
            #![trigger unpacked_from(cb, descs_of(cbs)[i], blob_of(cbs))]
            unpacked_from(cb, descs_of(cbs)[i], blob_of(cbs)) ==> {
                &&& cb.centroids@.len() == cbs[i].centroids@.len()
                &&& forall|r: int| 0 <= r < cb.centroids@.len() ==> (#[trigger] cb.centroids@[r])@ == cbs[i].centroids@[r]@
                &&& cb.stats@.len() == cbs[i].stats@.len()
                &&& forall|j: int| 0 <= j < cb.stats@.len() ==> stat_words(#[trigger] cb.stats@[j]) == stat_words(cbs[i].stats@[j])
            },
{
    let cb = cbs[i];
    let k = cb.centroids@.len() as int;
    let d = dim_of(cb);
    let off = blob_of(cbs.take(i)).len() as int;
    lemma_codebook_at(cbs, i);
    lemma_flat_rows_len(cb.centroids@, d);
    lemma_flat_stats_len(cb.stats@);
    let fr = flat_rows(cb.centroids@);
    let fs = flat_stats(cb.stats@);
    lemma_words_le_len(fr);
    lemma_words_le_len(fs);
    let desc = descs_of(cbs)[i];
    assert(desc == desc_of(cb, off));
    assert(4 * k * d == 4 * fr.len()) by (nonlinear_arith)
        requires
            fr.len() == d * k,
    ;
    assert forall|c: CodebookBits|
        #![trigger unpacked_from(c, descs_of(cbs)[i], blob_of(cbs))]
        unpacked_from(c, descs_of(cbs)[i], blob_of(cbs)) implies {
            &&& c.centroids@.len() == cbs[i].centroids@.len()
            &&& forall|r: int| 0 <= r < c.centroids@.len() ==> (#[trigger] c.centroids@[r])@ == cbs[i].centroids@[r]@
            &&& c.stats@.len() == cbs[i].stats@.len()
            &&& forall|j: int| 0 <= j < c.stats@.len() ==> stat_words(#[trigger] c.stats@[j]) == stat_words(cbs[i].stats@[j])
        } by {
        assert forall|r: int| 0 <= r < c.centroids@.len() implies (#[trigger] c.centroids@[r])@ == cbs[i].centroids@[r]@ by {
            lemma_row_at(cbs, i, r);
        }
        assert forall|j: int| 0 <= j < c.stats@.len() implies stat_words(#[trigger] c.stats@[j]) == stat_words(cbs[i].stats@[j]) by {
            lemma_stat_at(cbs, i, j);
        }
    }
}

} // verus!
