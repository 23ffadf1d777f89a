//! Chunked glTF output: how splats are cut into per-buffer chunks, how each
//! chunk's buffer is named, and the `SF_spatial_streaming_index` record
//! that lets a reader check it.
use vstd::prelude::*;
use crate::text::{lit, append_str, push_decimal, decimal};
use crate::ir::{blake3_tagged, blake3_label};

verus! {

/// Splat ranges `[start, end)` of the chunks of `n` splats: runs of
/// `target` splats (the last may be shorter) when chunked with a positive
/// target, else one range over everything.
pub open spec fn chunk_bounds(n: int, chunked: bool, target: int) -> Seq<(int, int)> {
    if chunked && target > 0 {
        Seq::new(
            ((n + target - 1) / target) as nat,
            |i: int|
                (
                    i * target,
                    if (i + 1) * target < n {
                        (i + 1) * target
                    } else {
                        n
                    },
                ),
        )
    } else {
        seq![(0, n)]
    }
}

/// The views of a list of ranges.
pub open spec fn ranges_of(v: Seq<(usize, usize)>) -> Seq<(int, int)> {
    v.map_values(|r: (usize, usize)| (r.0 as int, r.1 as int))
}

/// The chunk ranges of `n` splats, as `slice::chunks(target)` cuts them
/// when chunked with a positive target.
pub fn gltf_chunk_ranges(n: usize, chunked: bool, target: usize) -> (r: Vec<(usize, usize)>)
    ensures
        ranges_of(r@) == chunk_bounds(n as int, chunked, target as int),
{
    let mut out: Vec<(usize, usize)> = Vec::new();
    if !(chunked && target > 0) {
        out.push((0, n));
        assert(ranges_of(out@) =~= chunk_bounds(n as int, chunked, target as int));
        return out;
    }
    let ghost t = target as int;
    let mut start: usize = 0;
    let mut k: usize = 0;
    while start < n
        invariant
            t == target as int,
            t > 0,
            chunked,
            start == if k * t < n {
                k * t
            } else {
                n as int
            },
            k == 0 || (k - 1) * t < n,
            out@.len() == k,
            forall|i: int|
                0 <= i < k ==> #[trigger] ranges_of(out@)[i] == (
                    i * t,
                    if (i + 1) * t < n {
                        (i + 1) * t
                    } else {
                        n as int
                    },
                ),
        decreases n - start,
    {
        proof {
            assert((k + 1) * t == k * t + t) by (nonlinear_arith);
            assert(k <= k * t) by (nonlinear_arith)
                requires
                    t >= 1,
                    k >= 0,
            ;
        }
        let end: usize = if n - start > target {
            start + target
        } else {
            n
        };
        let ghost prev = out@;
        out.push((start, end));
        proof {
            assert forall|i: int| 0 <= i < k + 1 implies #[trigger] ranges_of(out@)[i] == (
                i * t,
                if (i + 1) * t < n {
                    (i + 1) * t
                } else {
                    n as int
                },
            ) by {
                if i < k {
                    assert(out@[i] == prev[i]);
                    assert(ranges_of(prev)[i] == ranges_of(out@)[i]);
                }
            }
        }
        start = end;
        k = k + 1;
    }
    proof {
        let c = (n as int + t - 1) / t;
        assert(k * t >= n);
        assert(k == c) by (nonlinear_arith)
            requires
                t > 0,
                k == 0 || (k - 1) * t < n,
                k * t >= n,
                n >= 0,
                k >= 0,
                c == (n as int + t - 1) / t,
        ;
        assert(ranges_of(out@) =~= chunk_bounds(n as int, chunked, target as int));
    }
    out
}

/// The chunk ranges cover `[0, n)` in order, without gaps: each starts
/// where the previous one ended, and when chunked each holds between one
/// and `target` splats.
pub proof fn lemma_chunk_bounds_partition(n: int, chunked: bool, target: int)
    requires
        n >= 0,
    ensures
        chunk_bounds(n, chunked, target).len() > 0 ==> chunk_bounds(n, chunked, target)[0].0 == 0,
        chunk_bounds(n, chunked, target).len() > 0 ==> chunk_bounds(n, chunked, target).last().1 == n,
        chunk_bounds(n, chunked, target).len() == 0 ==> n == 0,
        forall|i: int|
            0 < i < chunk_bounds(n, chunked, target).len() ==> #[trigger] chunk_bounds(n, chunked, target)[i].0
                == chunk_bounds(n, chunked, target)[i - 1].1,
        chunked && target > 0 ==> forall|i: int|
            0 <= i < chunk_bounds(n, chunked, target).len() ==> 0 < #[trigger] chunk_bounds(n, chunked, target)[i].1
                - chunk_bounds(n, chunked, target)[i].0 <= target,
{
    let b = chunk_bounds(n, chunked, target);
    if chunked && target > 0 {
        let c = (n + target - 1) / target;
        assert(c * target >= n && (c == 0 || (c - 1) * target < n) && c >= 0) by (nonlinear_arith)
            requires
                target > 0,
                n >= 0,
                c == (n + target - 1) / target,
        ;
        if b.len() > 0 {
            assert(b[0].0 == 0 * target);
            assert(0 * target == 0) by (nonlinear_arith);
            let l = c - 1;
            assert(b.last() == b[l]);
            assert((l + 1) * target >= n) by (nonlinear_arith)
                requires
                    l + 1 == c,
                    c * target >= n,
            ;
        } else {
            assert(c == 0);
        }
        assert forall|i: int| 0 < i < b.len() implies #[trigger] b[i].0 == b[i - 1].1 by {
            assert((i - 1 + 1) * target == i * target);
            assert(i * target < n) by (nonlinear_arith)
                requires
                    1 <= i,
                    i <= c - 1,
                    (c - 1) * target < n,
                    target > 0,
            ;
        }
        assert forall|i: int| 0 <= i < b.len() implies 0 < #[trigger] b[i].1 - b[i].0 <= target by {
            assert((i + 1) * target == i * target + target) by (nonlinear_arith);
            assert(i * target < n) by (nonlinear_arith)
                requires
                    0 <= i,
                    i <= c - 1,
                    (c - 1) * target < n,
                    target > 0,
            ;
        }
    }
}

/// `{:04}` of `i`: its decimal digits, zero-padded to four.
pub open spec fn pad4(i: nat) -> Seq<char> {
    if i < 10 {
        "000"@ + decimal(i)
    } else if i < 100 {
        "00"@ + decimal(i)
    } else if i < 1000 {
        "0"@ + decimal(i)
    } else {
        decimal(i)
    }
}

/// The relative URI of chunk `i`'s buffer file.
pub open spec fn chunk_uri(i: nat) -> Seq<char> {
    "buffers/chunk_"@ + pad4(i) + ".bin"@
}

/// The relative URI of chunk `i`'s buffer file:
/// `buffers/chunk_<i, four digits>.bin`.
pub fn chunk_buffer_name(i: usize) -> (r: String)
    ensures
        r@ == chunk_uri(i as nat),
{
    let mut s = lit("buffers/chunk_");
    if i < 10 {
        append_str(&mut s, "000");
    } else if i < 100 {
        append_str(&mut s, "00");
    } else if i < 1000 {
        append_str(&mut s, "0");
    }
    push_decimal(&mut s, i as u64);
    append_str(&mut s, ".bin");
    s
}

/// One entry of the streaming index.
#[derive(Debug, Clone)]
pub struct ChunkRecord {
    /// URI of the chunk's buffer file.
    pub uri: String,
    /// Index of the chunk's buffer.
    pub buffer: usize,
    /// Length of the buffer; chunks start at byte 0.
    pub byte_length: usize,
    /// Splats in the chunk.
    pub splat_count: usize,
    /// `"blake3:<hex>"` of the buffer's bytes.
    pub checksum: String,
    /// Load order: the chunk's index.
    pub load_priority: usize,
}

/// The streaming-index record of chunk `chunk_idx`, stored whole in buffer
/// `buffer_idx` as `bytes`.
pub fn chunk_record(chunk_idx: usize, buffer_idx: usize, bytes: &[u8], splat_count: usize) -> (r: ChunkRecord)
    ensures
        r.uri@ == chunk_uri(chunk_idx as nat),
        r.buffer == buffer_idx,
        r.byte_length == bytes@.len(),
        r.splat_count == splat_count,
        r.checksum@ == blake3_label(bytes@),
        r.load_priority == chunk_idx,
{
    ChunkRecord {
        uri: chunk_buffer_name(chunk_idx),
        buffer: buffer_idx,
        byte_length: bytes.len(),
        splat_count,
        checksum: blake3_tagged(bytes),
        load_priority: chunk_idx,
    }
}

/// A record written for some bytes passes the inspector's checksum test on
/// those same bytes: the label of the recorded range is the recorded
/// checksum.
pub proof fn lemma_record_checks(r: ChunkRecord, bytes: Seq<u8>)
    requires
        r.byte_length == bytes.len(),
        r.checksum@ == blake3_label(bytes),
    ensures
        blake3_label(bytes.subrange(0, r.byte_length as int)) == r.checksum@,
{
    assert(bytes.subrange(0, r.byte_length as int) =~= bytes);
}

} // verus!
