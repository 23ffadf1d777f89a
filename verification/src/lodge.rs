//! The LODGE level-of-detail pyramid: how a level is split into Morton
//! chunks, and how a level is reassembled from its chunk files with their
//! digests checked.
use vstd::prelude::*;
use crate::ply::{PlyError, PlyFault, fault_of};
use crate::ir::{blake3_hash, blake3_digest, hex_of, hex_string};
use crate::text::{decimal, lit, append_str, push_decimal, str_eq};
use crate::optimize::into_slots;

verus! {

/// LODGE build and read errors.
#[derive(Debug)]
pub enum LodgeError {
    /// Underlying I/O failed.
    Io(String),
    /// A chunk PLY could not be read.
    Ply(PlyError),
    /// The manifest JSON could not be parsed.
    Json(String),
    /// The pyramid on disk is inconsistent.
    Invalid(String),
}

/// The human-readable message of an error.
pub open spec fn lodge_message(e: LodgeError) -> Seq<char> {
    match e {
        LodgeError::Io(m) => "io: "@ + m@,
        LodgeError::Ply(p) => "ply: "@ + crate::ply::ply_message(p),
        LodgeError::Json(m) => "json: "@ + m@,
        LodgeError::Invalid(m) => "invalid input: "@ + m@,
    }
}

impl LodgeError {
    /// The human-readable message of the error.
    pub fn message(&self) -> (r: String)
        ensures
            r@ == lodge_message(*self),
    {
        let (head, tail) = match self {
            LodgeError::Io(m) => ("io: ", m.clone()),
            LodgeError::Ply(p) => ("ply: ", p.message()),
            LodgeError::Json(m) => ("json: ", m.clone()),
            LodgeError::Invalid(m) => ("invalid input: ", m.clone()),
        };
        let mut s = lit(head);
        append_str(&mut s, tail.as_str());
        s
    }
}

/// What went wrong, as a value the contracts can compare.
pub enum LodgeFault {
    Io(Seq<char>),
    Ply(PlyFault),
    Json(Seq<char>),
    Invalid(Seq<char>),
}

/// The fault an error reports.
pub open spec fn lodge_fault(e: LodgeError) -> LodgeFault {
    match e {
        LodgeError::Io(m) => LodgeFault::Io(m@),
        LodgeError::Ply(p) => LodgeFault::Ply(fault_of(p)),
        LodgeError::Json(m) => LodgeFault::Json(m@),
        LodgeError::Invalid(m) => LodgeFault::Invalid(m@),
    }
}

// ---------- chunking ----------

/// A copy of `items[start..end]`.
fn copy_words(items: &Vec<u32>, start: usize, end: usize) -> (r: Vec<u32>)
    requires
        start <= end <= items@.len(),
    ensures
        r@ == items@.subrange(start as int, end as int),
{
    let mut out: Vec<u32> = Vec::new();
    let mut i: usize = start;
    while i < end
        invariant
            start <= i <= end <= items@.len(),
            out@ == items@.subrange(start as int, i as int),
        decreases end - i,
    {
        out.push(items[i]);
        assert(items@.subrange(start as int, i + 1) == items@.subrange(start as int, i as int).push(items@[i as int]));
        i += 1;
    }
    out
}

/// How many chunks `n` splats are split into for a target of `target`
/// splats per chunk: `ceil(n / target)`, at least one.
pub open spec fn chunk_count(n: int, target: int) -> int {
    let c = (n + target - 1) / target;
    if c < 1 {
        1
    } else {
        c
    }
}

/// Size of chunk `i` when `n` splats are split evenly into `c` chunks: the
/// first `n % c` chunks take one more.
pub open spec fn chunk_size(n: int, c: int, i: int) -> int {
    n / c + if i < n % c {
        1int
    } else {
        0int
    }
}

/// Where chunk `i` starts.
pub open spec fn chunk_start(n: int, c: int, i: int) -> int {
    i * (n / c) + if i < n % c {
        i
    } else {
        n % c
    }
}

/// Splits `items` (already in Morton order) into `ceil(n / target)`
/// contiguous chunks whose sizes differ by at most one, larger ones first.
/// An empty list gives no chunk; a zero target counts as one.
pub fn split_chunks(items: &Vec<u32>, chunk_target: usize) -> (r: Vec<Vec<u32>>)
    ensures
        items@.len() == 0 ==> r@.len() == 0,
        items@.len() > 0 ==> {
            let n = items@.len() as int;
            let t = if chunk_target == 0 { 1int } else { chunk_target as int };
            let c = chunk_count(n, t);
            &&& r@.len() == c
            &&& forall|i: int|
                0 <= i < c ==> (#[trigger] r@[i])@ == items@.subrange(
                    chunk_start(n, c, i),
                    chunk_start(n, c, i) + chunk_size(n, c, i),
                )
        },
{
    let mut out: Vec<Vec<u32>> = Vec::new();
    let n = items.len();
    if n == 0 {
        return out;
    }
    let t: usize = if chunk_target == 0 { 1 } else { chunk_target };
    let q = n / t;
    assert(n % t != 0 ==> q < n) by (nonlinear_arith)
        requires
            t >= 1,
            q == n / t,
    {
        assert(n == t * q + n % t);
    }
    let c0: usize = if n % t == 0 { q } else { q + 1 };
    let c: usize = if c0 < 1 { 1 } else { c0 };
    proof {
        assert(c0 as int == (n + t - 1) / (t as int)) by (nonlinear_arith)
            requires
                t >= 1,
                q == n / t,
                c0 == if n % t == 0 { q as int } else { q + 1 },
        {
            assert(n == t * q + n % t);
        }
    }
    let base = n / c;
    let rem = n % c;
    proof {
        assert(n == c * base + rem) by (nonlinear_arith)
            requires
                c >= 1,
                base == n / c,
                rem == n % c,
        ;
    }
    let mut start: usize = 0;
    let mut i: usize = 0;
    while i < c
        invariant
            c >= 1,
            base == n / c,
            rem == n % c,
            rem < c,
            n == items@.len(),
            n == c * base + rem,
            i <= c,
            start == chunk_start(n as int, c as int, i as int),
            out@.len() == i,
            forall|j: int|
                0 <= j < i ==> (#[trigger] out@[j])@ == items@.subrange(
                    chunk_start(n as int, c as int, j),
                    chunk_start(n as int, c as int, j) + chunk_size(n as int, c as int, j),
                ),
        decreases c - i,
    {
        assert(i < rem ==> base < n) by (nonlinear_arith)
            requires
                n == c * base + rem,
                c >= 1,
                i < c,
        ;
        let take: usize = base + if i < rem { 1 } else { 0 };
        proof {
            assert(start + take <= n) by (nonlinear_arith)
                requires
                    start == i * base + if i < rem { i as int } else { rem as int },
                    take == base + if i < rem { 1int } else { 0int },
                    i < c,
                    rem < c,
                    n == c * base + rem,
            {
                assert((i + 1) * base <= c * base);
            }
        }
        let chunk = copy_words(items, start, start + take);
        out.push(chunk);
        proof {
            let next = (i + 1) * base + if i + 1 < rem { i + 1 } else { rem as int };
            assert(start + take == next) by (nonlinear_arith)
                requires
                    start == i * base + if i < rem { i as int } else { rem as int },
                    take == base + if i < rem { 1int } else { 0int },
                    next == (i + 1) * base + if i + 1 < rem { i + 1 } else { rem as int },
            ;
            assert(next == chunk_start(n as int, c as int, i + 1));
        }
        start = start + take;
        i += 1;
    }
    out
}


/// The chunks of a level tile it: the first starts at 0, each starts where
/// the previous ends, the last ends at `n`, and their sizes differ by at
/// most one.
pub proof fn lemma_chunk_layout(n: int, c: int)
    requires
        n >= 0,
        c >= 1,
    ensures
        chunk_start(n, c, 0) == 0,
        chunk_start(n, c, c) == n,
        forall|i: int|
            0 <= i < c ==> #[trigger] chunk_start(n, c, i + 1) == chunk_start(n, c, i) + chunk_size(n, c, i),
        forall|i: int| 0 <= i < c ==> n / c <= #[trigger] chunk_size(n, c, i) <= n / c + 1,
{
    assert(n == c * (n / c) + n % c) by (nonlinear_arith)
        requires
            c >= 1,
    ;
    assert forall|i: int| 0 <= i < c implies #[trigger] chunk_start(n, c, i + 1) == chunk_start(n, c, i)
        + chunk_size(n, c, i) by {
        assert((i + 1) * (n / c) == i * (n / c) + n / c) by (nonlinear_arith);
    }
}

// ---------- reassembly ----------

/// The parts of a chunk entry of the manifest that reassembly reads.
#[derive(Debug, Clone)]
pub struct ChunkRef {
    /// Path of the chunk PLY, relative to the pyramid directory.
    pub path: String,
    /// Lowercase hex BLAKE3 digest of the chunk file.
    pub blake3: String,
    /// Splat count in the chunk.
    pub splat_count: usize,
}

/// The parts of a level entry of the manifest that reassembly reads.
#[derive(Debug, Clone)]
pub struct LevelRef {
    /// Level index (0 = finest).
    pub level: u32,
    /// Total splat count of the level.
    pub splat_count: usize,
    /// Chunks, in manifest order.
    pub chunks: Vec<ChunkRef>,
}

/// One chunk file as read from disk: its bytes and its parsed splats.
#[derive(Debug)]
pub struct ChunkData<T> {
    /// The file's bytes.
    pub bytes: Vec<u8>,
    /// The splats the file holds, in file order.
    pub splats: Vec<T>,
}

/// The position of the first level numbered `level`.
pub open spec fn level_index(levels: Seq<LevelRef>, level: u32) -> Option<int>
    decreases levels.len(),
{
    if levels.len() == 0 {
        None
    } else {
        match level_index(levels.drop_last(), level) {
            Some(i) => Some(i),
            None => if levels.last().level == level {
                Some(levels.len() - 1)
            } else {
                None
            },
        }
    }
}

/// `"level <n> not in manifest"`.
pub open spec fn missing_level_message(level: u32) -> Seq<char> {
    "level "@ + decimal(level as nat) + " not in manifest"@
}

/// `"blake3 mismatch on <path>: manifest=<expected> disk=<actual>"`.
pub open spec fn mismatch_message(path: Seq<char>, expected: Seq<char>, actual: Seq<char>) -> Seq<char> {
    "blake3 mismatch on "@ + path + ": manifest="@ + expected + " disk="@ + actual
}

/// `"reassemble level <l>: expected <n> splats, got <m>"`.
pub open spec fn count_message(level: u32, expected: nat, got: nat) -> Seq<char> {
    "reassemble level "@ + decimal(level as nat) + ": expected "@ + decimal(expected) + " splats, got "@
        + decimal(got)
}

/// Reassembly of the chunks from read `k` on, after `acc` was gathered:
/// the first read error, or the first digest mismatch, or every splat in
/// chunk order.
pub open spec fn gather_reads<T>(
    chunks: Seq<ChunkRef>,
    reads: Seq<Result<ChunkData<T>, LodgeError>>,
    k: int,
    acc: Seq<T>,
) -> Result<Seq<T>, LodgeFault>
    decreases reads.len() - k,
{
    if k < 0 || k >= reads.len() {
        Ok(acc)
    } else {
        match reads[k] {
            Err(e) => Err(lodge_fault(e)),
            Ok(d) => {
                let disk = hex_of(blake3_digest(d.bytes@));
                if disk != chunks[k].blake3@ {
                    Err(LodgeFault::Invalid(mismatch_message(chunks[k].path@, chunks[k].blake3@, disk)))
                } else {
                    gather_reads(chunks, reads, k + 1, acc + d.splats@)
                }
            },
        }
    }
}

/// The reads cover the level's chunks in order, stopping after the first
/// failed read.
pub open spec fn reads_cover<T>(chunks: Seq<ChunkRef>, reads: Seq<Result<ChunkData<T>, LodgeError>>) -> bool {
    &&& reads.len() <= chunks.len()
    &&& forall|k: int| 0 <= k < reads.len() - 1 ==> #[trigger] reads[k] is Ok
    &&& reads.len() < chunks.len() ==> reads.len() > 0 && reads[reads.len() - 1] is Err
}

/// What unpacking level `level` gives for the chunk reads: a missing level,
/// the reassembly outcome, or a splat count that disagrees with the
/// manifest.
pub open spec fn unpack_outcome<T>(
    levels: Seq<LevelRef>,
    level: u32,
    reads: Seq<Result<ChunkData<T>, LodgeError>>,
) -> Result<Seq<T>, LodgeFault> {
    match level_index(levels, level) {
        None => Err(LodgeFault::Invalid(missing_level_message(level))),
        Some(i) => match gather_reads(levels[i].chunks@, reads, 0, Seq::empty()) {
            Err(f) => Err(f),
            Ok(all) => if all.len() != levels[i].splat_count {
                Err(LodgeFault::Invalid(count_message(level, levels[i].splat_count as nat, all.len())))
            } else {
                Ok(all)
            },
        },
    }
}

proof fn lemma_level_index_bound(levels: Seq<LevelRef>, level: u32)
    ensures
        level_index(levels, level) matches Some(i) ==> 0 <= i < levels.len() && levels[i].level == level,
        level_index(levels, level) is None ==> forall|j: int| 0 <= j < levels.len() ==> #[trigger] levels[j].level != level,
        level_index(levels, level) matches Some(i) ==> forall|j: int| 0 <= j < i ==> #[trigger] levels[j].level != level,
    decreases levels.len(),
{
    if levels.len() > 0 {
        lemma_level_index_bound(levels.drop_last(), level);
        assert forall|j: int| 0 <= j < levels.len() - 1 implies #[trigger] levels[j] == levels.drop_last()[j] by {}
    }
}

/// The position of the first level numbered `level`.
pub fn find_level(levels: &Vec<LevelRef>, level: u32) -> (r: Option<usize>)
    ensures
        r matches Some(i) ==> level_index(levels@, level) == Some(i as int),
        r is None ==> level_index(levels@, level) is None,
{
    proof {
        lemma_level_index_bound(levels@, level);
    }
    let mut i: usize = 0;
    while i < levels.len()
        invariant
            i <= levels@.len(),
            forall|j: int| 0 <= j < i ==> #[trigger] levels@[j].level != level,
        decreases levels@.len() - i,
    {
        if levels[i].level == level {
            proof {
                lemma_level_prefix(levels@, level, i as int);
            }
            return Some(i);
        }
        i += 1;
    }
    proof {
        lemma_level_prefix(levels@, level, levels@.len() as int);
    }
    None
}

proof fn lemma_level_prefix(levels: Seq<LevelRef>, level: u32, i: int)
    requires
        0 <= i <= levels.len(),
        forall|j: int| 0 <= j < i ==> #[trigger] levels[j].level != level,
    ensures
        i < levels.len() && levels[i].level == level ==> level_index(levels, level) == Some(i),
        i == levels.len() ==> level_index(levels, level) is None,
{
    lemma_level_index_bound(levels, level);
}

/// Checks a chunk file's digest against the manifest.
pub fn check_chunk_digest(chunk: &ChunkRef, bytes: &[u8]) -> (r: Result<(), LodgeError>)
    ensures
        r is Ok <==> hex_of(blake3_digest(bytes@)) == chunk.blake3@,
        r is Err ==> lodge_fault(r->Err_0) == LodgeFault::Invalid(
            mismatch_message(chunk.path@, chunk.blake3@, hex_of(blake3_digest(bytes@))),
        ),
{
    let digest = blake3_hash(bytes);
    let disk = hex_string(digest.as_slice());
    if str_eq(disk.as_str(), chunk.blake3.as_str()) {
        Ok(())
    } else {
        let mut m = lit("blake3 mismatch on ");
        append_str(&mut m, chunk.path.as_str());
        append_str(&mut m, ": manifest=");
        append_str(&mut m, chunk.blake3.as_str());
        append_str(&mut m, " disk=");
        append_str(&mut m, disk.as_str());
        proof {
            reveal_strlit("blake3 mismatch on ");
            reveal_strlit(": manifest=");
            reveal_strlit(" disk=");
        }
        Err(LodgeError::Invalid(m))
    }
}

/// Reassembles level `level` from its chunk reads (each chunk file's bytes
/// and parsed splats, in manifest order, stopping after the first failed
/// read): every chunk's digest must match the manifest and the splat
/// total must equal the level's count. Returns the splats to write out.
pub fn unpack_level_to_ply<T>(
    levels: &Vec<LevelRef>,
    level: u32,
    reads: Vec<Result<ChunkData<T>, LodgeError>>,
) -> (r: Result<Vec<T>, LodgeError>)
    requires
        level_index(levels@, level) matches Some(i) ==> reads_cover(levels@[i].chunks@, reads@),
    ensures
        match (r, unpack_outcome(levels@, level, reads@)) {
            (Ok(v), Ok(s)) => v@ == s,
            (Err(e), Err(f)) => lodge_fault(e) == f,
            _ => false,
        },
{
    let li = match find_level(levels, level) {
        Some(i) => i,
        None => {
            let mut m = lit("level ");
            push_decimal(&mut m, level as u64);
            append_str(&mut m, " not in manifest");
            proof {
                reveal_strlit("level ");
                reveal_strlit(" not in manifest");
            }
            return Err(LodgeError::Invalid(m));
        },
    };
    proof {
        lemma_level_index_bound(levels@, level);
    }
    let lvl = &levels[li];
    let ghost chunks = lvl.chunks@;
    let ghost rs = reads@;
    let n = reads.len();
    let mut slots = into_slots(reads);
    let mut out: Vec<T> = Vec::new();
    let mut k: usize = 0;
    while k < n
        invariant
            n == rs.len() == slots@.len(),
            reads_cover(chunks, rs),
            rs == reads@,
            chunks == lvl.chunks@,
            level_index(levels@, level) == Some(li as int),
            li < levels@.len(),
            *lvl == levels@[li as int],
            k <= n,
            gather_reads(chunks, rs, 0, Seq::empty()) == gather_reads(chunks, rs, k as int, out@),
            forall|m: int| k <= m < n ==> #[trigger] slots@[m] == Some(rs[m]),
        decreases n - k,
    {
        let mut cell: Option<Result<ChunkData<T>, LodgeError>> = None;
        std::mem::swap(&mut cell, &mut slots[k]);
        assert(cell == Some(rs[k as int]));
        if let Some(read) = cell {
            match read {
                Err(e) => {
                    proof {
                        assert(gather_reads(chunks, rs, k as int, out@) == Err::<Seq<T>, LodgeFault>(lodge_fault(e)));
                        assert(level_index(levels@, level) == Some(li as int));
                        assert(levels@[li as int].chunks@ == chunks);
                        assert(unpack_outcome(levels@, level, rs) == Err::<Seq<T>, LodgeFault>(lodge_fault(e)));
                    }
                    return Err(e);
                },
                Ok(d) => {
                    let chunk = &lvl.chunks[k];
                    match check_chunk_digest(chunk, d.bytes.as_slice()) {
                        Err(e) => {
                            proof {
                                assert(gather_reads(chunks, rs, k as int, out@) == Err::<Seq<T>, LodgeFault>(lodge_fault(e)));
                        assert(level_index(levels@, level) == Some(li as int));
                        assert(levels@[li as int].chunks@ == chunks);
                        assert(unpack_outcome(levels@, level, rs) == Err::<Seq<T>, LodgeFault>(lodge_fault(e)));
                            }
                            return Err(e);
                        },
                        Ok(()) => {},
                    }
                    let ChunkData { bytes, splats } = d;
                    let mut splats = splats;
                    out.append(&mut splats);
                },
            }
        }
        k += 1;
    }
    if out.len() != lvl.splat_count {
        let mut m = lit("reassemble level ");
        push_decimal(&mut m, level as u64);
        append_str(&mut m, ": expected ");
        push_decimal(&mut m, lvl.splat_count as u64);
        append_str(&mut m, " splats, got ");
        push_decimal(&mut m, out.len() as u64);
        proof {
            reveal_strlit("reassemble level ");
            reveal_strlit(": expected ");
            reveal_strlit(" splats, got ");
        }
        return Err(LodgeError::Invalid(m));
    }
    Ok(out)
}

} // verus!
