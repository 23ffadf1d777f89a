//! Scene optimization passes on the bit-level splat representation: their
//! statistics, their configurations, and the parts of each pass that are
//! exact integer logic (finiteness checks, SH truncation, Morton ordering,
//! LOD index lists, pruning masks).
use vstd::prelude::*;
use vstd::seq_lib::lemma_multiset_commutative;
use vstd::seq_lib::group_to_multiset_ensures;
use crate::ir::{SplatBits, ColorBits, SemanticLabel};
use crate::text::{lit, contains_str};

verus! {

// ---------- stable ordering by key ----------

/// Index `a` comes before index `b` when its key is smaller, ties broken by
/// the index: the order of a stable sort by key.
pub open spec fn key_lt(keys: Seq<u64>, a: usize, b: usize) -> bool {
    keys[a as int] < keys[b as int] || (keys[a as int] == keys[b as int] && a < b)
}

/// `s` is strictly ascending in the stable key order.
pub open spec fn ascending(keys: Seq<u64>, s: Seq<usize>) -> bool {
    forall|i: int, j: int| 0 <= i < j < s.len() ==> key_lt(keys, #[trigger] s[i], #[trigger] s[j])
}

/// Every entry of `s` lies in `lo..hi`.
pub open spec fn within(s: Seq<usize>, lo: int, hi: int) -> bool {
    forall|k: int| 0 <= k < s.len() ==> lo <= #[trigger] s[k] < hi
}

/// The indices `lo..hi` in order.
pub open spec fn index_range(lo: int, hi: int) -> Seq<usize> {
    Seq::new((hi - lo) as nat, |k: int| (lo + k) as usize)
}

/// Merges two ascending runs with disjoint index ranges.
fn merge_runs(keys: &[u64], a: &Vec<usize>, b: &Vec<usize>, lo: Ghost<int>, mid: Ghost<int>, hi: Ghost<int>) -> (r: Vec<usize>)
    requires
        ascending(keys@, a@),
        ascending(keys@, b@),
        within(a@, lo@, mid@),
        within(b@, mid@, hi@),
        lo@ <= mid@ <= hi@ <= keys@.len(),
    ensures
        ascending(keys@, r@),
        within(r@, lo@, hi@),
        r@.to_multiset() == a@.to_multiset().add(b@.to_multiset()),
{
    broadcast use group_to_multiset_ensures;
    broadcast use vstd::multiset::group_multiset_axioms;
    let mut out: Vec<usize> = Vec::new();
    let mut i: usize = 0;
    let mut j: usize = 0;
    while i < a.len() || j < b.len()
        invariant
            i <= a@.len(),
            j <= b@.len(),
            ascending(keys@, a@),
            ascending(keys@, b@),
            within(a@, lo@, mid@),
            within(b@, mid@, hi@),
            lo@ <= mid@ <= hi@ <= keys@.len(),
            ascending(keys@, out@),
            within(out@, lo@, hi@),
            forall|k: int|
                0 <= k < out@.len() ==> (i < a@.len() ==> key_lt(keys@, #[trigger] out@[k], a@[i as int])),
            forall|k: int|
                0 <= k < out@.len() ==> (j < b@.len() ==> key_lt(keys@, #[trigger] out@[k], b@[j as int])),
            out@.to_multiset() == a@.take(i as int).to_multiset().add(b@.take(j as int).to_multiset()),
        decreases a@.len() + b@.len() - i - j,
    {
        let take_a = if i >= a.len() {
            false
        } else if j >= b.len() {
            true
        } else {
            let x = a[i];
            let y = b[j];
            keys[x] < keys[y] || (keys[x] == keys[y] && x < y)
        };
        if take_a {
            let x = a[i];
            proof {
                if j < b@.len() {
                    assert(a@[i as int] != b@[j as int]);
                    assert(key_lt(keys@, x, b@[j as int]));
                }
                assert(a@.take(i + 1) == a@.take(i as int).push(x));
                if i + 1 < a@.len() {
                    assert(key_lt(keys@, a@[i as int], a@[i + 1]));
                }
            }
            let ghost before = out@;
            let ghost t0 = a@.take(i as int);
            out.push(x);
            i += 1;
            proof {
                assert(out@ == before.push(x));
                assert(a@.take(i as int) == t0.push(x));
                vstd::seq_lib::to_multiset_build(t0, x);
                vstd::seq_lib::to_multiset_build(before, x);
                assert(out@.to_multiset() =~= a@.take(i as int).to_multiset().add(
                    b@.take(j as int).to_multiset(),
                ));
            }
            proof {
                assert forall|k: int| 0 <= k < out@.len() implies (i < a@.len() ==> key_lt(
                    keys@,
                    #[trigger] out@[k],
                    a@[i as int],
                )) by {
                    if i < a@.len() && k < out@.len() - 1 {
                        assert(key_lt(keys@, a@[i - 1], a@[i as int]));
                    }
                }
                assert(out@.to_multiset() == a@.take(i as int).to_multiset().add(
                    b@.take(j as int).to_multiset(),
                ));
            }
        } else {
            let y = b[j];
            proof {
                if i < a@.len() {
                    assert(a@[i as int] != b@[j as int]);
                    assert(key_lt(keys@, y, a@[i as int]));
                }
                assert(b@.take(j + 1) == b@.take(j as int).push(y));
                if j + 1 < b@.len() {
                    assert(key_lt(keys@, b@[j as int], b@[j + 1]));
                }
            }
            let ghost before = out@;
            let ghost t0 = b@.take(j as int);
            out.push(y);
            j += 1;
            proof {
                assert(out@ == before.push(y));
                assert(b@.take(j as int) == t0.push(y));
                vstd::seq_lib::to_multiset_build(t0, y);
                vstd::seq_lib::to_multiset_build(before, y);
                assert(out@.to_multiset() =~= a@.take(i as int).to_multiset().add(
                    b@.take(j as int).to_multiset(),
                ));
            }
            proof {
                assert forall|k: int| 0 <= k < out@.len() implies (j < b@.len() ==> key_lt(
                    keys@,
                    #[trigger] out@[k],
                    b@[j as int],
                )) by {
                    if j < b@.len() && k < out@.len() - 1 {
                        assert(key_lt(keys@, b@[j - 1], b@[j as int]));
                    }
                }
                assert(out@.to_multiset() == a@.take(i as int).to_multiset().add(
                    b@.take(j as int).to_multiset(),
                ));
            }
        }
    }
    assert(a@.take(a@.len() as int) == a@);
    assert(b@.take(b@.len() as int) == b@);
    out
}

/// The indices `lo..hi` sorted stably by key.
fn sort_range(keys: &[u64], lo: usize, hi: usize) -> (r: Vec<usize>)
    requires
        lo < hi <= keys@.len(),
    ensures
        ascending(keys@, r@),
        within(r@, lo as int, hi as int),
        r@.to_multiset() == index_range(lo as int, hi as int).to_multiset(),
    decreases hi - lo,
{
    broadcast use group_to_multiset_ensures;
    if hi - lo == 1 {
        let mut v: Vec<usize> = Vec::new();
        v.push(lo);
        assert(index_range(lo as int, hi as int) == Seq::<usize>::empty().push(lo));
        assert(v@ == Seq::<usize>::empty().push(lo));
        v
    } else {
        let mid = lo + (hi - lo) / 2;
        let a = sort_range(keys, lo, mid);
        let b = sort_range(keys, mid, hi);
        let r = merge_runs(keys, &a, &b, Ghost(lo as int), Ghost(mid as int), Ghost(hi as int));
        proof {
            assert(index_range(lo as int, hi as int) =~= index_range(lo as int, mid as int) + index_range(
                mid as int,
                hi as int,
            ));
            lemma_multiset_commutative(index_range(lo as int, mid as int), index_range(mid as int, hi as int));
        }
        r
    }
}

/// `order` lists every index `0..n` exactly once.
pub open spec fn is_order(order: Seq<usize>, n: nat) -> bool {
    &&& order.len() == n
    &&& forall|k: int| 0 <= k < n ==> (#[trigger] order[k] as int) < n
    &&& forall|a: int, b: int| 0 <= a < b < n ==> #[trigger] order[a] != #[trigger] order[b]
    &&& forall|v: int| 0 <= v < n ==> #[trigger] order.contains(v as usize)
}

/// The indices `0..keys.len()` sorted by key, ties kept in index order: the
/// unique order in which the pairs `(keys[i], i)` ascend.
pub fn stable_order(keys: &[u64]) -> (r: Vec<usize>)
    ensures
        is_order(r@, keys@.len()),
        ascending(keys@, r@),
{
    broadcast use group_to_multiset_ensures;
    if keys.len() == 0 {
        let v: Vec<usize> = Vec::new();
        return v;
    }
    let r = sort_range(keys, 0, keys.len());
    proof {
        let n = keys@.len();
        let full = index_range(0, n as int);
        assert(r@.len() == r@.to_multiset().len());
        assert(full.len() == full.to_multiset().len());
        assert forall|v: int| 0 <= v < n implies #[trigger] r@.contains(v as usize) by {
            assert(full[v] == v as usize);
            assert(full.contains(v as usize));
            assert(full.to_multiset().count(v as usize) > 0);
        }
        assert forall|a: int, b: int| 0 <= a < b < n implies #[trigger] r@[a] != #[trigger] r@[b] by {
            assert(key_lt(keys@, r@[a], r@[b]));
        }
    }
    r
}

// ---------- moving items ----------

/// Moves every item out of `items` into a vector of the same items in the
/// same order, wrapped in `Some`.
pub(crate) fn into_slots<T>(items: Vec<T>) -> (r: Vec<Option<T>>)
    ensures
        r@.len() == items@.len(),
        forall|k: int| 0 <= k < items@.len() ==> #[trigger] r@[k] == Some(items@[k]),
{
    let ghost orig = items@;
    let mut items = items;
    let mut rev: Vec<T> = Vec::new();
    while items.len() > 0
        invariant
            items@.len() + rev@.len() == orig.len(),
            items@ == orig.take(items@.len() as int),
            forall|k: int| 0 <= k < rev@.len() ==> #[trigger] rev@[k] == orig[orig.len() - 1 - k],
        decreases items@.len(),
    {
        let x = items.pop();
        if let Some(v) = x {
            rev.push(v);
        }
    }
    let mut out: Vec<Option<T>> = Vec::new();
    while rev.len() > 0
        invariant
            out@.len() + rev@.len() == orig.len(),
            forall|k: int| 0 <= k < rev@.len() ==> #[trigger] rev@[k] == orig[orig.len() - 1 - k],
            forall|k: int| 0 <= k < out@.len() ==> #[trigger] out@[k] == Some(orig[k]),
        decreases rev@.len(),
    {
        let x = rev.pop();
        if let Some(v) = x {
            out.push(Some(v));
        }
    }
    out
}

/// The items of `items` taken in the sequence of positions `order`,
/// moving each item once.
pub fn gather<T>(items: Vec<T>, order: &Vec<usize>) -> (r: Vec<T>)
    requires
        is_order(order@, items@.len()),
    ensures
        r@.len() == items@.len(),
        forall|k: int| 0 <= k < items@.len() ==> #[trigger] r@[k] == items@[order@[k] as int],
{
    let ghost orig = items@;
    let n = order.len();
    let mut slots = into_slots(items);
    let mut out: Vec<T> = Vec::new();
    let mut k: usize = 0;
    while k < n
        invariant
            n == order@.len() == orig.len() == slots@.len(),
            is_order(order@, orig.len()),
            k <= n,
            out@.len() == k,
            forall|m: int| 0 <= m < k ==> #[trigger] out@[m] == orig[order@[m] as int],
            forall|m: int| k <= m < n ==> #[trigger] slots@[order@[m] as int] == Some(orig[order@[m] as int]),
        decreases n - k,
    {
        let at = order[k];
        let mut cell: Option<T> = None;
        std::mem::swap(&mut cell, &mut slots[at]);
        proof {
            assert(cell == Some(orig[order@[k as int] as int]));
            assert forall|m: int| k + 1 <= m < n implies #[trigger] slots@[order@[m] as int] == Some(
                orig[order@[m] as int],
            ) by {
                assert(order@[k as int] != order@[m]);
            }
        }
        if let Some(v) = cell {
            out.push(v);
        }
        k += 1;
    }
    out
}

/// The items of `s` whose flag in `keep` is set, in order.
pub open spec fn masked<T>(s: Seq<T>, keep: Seq<bool>) -> Seq<T>
    decreases s.len(),
{
    if s.len() == 0 {
        Seq::empty()
    } else {
        let rest = masked(s.drop_last(), keep.take(s.len() - 1));
        if keep[s.len() - 1] {
            rest.push(s.last())
        } else {
            rest
        }
    }
}

/// Keeps the items whose flag in `keep` is set, in order; returns how many
/// were dropped.
pub fn retain_mask<T>(items: &mut Vec<T>, keep: &Vec<bool>) -> (removed: usize)
    requires
        keep@.len() == old(items)@.len(),
    ensures
        final(items)@ == masked(old(items)@, keep@),
        removed == old(items)@.len() - final(items)@.len(),
{
    let ghost orig = items@;
    let n = items.len();
    let mut taken: Vec<T> = Vec::new();
    std::mem::swap(&mut taken, items);
    let mut slots = into_slots(taken);
    let mut k: usize = 0;
    while k < n
        invariant
            n == orig.len() == slots@.len() == keep@.len(),
            k <= n,
            items@ == masked(orig.take(k as int), keep@.take(k as int)),
            items@.len() <= k,
            forall|m: int| k <= m < n ==> #[trigger] slots@[m] == Some(orig[m]),
        decreases n - k,
    {
        let mut cell: Option<T> = None;
        std::mem::swap(&mut cell, &mut slots[k]);
        proof {
            let t = orig.take(k + 1);
            assert(t.drop_last() == orig.take(k as int));
            assert(keep@.take(k + 1).take(k as int) == keep@.take(k as int));
            assert(t.last() == orig[k as int]);
        }
        if keep[k] {
            if let Some(v) = cell {
                items.push(v);
            }
        }
        k += 1;
    }
    assert(orig.take(n as int) == orig);
    assert(keep@.take(n as int) == keep@);
    n - items.len()
}

// ---------- statistics and configuration ----------

/// Per-pass statistics.
#[derive(Debug, Clone)]
pub struct PassStats {
    /// Number of splats removed.
    pub removed: usize,
    /// Number of splats (or components) modified in place.
    pub modified: usize,
    /// Synthetic duration in milliseconds (filled in by the runtime).
    pub duration_ms: u64,
    /// Free-form notes.
    pub notes: Vec<String>,
}

impl Default for PassStats {
    fn default() -> (r: Self)
        ensures
            r.removed == 0,
            r.modified == 0,
            r.duration_ms == 0,
            r.notes@.len() == 0,
    {
        PassStats { removed: 0, modified: 0, duration_ms: 0, notes: Vec::new() }
    }
}

/// Context carried through a pipeline run.
#[derive(Debug, Clone, Copy)]
pub struct PassContext {
    /// Deterministic seed for passes that need pseudo-randomness.
    pub seed: u64,
}

impl Default for PassContext {
    fn default() -> (r: Self)
        ensures
            r.seed == 0,
    {
        PassContext { seed: 0 }
    }
}

/// Stats tagged with the name of the pass that produced them.
#[derive(Debug, Clone)]
pub struct NamedPassStats {
    /// Pass identifier.
    pub name: String,
    /// Stats produced by that pass.
    pub stats: PassStats,
}

/// Aggregate report for a pipeline run.
#[derive(Debug, Clone)]
pub struct PipelineReport {
    /// Splat count before the pipeline ran.
    pub splats_before: usize,
    /// Splat count after the pipeline ran.
    pub splats_after: usize,
    /// Per-pass stats in execution order.
    pub passes: Vec<NamedPassStats>,
}

/// Drops splats with a NaN or infinite component.
#[derive(Debug, Clone, Copy)]
pub struct RemoveInvalidSplats;

/// In-place position quantization.
#[derive(Debug, Clone, Copy)]
pub struct QuantizePosition {
    /// Bits per axis component.
    pub bits: u8,
}

/// In-place scale quantization.
#[derive(Debug, Clone, Copy)]
pub struct QuantizeScale {
    /// Bits per axis component.
    pub bits: u8,
}

/// In-place rotation quantization.
#[derive(Debug, Clone, Copy)]
pub struct QuantizeRotation {
    /// Bits per component.
    pub bits: u8,
}

/// Truncates SH coefficients to a target degree.
#[derive(Debug, Clone, Copy)]
pub struct ReduceSHDegree {
    /// Target SH degree (0 collapses to plain RGB).
    pub target_degree: u8,
}

/// Sorts splats by the Morton code of their normalized positions.
#[derive(Debug, Clone, Copy)]
pub struct MortonSort;

/// Experimental pruning of sparse, faint splats that carry no protected
/// semantic label.
#[derive(Debug, Clone)]
pub struct ObjectAwarePruneExperimental {
    /// Semantic labels exempt from pruning.
    pub protect_labels: Vec<String>,
}

impl Default for RemoveInvalidSplats {
    fn default() -> (r: Self) {
        RemoveInvalidSplats
    }
}

impl Default for QuantizePosition {
    fn default() -> (r: Self)
        ensures
            r.bits == 16,
    {
        QuantizePosition { bits: 16 }
    }
}

impl Default for QuantizeScale {
    fn default() -> (r: Self)
        ensures
            r.bits == 8,
    {
        QuantizeScale { bits: 8 }
    }
}

impl Default for QuantizeRotation {
    fn default() -> (r: Self)
        ensures
            r.bits == 8,
    {
        QuantizeRotation { bits: 8 }
    }
}

impl Default for ReduceSHDegree {
    fn default() -> (r: Self)
        ensures
            r.target_degree == 0,
    {
        ReduceSHDegree { target_degree: 0 }
    }
}

impl Default for MortonSort {
    fn default() -> (r: Self) {
        MortonSort
    }
}

impl Default for ObjectAwarePruneExperimental {
    fn default() -> (r: Self)
        ensures
            r.protect_labels@.len() == 0,
    {
        ObjectAwarePruneExperimental { protect_labels: Vec::new() }
    }
}

impl QuantizePosition {
    /// Stable identifier used in reports.
    pub fn name(&self) -> (r: &'static str)
        ensures
            r@ == "QuantizePosition"@,
    {
        "QuantizePosition"
    }
}

impl QuantizeScale {
    /// Stable identifier used in reports.
    pub fn name(&self) -> (r: &'static str)
        ensures
            r@ == "QuantizeScale"@,
    {
        "QuantizeScale"
    }
}

impl QuantizeRotation {
    /// Stable identifier used in reports.
    pub fn name(&self) -> (r: &'static str)
        ensures
            r@ == "QuantizeRotation"@,
    {
        "QuantizeRotation"
    }
}

// ---------- RemoveInvalidSplats ----------

/// The `f32` with bit pattern `b` is finite: its exponent is not all ones.
pub open spec fn f32_finite(b: u32) -> bool {
    (b / 8388608) % 256 != 255
}

/// Whether the `f32` with bit pattern `b` is finite.
pub fn is_finite_bits(b: u32) -> (r: bool)
    ensures
        r == f32_finite(b),
{
    (b / 8388608) % 256 != 255
}

/// Every value of `v` is finite.
pub open spec fn all_finite(v: Seq<u32>) -> bool {
    forall|i: int| 0 <= i < v.len() ==> f32_finite(#[trigger] v[i])
}

/// Every component of the splat is finite: position, rotation, scale,
/// opacity and color.
pub open spec fn splat_finite(s: SplatBits) -> bool {
    &&& all_finite(s.position@)
    &&& all_finite(s.rotation@)
    &&& all_finite(s.scale@)
    &&& f32_finite(s.opacity)
    &&& match s.color {
        ColorBits::Rgb(c) => all_finite(c@),
        ColorBits::Sh { coeffs, .. } => all_finite(coeffs@),
    }
}

fn words_finite(v: &[u32]) -> (r: bool)
    ensures
        r == all_finite(v@),
{
    let mut i: usize = 0;
    while i < v.len()
        invariant
            i <= v@.len(),
            forall|j: int| 0 <= j < i ==> f32_finite(#[trigger] v@[j]),
        decreases v@.len() - i,
    {
        if !is_finite_bits(v[i]) {
            return false;
        }
        i += 1;
    }
    true
}

/// Whether every component of the splat is finite.
pub fn splat_is_finite(s: &SplatBits) -> (r: bool)
    ensures
        r == splat_finite(*s),
{
    let color_ok = match &s.color {
        ColorBits::Rgb(c) => words_finite(c),
        ColorBits::Sh { coeffs, .. } => words_finite(coeffs.as_slice()),
    };
    words_finite(&s.position) && words_finite(&s.rotation) && words_finite(&s.scale)
        && is_finite_bits(s.opacity) && color_ok
}

/// The finiteness flag of each splat.
pub open spec fn finite_mask(s: Seq<SplatBits>) -> Seq<bool> {
    Seq::new(s.len(), |i: int| splat_finite(s[i]))
}

impl RemoveInvalidSplats {
    /// Stable identifier used in reports.
    pub fn name(&self) -> (r: &'static str)
        ensures
            r@ == "RemoveInvalidSplats"@,
    {
        "RemoveInvalidSplats"
    }

    /// Drops every splat with a NaN or infinite component, keeping the
    /// others in order.
    pub fn run(&self, splats: &mut Vec<SplatBits>, ctx: &mut PassContext) -> (r: PassStats)
        ensures
            final(splats)@ == masked(old(splats)@, finite_mask(old(splats)@)),
            r.removed == old(splats)@.len() - final(splats)@.len(),
            r.modified == 0,
            r.duration_ms == 0,
            r.notes@.len() == 0,
            *final(ctx) == *old(ctx),
    {
        let mut keep: Vec<bool> = Vec::new();
        let mut i: usize = 0;
        while i < splats.len()
            invariant
                i <= splats@.len(),
                keep@ == finite_mask(splats@).take(i as int),
            decreases splats@.len() - i,
        {
            keep.push(splat_is_finite(&splats[i]));
            i += 1;
            assert(keep@ =~= finite_mask(splats@).take(i as int));
        }
        assert(keep@ =~= finite_mask(splats@));
        let removed = retain_mask(splats, &keep);
        PassStats { removed, modified: 0, duration_ms: 0, notes: Vec::new() }
    }
}

// ---------- ReduceSHDegree ----------

/// Number of coefficients of an SH color of degree `t`: three channels of
/// `(t + 1)^2` bands.
pub open spec fn sh_coeff_count(t: u8) -> int {
    3 * ((t as int + 1) * (t as int + 1))
}

/// The `i`-th coefficient, or `0.0` (bit pattern 0) when there is none.
pub open spec fn coeff_or_zero(c: Seq<u32>, i: int) -> u32 {
    if i < c.len() {
        c[i]
    } else {
        0
    }
}

/// The color is SH of a degree above `t`.
pub open spec fn above_degree(c: ColorBits, t: u8) -> bool {
    c matches ColorBits::Sh { degree, .. } && degree > t
}

/// `n` is `o` reduced to degree `t`: unchanged when `o` is RGB or of
/// degree at most `t`; otherwise its three DC values as RGB when `t` is 0,
/// else degree `t` with the leading coefficients of that degree (all of
/// them when there are fewer).
pub open spec fn reduced_color(o: ColorBits, n: ColorBits, t: u8) -> bool {
    if !above_degree(o, t) {
        n == o
    } else {
        let c = o->coeffs@;
        if t == 0 {
            n matches ColorBits::Rgb(d) && d@ == seq![coeff_or_zero(c, 0), coeff_or_zero(c, 1), coeff_or_zero(c, 2)]
        } else {
            n matches ColorBits::Sh { degree, coeffs } && degree == t && coeffs@ == c.take(
                if sh_coeff_count(t) < c.len() {
                    sh_coeff_count(t)
                } else {
                    c.len() as int
                },
            )
        }
    }
}

/// `n` is `o` with its color reduced to degree `t`, all else equal.
pub open spec fn reduced_splat(o: SplatBits, n: SplatBits, t: u8) -> bool {
    &&& n.position == o.position
    &&& n.rotation == o.rotation
    &&& n.scale == o.scale
    &&& n.opacity == o.opacity
    &&& reduced_color(o.color, n.color, t)
}

/// How many splats have SH above degree `t`.
pub open spec fn count_above(s: Seq<SplatBits>, t: u8) -> nat
    decreases s.len(),
{
    if s.len() == 0 {
        0
    } else {
        count_above(s.drop_last(), t) + if above_degree(s.last().color, t) {
            1nat
        } else {
            0nat
        }
    }
}

/// The color reduced to degree `t`.
fn reduce_color(c: ColorBits, t: u8) -> (r: ColorBits)
    ensures
        reduced_color(c, r, t),
{
    let above = match &c {
        ColorBits::Rgb(_) => false,
        ColorBits::Sh { degree, .. } => *degree > t,
    };
    if !above {
        return c;
    }
    match c {
        ColorBits::Rgb(_) => c,
        ColorBits::Sh { degree, coeffs } => {
            if t == 0 {
                let c0 = if coeffs.len() > 0 { coeffs[0] } else { 0 };
                let c1 = if coeffs.len() > 1 { coeffs[1] } else { 0 };
                let c2 = if coeffs.len() > 2 { coeffs[2] } else { 0 };
                let r = ColorBits::Rgb([c0, c1, c2]);
                proof {
                    let d = [c0, c1, c2];
                    assert(d@ =~= seq![coeff_or_zero(coeffs@, 0), coeff_or_zero(coeffs@, 1), coeff_or_zero(coeffs@, 2)]);
                }
                r
            } else {
                assert((t as int + 1) * (t as int + 1) <= 65536) by (nonlinear_arith)
                    requires
                        t <= 255,
                ;
                let bands: usize = (t as usize + 1) * (t as usize + 1);
                let needed: usize = 3 * bands;
                let keep_n = if needed < coeffs.len() { needed } else { coeffs.len() };
                let mut out: Vec<u32> = Vec::new();
                let mut i: usize = 0;
                while i < keep_n
                    invariant
                        i <= keep_n <= coeffs@.len(),
                        out@ == coeffs@.take(i as int),
                    decreases keep_n - i,
                {
                    out.push(coeffs[i]);
                    i += 1;
                    assert(out@ =~= coeffs@.take(i as int));
                }
                assert(needed as int == sh_coeff_count(t));
                ColorBits::Sh { degree: t, coeffs: out }
            }
        },
    }
}

impl ReduceSHDegree {
    /// Stable identifier used in reports.
    pub fn name(&self) -> (r: &'static str)
        ensures
            r@ == "ReduceSHDegree"@,
    {
        "ReduceSHDegree"
    }

    /// Truncates every SH color above the target degree; `modified` counts
    /// the splats changed.
    pub fn run(&self, splats: &mut Vec<SplatBits>, ctx: &mut PassContext) -> (r: PassStats)
        ensures
            final(splats)@.len() == old(splats)@.len(),
            forall|k: int|
                0 <= k < old(splats)@.len() ==> reduced_splat(
                    old(splats)@[k],
                    #[trigger] final(splats)@[k],
                    self.target_degree,
                ),
            r.modified == count_above(old(splats)@, self.target_degree),
            r.removed == 0,
            r.duration_ms == 0,
            r.notes@.len() == 0,
            *final(ctx) == *old(ctx),
    {
        let t = self.target_degree;
        let ghost orig = splats@;
        let n = splats.len();
        let mut taken: Vec<SplatBits> = Vec::new();
        std::mem::swap(&mut taken, splats);
        let mut slots = into_slots(taken);
        let mut modified: usize = 0;
        let mut k: usize = 0;
        while k < n
            invariant
                n == orig.len() == slots@.len(),
                k <= n,
                splats@.len() == k,
                forall|m: int| 0 <= m < k ==> reduced_splat(orig[m], #[trigger] splats@[m], t),
                forall|m: int| k <= m < n ==> #[trigger] slots@[m] == Some(orig[m]),
                modified == count_above(orig.take(k as int), t),
                modified <= k,
            decreases n - k,
        {
            let mut cell: Option<SplatBits> = None;
            std::mem::swap(&mut cell, &mut slots[k]);
            proof {
                let s = orig.take(k + 1);
                assert(s.drop_last() == orig.take(k as int));
                assert(s.last() == orig[k as int]);
            }
            if let Some(sp) = cell {
                let above = match &sp.color {
                    ColorBits::Rgb(_) => false,
                    ColorBits::Sh { degree, .. } => *degree > t,
                };
                if above {
                    modified += 1;
                }
                let SplatBits { position, rotation, scale, opacity, color } = sp;
                let nc = reduce_color(color, t);
                splats.push(SplatBits { position, rotation, scale, opacity, color: nc });
            }
            k += 1;
        }
        assert(orig.take(n as int) == orig);
        PassStats { removed: 0, modified, duration_ms: 0, notes: Vec::new() }
    }
}

// ---------- MortonSort ----------

/// The 30-bit Morton code of three 10-bit quantized coordinates: bit `i`
/// of axis `a` lands on bit `3i + a`.
pub fn morton_code_10(q: [u32; 3]) -> (r: u64)
    requires
        q[0] < 1024,
        q[1] < 1024,
        q[2] < 1024,
    ensures
        forall|i: int|
            0 <= i < 16 ==> #[trigger] crate::meson::lane(r, i, 0) == crate::meson::bit(q[0] as u64, i)
                && crate::meson::lane(r, i, 1) == crate::meson::bit(q[1] as u64, i)
                && crate::meson::lane(r, i, 2) == crate::meson::bit(q[2] as u64, i),
{
    crate::meson::morton3(q[0], q[1], q[2])
}

impl MortonSort {
    /// Stable identifier used in reports.
    pub fn name(&self) -> (r: &'static str)
        ensures
            r@ == "MortonSort"@,
    {
        "MortonSort"
    }

    /// Reorders the splats by their Morton codes, ties kept in input order;
    /// `modified` is the splat count.
    pub fn run(&self, splats: &mut Vec<SplatBits>, codes: &[u64], ctx: &mut PassContext) -> (r: PassStats)
        requires
            codes@.len() == old(splats)@.len(),
        ensures
            exists|order: Seq<usize>|
                #![trigger is_order(order, codes@.len())]
                is_order(order, codes@.len()) && ascending(codes@, order) && final(splats)@.len()
                    == old(splats)@.len() && forall|k: int|
                    0 <= k < order.len() ==> #[trigger] final(splats)@[k] == old(splats)@[order[k] as int],
            r.modified == old(splats)@.len(),
            r.removed == 0,
            r.duration_ms == 0,
            r.notes@.len() == 0,
            *final(ctx) == *old(ctx),
    {
        let n = splats.len();
        let order = stable_order(codes);
        let mut taken: Vec<SplatBits> = Vec::new();
        std::mem::swap(&mut taken, splats);
        let sorted = gather(taken, &order);
        *splats = sorted;
        PassStats { removed: 0, modified: n, duration_ms: 0, notes: Vec::new() }
    }
}

// ---------- BuildLOD ----------

/// Every `stride`-th index below `n`, starting at 0, as `u32`.
pub fn lod_indices(n: usize, stride: usize) -> (r: Vec<u32>)
    requires
        stride >= 1,
    ensures
        r@.len() == (n + stride - 1) / (stride as int),
        forall|i: int| 0 <= i < r@.len() ==> #[trigger] r@[i] == (i * stride) as u32,
{
    let mut out: Vec<u32> = Vec::new();
    let mut k: usize = 0;
    while k < n
        invariant
            stride >= 1,
            k <= n,
            out@.len() * stride >= k,
            k < n ==> out@.len() * stride == k,
            out@.len() == 0 || (out@.len() - 1) * stride < n,
            forall|i: int| 0 <= i < out@.len() ==> #[trigger] out@[i] == (i * stride) as u32,
        decreases n - k,
    {
        let ghost len0 = out@.len();
        out.push(k as u32);
        proof {
            assert(out@.len() * stride == k + stride) by (nonlinear_arith)
                requires
                    len0 * stride == k,
                    out@.len() == len0 + 1,
            ;
        }
        if n - k <= stride {
            k = n;
        } else {
            k = k + stride;
        }
    }
    proof {
        let m = out@.len() as int;
        let s = stride as int;
        let nn = n as int;
        if m > 0 {
            assert(m == (nn + s - 1) / s) by (nonlinear_arith)
                requires
                    m * s >= nn,
                    (m - 1) * s < nn,
                    s >= 1,
            {
                let q = (nn + s - 1) / s;
                assert(q * s <= nn + s - 1);
                assert(q * s > nn - 1);
            }
        } else {
            assert(nn == 0);
            assert((nn + s - 1) / s == 0) by (nonlinear_arith)
                requires
                    nn == 0,
                    s >= 1,
            ;
        }
    }
    out
}

// ---------- ObjectAwarePruneExperimental ----------

/// What a run of the object-aware pruner did.
#[derive(Debug, Clone, Copy)]
pub struct PruneOutcome {
    /// The scene had fewer than ten splats and was left alone.
    pub skipped: bool,
    /// Splats removed.
    pub removed: usize,
    /// Size of the sparsest decile, `ceil(n / 10)`.
    pub decile: usize,
}

/// Size of the sparsest decile of `n` splats.
pub open spec fn decile_of(n: int) -> int {
    (n + 9) / 10
}

/// Splat `i` is among the first `decile_of(n)` entries of the
/// sparsest-first order.
pub open spec fn in_sparsest(order: Seq<usize>, n: int, i: int) -> bool {
    exists|p: int| 0 <= p < decile_of(n) && #[trigger] order[p] as int == i
}

/// Splat `i` carries a label listed in `protect`.
pub open spec fn protected_at(labels: Option<Vec<SemanticLabel>>, protect: Seq<String>, i: int) -> bool {
    match labels {
        Some(v) => i < v@.len() && exists|p: int| 0 <= p < protect.len() && #[trigger] protect[p]@ == v@[i].0@,
        None => false,
    }
}

/// Which splats survive: those not sparse, not faint, or protected.
pub open spec fn prune_keep(
    order: Seq<usize>,
    faint: Seq<bool>,
    labels: Option<Vec<SemanticLabel>>,
    protect: Seq<String>,
    n: int,
) -> Seq<bool> {
    Seq::new(
        n as nat,
        |i: int| !(in_sparsest(order, n, i) && faint[i] && !protected_at(labels, protect, i)),
    )
}

/// The label list after pruning with `keep`: labels of surviving splats,
/// in order (a list shorter than the scene keeps only what it has).
pub open spec fn labels_after(labels: Option<Vec<SemanticLabel>>, keep: Seq<bool>) -> Option<Seq<SemanticLabel>> {
    match labels {
        Some(v) => {
            let m = if v@.len() < keep.len() {
                v@.len() as int
            } else {
                keep.len() as int
            };
            Some(masked(v@.take(m), keep.take(m)))
        },
        None => None,
    }
}

impl ObjectAwarePruneExperimental {
    /// Stable identifier used in reports.
    pub fn name(&self) -> (r: &'static str)
        ensures
            r@ == "ObjectAwarePruneExperimental"@,
    {
        "ObjectAwarePruneExperimental"
    }

    /// Prunes the splats that are in the sparsest decile of
    /// `sparsest_first` (every index ranked by decreasing k-NN score) and
    /// are `faint`, unless their label is protected; the label list is
    /// filtered alongside. Scenes of fewer than ten splats are skipped.
    pub fn run(
        &self,
        splats: &mut Vec<SplatBits>,
        labels: &mut Option<Vec<SemanticLabel>>,
        sparsest_first: &Vec<usize>,
        faint: &Vec<bool>,
    ) -> (r: PruneOutcome)
        requires
            old(splats)@.len() >= 10 ==> is_order(sparsest_first@, old(splats)@.len()),
            old(splats)@.len() >= 10 ==> faint@.len() == old(splats)@.len(),
        ensures
            r.skipped <==> old(splats)@.len() < 10,
            r.skipped ==> final(splats)@ == old(splats)@ && *final(labels) == *old(labels) && r.removed == 0,
            !r.skipped ==> {
                let keep = prune_keep(
                    sparsest_first@,
                    faint@,
                    *old(labels),
                    self.protect_labels@,
                    old(splats)@.len() as int,
                );
                &&& final(splats)@ == masked(old(splats)@, keep)
                &&& r.removed == old(splats)@.len() - final(splats)@.len()
                &&& r.decile == decile_of(old(splats)@.len() as int)
                &&& labels_after(*old(labels), keep) == match *final(labels) {
                    Some(v) => Some(v@),
                    None => None::<Seq<SemanticLabel>>,
                }
            },
    {
        let n = splats.len();
        if n < 10 {
            return PruneOutcome { skipped: true, removed: 0, decile: 0 };
        }
        let decile = n / 10 + if n % 10 == 0 { 0 } else { 1 };
        assert(decile == decile_of(n as int)) by (nonlinear_arith)
            requires
                decile == n / 10 + if n % 10 == 0 { 0int } else { 1int },
                n >= 10,
        {
            assert(n == 10 * (n / 10) + n % 10);
        }
        let ghost order = sparsest_first@;
        let ghost old_labels = *labels;
        // sparsest-decile flags
        let mut sparse: Vec<bool> = Vec::new();
        let mut i: usize = 0;
        while i < n
            invariant
                i <= n,
                sparse@.len() == i,
                forall|m: int| 0 <= m < i ==> !#[trigger] sparse@[m],
            decreases n - i,
        {
            sparse.push(false);
            i += 1;
        }
        let mut p: usize = 0;
        while p < decile
            invariant
                n >= 10,
                decile == decile_of(n as int),
                decile <= n,
                p <= decile,
                sparse@.len() == n,
                sparsest_first@ == order,
                is_order(order, n as nat),
                forall|m: int|
                    0 <= m < n ==> (#[trigger] sparse@[m] <==> exists|q: int|
                        0 <= q < p && #[trigger] order[q] as int == m),
            decreases decile - p,
        {
            let at = sparsest_first[p];
            sparse.set(at, true);
            proof {
                assert forall|m: int| 0 <= m < n implies (#[trigger] sparse@[m] <==> exists|q: int|
                    0 <= q < p + 1 && #[trigger] order[q] as int == m) by {
                    if m == at as int {
                        assert(order[p as int] as int == m);
                    } else {
                        if exists|q: int| 0 <= q < p + 1 && #[trigger] order[q] as int == m {
                            let q = choose|q: int| 0 <= q < p + 1 && #[trigger] order[q] as int == m;
                            assert(q != p);
                        }
                    }
                }
            }
            p += 1;
        }
        // keep mask
        let mut keep: Vec<bool> = Vec::new();
        let mut i: usize = 0;
        while i < n
            invariant
                i <= n,
                n == splats@.len(),
                decile == decile_of(n as int),
                sparse@.len() == n,
                faint@.len() == n,
                *labels == old_labels,
                forall|m: int|
                    0 <= m < n ==> (#[trigger] sparse@[m] <==> exists|q: int|
                        0 <= q < decile && #[trigger] order[q] as int == m),
                keep@ =~= prune_keep(order, faint@, old_labels, self.protect_labels@, n as int).take(i as int),
            decreases n - i,
        {
            let prot = match labels {
                Some(v) => {
                    if i < v.len() {
                        contains_str(&self.protect_labels, v[i].0.as_str())
                    } else {
                        false
                    }
                },
                None => false,
            };
            proof {
                assert(sparse@[i as int] == in_sparsest(order, n as int, i as int));
                assert(prot == protected_at(old_labels, self.protect_labels@, i as int));
            }
            keep.push(!(sparse[i] && faint[i] && !prot));
            i += 1;
        }
        let ghost keep_all = keep@;
        assert(keep_all =~= prune_keep(order, faint@, old_labels, self.protect_labels@, n as int));
        let removed = retain_mask(splats, &keep);
        let mut lab: Option<Vec<SemanticLabel>> = None;
        std::mem::swap(&mut lab, labels);
        match lab {
            Some(mut v) => {
                let m = if v.len() < n { v.len() } else { n };
                v.truncate(m);
                let mut k2: Vec<bool> = Vec::new();
                let mut j: usize = 0;
                while j < m
                    invariant
                        j <= m <= n,
                        keep@ == keep_all,
                        keep_all.len() == n,
                        k2@ == keep_all.take(j as int),
                    decreases m - j,
                {
                    k2.push(keep[j]);
                    j += 1;
                    assert(k2@ =~= keep_all.take(j as int));
                }
                retain_mask(&mut v, &k2);
                *labels = Some(v);
            },
            None => {},
        }
        PruneOutcome { skipped: false, removed, decile }
    }
}

// ---------- laws ----------

/// The items kept by a mask are items of the input, and every flag of a
/// kept item was set.
proof fn lemma_masked_from<T>(s: Seq<T>, keep: Seq<bool>, p: spec_fn(T) -> bool)
    requires
        keep.len() == s.len(),
        forall|i: int| 0 <= i < s.len() && #[trigger] keep[i] ==> p(s[i]),
    ensures
        forall|k: int| 0 <= k < masked(s, keep).len() ==> p(#[trigger] masked(s, keep)[k]),
    decreases s.len(),
{
    if s.len() > 0 {
        let n = s.len() - 1;
        assert forall|i: int| 0 <= i < s.drop_last().len() && #[trigger] keep.take(n)[i] implies p(
            s.drop_last()[i],
        ) by {
            assert(keep.take(n)[i] == keep[i]);
        }
        lemma_masked_from(s.drop_last(), keep.take(n), p);
        let rest = masked(s.drop_last(), keep.take(n));
        if keep[n] {
            assert(p(s[n]));
            assert(masked(s, keep) == rest.push(s.last()));
            assert forall|k: int| 0 <= k < masked(s, keep).len() implies p(#[trigger] masked(s, keep)[k]) by {
                if k < rest.len() {
                    assert(masked(s, keep)[k] == rest[k]);
                }
            }
        } else {
            assert(masked(s, keep) == rest);
        }
    }
}

/// A mask with every flag set keeps everything.
proof fn lemma_masked_all<T>(s: Seq<T>, keep: Seq<bool>)
    requires
        keep.len() == s.len(),
        forall|i: int| 0 <= i < keep.len() ==> #[trigger] keep[i],
    ensures
        masked(s, keep) == s,
    decreases s.len(),
{
    if s.len() > 0 {
        let n = s.len() - 1;
        lemma_masked_all(s.drop_last(), keep.take(n));
        assert(s.drop_last().push(s.last()) =~= s);
    }
}

/// After `RemoveInvalidSplats`, every splat is finite, and a second run
/// keeps the scene as it is.
pub proof fn lemma_remove_invalid_idempotent(s: Seq<SplatBits>)
    ensures
        forall|k: int|
            0 <= k < masked(s, finite_mask(s)).len() ==> splat_finite(
                #[trigger] masked(s, finite_mask(s))[k],
            ),
        masked(masked(s, finite_mask(s)), finite_mask(masked(s, finite_mask(s)))) == masked(
            s,
            finite_mask(s),
        ),
{
    let p = |x: SplatBits| splat_finite(x);
    lemma_masked_from(s, finite_mask(s), p);
    let r = masked(s, finite_mask(s));
    assert forall|i: int| 0 <= i < finite_mask(r).len() implies #[trigger] finite_mask(r)[i] by {
        assert(p(r[i]));
    }
    lemma_masked_all(r, finite_mask(r));
}

/// How many splats of `s` are above degree `t` is zero when none is.
proof fn lemma_count_above_zero(s: Seq<SplatBits>, t: u8)
    requires
        forall|k: int| 0 <= k < s.len() ==> !above_degree(#[trigger] s[k].color, t),
    ensures
        count_above(s, t) == 0,
    decreases s.len(),
{
    if s.len() > 0 {
        lemma_count_above_zero(s.drop_last(), t);
    }
}

/// After `ReduceSHDegree` to degree `t`, no splat has SH above `t`, so a
/// second run modifies nothing and keeps every splat as it is.
pub proof fn lemma_reduce_sh_idempotent(o: Seq<SplatBits>, n: Seq<SplatBits>, t: u8)
    requires
        n.len() == o.len(),
        forall|k: int| 0 <= k < o.len() ==> reduced_splat(o[k], #[trigger] n[k], t),
    ensures
        forall|k: int| 0 <= k < n.len() ==> !above_degree(#[trigger] n[k].color, t),
        count_above(n, t) == 0,
        forall|m: Seq<SplatBits>|
            m.len() == n.len() && (forall|k: int| 0 <= k < n.len() ==> reduced_splat(n[k], #[trigger] m[k], t))
                ==> m =~= n,
{
    assert forall|k: int| 0 <= k < n.len() implies !above_degree(#[trigger] n[k].color, t) by {
        assert(reduced_splat(o[k], n[k], t));
    }
    lemma_count_above_zero(n, t);
    assert forall|m: Seq<SplatBits>|
        m.len() == n.len() && (forall|k: int| 0 <= k < n.len() ==> reduced_splat(n[k], #[trigger] m[k], t))
            implies m =~= n by {
        assert forall|k: int| 0 <= k < n.len() implies m[k] == n[k] by {
            assert(reduced_splat(n[k], m[k], t));
            assert(!above_degree(n[k].color, t));
        }
    }
}


/// An IEEE-754 single whose bit pattern is `b` is finite: its exponent
/// field is not all ones.
pub open spec fn exponent_not_max(b: u32) -> bool {
    (b / 8388608) % 256 != 255
}

/// The position, rotation, scale and opacity words of `s` all have a
/// finite exponent.
pub open spec fn geometry_finite(s: SplatBits) -> bool {
    &&& forall|j: int| 0 <= j < 3 ==> exponent_not_max(#[trigger] s.position[j])
    &&& forall|j: int| 0 <= j < 4 ==> exponent_not_max(#[trigger] s.rotation[j])
    &&& forall|j: int| 0 <= j < 3 ==> exponent_not_max(#[trigger] s.scale[j])
    &&& exponent_not_max(s.opacity)
}

/// Removing invalid splats keeps exactly the splats whose every value is
/// finite: a splat with a NaN or infinite position, rotation, scale or
/// opacity word is dropped, every splat it keeps has finite geometry, and
/// a splat whose words (color included) are all finite is kept.
pub proof fn lemma_remove_invalid_drops_nonfinite(s: Seq<SplatBits>)
    ensures
        forall|i: int|
            0 <= i < s.len() ==> (!geometry_finite(#[trigger] s[i]) ==> !finite_mask(s)[i]),
        forall|i: int|
            0 <= i < s.len() ==> ((geometry_finite(#[trigger] s[i]) && match s[i].color {
                ColorBits::Rgb(c) => forall|j: int| 0 <= j < 3 ==> exponent_not_max(#[trigger] c[j]),
                ColorBits::Sh { coeffs, .. } => forall|j: int|
                    0 <= j < coeffs@.len() ==> exponent_not_max(#[trigger] coeffs@[j]),
            }) ==> finite_mask(s)[i]),
        forall|k: int|
            0 <= k < masked(s, finite_mask(s)).len() ==> geometry_finite(#[trigger] masked(s, finite_mask(s))[k]),
{
    assert forall|i: int| 0 <= i < s.len() implies (!geometry_finite(#[trigger] s[i]) ==> !finite_mask(s)[i]) by {
        let x = s[i];
        if !geometry_finite(x) && finite_mask(s)[i] {
            assert(splat_finite(x));
            assert(forall|j: int| 0 <= j < 3 ==> f32_finite(#[trigger] x.position@[j]));
            assert(forall|j: int| 0 <= j < 4 ==> f32_finite(#[trigger] x.rotation@[j]));
            assert(forall|j: int| 0 <= j < 3 ==> f32_finite(#[trigger] x.scale@[j]));
        }
    }
    assert forall|i: int| 0 <= i < s.len() implies ((geometry_finite(#[trigger] s[i]) && match s[i].color {
        ColorBits::Rgb(c) => forall|j: int| 0 <= j < 3 ==> exponent_not_max(#[trigger] c[j]),
        ColorBits::Sh { coeffs, .. } => forall|j: int|
            0 <= j < coeffs@.len() ==> exponent_not_max(#[trigger] coeffs@[j]),
    }) ==> finite_mask(s)[i]) by {
        let x = s[i];
        assert(x.position@.len() == 3 && x.rotation@.len() == 4 && x.scale@.len() == 3);
        assert(forall|j: int| 0 <= j < 3 ==> #[trigger] x.position@[j] == x.position[j]);
        assert(forall|j: int| 0 <= j < 4 ==> #[trigger] x.rotation@[j] == x.rotation[j]);
        assert(forall|j: int| 0 <= j < 3 ==> #[trigger] x.scale@[j] == x.scale[j]);
        match x.color {
            ColorBits::Rgb(c) => {
                assert(c@.len() == 3);
                assert(forall|j: int| 0 <= j < 3 ==> #[trigger] c@[j] == c[j]);
            },
            _ => {},
        }
    }
    let p = |x: SplatBits| geometry_finite(x);
    assert forall|i: int| 0 <= i < s.len() && #[trigger] finite_mask(s)[i] implies p(s[i]) by {
        let x = s[i];
        assert(splat_finite(x));
        assert(forall|j: int| 0 <= j < 3 ==> #[trigger] x.position@[j] == x.position[j]);
        assert(forall|j: int| 0 <= j < 4 ==> #[trigger] x.rotation@[j] == x.rotation[j]);
        assert(forall|j: int| 0 <= j < 3 ==> #[trigger] x.scale@[j] == x.scale[j]);
    }
    lemma_masked_from(s, finite_mask(s), p);
}
} // verus!
