//! Palette extraction: recursive partitioning of colour samples into
//! buckets, each reduced to its mean colour.

use vstd::prelude::*;

use itertools::Itertools;

use crate::bucket::{lemma_sorted_by_channel_permutes, sort_by_channel, sorted_by_channel};
use crate::color::{
    chan, channel_max, channel_min, channel_sq_sum, channel_sum, channel_totals,
    lemma_channel_sum_bounds, lemma_channel_sum_split, lemma_variance_nonneg,
    mean_color, mean_of, Rgb8, SAMPLE_LIMIT,
};
use crate::isqrt::{isqrt, isqrt_u128};

verus! {

/// How a bucket that is split picks its split point.
#[derive(Clone, Copy, Debug, PartialEq, Eq, Structural)]
pub enum PaletteExtractionAlgorithm {
    /// Split at the middle of the bucket.
    MedianCut,
    /// Split before the first sample above the bucket's mean.
    MeanCut,
    /// Split where the two halves' standard deviations sum to the least.
    ModeBisect,
}

/// Why a bucket produced no palette.
#[derive(Clone, Copy, Debug, PartialEq, Eq, Structural)]
pub enum PaletteError {
    /// There were no samples at all.
    EmptyInput,
    /// A channel's range could not be found (the bucket was empty).
    DegenerateRange,
    /// No sample lies above the mean of the split channel.
    NoSplitCandidate,
}

/// Fixed-point scale at which standard deviations are compared: each is
/// computed exactly in integers, as the integer square root of the scaled
/// variance, and rounded down to a multiple of `1 / DEVIATION_SCALE`.
pub const DEVIATION_SCALE: u128 = 65536;

/// The value range of channel `d` over a non-empty bucket.
pub open spec fn spread(s: Seq<Rgb8>, d: int) -> int {
    channel_max(s, d) - channel_min(s, d)
}

/// The channel with the greatest range; the lowest such channel on ties.
pub open spec fn widest_channel(s: Seq<Rgb8>) -> int {
    if spread(s, 0) >= spread(s, 1) && spread(s, 0) >= spread(s, 2) {
        0
    } else if spread(s, 1) >= spread(s, 2) {
        1
    } else {
        2
    }
}

/// The index of the first sample of `s`, from `i` on, whose channel `d`
/// exceeds `m`; `s.len()` if there is none.
pub open spec fn first_above(s: Seq<Rgb8>, d: int, m: int, i: int) -> int
    decreases s.len() - i,
{
    if i >= s.len() {
        s.len() as int
    } else if chan(s[i], d) > m {
        i
    } else {
        first_above(s, d, m, i + 1)
    }
}

/// The mean-cut split point: before the first sample above the truncated
/// mean of channel `d`, or none if no sample lies above it.
pub open spec fn mean_cut_point(s: Seq<Rgb8>, d: int) -> Option<int> {
    let k = first_above(s, d, channel_sum(s, d) / s.len() as int, 0);
    if k < s.len() {
        Some(k)
    } else {
        None
    }
}

/// `n * sum(x^2) - sum(x)^2`: the variance of channel `d` times `n^2`.
pub open spec fn variance_numer(s: Seq<Rgb8>, d: int) -> int {
    s.len() * channel_sq_sum(s, d) - channel_sum(s, d) * channel_sum(s, d)
}

/// The population standard deviation of channel `d`, times `scale`,
/// rounded down.
pub open spec fn scaled_deviation(s: Seq<Rgb8>, d: int, scale: int) -> int {
    isqrt((scale * scale * variance_numer(s, d)) as nat) as int / s.len() as int
}

/// The score of cutting after position `j`: the sum of the standard
/// deviations of `s[..j+1]` and `s[j+1..]`, rounded down.
pub open spec fn cut_score(s: Seq<Rgb8>, d: int, j: int) -> int {
    (scaled_deviation(s.subrange(0, j + 1), d, DEVIATION_SCALE as int) + scaled_deviation(
        s.subrange(j + 1, s.len() as int),
        d,
        DEVIATION_SCALE as int,
    )) / DEVIATION_SCALE as int
}

/// The first position below `k` with the least cut score.
pub open spec fn best_cut(s: Seq<Rgb8>, d: int, k: int) -> int
    decreases k,
{
    if k <= 1 {
        0
    } else {
        let b = best_cut(s, d, k - 1);
        if cut_score(s, d, k - 1) < cut_score(s, d, b) {
            k - 1
        } else {
            b
        }
    }
}

/// The mode-bisect split point: after the best cut if its score is below the
/// whole bucket's standard deviation, else 0 (no split).
pub open spec fn mode_bisect_point(s: Seq<Rgb8>, d: int) -> int {
    let b = best_cut(s, d, s.len() - 1);
    if cut_score(s, d, b) < scaled_deviation(s, d, 1) {
        b + 1
    } else {
        0
    }
}

/// Where a bucket sorted by channel `d` is split, or none if it cannot be.
pub open spec fn split_point(s: Seq<Rgb8>, d: int, alg: PaletteExtractionAlgorithm) -> Option<int> {
    match alg {
        PaletteExtractionAlgorithm::MedianCut => Some(s.len() as int / 2),
        PaletteExtractionAlgorithm::MeanCut => mean_cut_point(s, d),
        PaletteExtractionAlgorithm::ModeBisect => Some(mode_bisect_point(s, d)),
    }
}

/// The leaf buckets of the partition of `s`, in order: the buckets that
/// `palette` reduces to one colour each.
pub open spec fn leaves(s: Seq<Rgb8>, depth: nat, alg: PaletteExtractionAlgorithm) -> Seq<Seq<Rgb8>>
    decreases depth,
{
    if s.len() == 0 {
        Seq::empty()
    } else if s.len() == 1 || depth == 0 {
        seq![s]
    } else {
        let t = sorted_by_channel(s, widest_channel(s));
        match split_point(t, widest_channel(s), alg) {
            Some(k) => leaves(t.subrange(0, k), (depth - 1) as nat, alg) + leaves(
                t.subrange(k, t.len() as int),
                (depth - 1) as nat,
                alg,
            ),
            None => seq![t],
        }
    }
}

/// The palette of `s`: one colour per leaf bucket, in order. An empty bucket
/// gives nothing, a single sample gives itself, and a bucket at depth 0 gives
/// its mean. Any other bucket is sorted by its widest channel and split; the
/// halves' palettes are concatenated. A bucket that cannot be split (no
/// sample above the mean, under mean cut) gives its mean.
pub open spec fn palette(s: Seq<Rgb8>, depth: nat, alg: PaletteExtractionAlgorithm) -> Seq<Rgb8>
    decreases depth,
{
    if s.len() == 0 {
        Seq::empty()
    } else if s.len() == 1 {
        seq![s[0]]
    } else if depth == 0 {
        seq![mean_color(s)]
    } else {
        let t = sorted_by_channel(s, widest_channel(s));
        match split_point(t, widest_channel(s), alg) {
            Some(k) => palette(t.subrange(0, k), (depth - 1) as nat, alg) + palette(
                t.subrange(k, t.len() as int),
                (depth - 1) as nat,
                alg,
            ),
            None => seq![mean_color(t)],
        }
    }
}

/// Relies on itertools' `Itertools::minmax`: no result for an empty
/// iterator, else the least and the greatest value.
#[verifier::external_body]
fn channel_extent(values: &[Rgb8], d: usize) -> (r: Option<(u8, u8)>)
    requires
        d < 3,
    ensures
        r is None <==> values@.len() == 0,
        r matches Some((lo, hi)) ==> lo as int == channel_min(values@, d as int) && hi as int
            == channel_max(values@, d as int),
{
    match values.iter().map(|v| v[d]).minmax() {
        itertools::MinMaxResult::NoElements => None,
        itertools::MinMaxResult::OneElement(x) => Some((x, x)),
        itertools::MinMaxResult::MinMax(lo, hi) => Some((lo, hi)),
    }
}

/// Picks the channel with the greatest value range, the lowest on ties.
pub fn pick_channel(values: &[Rgb8]) -> (r: Result<usize, PaletteError>)
    ensures
        values@.len() == 0 ==> r == Err::<usize, PaletteError>(PaletteError::DegenerateRange),
        values@.len() > 0 ==> r == Ok::<usize, PaletteError>(widest_channel(values@) as usize),
{
    let mut ranges: [u8; 3] = [0, 0, 0];
    let mut d: usize = 0;
    while d < 3
        invariant
            d <= 3,
            d > 0 ==> values@.len() > 0,
            forall|e: int| 0 <= e < d ==> ranges[e] as int == spread(values@, e),
        decreases 3 - d,
    {
        match channel_extent(values, d) {
            Some((lo, hi)) => {
                assert(channel_min(values@, d as int) <= channel_max(values@, d as int)) by {
                    lemma_min_le_max(values@, d as int);
                }
                ranges[d] = hi - lo;
            },
            None => {
                return Err(PaletteError::DegenerateRange);
            },
        }
        d = d + 1;
    }
    if ranges[0] >= ranges[1] && ranges[0] >= ranges[2] {
        Ok(0)
    } else if ranges[1] >= ranges[2] {
        Ok(1)
    } else {
        Ok(2)
    }
}

proof fn lemma_min_le_max(s: Seq<Rgb8>, d: int)
    requires
        s.len() > 0,
    ensures
        channel_min(s, d) <= channel_max(s, d),
    decreases s.len(),
{
    if s.len() > 1 {
        lemma_min_le_max(s.drop_last(), d);
    }
}

/// Finds the mean-cut split point of a bucket sorted by channel `d`.
fn mean_cut_index(values: &[Rgb8], d: usize) -> (r: Result<usize, PaletteError>)
    requires
        d < 3,
        1 <= values@.len() <= SAMPLE_LIMIT,
    ensures
        match mean_cut_point(values@, d as int) {
            Some(k) => 0 <= k < values@.len() && r == Ok::<usize, PaletteError>(k as usize),
            None => r == Err::<usize, PaletteError>(PaletteError::NoSplitCandidate),
        },
{
    let ghost s = values@;
    let n = values.len();
    let (sum, _) = channel_totals(values, d);
    let mean = sum / (n as u64);
    let ghost m = channel_sum(s, d as int) / s.len() as int;
    assert(mean as int == m);
    let mut i: usize = 0;
    while i < n
        invariant
            d < 3,
            n == s.len(),
            values@ == s,
            i <= n,
            mean as int == m,
            m == channel_sum(s, d as int) / s.len() as int,
            first_above(s, d as int, m, 0) == first_above(s, d as int, m, i as int),
        decreases n - i,
    {
        if values[i][d] as u64 > mean {
            assert(first_above(s, d as int, m, i as int) == i);
            assert(mean_cut_point(s, d as int) == Some(i as int));
            return Ok(i);
        }
        i = i + 1;
    }
    Err(PaletteError::NoSplitCandidate)
}

/// The standard deviation, times `scale` and rounded down, of a channel with
/// `count` samples summing to `sum`, whose squares sum to `sq`.
fn deviation(count: u64, sum: u64, sq: u64, scale: u128) -> (r: u128)
    requires
        1 <= count <= SAMPLE_LIMIT,
        (sum as int) * (sum as int) <= (count as int) * (sq as int),
        sq <= 65025 * count,
        1 <= scale <= DEVIATION_SCALE,
    ensures
        r as int == isqrt(
            (scale * scale * ((count as int) * (sq as int) - (sum as int) * (sum as int))) as nat,
        ) as int / count as int,
        r < 0x1_0000_0000_0000_0000,
{
    assert((count as int) * (sq as int) <= 0x1_0000_0000_0000_0000_0000) by (nonlinear_arith)
        requires
            count <= 4294967295,
            sq <= 65025 * count,
    ;
    let v: u128 = (count as u128) * (sq as u128) - (sum as u128) * (sum as u128);
    assert(scale * scale * v <= 0x1_0000_0000_0000_0000_0000_0000_0000) by (nonlinear_arith)
        requires
            scale <= 65536,
            v <= 0x1_0000_0000_0000_0000_0000,
    ;
    assert(scale * scale <= 0x1_0000_0000) by (nonlinear_arith)
        requires
            scale <= 65536,
    ;
    let sc2 = scale * scale;
    let x = sc2 * v;
    isqrt_u128(x) / (count as u128)
}

/// Finds the mode-bisect split point of a bucket sorted by channel `d`.
fn mode_bisect_index(values: &[Rgb8], d: usize) -> (r: usize)
    requires
        d < 3,
        2 <= values@.len() <= SAMPLE_LIMIT,
    ensures
        r as int == mode_bisect_point(values@, d as int),
        r < values@.len(),
{
    let ghost s = values@;
    let ghost dd = d as int;
    let n = values.len();
    let (total, total_sq) = channel_totals(values, d);
    proof {
        lemma_variance_nonneg(s, dd);
        lemma_channel_sum_bounds(s, dd);
    }
    let full = deviation(n as u64, total, total_sq, 1);
    let mut left: u64 = 0;
    let mut left_sq: u64 = 0;
    let mut best: usize = 0;
    let mut best_score: u128 = 0;
    let mut j: usize = 0;
    while j < n - 1
        invariant
            d < 3,
            dd == d as int,
            n == s.len(),
            2 <= n <= SAMPLE_LIMIT,
            values@ == s,
            j <= n - 1,
            total as int == channel_sum(s, dd),
            total_sq as int == channel_sq_sum(s, dd),
            left as int == channel_sum(s.subrange(0, j as int), dd),
            left_sq as int == channel_sq_sum(s.subrange(0, j as int), dd),
            j > 0 ==> best < j && best as int == best_cut(s, dd, j as int) && best_score as int
                == cut_score(s, dd, best as int),
        decreases n - 1 - j,
    {
        let ghost l = s.subrange(0, j as int + 1);
        let ghost rt = s.subrange(j as int + 1, n as int);
        proof {
            assert(l.drop_last() == s.subrange(0, j as int));
            lemma_channel_sum_split(s, j as int + 1, dd);
            lemma_variance_nonneg(l, dd);
            lemma_variance_nonneg(rt, dd);
            lemma_channel_sum_bounds(l, dd);
            lemma_channel_sum_bounds(rt, dd);
            lemma_channel_sum_bounds(s, dd);
        }
        let v = values[j][d] as u64;
        left = left + v;
        left_sq = left_sq + v * v;
        let ls = deviation((j + 1) as u64, left, left_sq, DEVIATION_SCALE);
        let rs = deviation((n - j - 1) as u64, total - left, total_sq - left_sq, DEVIATION_SCALE);
        let score = (ls + rs) / DEVIATION_SCALE;
        assert(score as int == cut_score(s, dd, j as int));
        if j == 0 || score < best_score {
            best = j;
            best_score = score;
        }
        j = j + 1;
    }
    if best_score < full {
        best + 1
    } else {
        0
    }
}

/// Finds where a bucket sorted by channel `d` is split.
fn split_index(values: &[Rgb8], d: usize, algorithm: &PaletteExtractionAlgorithm) -> (r: Result<
    usize,
    PaletteError,
>)
    requires
        d < 3,
        2 <= values@.len() <= SAMPLE_LIMIT,
    ensures
        match split_point(values@, d as int, *algorithm) {
            Some(k) => 0 <= k <= values@.len() && r == Ok::<usize, PaletteError>(k as usize),
            None => r == Err::<usize, PaletteError>(PaletteError::NoSplitCandidate),
        },
{
    match algorithm {
        PaletteExtractionAlgorithm::MedianCut => Ok(values.len() / 2),
        PaletteExtractionAlgorithm::MeanCut => mean_cut_index(values, d),
        PaletteExtractionAlgorithm::ModeBisect => Ok(mode_bisect_index(values, d)),
    }
}

/// Extracts a palette from `values`: the samples are partitioned into at
/// most `2^depth` buckets, each reduced to its mean colour. The samples are
/// reordered in place only by the stable sorts of the splits, and end up as
/// the leaf buckets laid end to end, in palette order.
pub fn extract_palette(
    values: &mut [Rgb8],
    depth: usize,
    algorithm: &PaletteExtractionAlgorithm,
) -> (r: Result<Vec<Rgb8>, PaletteError>)
    requires
        old(values)@.len() <= SAMPLE_LIMIT,
    ensures
        final(values)@ == leaves(old(values)@, depth as nat, *algorithm).flatten(),
        final(values)@.to_multiset() == old(values)@.to_multiset(),
        old(values)@.len() == 0 ==> r == Err::<Vec<Rgb8>, PaletteError>(PaletteError::EmptyInput),
        old(values)@.len() > 0 ==> (r matches Ok(p) && p@ == palette(
            old(values)@,
            depth as nat,
            *algorithm,
        )),
    decreases depth,
{
    let ghost s = values@;
    let n = values.len();
    proof {
        seq![s].lemma_flatten_one_element();
    }
    if n == 0 {
        assert(s =~= Seq::<Rgb8>::empty());
        return Err(PaletteError::EmptyInput);
    }
    if n == 1 {
        return Ok(vec![values[0]]);
    }
    if depth == 0 {
        return Ok(vec![mean_of(values)]);
    }
    let d = match pick_channel(values) {
        Ok(d) => d,
        Err(e) => {
            return Err(e);
        },
    };
    sort_by_channel(values, d);
    let ghost t = values@;
    proof {
        lemma_sorted_by_channel_permutes(s, d as int);
    }
    let k = match split_index(values, d, algorithm) {
        Ok(k) => k,
        Err(_) => {
            proof {
                seq![t].lemma_flatten_one_element();
            }
            return Ok(vec![mean_of(values)]);
        },
    };
    let (left, right) = values.split_at_mut(k);
    let mut out = match extract_palette(left, depth - 1, algorithm) {
        Ok(p) => p,
        Err(_) => Vec::new(),
    };
    let mut tail = match extract_palette(right, depth - 1, algorithm) {
        Ok(p) => p,
        Err(_) => Vec::new(),
    };
    out.append(&mut tail);
    proof {
        broadcast use vstd::seq_lib::group_to_multiset_ensures;

        let tl = t.subrange(0, k as int);
        let tr = t.subrange(k as int, n as int);
        assert(t == tl + tr);
        vstd::seq_lib::lemma_multiset_commutative(tl, tr);
        vstd::seq_lib::lemma_multiset_commutative(final(left)@, final(right)@);
        assert(d as int == widest_channel(s));
        assert(t == sorted_by_channel(s, widest_channel(s)));
        assert(split_point(t, d as int, *algorithm) == Some(k as int));
        assert(out@ == palette(tl, (depth - 1) as nat, *algorithm) + palette(
            tr,
            (depth - 1) as nat,
            *algorithm,
        ));
        assert(out@ == palette(s, depth as nat, *algorithm));
        vstd::seq_lib::lemma_flatten_concat(
            leaves(tl, (depth - 1) as nat, *algorithm),
            leaves(tr, (depth - 1) as nat, *algorithm),
        );
        assert(values@ =~= final(left)@ + final(right)@);
    }
    Ok(out)
}

} // verus!
