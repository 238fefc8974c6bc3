//! Colour samples and their per-channel sums, means and variances.

use vstd::prelude::*;

verus! {

/// An RGB colour sample: three 8-bit channels.
pub type Rgb8 = [u8; 3];

/// The largest number of samples a bucket may hold, so that every
/// per-channel sum and sum of squares fits the accumulators.
pub const SAMPLE_LIMIT: usize = 4294967295;

/// The value of channel `d` of `c`.
pub open spec fn chan(c: Rgb8, d: int) -> int {
    c[d] as int
}

/// The colour whose channels are the given values, truncated to 8 bits.
pub open spec fn rgb(r: int, g: int, b: int) -> Rgb8 {
    [r as u8, g as u8, b as u8]
}

/// Sum of channel `d` over the samples.
pub open spec fn channel_sum(s: Seq<Rgb8>, d: int) -> int
    decreases s.len(),
{
    if s.len() == 0 {
        0
    } else {
        channel_sum(s.drop_last(), d) + chan(s.last(), d)
    }
}

/// Sum of the squares of channel `d` over the samples.
pub open spec fn channel_sq_sum(s: Seq<Rgb8>, d: int) -> int
    decreases s.len(),
{
    if s.len() == 0 {
        0
    } else {
        channel_sq_sum(s.drop_last(), d) + chan(s.last(), d) * chan(s.last(), d)
    }
}

/// The per-channel integer mean of a non-empty run of samples.
pub open spec fn mean_color(s: Seq<Rgb8>) -> Rgb8 {
    rgb(
        channel_sum(s, 0) / s.len() as int,
        channel_sum(s, 1) / s.len() as int,
        channel_sum(s, 2) / s.len() as int,
    )
}

/// The smallest value of channel `d` in a non-empty run of samples.
pub open spec fn channel_min(s: Seq<Rgb8>, d: int) -> int
    decreases s.len(),
{
    if s.len() <= 1 {
        chan(s[0], d)
    } else {
        let m = channel_min(s.drop_last(), d);
        if chan(s.last(), d) < m {
            chan(s.last(), d)
        } else {
            m
        }
    }
}

/// The largest value of channel `d` in a non-empty run of samples.
pub open spec fn channel_max(s: Seq<Rgb8>, d: int) -> int
    decreases s.len(),
{
    if s.len() <= 1 {
        chan(s[0], d)
    } else {
        let m = channel_max(s.drop_last(), d);
        if chan(s.last(), d) > m {
            chan(s.last(), d)
        } else {
            m
        }
    }
}

/// The sums of a channel stay within what its 8-bit values allow.
pub proof fn lemma_channel_sum_bounds(s: Seq<Rgb8>, d: int)
    requires
        0 <= d < 3,
    ensures
        0 <= channel_sum(s, d) <= 255 * s.len(),
        0 <= channel_sq_sum(s, d) <= 65025 * s.len(),
    decreases s.len(),
{
    if s.len() > 0 {
        lemma_channel_sum_bounds(s.drop_last(), d);
        let x = chan(s.last(), d);
        assert(0 <= x * x <= 65025) by (nonlinear_arith)
            requires
                0 <= x <= 255,
        ;
    }
}

/// Channel sums add up over concatenation.
pub proof fn lemma_channel_sum_concat(a: Seq<Rgb8>, b: Seq<Rgb8>, d: int)
    ensures
        channel_sum(a + b, d) == channel_sum(a, d) + channel_sum(b, d),
        channel_sq_sum(a + b, d) == channel_sq_sum(a, d) + channel_sq_sum(b, d),
    decreases b.len(),
{
    if b.len() > 0 {
        assert((a + b).drop_last() == a + b.drop_last());
        lemma_channel_sum_concat(a, b.drop_last(), d);
    }
}

/// Splitting a run at `k` splits its channel sums.
pub proof fn lemma_channel_sum_split(s: Seq<Rgb8>, k: int, d: int)
    requires
        0 <= k <= s.len(),
    ensures
        channel_sum(s, d) == channel_sum(s.subrange(0, k), d) + channel_sum(
            s.subrange(k, s.len() as int),
            d,
        ),
        channel_sq_sum(s, d) == channel_sq_sum(s.subrange(0, k), d) + channel_sq_sum(
            s.subrange(k, s.len() as int),
            d,
        ),
{
    assert(s == s.subrange(0, k) + s.subrange(k, s.len() as int));
    lemma_channel_sum_concat(s.subrange(0, k), s.subrange(k, s.len() as int), d);
}

/// Cauchy-Schwarz for one channel: `n * sum(x^2) >= sum(x)^2`.
pub proof fn lemma_variance_nonneg(s: Seq<Rgb8>, d: int)
    ensures
        channel_sum(s, d) * channel_sum(s, d) <= s.len() * channel_sq_sum(s, d),
    decreases s.len(),
{
    if s.len() > 0 {
        let t = s.drop_last();
        lemma_variance_nonneg(t, d);
        lemma_deviation_from(t, d, chan(s.last(), d));
        let n = t.len() as int;
        let a = channel_sum(t, d);
        let q = channel_sq_sum(t, d);
        let x = chan(s.last(), d);
        assert(a * a <= n * q);
        assert(q - 2 * a * x + n * x * x >= 0);
        assert((a + x) * (a + x) <= (n + 1) * (q + x * x)) by (nonlinear_arith)
            requires
                a * a <= n * q,
                q - 2 * a * x + n * x * x >= 0,
        ;
    }
}

/// `sum((x_i - x)^2) >= 0`, written over the channel sums.
proof fn lemma_deviation_from(s: Seq<Rgb8>, d: int, x: int)
    ensures
        channel_sq_sum(s, d) - 2 * channel_sum(s, d) * x + s.len() * x * x >= 0,
    decreases s.len(),
{
    if s.len() > 0 {
        let t = s.drop_last();
        lemma_deviation_from(t, d, x);
        let n = t.len() as int;
        let a = channel_sum(t, d);
        let q = channel_sq_sum(t, d);
        let y = chan(s.last(), d);
        assert((q + y * y) - 2 * (a + y) * x + (n + 1) * x * x >= 0) by (nonlinear_arith)
            requires
                q - 2 * a * x + n * x * x >= 0,
        ;
    }
}

/// The mean of a single sample is that sample.
pub proof fn lemma_mean_of_one(c: Rgb8)
    ensures
        mean_color(seq![c]) == c,
{
    let s = seq![c];
    assert(s.drop_last() == Seq::<Rgb8>::empty());
    assert(s.last() == c);
    assert(channel_sum(s.drop_last(), 0) == 0);
    assert(channel_sum(s.drop_last(), 1) == 0);
    assert(channel_sum(s.drop_last(), 2) == 0);
    assert(channel_sum(s, 0) == chan(c, 0));
    assert(channel_sum(s, 1) == chan(c, 1));
    assert(channel_sum(s, 2) == chan(c, 2));
    assert(mean_color(s) =~= c);
}

/// Sums channel `d` and its squares over `values`.
pub fn channel_totals(values: &[Rgb8], d: usize) -> (r: (u64, u64))
    requires
        d < 3,
        values@.len() <= SAMPLE_LIMIT,
    ensures
        r.0 as int == channel_sum(values@, d as int),
        r.1 as int == channel_sq_sum(values@, d as int),
{
    let n = values.len();
    let mut sum: u64 = 0;
    let mut sq: u64 = 0;
    let mut i: usize = 0;
    while i < n
        invariant
            d < 3,
            n == values@.len(),
            n <= SAMPLE_LIMIT,
            i <= n,
            sum as int == channel_sum(values@.subrange(0, i as int), d as int),
            sq as int == channel_sq_sum(values@.subrange(0, i as int), d as int),
        decreases n - i,
    {
        proof {
            let p = values@.subrange(0, i as int + 1);
            assert(p.drop_last() == values@.subrange(0, i as int));
            lemma_channel_sum_bounds(p, d as int);
        }
        let v = values[i][d] as u64;
        sum = sum + v;
        sq = sq + v * v;
        i = i + 1;
    }
    proof {
        assert(values@.subrange(0, n as int) == values@);
    }
    (sum, sq)
}

/// The per-channel integer mean of a non-empty run of samples.
pub fn mean_of(values: &[Rgb8]) -> (r: Rgb8)
    requires
        1 <= values@.len() <= SAMPLE_LIMIT,
    ensures
        r == mean_color(values@),
{
    let n = values.len() as u64;
    let (s0, _) = channel_totals(values, 0);
    let (s1, _) = channel_totals(values, 1);
    let (s2, _) = channel_totals(values, 2);
    let r = [(s0 / n) as u8, (s1 / n) as u8, (s2 / n) as u8];
    assert(r =~= mean_color(values@));
    r
}

} // verus!
