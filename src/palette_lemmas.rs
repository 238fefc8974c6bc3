//! What every extracted palette satisfies: its size, how its colours cover
//! the samples, and its terminal cases.

use vstd::arithmetic::power::lemma_pow0;
use vstd::arithmetic::power2::{lemma_pow2_unfold, pow2};
use vstd::multiset::Multiset;
use vstd::prelude::*;

use crate::bucket::{lemma_sorted_by_channel_permutes, sorted_by_channel};
use crate::color::{channel_sum, lemma_mean_of_one, mean_color, Rgb8};
use crate::colorpalette::{
    best_cut, first_above, leaves, palette, split_point, widest_channel,
    PaletteExtractionAlgorithm,
};

verus! {

proof fn lemma_best_cut_below(s: Seq<Rgb8>, d: int, k: int)
    requires
        k >= 1,
    ensures
        0 <= best_cut(s, d, k) < k,
    decreases k,
{
    if k > 1 {
        lemma_best_cut_below(s, d, k - 1);
    }
}

proof fn lemma_first_above_range(s: Seq<Rgb8>, d: int, m: int, i: int)
    requires
        0 <= i,
    ensures
        i <= first_above(s, d, m, i) <= s.len() || (i > s.len() && first_above(s, d, m, i)
            == s.len()),
    decreases s.len() - i,
{
    if i < s.len() {
        lemma_first_above_range(s, d, m, i + 1);
    }
}

/// A split of a bucket of two or more samples leaves its right part non-empty.
proof fn lemma_split_point_below_len(s: Seq<Rgb8>, d: int, alg: PaletteExtractionAlgorithm)
    requires
        s.len() >= 2,
    ensures
        split_point(s, d, alg) matches Some(k) ==> 0 <= k < s.len(),
{
    match alg {
        PaletteExtractionAlgorithm::MedianCut => {},
        PaletteExtractionAlgorithm::MeanCut => {
            lemma_first_above_range(s, d, channel_sum(s, d) / s.len() as int, 0);
        },
        PaletteExtractionAlgorithm::ModeBisect => {
            lemma_best_cut_below(s, d, s.len() - 1);
        },
    }
}

/// A palette has at least one colour per non-empty input, at most one per
/// sample, and at most `2^depth` colours.
pub proof fn lemma_palette_size(s: Seq<Rgb8>, depth: nat, alg: PaletteExtractionAlgorithm)
    requires
        s.len() > 0,
    ensures
        1 <= palette(s, depth, alg).len() <= pow2(depth),
        palette(s, depth, alg).len() <= s.len(),
    decreases depth,
{
    if depth == 0 {
        lemma_pow0(2);
    } else {
        lemma_pow2_unfold(depth);
        vstd::arithmetic::power2::lemma_pow2_pos(depth);
    }
    if s.len() >= 2 && depth > 0 {
        let d = widest_channel(s);
        let t = sorted_by_channel(s, d);
        lemma_sorted_by_channel_permutes(s, d);
        lemma_split_point_below_len(t, d, alg);
        match split_point(t, d, alg) {
            Some(k) => {
                let l = t.subrange(0, k);
                let r = t.subrange(k, t.len() as int);
                let e = (depth - 1) as nat;
                lemma_palette_size(r, e, alg);
                if l.len() > 0 {
                    lemma_palette_size(l, e, alg);
                }
            },
            None => {},
        }
    }
}

/// Every palette colour is the mean of one leaf bucket; the leaf buckets are
/// non-empty and together hold exactly the input samples.
pub proof fn lemma_palette_covers(s: Seq<Rgb8>, depth: nat, alg: PaletteExtractionAlgorithm)
    ensures
        palette(s, depth, alg).len() == leaves(s, depth, alg).len(),
        forall|i: int|
            0 <= i < leaves(s, depth, alg).len() ==> (#[trigger] leaves(s, depth, alg)[i]).len() > 0
                && palette(s, depth, alg)[i] == mean_color(leaves(s, depth, alg)[i]),
        leaves(s, depth, alg).flatten().to_multiset() == s.to_multiset(),
    decreases depth,
{
    let p = palette(s, depth, alg);
    let ls = leaves(s, depth, alg);
    if s.len() == 0 {
        broadcast use vstd::seq_lib::group_to_multiset_ensures;

        assert(s.to_multiset() =~= Multiset::empty());
        assert(ls.flatten() == Seq::<Rgb8>::empty());
        assert(Seq::<Rgb8>::empty().to_multiset() =~= Multiset::empty());
    } else if s.len() == 1 || depth == 0 {
        ls.lemma_flatten_one_element();
        if s.len() == 1 {
            lemma_mean_of_one(s[0]);
            assert(s == seq![s[0]]);
        }
    } else {
        let d = widest_channel(s);
        let t = sorted_by_channel(s, d);
        lemma_sorted_by_channel_permutes(s, d);
        lemma_split_point_below_len(t, d, alg);
        match split_point(t, d, alg) {
            Some(k) => {
                let l = t.subrange(0, k);
                let r = t.subrange(k, t.len() as int);
                let e = (depth - 1) as nat;
                lemma_palette_covers(l, e, alg);
                lemma_palette_covers(r, e, alg);
                let ll = leaves(l, e, alg);
                let lr = leaves(r, e, alg);
                let pl = palette(l, e, alg);
                let pr = palette(r, e, alg);
                assert(ls == ll + lr);
                assert(p == pl + pr);
                assert forall|i: int| 0 <= i < ls.len() implies (#[trigger] ls[i]).len() > 0
                    && p[i] == mean_color(ls[i]) by {
                    if i < ll.len() {
                        assert(ls[i] == ll[i] && p[i] == pl[i]);
                    } else {
                        assert(ls[i] == lr[i - ll.len()] && p[i] == pr[i - ll.len()]);
                    }
                }
                vstd::seq_lib::lemma_flatten_concat(ll, lr);
                vstd::seq_lib::lemma_multiset_commutative(ll.flatten(), lr.flatten());
                vstd::seq_lib::lemma_multiset_commutative(l, r);
                assert(l + r =~= t);
            },
            None => {
                ls.lemma_flatten_one_element();
            },
        }
    }
}

/// A single sample is its own palette, at any depth and with any strategy.
pub proof fn lemma_palette_of_one(c: Rgb8, depth: nat, alg: PaletteExtractionAlgorithm)
    ensures
        palette(seq![c], depth, alg) == seq![c],
        leaves(seq![c], depth, alg).flatten() == seq![c],
{
    seq![seq![c]].lemma_flatten_one_element();
    assert(seq![c][0] == c);
}

/// At depth 0 a non-empty input reduces to the single mean of all samples,
/// and the samples stay where they are.
pub proof fn lemma_palette_depth_zero(s: Seq<Rgb8>, alg: PaletteExtractionAlgorithm)
    requires
        s.len() > 0,
    ensures
        palette(s, 0, alg) == seq![mean_color(s)],
        leaves(s, 0, alg).flatten() == s,
{
    seq![s].lemma_flatten_one_element();
    if s.len() == 1 {
        lemma_mean_of_one(s[0]);
        assert(s == seq![s[0]]);
    }
}

/// The palette and the final arrangement of the samples depend on the input
/// order, depth and strategy alone: equal inputs give equal results.
pub proof fn lemma_palette_deterministic(
    s1: Seq<Rgb8>,
    s2: Seq<Rgb8>,
    depth: nat,
    alg: PaletteExtractionAlgorithm,
)
    requires
        s1 == s2,
    ensures
        palette(s1, depth, alg) == palette(s2, depth, alg),
        leaves(s1, depth, alg).flatten() == leaves(s2, depth, alg).flatten(),
{
}

/// An empty input has an empty palette at every depth and with every strategy.
pub proof fn lemma_palette_of_nothing(depth: nat, alg: PaletteExtractionAlgorithm)
    ensures
        palette(Seq::empty(), depth, alg) == Seq::<Rgb8>::empty(),
{
}

} // verus!
