//! Stable in-place sorting of a bucket of colour samples by one channel.

use vstd::prelude::*;

use crate::color::{chan, Rgb8};

verus! {

/// The samples of `s` whose channel `d` equals `k`, in their order in `s`.
pub open spec fn with_key(s: Seq<Rgb8>, d: int, k: int) -> Seq<Rgb8> {
    s.filter(|c: Rgb8| chan(c, d) == k)
}

/// The samples of `s` whose channel `d` is below `k`, grouped by ascending
/// channel value and, within a group, in their order in `s`.
pub open spec fn gather(s: Seq<Rgb8>, d: int, k: nat) -> Seq<Rgb8>
    decreases k,
{
    if k == 0 {
        Seq::empty()
    } else {
        gather(s, d, (k - 1) as nat) + with_key(s, d, k - 1)
    }
}

/// `s` stably sorted by ascending channel `d`.
pub open spec fn sorted_by_channel(s: Seq<Rgb8>, d: int) -> Seq<Rgb8> {
    gather(s, d, 256)
}

/// Channel `d` never decreases along `s`.
pub open spec fn ascending_on(s: Seq<Rgb8>, d: int) -> bool {
    forall|i: int, j: int| 0 <= i < j < s.len() ==> chan(#[trigger] s[i], d) <= chan(#[trigger] s[j], d)
}

proof fn lemma_with_key_push(s: Seq<Rgb8>, x: Rgb8, d: int, k: int)
    ensures
        with_key(s.push(x), d, k) == if chan(x, d) == k {
            with_key(s, d, k).push(x)
        } else {
            with_key(s, d, k)
        },
{
    reveal(Seq::filter);
    assert(s.push(x).drop_last() == s);
}

proof fn lemma_gather_push(s: Seq<Rgb8>, x: Rgb8, d: int, k: nat)
    ensures
        gather(s.push(x), d, k).to_multiset() == if chan(x, d) < k {
            gather(s, d, k).to_multiset().insert(x)
        } else {
            gather(s, d, k).to_multiset()
        },
    decreases k,
{
    broadcast use vstd::seq_lib::group_to_multiset_ensures;

    if k > 0 {
        let j = (k - 1) as nat;
        lemma_gather_push(s, x, d, j);
        lemma_with_key_push(s, x, d, j as int);
        vstd::seq_lib::lemma_multiset_commutative(
            gather(s.push(x), d, j),
            with_key(s.push(x), d, j as int),
        );
        vstd::seq_lib::lemma_multiset_commutative(gather(s, d, j), with_key(s, d, j as int));
        assert(gather(s.push(x), d, k).to_multiset() =~= if chan(x, d) < k {
            gather(s, d, k).to_multiset().insert(x)
        } else {
            gather(s, d, k).to_multiset()
        });
    }
}

/// Sorting by a channel keeps every sample, as often as it occurs.
pub proof fn lemma_sorted_by_channel_permutes(s: Seq<Rgb8>, d: int)
    requires
        0 <= d < 3,
    ensures
        sorted_by_channel(s, d).to_multiset() == s.to_multiset(),
        sorted_by_channel(s, d).len() == s.len(),
    decreases s.len(),
{
    broadcast use vstd::seq_lib::group_to_multiset_ensures;

    if s.len() == 0 {
        assert(gather(s, d, 256).to_multiset() =~= s.to_multiset()) by {
            lemma_gather_empty(s, d, 256);
        }
    } else {
        let t = s.drop_last();
        let x = s.last();
        assert(t.push(x) == s);
        lemma_sorted_by_channel_permutes(t, d);
        lemma_gather_push(t, x, d, 256);
    }
    sorted_by_channel(s, d).to_multiset_ensures();
    s.to_multiset_ensures();
}

proof fn lemma_gather_empty(s: Seq<Rgb8>, d: int, k: nat)
    requires
        s.len() == 0,
    ensures
        gather(s, d, k) == Seq::<Rgb8>::empty(),
    decreases k,
{
    reveal(Seq::filter);
    if k > 0 {
        lemma_gather_empty(s, d, (k - 1) as nat);
        assert(gather(s, d, k) =~= Seq::<Rgb8>::empty());
    }
}

proof fn lemma_gather_ascending(s: Seq<Rgb8>, d: int, k: nat)
    ensures
        ascending_on(gather(s, d, k), d),
        forall|i: int| 0 <= i < gather(s, d, k).len() ==> chan(#[trigger] gather(s, d, k)[i], d) < k,
    decreases k,
{
    broadcast use vstd::seq_lib::group_filter_ensures;

    if k > 0 {
        let j = (k - 1) as nat;
        lemma_gather_ascending(s, d, j);
        let g = gather(s, d, j);
        let w = with_key(s, d, j as int);
        let h = gather(s, d, k);
        assert(h == g + w);
        assert forall|i: int| 0 <= i < h.len() implies chan(#[trigger] h[i], d) < k by {
            if i >= g.len() {
                assert(h[i] == w[i - g.len()]);
            }
        }
        assert forall|a: int, b: int| 0 <= a < b < h.len() implies chan(#[trigger] h[a], d) <= chan(
            #[trigger] h[b],
            d,
        ) by {
            if b < g.len() {
                assert(h[a] == g[a] && h[b] == g[b]);
            } else if a >= g.len() {
                assert(h[a] == w[a - g.len()] && h[b] == w[b - g.len()]);
            } else {
                assert(h[a] == g[a] && h[b] == w[b - g.len()]);
            }
        }
    }
}

/// Sorting by a channel leaves that channel ascending.
pub proof fn lemma_sorted_by_channel_ascending(s: Seq<Rgb8>, d: int)
    ensures
        ascending_on(sorted_by_channel(s, d), d),
{
    lemma_gather_ascending(s, d, 256);
}

/// Stably sorts `values` by ascending channel `d`, in place.
pub fn sort_by_channel(values: &mut [Rgb8], d: usize)
    requires
        d < 3,
    ensures
        final(values)@ == sorted_by_channel(old(values)@, d as int),
        final(values)@.to_multiset() == old(values)@.to_multiset(),
        ascending_on(final(values)@, d as int),
{
    let ghost s = values@;
    let n = values.len();
    let mut out: Vec<Rgb8> = Vec::with_capacity(n);
    let mut k: usize = 0;
    while k < 256
        invariant
            d < 3,
            values@ == s,
            n == s.len(),
            k <= 256,
            out@ == gather(s, d as int, k as nat),
        decreases 256 - k,
    {
        let ghost before = out@;
        let mut i: usize = 0;
        while i < n
            invariant
                d < 3,
                values@ == s,
                n == s.len(),
                i <= n,
                k < 256,
                out@ == before + with_key(s.subrange(0, i as int), d as int, k as int),
            decreases n - i,
        {
            let c = values[i];
            proof {
                let p = s.subrange(0, i as int + 1);
                assert(s.subrange(0, i as int).push(c) == p);
                lemma_with_key_push(s.subrange(0, i as int), c, d as int, k as int);
            }
            if c[d] as usize == k {
                out.push(c);
            }
            i = i + 1;
        }
        proof {
            assert(s.subrange(0, n as int) == s);
        }
        k = k + 1;
    }
    proof {
        lemma_sorted_by_channel_permutes(s, d as int);
        lemma_sorted_by_channel_ascending(s, d as int);
    }
    let mut i: usize = 0;
    while i < n
        invariant
            n == s.len(),
            out@ == sorted_by_channel(s, d as int),
            out@.len() == n,
            values@.len() == n,
            i <= n,
            forall|j: int| 0 <= j < i ==> values@[j] == out@[j],
        decreases n - i,
    {
        values[i] = out[i];
        i = i + 1;
    }
    proof {
        assert(values@ =~= out@);
    }
}

} // verus!
