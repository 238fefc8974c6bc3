//! The project catalog: projects ordered newest first, slug uniqueness and
//! tags grouped by category.

use core::cmp::Ordering;
use vstd::multiset::Multiset;
use vstd::prelude::*;
use vstd::string::StringExecFns;

use crate::date::{date_order, Date};
use crate::text::{decimal, decimal_string};
use crate::project::{tag_views, Project, ProjectError, ProjectTag};

verus! {

/// A tag as a (category, name) pair of texts.
pub type TagView = (Seq<char>, Seq<char>);

/// Tags grouped by category: each category with its tags.
pub type TagGroups = Vec<(String, Vec<ProjectTag>)>;

/// The index of the first project in `acc`, from `i` on, that started before
/// `d`; `acc.len()` if none did.
pub open spec fn first_older(acc: Seq<Project>, d: Date, i: int) -> int
    decreases acc.len() - i,
{
    if i >= acc.len() {
        acc.len() as int
    } else if date_order(acc[i].metadata.start, d) == Ordering::Less {
        i
    } else {
        first_older(acc, d, i + 1)
    }
}

/// `acc` with the projects of `rest` inserted one by one, each after every
/// project that started no earlier.
pub open spec fn insert_by_start(acc: Seq<Project>, rest: Seq<Project>) -> Seq<Project>
    decreases rest.len(),
{
    if rest.len() == 0 {
        acc
    } else {
        insert_by_start(
            acc.insert(first_older(acc, rest[0].metadata.start, 0), rest[0]),
            rest.drop_first(),
        )
    }
}

/// The projects newest first; projects that started on the same date keep
/// their order.
pub open spec fn newest_first(s: Seq<Project>) -> Seq<Project> {
    insert_by_start(Seq::empty(), s)
}

/// Some two projects share a slug.
pub open spec fn has_duplicate_slugs(s: Seq<Project>) -> bool {
    exists|i: int, j: int|
        0 <= i < j < s.len() && (#[trigger] s[i]).metadata.slug@ == (#[trigger] s[j]).metadata.slug@
}

/// The index of the first project in `s`, from `i` on, with slug `slug`;
/// `s.len()` if none has it.
pub open spec fn first_with_slug(s: Seq<Project>, slug: Seq<char>, i: int) -> int
    decreases s.len() - i,
{
    if i >= s.len() {
        s.len() as int
    } else if s[i].metadata.slug@ == slug {
        i
    } else {
        first_with_slug(s, slug, i + 1)
    }
}

fn position_by_start(acc: &Vec<Project>, d: Date) -> (r: usize)
    ensures
        r as int == first_older(acc@, d, 0),
        r <= acc@.len(),
{
    let mut i: usize = 0;
    while i < acc.len()
        invariant
            i <= acc@.len(),
            first_older(acc@, d, 0) == first_older(acc@, d, i as int),
        decreases acc@.len() - i,
    {
        if let Ordering::Less = acc[i].metadata.start.compare(&d) {
            return i;
        }
        i = i + 1;
    }
    i
}

/// Orders projects newest first, keeping the order of projects that started
/// on the same date.
pub fn sort_newest_first(projects: Vec<Project>) -> (r: Vec<Project>)
    ensures
        r@ == newest_first(projects@),
{
    let ghost s = projects@;
    let mut rest = projects;
    let mut acc: Vec<Project> = Vec::new();
    while rest.len() > 0
        invariant
            insert_by_start(acc@, rest@) == newest_first(s),
        decreases rest@.len(),
    {
        let ghost before = rest@;
        let p = rest.remove(0);
        assert(rest@ == before.drop_first());
        let k = position_by_start(&acc, p.metadata.start);
        acc.insert(k, p);
    }
    acc
}

/// A number that orders dates as `date_order` does.
pub open spec fn date_rank(d: Date) -> int {
    d.year as int * 0x4_0000_0000 + match d.month {
        None => 0int,
        Some(m) => (m as int + 1) * 0x2_0000 + match d.day {
            None => 0int,
            Some(x) => x as int + 1,
        },
    }
}

proof fn lemma_date_rank(a: Date, b: Date)
    ensures
        (date_order(a, b) == Ordering::Less) == (date_rank(a) < date_rank(b)),
{
}

proof fn lemma_first_older(acc: Seq<Project>, d: Date, i: int)
    requires
        0 <= i,
    ensures
        i <= acc.len() ==> i <= first_older(acc, d, i) <= acc.len(),
        forall|j: int|
            i <= j < first_older(acc, d, i) ==> !(date_rank(#[trigger] acc[j].metadata.start)
                < date_rank(d)),
        first_older(acc, d, i) < acc.len() ==> date_rank(acc[first_older(acc, d, i)].metadata.start)
            < date_rank(d),
    decreases acc.len() - i,
{
    if i < acc.len() {
        lemma_date_rank(acc[i].metadata.start, d);
        lemma_first_older(acc, d, i + 1);
    }
}

/// No project comes before one that started later.
pub open spec fn is_newest_first(s: Seq<Project>) -> bool {
    forall|i: int, j: int|
        0 <= i < j < s.len() ==> date_order(
            (#[trigger] s[i]).metadata.start,
            (#[trigger] s[j]).metadata.start,
        ) != Ordering::Less
}

#[verifier::rlimit(40)]
proof fn lemma_insert_by_start(acc: Seq<Project>, rest: Seq<Project>)
    requires
        is_newest_first(acc),
    ensures
        is_newest_first(insert_by_start(acc, rest)),
        insert_by_start(acc, rest).to_multiset() == acc.to_multiset().add(rest.to_multiset()),
    decreases rest.len(),
{
    broadcast use vstd::seq_lib::group_to_multiset_ensures;

    if rest.len() > 0 {
        let p = rest[0];
        let d = p.metadata.start;
        let k = first_older(acc, d, 0);
        lemma_first_older(acc, d, 0);
        let next = acc.insert(k, p);
        assert forall|i: int, j: int| 0 <= i < j < next.len() implies date_order(
            (#[trigger] next[i]).metadata.start,
            (#[trigger] next[j]).metadata.start,
        ) != Ordering::Less by {
            lemma_date_rank(next[i].metadata.start, next[j].metadata.start);
            if j < k {
                lemma_date_rank(acc[i].metadata.start, acc[j].metadata.start);
            } else if j == k {
                assert(next[j] == p);
            } else if i < k {
                lemma_date_rank(acc[i].metadata.start, acc[j - 1].metadata.start);
            } else if i == k {
                lemma_date_rank(acc[k].metadata.start, acc[j - 1].metadata.start);
                assert(next[i] == p);
            } else {
                lemma_date_rank(acc[i - 1].metadata.start, acc[j - 1].metadata.start);
            }
        }
        lemma_insert_by_start(next, rest.drop_first());
        assert(rest == seq![p] + rest.drop_first());
        vstd::seq_lib::lemma_multiset_commutative(seq![p], rest.drop_first());
        assert(seq![p].to_multiset() =~= Multiset::empty().insert(p)) by {
            assert(seq![p] == Seq::<Project>::empty().push(p));
        }
        assert(next.to_multiset() == acc.to_multiset().insert(p));
        assert(insert_by_start(acc, rest).to_multiset() =~= acc.to_multiset().add(
            rest.to_multiset(),
        ));
    }
}

/// Ordering newest first keeps every project and leaves no project before
/// one that started later.
pub proof fn lemma_newest_first(s: Seq<Project>)
    ensures
        is_newest_first(newest_first(s)),
        newest_first(s).to_multiset() == s.to_multiset(),
{
    broadcast use vstd::seq_lib::group_to_multiset_ensures;

    lemma_insert_by_start(Seq::empty(), s);
    assert(Seq::<Project>::empty().to_multiset() =~= Multiset::empty());
    assert(Multiset::<Project>::empty().add(s.to_multiset()) =~= s.to_multiset());
}

/// Whether two of the projects share a slug.
pub fn slugs_collide(projects: &Vec<Project>) -> (r: bool)
    ensures
        r == has_duplicate_slugs(projects@),
{
    let n = projects.len();
    let mut i: usize = 0;
    while i < n
        invariant
            n == projects@.len(),
            i <= n,
            forall|a: int, b: int|
                0 <= a < i && a < b < n ==> (#[trigger] projects@[a]).metadata.slug@ != (
                #[trigger] projects@[b]).metadata.slug@,
        decreases n - i,
    {
        let mut j: usize = i + 1;
        while j < n
            invariant
                n == projects@.len(),
                i < n,
                i + 1 <= j <= n,
                forall|a: int, b: int|
                    0 <= a < i && a < b < n ==> (#[trigger] projects@[a]).metadata.slug@ != (
                    #[trigger] projects@[b]).metadata.slug@,
                forall|b: int|
                    i < b < j ==> projects@[i as int].metadata.slug@ != (
                    #[trigger] projects@[b]).metadata.slug@,
            decreases n - j,
        {
            if projects[i].metadata.slug == projects[j].metadata.slug {
                return true;
            }
            j = j + 1;
        }
        i = i + 1;
    }
    false
}

/// The tags of all projects, in project order.
pub open spec fn catalog_tags(s: Seq<Project>) -> Seq<TagView>
    decreases s.len(),
{
    if s.len() == 0 {
        Seq::empty()
    } else {
        catalog_tags(s.drop_last()) + tag_views(s.last().metadata.tags@)
    }
}

/// The distinct values of `s`, in order of first appearance.
pub open spec fn distinct<A>(s: Seq<A>) -> Seq<A>
    decreases s.len(),
{
    if s.len() == 0 {
        Seq::empty()
    } else {
        let d = distinct(s.drop_last());
        if d.contains(s.last()) {
            d
        } else {
            d.push(s.last())
        }
    }
}

/// How often `x` occurs in `s`.
pub open spec fn occurrences<A>(s: Seq<A>, x: A) -> int
    decreases s.len(),
{
    if s.len() == 0 {
        0
    } else {
        occurrences(s.drop_last(), x) + if s.last() == x {
            1int
        } else {
            0
        }
    }
}

/// `a` sorts before `b`, comparing characters by code point from position
/// `i` on, a proper prefix first.
pub open spec fn text_before_from(a: Seq<char>, b: Seq<char>, i: int) -> bool
    decreases a.len() - i,
{
    if i >= a.len() {
        i < b.len()
    } else if i >= b.len() {
        false
    } else if a[i] != b[i] {
        (a[i] as u32) < (b[i] as u32)
    } else {
        text_before_from(a, b, i + 1)
    }
}

/// The lexicographic order of texts, by code point.
pub open spec fn text_before(a: Seq<char>, b: Seq<char>) -> bool {
    text_before_from(a, b, 0)
}

/// The index of the first text in `acc`, from `i` on, that `c` sorts before.
pub open spec fn first_after_text(acc: Seq<Seq<char>>, c: Seq<char>, i: int) -> int
    decreases acc.len() - i,
{
    if i >= acc.len() {
        acc.len() as int
    } else if text_before(c, acc[i]) {
        i
    } else {
        first_after_text(acc, c, i + 1)
    }
}

/// The texts of `s` in ascending order (the first `k` of them, inserted one
/// by one).
pub open spec fn sorted_texts(s: Seq<Seq<char>>, k: int) -> Seq<Seq<char>>
    decreases k,
{
    if k <= 0 {
        Seq::empty()
    } else {
        let acc = sorted_texts(s, k - 1);
        acc.insert(first_after_text(acc, s[k - 1], 0), s[k - 1])
    }
}

/// The index of the first entry of `acc`, from `i` on, counted fewer than
/// `n` times.
pub open spec fn first_rarer(acc: Seq<(TagView, int)>, n: int, i: int) -> int
    decreases acc.len() - i,
{
    if i >= acc.len() {
        acc.len() as int
    } else if acc[i].1 < n {
        i
    } else {
        first_rarer(acc, n, i + 1)
    }
}

/// The tags among the first `k` of `u` whose category is `c`, with their
/// counts `cnt`, most frequent first; equally frequent tags keep their order.
pub open spec fn ranked_tags(u: Seq<TagView>, cnt: Seq<int>, c: Seq<char>, k: int) -> Seq<
    (TagView, int),
>
    decreases k,
{
    if k <= 0 {
        Seq::empty()
    } else {
        let acc = ranked_tags(u, cnt, c, k - 1);
        if u[k - 1].0 == c {
            acc.insert(first_rarer(acc, cnt[k - 1], 0), (u[k - 1], cnt[k - 1]))
        } else {
            acc
        }
    }
}

/// The index of the first group of `acc`, from `i` on, with fewer than `n`
/// tags.
pub open spec fn first_smaller(acc: Seq<(Seq<char>, Seq<TagView>)>, n: int, i: int) -> int
    decreases acc.len() - i,
{
    if i >= acc.len() {
        acc.len() as int
    } else if acc[i].1.len() < n {
        i
    } else {
        first_smaller(acc, n, i + 1)
    }
}

/// The groups of the first `k` categories of `cats`, largest first; groups
/// of equal size keep the order of `cats`.
pub open spec fn ranked_groups(
    cats: Seq<Seq<char>>,
    u: Seq<TagView>,
    cnt: Seq<int>,
    k: int,
) -> Seq<(Seq<char>, Seq<TagView>)>
    decreases k,
{
    if k <= 0 {
        Seq::empty()
    } else {
        let acc = ranked_groups(cats, u, cnt, k - 1);
        let tags = ranked_tags(u, cnt, cats[k - 1], u.len() as int).map_values(
            |e: (TagView, int)| e.0,
        );
        acc.insert(first_smaller(acc, tags.len() as int, 0), (cats[k - 1], tags))
    }
}

/// The tag groups of a catalog: one per category, largest group first and
/// equal sizes by ascending category; in each group the distinct tags of
/// that category, most used first and equally used ones in order of first
/// use.
pub open spec fn tag_groups_of(s: Seq<Project>) -> Seq<(Seq<char>, Seq<TagView>)> {
    let all = catalog_tags(s);
    let u = distinct(all);
    let cnt = u.map_values(|t: TagView| occurrences(all, t));
    let cats = distinct(u.map_values(|t: TagView| t.0));
    let sorted = sorted_texts(cats, cats.len() as int);
    ranked_groups(sorted, u, cnt, sorted.len() as int)
}

/// The views of tag groups.
pub open spec fn group_views(g: Seq<(String, Vec<ProjectTag>)>) -> Seq<(Seq<char>, Seq<TagView>)> {
    g.map_values(|e: (String, Vec<ProjectTag>)| (e.0@, tag_views(e.1@)))
}

proof fn lemma_push_contains<A>(s: Seq<A>, a: A, x: A)
    ensures
        s.push(a).contains(x) <==> (s.contains(x) || a == x),
{
    if s.contains(x) {
        let i = choose|i: int| 0 <= i < s.len() && s[i] == x;
        assert(s.push(a)[i] == x);
    }
    if a == x {
        assert(s.push(a)[s.len() as int] == x);
    }
    if s.push(a).contains(x) {
        let i = choose|i: int| 0 <= i < s.len() + 1 && s.push(a)[i] == x;
        if i < s.len() {
            assert(s[i] == x);
        }
    }
}

proof fn lemma_distinct_facts<A>(s: Seq<A>, x: A)
    ensures
        distinct(s).no_duplicates(),
        distinct(s).contains(x) <==> s.contains(x),
        !s.contains(x) ==> occurrences(s, x) == 0,
        0 <= occurrences(s, x) <= s.len(),
    decreases s.len(),
{
    if s.len() > 0 {
        let t = s.drop_last();
        let l = s.last();
        lemma_distinct_facts(t, x);
        lemma_distinct_facts(t, l);
        assert(s == t.push(l));
        lemma_push_contains(t, l, x);
        let d = distinct(t);
        if !d.contains(l) {
            lemma_push_contains(d, l, x);
            assert forall|i: int, j: int|
                0 <= i < d.len() + 1 && 0 <= j < d.len() + 1 && i != j implies #[trigger] d.push(
                l,
            )[i] != #[trigger] d.push(l)[j] by {
                if i == d.len() {
                    assert(d.push(l)[j] == d[j]);
                    assert(d.contains(d[j]));
                } else if j == d.len() {
                    assert(d.push(l)[i] == d[i]);
                    assert(d.contains(d[i]));
                } else {
                    assert(d.push(l)[i] == d[i] && d.push(l)[j] == d[j]);
                }
            }
        }
    }
}

/// Copies the tags of all projects, in project order.
fn collect_tags(projects: &Vec<Project>) -> (r: Vec<ProjectTag>)
    ensures
        tag_views(r@) == catalog_tags(projects@),
{
    let mut all: Vec<ProjectTag> = Vec::new();
    let n = projects.len();
    let mut i: usize = 0;
    while i < n
        invariant
            n == projects@.len(),
            i <= n,
            tag_views(all@) == catalog_tags(projects@.subrange(0, i as int)),
        decreases n - i,
    {
        let tags = &projects[i].metadata.tags;
        let ghost start = all@;
        let mut j: usize = 0;
        while j < tags.len()
            invariant
                j <= tags@.len(),
                tag_views(all@) == tag_views(start) + tag_views(tags@.subrange(0, j as int)),
            decreases tags@.len() - j,
        {
            let ghost prev = all@;
            all.push(tags[j].duplicate());
            assert(tag_views(all@) =~= tag_views(prev).push(tags@[j as int]@));
            assert(tag_views(tags@.subrange(0, j as int + 1)) =~= tag_views(
                tags@.subrange(0, j as int),
            ).push(tags@[j as int]@));
            j = j + 1;
        }
        proof {
            assert(tags@.subrange(0, tags@.len() as int) == tags@);
            assert(projects@.subrange(0, i as int + 1).drop_last() == projects@.subrange(
                0,
                i as int,
            ));
            assert(tag_views(all@) =~= catalog_tags(projects@.subrange(0, i as int + 1)));
        }
        i = i + 1;
    }
    assert(projects@.subrange(0, n as int) == projects@);
    all
}

/// The index of the first tag of `u` equal to `x`; `u.len()` if none is.
fn position_of_tag(u: &Vec<ProjectTag>, x: &ProjectTag) -> (r: usize)
    ensures
        r <= u@.len(),
        r < u@.len() ==> u@[r as int]@ == x@,
        forall|m: int| 0 <= m < r ==> (#[trigger] u@[m])@ != x@,
{
    let mut k: usize = 0;
    while k < u.len()
        invariant
            k <= u@.len(),
            forall|m: int| 0 <= m < k ==> (#[trigger] u@[m])@ != x@,
        decreases u@.len() - k,
    {
        if u[k] == *x {
            return k;
        }
        k = k + 1;
    }
    k
}

/// The distinct tags in order of first appearance, with how often each occurs.
fn count_tags(all: &Vec<ProjectTag>) -> (r: (Vec<ProjectTag>, Vec<usize>))
    ensures
        tag_views(r.0@) == distinct(tag_views(all@)),
        r.1@.len() == r.0@.len(),
        forall|k: int|
            0 <= k < r.1@.len() ==> r.1@[k] as int == occurrences(
                tag_views(all@),
                #[trigger] tag_views(r.0@)[k],
            ),
{
    let ghost av = tag_views(all@);
    let mut u: Vec<ProjectTag> = Vec::new();
    let mut counts: Vec<usize> = Vec::new();
    let n = all.len();
    let mut i: usize = 0;
    while i < n
        invariant
            n == all@.len(),
            av == tag_views(all@),
            i <= n,
            tag_views(u@) == distinct(av.subrange(0, i as int)),
            counts@.len() == u@.len(),
            forall|k: int|
                0 <= k < counts@.len() ==> counts@[k] as int == occurrences(
                    av.subrange(0, i as int),
                    #[trigger] tag_views(u@)[k],
                ),
        decreases n - i,
    {
        let ghost pre = av.subrange(0, i as int);
        let ghost x = av[i as int];
        proof {
            assert(x == all@[i as int]@);
            assert(av.subrange(0, i as int + 1) == pre.push(x));
            assert(pre.push(x).drop_last() == pre);
            lemma_distinct_facts(pre, x);
        }
        let k = position_of_tag(&u, &all[i]);
        let ghost uv = tag_views(u@);
        if k < u.len() {
            proof {
                assert(uv[k as int] == x);
                assert(uv.contains(x));
                lemma_distinct_facts(pre, uv[k as int]);
                assert forall|m: int| 0 <= m < uv.len() && m != k implies uv[m] != x by {
                    assert(uv.no_duplicates());
                }
            }
            let c = counts[k];
            counts.set(k, c + 1);
            proof {
                assert(distinct(pre.push(x)) == distinct(pre));
                assert forall|m: int| 0 <= m < counts@.len() implies counts@[m] as int
                    == occurrences(pre.push(x), #[trigger] tag_views(u@)[m]) by {
                    assert(tag_views(u@)[m] == uv[m]);
                }
            }
        } else {
            proof {
                assert forall|m: int| 0 <= m < uv.len() implies uv[m] != x by {
                    assert(uv[m] == u@[m]@);
                }
                assert(!uv.contains(x));
                assert(!pre.contains(x));
            }
            u.push(all[i].duplicate());
            counts.push(1);
            proof {
                assert(tag_views(u@) =~= uv.push(x));
                assert(distinct(pre.push(x)) == uv.push(x));
                assert forall|m: int| 0 <= m < counts@.len() implies counts@[m] as int
                    == occurrences(pre.push(x), #[trigger] tag_views(u@)[m]) by {
                    if m < uv.len() {
                        assert(tag_views(u@)[m] == uv[m]);
                    }
                }
            }
        }
        i = i + 1;
    }
    assert(av.subrange(0, n as int) == av);
    (u, counts)
}

/// The views of a run of texts.
pub open spec fn text_views(v: Seq<String>) -> Seq<Seq<char>> {
    v.map_values(|s: String| s@)
}

/// The categories of a run of tags.
pub open spec fn categories(u: Seq<TagView>) -> Seq<Seq<char>> {
    u.map_values(|t: TagView| t.0)
}

fn position_of_text(v: &Vec<String>, x: &String) -> (r: usize)
    ensures
        r <= v@.len(),
        r < v@.len() ==> v@[r as int]@ == x@,
        forall|m: int| 0 <= m < r ==> (#[trigger] v@[m])@ != x@,
{
    let mut k: usize = 0;
    while k < v.len()
        invariant
            k <= v@.len(),
            forall|m: int| 0 <= m < k ==> (#[trigger] v@[m])@ != x@,
        decreases v@.len() - k,
    {
        if v[k] == *x {
            return k;
        }
        k = k + 1;
    }
    k
}

/// The categories of the tags, in order of first appearance.
fn distinct_categories(u: &Vec<ProjectTag>) -> (r: Vec<String>)
    ensures
        text_views(r@) == distinct(categories(tag_views(u@))),
{
    let ghost cv = categories(tag_views(u@));
    let mut cats: Vec<String> = Vec::new();
    let n = u.len();
    let mut i: usize = 0;
    while i < n
        invariant
            n == u@.len(),
            cv == categories(tag_views(u@)),
            i <= n,
            text_views(cats@) == distinct(cv.subrange(0, i as int)),
        decreases n - i,
    {
        let ghost pre = cv.subrange(0, i as int);
        let ghost x = cv[i as int];
        proof {
            assert(x == u@[i as int].category@);
            assert(cv.subrange(0, i as int + 1) == pre.push(x));
            assert(pre.push(x).drop_last() == pre);
            lemma_distinct_facts(pre, x);
        }
        let k = position_of_text(&cats, &u[i].category);
        let ghost tv = text_views(cats@);
        if k < cats.len() {
            assert(tv[k as int] == x);
            assert(tv.contains(x));
        } else {
            assert forall|m: int| 0 <= m < tv.len() implies tv[m] != x by {
                assert(tv[m] == cats@[m]@);
            }
            assert(!tv.contains(x));
            cats.push(u[i].category.clone());
            assert(text_views(cats@) =~= tv.push(x));
        }
        i = i + 1;
    }
    assert(cv.subrange(0, n as int) == cv);
    cats
}

/// Whether `a` sorts before `b`, by code point.
fn text_is_before(a: &str, b: &str) -> (r: bool)
    ensures
        r == text_before(a@, b@),
{
    let n = a.unicode_len();
    let m = b.unicode_len();
    let mut i: usize = 0;
    while i < n && i < m
        invariant
            n == a@.len(),
            m == b@.len(),
            i <= n,
            i <= m,
            text_before_from(a@, b@, 0) == text_before_from(a@, b@, i as int),
        decreases n - i,
    {
        let x = a.get_char(i);
        let y = b.get_char(i);
        if x != y {
            return (x as u32) < (y as u32);
        }
        i = i + 1;
    }
    i < m
}

fn position_after_text(acc: &Vec<String>, c: &String) -> (r: usize)
    ensures
        r as int == first_after_text(text_views(acc@), c@, 0),
        r <= acc@.len(),
{
    let ghost tv = text_views(acc@);
    let mut i: usize = 0;
    while i < acc.len()
        invariant
            tv == text_views(acc@),
            i <= acc@.len(),
            first_after_text(tv, c@, 0) == first_after_text(tv, c@, i as int),
        decreases acc@.len() - i,
    {
        if text_is_before(c.as_str(), acc[i].as_str()) {
            return i;
        }
        i = i + 1;
    }
    i
}

/// The texts in ascending order.
fn sort_texts(texts: &Vec<String>) -> (r: Vec<String>)
    ensures
        text_views(r@) == sorted_texts(text_views(texts@), texts@.len() as int),
{
    let ghost tv = text_views(texts@);
    let mut acc: Vec<String> = Vec::new();
    let mut k: usize = 0;
    while k < texts.len()
        invariant
            tv == text_views(texts@),
            k <= texts@.len(),
            text_views(acc@) == sorted_texts(tv, k as int),
        decreases texts@.len() - k,
    {
        let pos = position_after_text(&acc, &texts[k]);
        let ghost before = text_views(acc@);
        acc.insert(pos, texts[k].clone());
        assert(text_views(acc@) =~= before.insert(pos as int, tv[k as int]));
        k = k + 1;
    }
    acc
}

/// The pairs of tags and counts held in two parallel vectors.
pub open spec fn tag_counts(tags: Seq<ProjectTag>, counts: Seq<usize>) -> Seq<(TagView, int)> {
    Seq::new(tags.len(), |j: int| (tags[j]@, counts[j] as int))
}

/// The counts as integers.
pub open spec fn count_ints(counts: Seq<usize>) -> Seq<int> {
    counts.map_values(|x: usize| x as int)
}

fn position_rarer(counts: &Vec<usize>, tags: Ghost<Seq<ProjectTag>>, n: usize) -> (r: usize)
    requires
        tags@.len() == counts@.len(),
    ensures
        r as int == first_rarer(tag_counts(tags@, counts@), n as int, 0),
        r <= counts@.len(),
{
    let ghost tc = tag_counts(tags@, counts@);
    let mut i: usize = 0;
    while i < counts.len()
        invariant
            tags@.len() == counts@.len(),
            tc == tag_counts(tags@, counts@),
            i <= counts@.len(),
            first_rarer(tc, n as int, 0) == first_rarer(tc, n as int, i as int),
        decreases counts@.len() - i,
    {
        if counts[i] < n {
            return i;
        }
        i = i + 1;
    }
    i
}

/// The tags of category `c`, most frequent first.
fn rank_tags(u: &Vec<ProjectTag>, counts: &Vec<usize>, c: &String) -> (r: Vec<ProjectTag>)
    requires
        counts@.len() == u@.len(),
    ensures
        tag_views(r@) == ranked_tags(tag_views(u@), count_ints(counts@), c@, u@.len() as int).map_values(
            |e: (TagView, int)| e.0,
        ),
{
    let ghost uv = tag_views(u@);
    let ghost cv = count_ints(counts@);
    let mut gt: Vec<ProjectTag> = Vec::new();
    let mut gc: Vec<usize> = Vec::new();
    let mut m: usize = 0;
    while m < u.len()
        invariant
            counts@.len() == u@.len(),
            uv == tag_views(u@),
            cv == count_ints(counts@),
            m <= u@.len(),
            gt@.len() == gc@.len(),
            tag_counts(gt@, gc@) == ranked_tags(uv, cv, c@, m as int),
        decreases u@.len() - m,
    {
        if u[m].category == *c {
            let pos = position_rarer(&gc, Ghost(gt@), counts[m]);
            let ghost before = tag_counts(gt@, gc@);
            gt.insert(pos, u[m].duplicate());
            gc.insert(pos, counts[m]);
            assert(tag_counts(gt@, gc@) =~= before.insert(pos as int, (uv[m as int], cv[m as int])));
        }
        m = m + 1;
    }
    assert(tag_views(gt@) =~= tag_counts(gt@, gc@).map_values(|e: (TagView, int)| e.0));
    gt
}

fn position_smaller(groups: &TagGroups, n: usize) -> (r: usize)
    ensures
        r as int == first_smaller(group_views(groups@), n as int, 0),
        r <= groups@.len(),
{
    let ghost gv = group_views(groups@);
    let mut i: usize = 0;
    while i < groups.len()
        invariant
            gv == group_views(groups@),
            i <= groups@.len(),
            first_smaller(gv, n as int, 0) == first_smaller(gv, n as int, i as int),
        decreases groups@.len() - i,
    {
        assert(gv[i as int].1.len() == groups@[i as int].1@.len());
        if groups[i].1.len() < n {
            return i;
        }
        i = i + 1;
    }
    i
}

/// One group per category of `cats`, largest first.
fn rank_groups(cats: &Vec<String>, u: &Vec<ProjectTag>, counts: &Vec<usize>) -> (r: TagGroups)
    requires
        counts@.len() == u@.len(),
    ensures
        group_views(r@) == ranked_groups(
            text_views(cats@),
            tag_views(u@),
            count_ints(counts@),
            cats@.len() as int,
        ),
{
    let ghost tv = text_views(cats@);
    let mut groups: TagGroups = Vec::new();
    let mut k: usize = 0;
    while k < cats.len()
        invariant
            counts@.len() == u@.len(),
            tv == text_views(cats@),
            k <= cats@.len(),
            group_views(groups@) == ranked_groups(tv, tag_views(u@), count_ints(counts@), k as int),
        decreases cats@.len() - k,
    {
        let tags = rank_tags(u, counts, &cats[k]);
        let pos = position_smaller(&groups, tags.len());
        let ghost before = group_views(groups@);
        let ghost entry = (cats@[k as int]@, tag_views(tags@));
        groups.insert(pos, (cats[k].clone(), tags));
        assert(group_views(groups@) =~= before.insert(pos as int, entry));
        k = k + 1;
    }
    groups
}

/// Tag names separated by `|`.
pub open spec fn names_text(tags: Seq<TagView>) -> Seq<char>
    decreases tags.len(),
{
    if tags.len() == 0 {
        Seq::empty()
    } else if tags.len() == 1 {
        tags[0].1
    } else {
        names_text(tags.drop_last()) + "|"@ + tags.last().1
    }
}

/// Tag groups written `category:[name|name]`, separated by `, `.
pub open spec fn groups_text(g: Seq<(Seq<char>, Seq<TagView>)>) -> Seq<char>
    decreases g.len(),
{
    if g.len() == 0 {
        Seq::empty()
    } else {
        let one = g.last().0 + ":["@ + names_text(g.last().1) + "]"@;
        if g.len() == 1 {
            one
        } else {
            groups_text(g.drop_last()) + ", "@ + one
        }
    }
}

/// A one-line description of a catalog: how many projects, and its tags.
pub open spec fn catalog_text(c: ProjectCatalog) -> Seq<char> {
    "ProjectCatalog { "@ + decimal(c.projects@.len()) + " projects, tags: "@ + groups_text(
        group_views(c.tag_groups@),
    ) + " }"@
}

fn append_names(out: &mut String, tags: &Vec<ProjectTag>)
    ensures
        final(out)@ == old(out)@ + names_text(tag_views(tags@)),
{
    let ghost start = out@;
    let mut i: usize = 0;
    while i < tags.len()
        invariant
            i <= tags@.len(),
            out@ == start + names_text(tag_views(tags@.subrange(0, i as int))),
        decreases tags@.len() - i,
    {
        let ghost pre = tag_views(tags@.subrange(0, i as int));
        let ghost next = tag_views(tags@.subrange(0, i as int + 1));
        assert(next.drop_last() =~= pre);
        assert(next.last() == tags@[i as int]@);
        if i > 0 {
            out.append("|");
        }
        out.append(tags[i].name.as_str());
        assert(out@ =~= start + names_text(next));
        i = i + 1;
    }
    assert(tags@.subrange(0, tags@.len() as int) == tags@);
}

/// The projects of a site, newest first, with their tags grouped by category.
#[derive(Clone, Debug)]
pub struct ProjectCatalog {
    pub projects: Vec<Project>,
    pub tag_groups: TagGroups,
}

impl ProjectCatalog {
    /// A one-line description, such as
    /// `ProjectCatalog { 3 projects, tags: lang:[go|rust], topic:[web] }`.
    pub fn summary(&self) -> (r: String)
        ensures
            r@ == catalog_text(*self),
    {
        let mut out = String::from_str("ProjectCatalog { ");
        out.append(decimal_string(self.projects.len() as u64).as_str());
        out.append(" projects, tags: ");
        let ghost start = out@;
        let groups = &self.tag_groups;
        let mut i: usize = 0;
        while i < groups.len()
            invariant
                i <= groups@.len(),
                groups == &self.tag_groups,
                out@ == start + groups_text(group_views(groups@.subrange(0, i as int))),
            decreases groups@.len() - i,
        {
            let ghost pre = group_views(groups@.subrange(0, i as int));
            let ghost next = group_views(groups@.subrange(0, i as int + 1));
            assert(next.drop_last() =~= pre);
            assert(next.last() == (groups@[i as int].0@, tag_views(groups@[i as int].1@)));
            if i > 0 {
                out.append(", ");
            }
            out.append(groups[i].0.as_str());
            out.append(":[");
            append_names(&mut out, &groups[i].1);
            out.append("]");
            assert(out@ =~= start + groups_text(next));
            i = i + 1;
        }
        assert(groups@.subrange(0, groups@.len() as int) == groups@);
        out.append(" }");
        out
    }

    /// Builds the catalog of the given projects: orders them newest first,
    /// refuses two projects with one slug, and groups their tags.
    pub fn load(projects: Vec<Project>) -> (r: Result<ProjectCatalog, ProjectError>)
        ensures
            match r {
                Ok(c) => {
                    &&& !has_duplicate_slugs(projects@)
                    &&& c.projects@ == newest_first(projects@)
                    &&& is_newest_first(c.projects@)
                    &&& c.projects@.to_multiset() == projects@.to_multiset()
                    &&& group_views(c.tag_groups@) == tag_groups_of(newest_first(projects@))
                },
                Err(e) => has_duplicate_slugs(projects@) && e == ProjectError::DuplicateSlugs,
            },
    {
        let ghost old_projects = projects@;
        if slugs_collide(&projects) {
            return Err(ProjectError::DuplicateSlugs);
        }
        let projects = sort_newest_first(projects);
        let all = collect_tags(&projects);
        let (u, counts) = count_tags(&all);
        let cats = distinct_categories(&u);
        let sorted = sort_texts(&cats);
        let tag_groups = rank_groups(&sorted, &u, &counts);
        proof {
            lemma_newest_first(old_projects);
            let av = catalog_tags(projects@);
            let uv = distinct(av);
            let cnt = uv.map_values(|t: TagView| occurrences(av, t));
            assert(count_ints(counts@) =~= cnt);
        }
        Ok(ProjectCatalog { projects, tag_groups })
    }

    /// The first project with slug `slug`, if any.
    pub fn find(&self, slug: &str) -> (r: Option<&Project>)
        ensures
            match r {
                Some(p) => first_with_slug(self.projects@, slug@, 0) < self.projects@.len() && *p
                    == self.projects@[first_with_slug(self.projects@, slug@, 0)],
                None => first_with_slug(self.projects@, slug@, 0) == self.projects@.len(),
            },
    {
        let key = String::from_str(slug);
        let mut i: usize = 0;
        while i < self.projects.len()
            invariant
                key@ == slug@,
                i <= self.projects@.len(),
                first_with_slug(self.projects@, slug@, 0) == first_with_slug(
                    self.projects@,
                    slug@,
                    i as int,
                ),
            decreases self.projects@.len() - i,
        {
            if self.projects[i].metadata.slug == key {
                return Some(&self.projects[i]);
            }
            i = i + 1;
        }
        None
    }
}

} // verus!
