//! The photo gallery: timestamps, ordering and lookup of photographs.

use vstd::multiset::Multiset;
use vstd::prelude::*;
use vstd::string::StringExecFns;

use crate::text::{decimal, decimal_string};

verus! {

/// A civil date and time, as a camera records it.
#[derive(Clone, Copy, Debug, PartialEq, Eq, Structural)]
pub struct Timestamp {
    pub year: i16,
    pub month: u8,
    pub day: u8,
    pub hour: u8,
    pub minute: u8,
    pub second: u8,
    pub nanosecond: u32,
}

/// `y` is a leap year of the proleptic Gregorian calendar.
pub open spec fn is_leap_year(y: int) -> bool {
    let a = if y < 0 {
        -y
    } else {
        y
    };
    a % 4 == 0 && (a % 100 != 0 || a % 400 == 0)
}

/// The number of days of month `m` (1..=12) of year `y`.
pub open spec fn days_in_month(y: int, m: int) -> int {
    if m == 2 {
        if is_leap_year(y) {
            29
        } else {
            28
        }
    } else if m == 4 || m == 6 || m == 9 || m == 11 {
        30
    } else {
        31
    }
}

/// A real date and time of day: the year within -9999..=9999, a month,
/// a day of that month, and a time of day.
pub open spec fn timestamp_wf(t: Timestamp) -> bool {
    &&& -9999 <= t.year <= 9999
    &&& 1 <= t.month <= 12
    &&& 1 <= t.day <= days_in_month(t.year as int, t.month as int)
    &&& t.hour < 24
    &&& t.minute < 60
    &&& t.second < 60
    &&& t.nanosecond < 1_000_000_000
}

fn month_days(y: i16, m: u8) -> (r: u8)
    requires
        1 <= m <= 12,
    ensures
        r as int == days_in_month(y as int, m as int),
{
    if m == 2 {
        let a: u32 = if y < 0 {
            (-(y as i32)) as u32
        } else {
            y as u32
        };
        if a % 4 == 0 && (a % 100 != 0 || a % 400 == 0) {
            29
        } else {
            28
        }
    } else if m == 4 || m == 6 || m == 9 || m == 11 {
        30
    } else {
        31
    }
}

impl Timestamp {
    /// The timestamp with the given fields, if they make a real date and
    /// time of day.
    pub fn new(
        year: i16,
        month: u8,
        day: u8,
        hour: u8,
        minute: u8,
        second: u8,
        nanosecond: u32,
    ) -> (r: Option<Timestamp>)
        ensures
            ({
                let t = Timestamp { year, month, day, hour, minute, second, nanosecond };
                &&& timestamp_wf(t) ==> r == Some(t)
                &&& !timestamp_wf(t) ==> r is None
            }),
    {
        let t = Timestamp { year, month, day, hour, minute, second, nanosecond };
        if t.is_valid() {
            Some(t)
        } else {
            None
        }
    }

    /// Whether the fields make a real date and time of day.
    pub fn is_valid(&self) -> (r: bool)
        ensures
            r == timestamp_wf(*self),
    {
        -9999 <= self.year && self.year <= 9999 && 1 <= self.month && self.month <= 12 && 1
            <= self.day && self.day <= month_days(self.year, self.month) && self.hour < 24
            && self.minute < 60 && self.second < 60 && self.nanosecond < 1_000_000_000
    }
}

/// The fields of a timestamp, most significant first.
pub open spec fn timestamp_fields(t: Timestamp) -> Seq<int> {
    seq![
        t.year as int,
        t.month as int,
        t.day as int,
        t.hour as int,
        t.minute as int,
        t.second as int,
        t.nanosecond as int,
    ]
}

/// The index of the first field, from `i` on, where two timestamps differ;
/// 7 if they agree from there on.
pub open spec fn first_difference(a: Seq<int>, b: Seq<int>, i: int) -> int
    decreases 7 - i,
{
    if i >= 7 {
        7
    } else if a[i] != b[i] {
        i
    } else {
        first_difference(a, b, i + 1)
    }
}

/// `a` is strictly earlier than `b`.
pub open spec fn earlier(a: Timestamp, b: Timestamp) -> bool {
    let k = first_difference(timestamp_fields(a), timestamp_fields(b), 0);
    k < 7 && timestamp_fields(a)[k] < timestamp_fields(b)[k]
}

/// Whether `a` is strictly earlier than `b`.
pub fn is_earlier(a: &Timestamp, b: &Timestamp) -> (r: bool)
    ensures
        r == earlier(*a, *b),
{
    let fa = [
        a.year as i64,
        a.month as i64,
        a.day as i64,
        a.hour as i64,
        a.minute as i64,
        a.second as i64,
        a.nanosecond as i64,
    ];
    let fb = [
        b.year as i64,
        b.month as i64,
        b.day as i64,
        b.hour as i64,
        b.minute as i64,
        b.second as i64,
        b.nanosecond as i64,
    ];
    let ghost sa = timestamp_fields(*a);
    let ghost sb = timestamp_fields(*b);
    assert(forall|i: int| 0 <= i < 7 ==> fa[i] as int == sa[i] && fb[i] as int == sb[i]);
    let mut i: usize = 0;
    while i < 7
        invariant
            i <= 7,
            sa == timestamp_fields(*a),
            sb == timestamp_fields(*b),
            forall|j: int| 0 <= j < 7 ==> fa[j] as int == sa[j] && fb[j] as int == sb[j],
            first_difference(sa, sb, 0) == first_difference(sa, sb, i as int),
        decreases 7 - i,
    {
        if fa[i] != fb[i] {
            assert(first_difference(sa, sb, i as int) == i);
            return fa[i] < fb[i];
        }
        i = i + 1;
    }
    false
}

/// The English name of month `m`, or nothing outside 1..=12.
pub open spec fn month_full_name(m: int) -> Seq<char> {
    if m == 1 {
        "January"@
    } else if m == 2 {
        "February"@
    } else if m == 3 {
        "March"@
    } else if m == 4 {
        "April"@
    } else if m == 5 {
        "May"@
    } else if m == 6 {
        "June"@
    } else if m == 7 {
        "July"@
    } else if m == 8 {
        "August"@
    } else if m == 9 {
        "September"@
    } else if m == 10 {
        "October"@
    } else if m == 11 {
        "November"@
    } else if m == 12 {
        "December"@
    } else {
        Seq::empty()
    }
}

/// A number below 10000 in four digits, zero-padded.
pub open spec fn four_digits(y: int) -> Seq<char> {
    if y < 10 {
        "000"@ + decimal(y as nat)
    } else if y < 100 {
        "00"@ + decimal(y as nat)
    } else if y < 1000 {
        "0"@ + decimal(y as nat)
    } else {
        decimal(y as nat)
    }
}

/// A year in at least four digits, zero-padded, with a `-` before the
/// years before year 0.
pub open spec fn padded_year(y: int) -> Seq<char> {
    if y < 0 {
        "-"@ + four_digits(-y)
    } else {
        four_digits(y)
    }
}

/// The month and year of a timestamp, such as "March 2021".
pub open spec fn month_year_text(t: Timestamp) -> Seq<char> {
    month_full_name(t.month as int) + " "@ + padded_year(t.year as int)
}

fn month_full(m: u8) -> (r: &'static str)
    ensures
        r@ == month_full_name(m as int),
{
    if m == 1 {
        "January"
    } else if m == 2 {
        "February"
    } else if m == 3 {
        "March"
    } else if m == 4 {
        "April"
    } else if m == 5 {
        "May"
    } else if m == 6 {
        "June"
    } else if m == 7 {
        "July"
    } else if m == 8 {
        "August"
    } else if m == 9 {
        "September"
    } else if m == 10 {
        "October"
    } else if m == 11 {
        "November"
    } else if m == 12 {
        "December"
    } else {
        proof {
            reveal_strlit("");
        }
        ""
    }
}

/// A photograph of the gallery.
#[derive(Clone, Debug)]
pub struct GalleryImage {
    pub filename: String,
    pub title: Option<String>,
    pub timestamp: Timestamp,
    pub colorpalette: Vec<String>,
}

impl GalleryImage {
    /// The month and year the photograph was taken, such as "March 2021".
    pub fn month_year(&self) -> (r: String)
        requires
            timestamp_wf(self.timestamp),
        ensures
            r@ == month_year_text(self.timestamp),
    {
        let t = self.timestamp;
        let mut out = String::new();
        out.append(month_full(t.month));
        out.append(" ");
        let ghost head = out@;
        if t.year < 0 {
            out.append("-");
        }
        let ghost signed = out@;
        let y: u64 = if t.year < 0 {
            (-(t.year as i64)) as u64
        } else {
            t.year as u64
        };
        if y < 10 {
            out.append("000");
        } else if y < 100 {
            out.append("00");
        } else if y < 1000 {
            out.append("0");
        }
        out.append(decimal_string(y).as_str());
        assert(out@ =~= signed + four_digits(y as int));
        assert(out@ =~= month_year_text(t));
        out
    }
}

/// The index of the first image in `acc`, from `i` on, taken before `t`.
pub open spec fn first_earlier(acc: Seq<GalleryImage>, t: Timestamp, i: int) -> int
    decreases acc.len() - i,
{
    if i >= acc.len() {
        acc.len() as int
    } else if earlier(acc[i].timestamp, t) {
        i
    } else {
        first_earlier(acc, t, i + 1)
    }
}

/// `acc` with the images of `rest` inserted one by one, each after every
/// image taken no earlier.
pub open spec fn insert_by_time(acc: Seq<GalleryImage>, rest: Seq<GalleryImage>) -> Seq<
    GalleryImage,
>
    decreases rest.len(),
{
    if rest.len() == 0 {
        acc
    } else {
        insert_by_time(
            acc.insert(first_earlier(acc, rest[0].timestamp, 0), rest[0]),
            rest.drop_first(),
        )
    }
}

/// The images, most recent first; images taken at the same moment keep
/// their order.
pub open spec fn latest_first(s: Seq<GalleryImage>) -> Seq<GalleryImage> {
    insert_by_time(Seq::empty(), s)
}

/// A number that orders timestamps as `earlier` does.
pub open spec fn time_rank(t: Timestamp) -> int {
    let f = timestamp_fields(t);
    ((((((f[0] * 0x100) + f[1]) * 0x100 + f[2]) * 0x100 + f[3]) * 0x100 + f[4]) * 0x100 + f[5])
        * 0x1_0000_0000 + f[6]
}

proof fn lemma_time_rank(a: Timestamp, b: Timestamp)
    ensures
        earlier(a, b) == (time_rank(a) < time_rank(b)),
{
    let fa = timestamp_fields(a);
    let fb = timestamp_fields(b);
    assert(first_difference(fa, fb, 7) == 7);
    assert(first_difference(fa, fb, 6) == if fa[6] != fb[6] {
        6int
    } else {
        7int
    });
    assert(first_difference(fa, fb, 5) == if fa[5] != fb[5] {
        5int
    } else {
        first_difference(fa, fb, 6)
    });
    assert(first_difference(fa, fb, 4) == if fa[4] != fb[4] {
        4int
    } else {
        first_difference(fa, fb, 5)
    });
    assert(first_difference(fa, fb, 3) == if fa[3] != fb[3] {
        3int
    } else {
        first_difference(fa, fb, 4)
    });
    assert(first_difference(fa, fb, 2) == if fa[2] != fb[2] {
        2int
    } else {
        first_difference(fa, fb, 3)
    });
    assert(first_difference(fa, fb, 1) == if fa[1] != fb[1] {
        1int
    } else {
        first_difference(fa, fb, 2)
    });
    assert(first_difference(fa, fb, 0) == if fa[0] != fb[0] {
        0int
    } else {
        first_difference(fa, fb, 1)
    });
}

proof fn lemma_first_earlier(acc: Seq<GalleryImage>, t: Timestamp, i: int)
    requires
        0 <= i,
    ensures
        i <= acc.len() ==> i <= first_earlier(acc, t, i) <= acc.len(),
        forall|j: int|
            i <= j < first_earlier(acc, t, i) ==> !(time_rank(#[trigger] acc[j].timestamp)
                < time_rank(t)),
        first_earlier(acc, t, i) < acc.len() ==> time_rank(acc[first_earlier(acc, t, i)].timestamp)
            < time_rank(t),
    decreases acc.len() - i,
{
    if i < acc.len() {
        lemma_time_rank(acc[i].timestamp, t);
        lemma_first_earlier(acc, t, i + 1);
    }
}

/// No photograph comes before one taken later.
pub open spec fn is_latest_first(s: Seq<GalleryImage>) -> bool {
    forall|i: int, j: int|
        0 <= i < j < s.len() ==> !earlier((#[trigger] s[i]).timestamp, (#[trigger] s[j]).timestamp)
}

proof fn lemma_insert_by_time(acc: Seq<GalleryImage>, rest: Seq<GalleryImage>)
    requires
        is_latest_first(acc),
    ensures
        is_latest_first(insert_by_time(acc, rest)),
        insert_by_time(acc, rest).to_multiset() == acc.to_multiset().add(rest.to_multiset()),
    decreases rest.len(),
{
    broadcast use vstd::seq_lib::group_to_multiset_ensures;

    if rest.len() > 0 {
        let p = rest[0];
        let k = first_earlier(acc, p.timestamp, 0);
        lemma_first_earlier(acc, p.timestamp, 0);
        let next = acc.insert(k, p);
        assert forall|i: int, j: int| 0 <= i < j < next.len() implies !earlier(
            (#[trigger] next[i]).timestamp,
            (#[trigger] next[j]).timestamp,
        ) by {
            lemma_time_rank(next[i].timestamp, next[j].timestamp);
            if j < k {
                lemma_time_rank(acc[i].timestamp, acc[j].timestamp);
            } else if j == k {
                assert(next[j] == p);
            } else if i < k {
                lemma_time_rank(acc[i].timestamp, acc[j - 1].timestamp);
            } else if i == k {
                lemma_time_rank(acc[k].timestamp, acc[j - 1].timestamp);
                assert(next[i] == p);
            } else {
                lemma_time_rank(acc[i - 1].timestamp, acc[j - 1].timestamp);
            }
        }
        lemma_insert_by_time(next, rest.drop_first());
        assert(rest == seq![p] + rest.drop_first());
        vstd::seq_lib::lemma_multiset_commutative(seq![p], rest.drop_first());
        assert(seq![p].to_multiset() =~= Multiset::empty().insert(p)) by {
            assert(seq![p] == Seq::<GalleryImage>::empty().push(p));
        }
        assert(next.to_multiset() == acc.to_multiset().insert(p));
        assert(insert_by_time(acc, rest).to_multiset() =~= acc.to_multiset().add(
            rest.to_multiset(),
        ));
    }
}

/// Ordering latest first keeps every photograph and leaves none before one
/// taken later.
pub proof fn lemma_latest_first(s: Seq<GalleryImage>)
    ensures
        is_latest_first(latest_first(s)),
        latest_first(s).to_multiset() == s.to_multiset(),
{
    broadcast use vstd::seq_lib::group_to_multiset_ensures;

    lemma_insert_by_time(Seq::empty(), s);
    assert(Seq::<GalleryImage>::empty().to_multiset() =~= Multiset::empty());
    assert(Multiset::<GalleryImage>::empty().add(s.to_multiset()) =~= s.to_multiset());
}

/// The index of the first image of `s`, from `i` on, named `name`.
pub open spec fn first_named(s: Seq<GalleryImage>, name: Seq<char>, i: int) -> int
    decreases s.len() - i,
{
    if i >= s.len() {
        s.len() as int
    } else if s[i].filename@ == name {
        i
    } else {
        first_named(s, name, i + 1)
    }
}

fn position_by_time(acc: &Vec<GalleryImage>, t: &Timestamp) -> (r: usize)
    ensures
        r as int == first_earlier(acc@, *t, 0),
        r <= acc@.len(),
{
    let mut i: usize = 0;
    while i < acc.len()
        invariant
            i <= acc@.len(),
            first_earlier(acc@, *t, 0) == first_earlier(acc@, *t, i as int),
        decreases acc@.len() - i,
    {
        if is_earlier(&acc[i].timestamp, t) {
            return i;
        }
        i = i + 1;
    }
    i
}

/// A photograph found in the gallery, with its neighbours.
pub struct FoundGalleryImage<'a> {
    pub image: &'a GalleryImage,
    pub prev: Option<&'a GalleryImage>,
    pub next: Option<&'a GalleryImage>,
}

/// The photographs of the gallery, most recent first.
#[derive(Clone, Debug)]
pub struct Gallery {
    pub images: Vec<GalleryImage>,
}

impl Gallery {
    /// Builds the gallery of the given photographs, most recent first.
    pub fn load(images: Vec<GalleryImage>) -> (r: Gallery)
        ensures
            r.images@ == latest_first(images@),
            is_latest_first(r.images@),
            r.images@.to_multiset() == images@.to_multiset(),
    {
        let ghost s = images@;
        proof {
            lemma_latest_first(s);
        }
        let mut rest = images;
        let mut acc: Vec<GalleryImage> = Vec::new();
        while rest.len() > 0
            invariant
                insert_by_time(acc@, rest@) == latest_first(s),
            decreases rest@.len(),
        {
            let ghost before = rest@;
            let img = rest.remove(0);
            assert(rest@ == before.drop_first());
            let k = position_by_time(&acc, &img.timestamp);
            acc.insert(k, img);
        }
        Gallery { images: acc }
    }

    /// The photograph named `slug`, with the ones before and after it.
    pub fn find<'a>(&'a self, slug: &str) -> (r: Option<FoundGalleryImage<'a>>)
        ensures
            ({
                let s = self.images@;
                let k = first_named(s, slug@, 0);
                match r {
                    Some(f) => {
                        &&& k < s.len()
                        &&& *f.image == s[k]
                        &&& (k > 0 ==> (f.prev matches Some(p) && *p == s[k - 1]))
                        &&& (k == 0 ==> f.prev is None)
                        &&& (k + 1 < s.len() ==> (f.next matches Some(q) && *q == s[k + 1]))
                        &&& (k + 1 >= s.len() ==> f.next is None)
                    },
                    None => k == s.len(),
                }
            }),
    {
        let key = String::from_str(slug);
        let n = self.images.len();
        let mut i: usize = 0;
        while i < n
            invariant
                n == self.images@.len(),
                key@ == slug@,
                i <= n,
                first_named(self.images@, slug@, 0) == first_named(self.images@, slug@, i as int),
            decreases n - i,
        {
            if self.images[i].filename == key {
                let prev = if i > 0 {
                    Some(&self.images[i - 1])
                } else {
                    None
                };
                let next = if i + 1 < n {
                    Some(&self.images[i + 1])
                } else {
                    None
                };
                return Some(FoundGalleryImage { image: &self.images[i], prev, next });
            }
            i = i + 1;
        }
        None
    }

    /// The number of photographs.
    pub fn size(&self) -> (r: usize)
        ensures
            r == self.images@.len(),
    {
        self.images.len()
    }

    /// How many pages of `pagesize` photographs the gallery fills.
    pub fn total_pages(&self, pagesize: usize) -> (r: usize)
        requires
            pagesize > 0,
        ensures
            r as int == (self.images@.len() + pagesize - 1) / pagesize as int,
    {
        let n = self.size();
        let extra: usize = if n % pagesize > 0 {
            1
        } else {
            0
        };
        assert(n / pagesize + extra == (n + pagesize - 1) / pagesize as int) by (nonlinear_arith)
            requires
                pagesize > 0,
                extra == (if n % pagesize > 0 {
                    1int
                } else {
                    0int
                }),
        ;
        assert(n / pagesize + extra <= n) by (nonlinear_arith)
            requires
                pagesize > 0,
                extra == (if n % pagesize > 0 {
                    1int
                } else {
                    0int
                }),
        ;
        n / pagesize + extra
    }
}

} // verus!
