//! What a photograph's processing computes: its palette codes, its
//! thumbnail crop, its title and the palette cache text.

use image::Pixel;
use vstd::prelude::*;
use vstd::string::StringExecFns;

use crate::color::{Rgb8, SAMPLE_LIMIT};
use crate::colorpalette::{
    extract_palette, leaves, palette, PaletteError, PaletteExtractionAlgorithm,
};
use crate::text::find_char;

verus! {

/// Palette colours this dark or darker are left out of a photograph's palette.
pub const LUMA_MIN: u8 = 60;

/// How deep a photograph's palette extraction goes (at most `2^3` colours).
pub const PHOTO_PALETTE_DEPTH: usize = 3;

/// The perceived brightness of a colour, with the sRGB luma weights.
pub open spec fn luma_of(c: Rgb8) -> int {
    (2126 * c[0] as int + 7152 * c[1] as int + 722 * c[2] as int) / 10000
}

/// Relies on image's `Pixel::to_luma` for 8-bit `Rgb`, which weighs the
/// channels 2126, 7152 and 722 over 10000 in 32-bit integers.
#[verifier::external_body]
fn luma(c: Rgb8) -> (r: u8)
    ensures
        r as int == luma_of(c),
{
    image::Rgb(c).to_luma().0[0]
}

/// The lower-case hexadecimal digit for `n < 16`.
pub open spec fn hex_digit(n: int) -> Seq<char> {
    if n == 0 {
        "0"@
    } else if n == 1 {
        "1"@
    } else if n == 2 {
        "2"@
    } else if n == 3 {
        "3"@
    } else if n == 4 {
        "4"@
    } else if n == 5 {
        "5"@
    } else if n == 6 {
        "6"@
    } else if n == 7 {
        "7"@
    } else if n == 8 {
        "8"@
    } else if n == 9 {
        "9"@
    } else if n == 10 {
        "a"@
    } else if n == 11 {
        "b"@
    } else if n == 12 {
        "c"@
    } else if n == 13 {
        "d"@
    } else if n == 14 {
        "e"@
    } else {
        "f"@
    }
}

/// A byte as two lower-case hexadecimal digits.
pub open spec fn hex_pair(b: u8) -> Seq<char> {
    hex_digit(b as int / 16) + hex_digit(b as int % 16)
}

/// A colour as six lower-case hexadecimal digits, two per channel.
pub open spec fn hex_code(c: Rgb8) -> Seq<char> {
    hex_pair(c[0]) + hex_pair(c[1]) + hex_pair(c[2])
}

/// The hexadecimal codes of the colours brighter than `LUMA_MIN`, in order.
pub open spec fn palette_codes_of(s: Seq<Rgb8>) -> Seq<Seq<char>>
    decreases s.len(),
{
    if s.len() == 0 {
        Seq::empty()
    } else if luma_of(s.last()) > LUMA_MIN {
        palette_codes_of(s.drop_last()).push(hex_code(s.last()))
    } else {
        palette_codes_of(s.drop_last())
    }
}

fn hex_digit_text(n: u8) -> (r: &'static str)
    requires
        n < 16,
    ensures
        r@ == hex_digit(n as int),
{
    if n == 0 {
        "0"
    } else if n == 1 {
        "1"
    } else if n == 2 {
        "2"
    } else if n == 3 {
        "3"
    } else if n == 4 {
        "4"
    } else if n == 5 {
        "5"
    } else if n == 6 {
        "6"
    } else if n == 7 {
        "7"
    } else if n == 8 {
        "8"
    } else if n == 9 {
        "9"
    } else if n == 10 {
        "a"
    } else if n == 11 {
        "b"
    } else if n == 12 {
        "c"
    } else if n == 13 {
        "d"
    } else if n == 14 {
        "e"
    } else {
        "f"
    }
}

/// A colour as six lower-case hexadecimal digits, such as "ff8000".
pub fn hex_color(c: Rgb8) -> (r: String)
    ensures
        r@ == hex_code(c),
{
    let mut out = String::new();
    let mut d: usize = 0;
    while d < 3
        invariant
            d <= 3,
            out@ == if d == 0 {
                Seq::empty()
            } else if d == 1 {
                hex_pair(c[0])
            } else if d == 2 {
                hex_pair(c[0]) + hex_pair(c[1])
            } else {
                hex_code(c)
            },
        decreases 3 - d,
    {
        let ghost before = out@;
        out.append(hex_digit_text(c[d] / 16));
        out.append(hex_digit_text(c[d] % 16));
        assert(out@ =~= before + hex_pair(c[d as int]));
        d = d + 1;
    }
    out
}

/// The views of a run of texts.
pub open spec fn string_views(v: Seq<String>) -> Seq<Seq<char>> {
    v.map_values(|s: String| s@)
}

/// The hexadecimal codes of the palette colours brighter than `LUMA_MIN`.
pub fn palette_codes(colors: &Vec<Rgb8>) -> (r: Vec<String>)
    ensures
        string_views(r@) == palette_codes_of(colors@),
{
    let mut out: Vec<String> = Vec::new();
    let mut i: usize = 0;
    while i < colors.len()
        invariant
            i <= colors@.len(),
            string_views(out@) == palette_codes_of(colors@.subrange(0, i as int)),
        decreases colors@.len() - i,
    {
        let c = colors[i];
        let ghost before = string_views(out@);
        proof {
            assert(colors@.subrange(0, i as int + 1).drop_last() == colors@.subrange(0, i as int));
        }
        if luma(c) > LUMA_MIN {
            out.push(hex_color(c));
            assert(string_views(out@) =~= before.push(hex_code(c)));
        }
        i = i + 1;
    }
    assert(colors@.subrange(0, colors@.len() as int) == colors@);
    out
}

/// The palette codes of a photograph's thumbnail pixels: a mode-bisect
/// palette of depth `PHOTO_PALETTE_DEPTH`, without its dark colours. The
/// pixels are reordered.
pub fn thumbnail_palette(pixels: &mut Vec<Rgb8>) -> (r: Result<Vec<String>, PaletteError>)
    requires
        old(pixels)@.len() <= SAMPLE_LIMIT,
    ensures
        old(pixels)@.len() == 0 ==> r == Err::<Vec<String>, PaletteError>(PaletteError::EmptyInput),
        old(pixels)@.len() > 0 ==> (r matches Ok(codes) && string_views(codes@) == palette_codes_of(
            palette(
                old(pixels)@,
                PHOTO_PALETTE_DEPTH as nat,
                PaletteExtractionAlgorithm::ModeBisect,
            ),
        )),
        final(pixels)@ == leaves(
            old(pixels)@,
            PHOTO_PALETTE_DEPTH as nat,
            PaletteExtractionAlgorithm::ModeBisect,
        ).flatten(),
        final(pixels)@.to_multiset() == old(pixels)@.to_multiset(),
{
    match extract_palette(
        pixels.as_mut_slice(),
        PHOTO_PALETTE_DEPTH,
        &PaletteExtractionAlgorithm::ModeBisect,
    ) {
        Ok(colors) => Ok(palette_codes(&colors)),
        Err(e) => Err(e),
    }
}

/// The area kept when a `width` x `height` picture is cropped, centred, to
/// the 4:3 shape of a thumbnail: `(x, y, w, h)`.
pub open spec fn crop_box_of(width: int, height: int) -> (int, int, int, int) {
    let ch = width * 3 / 4;
    if ch <= height {
        (0, (height - ch) / 2, width, ch)
    } else {
        let cw = height * 4 / 3;
        ((width - cw) / 2, 0, cw, height)
    }
}

/// Where to crop a `width` x `height` picture to a centred 4:3 thumbnail.
pub fn thumbnail_crop(width: u32, height: u32) -> (r: (u32, u32, u32, u32))
    ensures
        (r.0 as int, r.1 as int, r.2 as int, r.3 as int) == crop_box_of(width as int, height as int),
{
    let ch = (width as u64) * 3 / 4;
    if ch <= height as u64 {
        (0, ((height as u64 - ch) / 2) as u32, width, ch as u32)
    } else {
        let cw = (height as u64) * 4 / 3;
        assert(cw < width) by (nonlinear_arith)
            requires
                cw == height * 4 / 3,
                width * 3 / 4 > height,
        ;
        (((width as u64 - cw) / 2) as u32, 0, cw as u32, height)
    }
}

/// `s` without the `"` characters at its start and its end.
pub open spec fn trim_quotes_of(s: Seq<char>) -> Seq<char>
    decreases s.len(),
{
    if s.len() > 0 && s[0] == '"' {
        trim_quotes_of(s.drop_first())
    } else if s.len() > 0 && s.last() == '"' {
        trim_quotes_of(s.drop_last())
    } else {
        s
    }
}

/// A photograph title as the camera wrote it, without its quotes.
pub fn trim_quotes(s: &str) -> (r: String)
    ensures
        r@ == trim_quotes_of(s@),
{
    let n = s.unicode_len();
    let mut lo: usize = 0;
    let mut hi: usize = n;
    assert(s@.subrange(0, n as int) == s@);
    while lo < hi && s.get_char(lo) == '"'
        invariant
            n == s@.len(),
            lo <= hi == n,
            trim_quotes_of(s@) == trim_quotes_of(s@.subrange(lo as int, hi as int)),
        decreases hi - lo,
    {
        let ghost t = s@.subrange(lo as int, hi as int);
        assert(t.drop_first() == s@.subrange(lo as int + 1, hi as int));
        lo = lo + 1;
    }
    while lo < hi && s.get_char(hi - 1) == '"'
        invariant
            n == s@.len(),
            lo <= hi <= n,
            lo < hi ==> s@[lo as int] != '"',
            trim_quotes_of(s@) == trim_quotes_of(s@.subrange(lo as int, hi as int)),
        decreases hi - lo,
    {
        let ghost t = s@.subrange(lo as int, hi as int);
        assert(t.drop_last() == s@.subrange(lo as int, hi as int - 1));
        assert(t[0] == s@[lo as int]);
        hi = hi - 1;
    }
    String::from_str(s.substring_char(lo, hi))
}

/// The number of bytes that `c` takes in UTF-8.
pub open spec fn utf8_width(c: char) -> int {
    if (c as u32) < 0x80 {
        1
    } else if (c as u32) < 0x800 {
        2
    } else if (c as u32) < 0x10000 {
        3
    } else {
        4
    }
}

/// The number of bytes that `s[i..j]` takes in UTF-8.
pub open spec fn utf8_len(s: Seq<char>, i: int, j: int) -> int
    decreases j - i,
{
    if j <= i {
        0
    } else {
        utf8_len(s, i, j - 1) + utf8_width(s[j - 1])
    }
}

/// Where the line that starts at `i` ends: before its `\n`, and before a
/// `\r` that directly precedes that `\n`.
pub open spec fn line_end(s: Seq<char>, i: int) -> int {
    let j = find_char(s, '\n', i);
    if j < s.len() && j > i && s[j - 1] == '\r' {
        j - 1
    } else {
        j
    }
}

/// The lines of `s` from position `i` on that take exactly six bytes, in
/// order. Lines end at `\n` or `\r\n`; a final line needs no line ending.
pub open spec fn six_byte_lines(s: Seq<char>, i: int) -> Seq<Seq<char>>
    decreases s.len() - i via six_byte_lines_decreases
{
    if i < 0 || i >= s.len() {
        Seq::empty()
    } else {
        let j = find_char(s, '\n', i);
        let e = line_end(s, i);
        let rest = if j < s.len() {
            six_byte_lines(s, j + 1)
        } else {
            Seq::<Seq<char>>::empty()
        };
        if utf8_len(s, i, e) == 6 {
            seq![s.subrange(i, e)] + rest
        } else {
            rest
        }
    }
}

#[via_fn]
proof fn six_byte_lines_decreases(s: Seq<char>, i: int) {
    if 0 <= i < s.len() {
        lemma_find_char_bounds(s, '\n', i);
    }
}

proof fn lemma_utf8_len_at_least(s: Seq<char>, i: int, j: int)
    requires
        i <= j,
    ensures
        utf8_len(s, i, j) >= j - i,
    decreases j - i,
{
    if j > i {
        lemma_utf8_len_at_least(s, i, j - 1);
    }
}

proof fn lemma_find_char_bounds(s: Seq<char>, c: char, i: int)
    requires
        0 <= i,
    ensures
        i <= s.len() ==> i <= find_char(s, c, i) <= s.len(),
        find_char(s, c, i) < s.len() ==> s[find_char(s, c, i)] == c,
    decreases s.len() - i,
{
    if i < s.len() {
        lemma_find_char_bounds(s, c, i + 1);
    }
}

fn takes_six_bytes(s: &str, i: usize, j: usize) -> (r: bool)
    requires
        i <= j <= s@.len(),
    ensures
        r == (utf8_len(s@, i as int, j as int) == 6),
{
    if j - i > 6 {
        proof {
            lemma_utf8_len_at_least(s@, i as int, j as int);
        }
        return false;
    }
    let mut k: usize = i;
    let mut total: usize = 0;
    while k < j
        invariant
            i <= k <= j <= s@.len(),
            j - i <= 6,
            total as int == utf8_len(s@, i as int, k as int),
            total <= 4 * (k - i),
        decreases j - k,
    {
        let c = s.get_char(k) as u32;
        let w: usize = if c < 0x80 {
            1
        } else if c < 0x800 {
            2
        } else if c < 0x10000 {
            3
        } else {
            4
        };
        total = total + w;
        k = k + 1;
    }
    total == 6
}

/// The palette codes kept in a cache text: its lines of exactly six bytes.
pub fn cached_palette(contents: &str) -> (r: Vec<String>)
    ensures
        string_views(r@) == six_byte_lines(contents@, 0),
{
    let ghost s = contents@;
    let n = contents.unicode_len();
    let mut out: Vec<String> = Vec::new();
    let mut i: usize = 0;
    while i < n
        invariant
            n == s.len(),
            s == contents@,
            i <= n,
            string_views(out@) + six_byte_lines(s, i as int) == six_byte_lines(s, 0),
        decreases n - i,
    {
        let mut j: usize = i;
        while j < n && contents.get_char(j) != '\n'
            invariant
                n == s.len(),
                s == contents@,
                i <= j <= n,
                find_char(s, '\n', i as int) == find_char(s, '\n', j as int),
            decreases n - j,
        {
            j = j + 1;
        }
        proof {
            lemma_find_char_bounds(s, '\n', i as int);
            assert(find_char(s, '\n', j as int) == j);
        }
        let e = if j < n && j > i && contents.get_char(j - 1) == '\r' {
            j - 1
        } else {
            j
        };
        let ghost rest = if j < n {
            six_byte_lines(s, j + 1)
        } else {
            Seq::<Seq<char>>::empty()
        };
        let ghost before = string_views(out@);
        if takes_six_bytes(contents, i, e) {
            out.push(String::from_str(contents.substring_char(i, e)));
            assert(string_views(out@) =~= before.push(s.subrange(i as int, e as int)));
            assert(string_views(out@) + rest =~= before + six_byte_lines(s, i as int));
        } else {
            assert(string_views(out@) + rest =~= before + six_byte_lines(s, i as int));
        }
        if j < n {
            i = j + 1;
        } else {
            assert(six_byte_lines(s, n as int) == Seq::<Seq<char>>::empty());
            i = n;
        }
    }
    assert(six_byte_lines(s, n as int) == Seq::<Seq<char>>::empty());
    assert(string_views(out@) =~= string_views(out@) + six_byte_lines(s, n as int));
    out
}

} // verus!
