//! Bitmap fonts: parsing the text font description and looking up glyphs.
//!
//! The description is a sequence of lines. A line `0xNN` (a hexadecimal
//! character code) is followed by up to 16 lines giving the rows of that
//! character's 8-by-16 glyph, one character per cell; `*` marks a set pixel.
use vstd::prelude::*;
use crate::print::{hex_char, hex_min};

verus! {

/// The 16 rows of 8 cells of one character.
pub type Glyph = [[char; 8]; 16];

/// Number of rows of a glyph.
pub const GLYPH_HEIGHT: usize = 16;

/// Number of cells in a glyph row.
pub const GLYPH_WIDTH: usize = 8;

/// Number of character codes a font covers.
pub const FONT_CODES: usize = 256;

/// The lines of `s`, split at each `'\n'` (the text after the last one,
/// possibly empty, is the last line).
pub open spec fn split_lines(s: Seq<char>) -> Seq<Seq<char>>
    decreases s.len(),
{
    if s.len() == 0 {
        seq![Seq::<char>::empty()]
    } else {
        let init = split_lines(s.drop_last());
        if s.last() == '\n' {
            init.push(Seq::<char>::empty())
        } else {
            init.update(init.len() - 1, init.last().push(s.last()))
        }
    }
}

proof fn lemma_split_lines_nonempty(s: Seq<char>)
    ensures
        split_lines(s).len() >= 1,
    decreases s.len(),
{
    if s.len() > 0 {
        lemma_split_lines_nonempty(s.drop_last());
    }
}

/// Text without a line break extends the last line.
proof fn lemma_split_lines_append(a: Seq<char>, b: Seq<char>)
    requires
        forall|i: int| 0 <= i < b.len() ==> b[i] != '\n',
    ensures
        split_lines(a + b) == split_lines(a).update(
            split_lines(a).len() - 1,
            split_lines(a).last() + b,
        ),
    decreases b.len(),
{
    lemma_split_lines_nonempty(a);
    if b.len() == 0 {
        assert(a + b =~= a);
        assert(split_lines(a).last() + b =~= split_lines(a).last());
        assert(split_lines(a).update(split_lines(a).len() - 1, split_lines(a).last()) =~= split_lines(a));
    } else {
        let b0 = b.drop_last();
        lemma_split_lines_append(a, b0);
        assert((a + b).drop_last() =~= a + b0);
        assert((a + b).last() == b.last());
        assert(b.last() == b[b.len() - 1]);
        let sa = split_lines(a);
        let init = split_lines(a + b0);
        assert(init.len() == sa.len());
        assert(init.last() == sa.last() + b0);
        assert(split_lines(a + b) == init.update(init.len() - 1, init.last().push(b.last())));
        assert((sa.last() + b0).push(b.last()) =~= sa.last() + b);
        assert(split_lines(a + b) =~= sa.update(sa.len() - 1, sa.last() + b));
    }
}

/// The text of `ls`: each line followed by a line break.
pub open spec fn text_of_lines(ls: Seq<Seq<char>>) -> Seq<char>
    decreases ls.len(),
{
    if ls.len() == 0 {
        Seq::empty()
    } else {
        text_of_lines(ls.drop_last()) + ls.last() + seq!['\n']
    }
}

/// Splitting the text of lines that hold no line break gives those lines
/// back, followed by the empty text after the last line break.
pub proof fn lemma_split_text_of_lines(ls: Seq<Seq<char>>)
    requires
        forall|j: int, i: int| 0 <= j < ls.len() && 0 <= i < ls[j].len() ==> #[trigger] ls[j][i] != '\n',
    ensures
        split_lines(text_of_lines(ls)) == ls.push(Seq::<char>::empty()),
    decreases ls.len(),
{
    if ls.len() == 0 {
        assert(split_lines(Seq::<char>::empty()) == seq![Seq::<char>::empty()]);
        assert(ls.push(Seq::<char>::empty()) =~= seq![Seq::<char>::empty()]);
    } else {
        let init = ls.drop_last();
        let t0 = text_of_lines(init);
        assert forall|j: int, i: int| 0 <= j < init.len() && 0 <= i < init[j].len() implies #[trigger] init[j][i] != '\n' by {
            assert(init[j] == ls[j]);
        }
        lemma_split_text_of_lines(init);
        assert(ls.last() == ls[ls.len() - 1]);
        assert forall|i: int| 0 <= i < ls.last().len() implies ls.last()[i] != '\n' by {
            assert(ls[ls.len() - 1][i] != '\n');
        }
        lemma_split_lines_append(t0, ls.last());
        let t1 = t0 + ls.last();
        let t = text_of_lines(ls);
        assert(t == t1 + seq!['\n']);
        assert(t.drop_last() =~= t1);
        assert(split_lines(t1) =~= ls);
        assert(split_lines(t) =~= ls.push(Seq::<char>::empty()));
    }
}

/// The value of a hexadecimal digit.
pub open spec fn hex_digit(c: char) -> Option<int> {
    if '0' <= c <= '9' {
        Some(c as int - '0' as int)
    } else if 'a' <= c <= 'f' {
        Some(c as int - 'a' as int + 10)
    } else if 'A' <= c <= 'F' {
        Some(c as int - 'A' as int + 10)
    } else {
        None
    }
}

/// All characters of `ds` are hexadecimal digits.
pub open spec fn all_hex(ds: Seq<char>) -> bool {
    forall|i: int| 0 <= i < ds.len() ==> (#[trigger] hex_digit(ds[i])) is Some
}

/// The number written by the hexadecimal digits `ds`.
pub open spec fn hex_value(ds: Seq<char>) -> int
    decreases ds.len(),
{
    if ds.len() == 0 {
        0
    } else {
        hex_value(ds.drop_last()) * 16 + hex_digit(ds.last())->Some_0
    }
}

/// The digits of a number as `u8::from_str_radix(.., 16)` reads them: an
/// optional leading `+` is dropped (unless it is the whole text).
pub open spec fn unsigned_digits(s: Seq<char>) -> Seq<char> {
    if s.len() > 1 && s[0] == '+' {
        s.skip(1)
    } else {
        s
    }
}

/// `u8::from_str_radix(s, 16)`: the text must be non-empty, made of
/// hexadecimal digits after an optional `+`, and its value at most 255.
pub open spec fn parse_hex_u8_spec(s: Seq<char>) -> Option<u8> {
    let ds = unsigned_digits(s);
    if s.len() > 0 && all_hex(ds) && hex_value(ds) <= 255 {
        Some(hex_value(ds) as u8)
    } else {
        None
    }
}

/// Taking more hexadecimal digits never makes the number smaller.
proof fn lemma_hex_value_prefix(ds: Seq<char>, k: int)
    requires
        all_hex(ds),
        0 <= k <= ds.len(),
    ensures
        0 <= hex_value(ds.take(k)) <= hex_value(ds),
    decreases ds.len() - k,
{
    if k < ds.len() {
        lemma_hex_value_prefix(ds, k + 1);
        assert(ds.take(k + 1).drop_last() =~= ds.take(k));
        assert(hex_digit(ds[k]) is Some);
    } else {
        assert(ds.take(k) =~= ds);
        lemma_hex_value_nonneg(ds);
    }
}

proof fn lemma_hex_value_nonneg(ds: Seq<char>)
    requires
        all_hex(ds),
    ensures
        hex_value(ds) >= 0,
    decreases ds.len(),
{
    if ds.len() > 0 {
        assert(all_hex(ds.drop_last())) by {
            assert forall|i: int| 0 <= i < ds.drop_last().len() implies (#[trigger] hex_digit(ds.drop_last()[i])) is Some by {
                assert(hex_digit(ds[i]) is Some);
            }
        }
        lemma_hex_value_nonneg(ds.drop_last());
        assert(hex_digit(ds[ds.len() - 1]) is Some);
    }
}

/// Digits are worth their place in `0123456789abcdef` (either case for
/// the letters): reading back the digit written for any value below 16
/// gives that value, and nothing else is a digit.
pub proof fn lemma_hex_digit_values(d: int, c: char)
    requires
        0 <= d < 16,
    ensures
        hex_digit(hex_char(d)) == Some(d),
        d >= 10 ==> hex_digit((55 + d) as char) == Some(d),
        'a' <= c <= 'f' ==> hex_digit(c) == Some(c as int - 87),
        'A' <= c <= 'F' ==> hex_digit(c) == Some(c as int - 55),
        '0' <= c <= '9' ==> hex_digit(c) == Some(c as int - 48),
        !('a' <= c <= 'f' || 'A' <= c <= 'F' || '0' <= c <= '9') ==> hex_digit(c) is None,
{
}

/// A line `0x` followed by the two-digit hexadecimal form of `v` announces
/// code `v`: the code is read in base 16.
pub proof fn lemma_header_code_reads_hex(v: u8)
    ensures
        header_code(seq!['0', 'x'] + hex_min(v as nat, 2)) == Some(v),
{
    let hi = (v / 16) as int;
    let lo = (v % 16) as int;
    assert(hex_min(v as nat, 2) == seq![hex_char(hi), hex_char(lo)]) by {
        assert(hex_min((v / 16) as nat, 1) == seq![hex_char(hi)]);
    }
    let line = seq!['0', 'x'] + hex_min(v as nat, 2);
    let ds = line.skip(2);
    assert(ds =~= seq![hex_char(hi), hex_char(lo)]);
    lemma_hex_digit_values(hi, 'x');
    lemma_hex_digit_values(lo, 'x');
    assert(unsigned_digits(ds) == ds);
    assert(all_hex(ds));
    assert(ds.drop_last() =~= seq![hex_char(hi)]);
    let one = ds.drop_last();
    assert(one.drop_last() =~= Seq::<char>::empty());
    assert(hex_value(one.drop_last()) == 0);
    assert(one.last() == hex_char(hi));
    assert(hex_value(one) == hex_value(one.drop_last()) * 16 + hex_digit(one.last())->Some_0);
    assert(hex_value(one) == hi);
    assert(ds.last() == hex_char(lo));
    assert(hex_value(ds) == hi * 16 + lo);
}

/// The value of the hexadecimal digit `c`, if it is one.
fn hex_digit_value(c: char) -> (r: Option<u32>)
    ensures
        r is Some <==> hex_digit(c) is Some,
        r matches Some(v) ==> v == hex_digit(c)->Some_0 && v < 16,
{
    if '0' <= c && c <= '9' {
        Some(c as u32 - '0' as u32)
    } else if 'a' <= c && c <= 'f' {
        Some(c as u32 - 'a' as u32 + 10)
    } else if 'A' <= c && c <= 'F' {
        Some(c as u32 - 'A' as u32 + 10)
    } else {
        None
    }
}

/// Reads `src[start..end]` as `u8::from_str_radix(.., 16)` does.
fn parse_hex_u8(src: &[char], start: usize, end: usize) -> (r: Option<u8>)
    requires
        start <= end <= src@.len(),
    ensures
        r == parse_hex_u8_spec(src@.subrange(start as int, end as int)),
{
    let ghost s = src@.subrange(start as int, end as int);
    if start >= end {
        return None;
    }
    let mut i = start;
    if end - start > 1 && src[start] == '+' {
        i = start + 1;
    }
    let first = i;
    let ghost ds = unsigned_digits(s);
    assert(ds =~= src@.subrange(first as int, end as int));
    let mut value: u32 = 0;
    while i < end
        invariant
            first <= i <= end <= src@.len(),
            start < end,
            s == src@.subrange(start as int, end as int),
            ds == unsigned_digits(s),
            ds == src@.subrange(first as int, end as int),
            all_hex(ds.take(i - first)),
            value == hex_value(ds.take(i - first)),
            value <= 255,
        decreases end - i,
    {
        assert(ds.take(i + 1 - first).drop_last() =~= ds.take(i - first));
        let d = match hex_digit_value(src[i]) {
            Some(d) => d,
            None => {
                assert(!all_hex(ds)) by {
                    assert(hex_digit(ds[i - first]) is None);
                }
                return None;
            },
        };
        assert(all_hex(ds.take(i + 1 - first))) by {
            assert forall|j: int| 0 <= j < ds.take(i + 1 - first).len() implies (#[trigger] hex_digit(ds.take(i + 1 - first)[j])) is Some by {
                if j < i - first {
                    assert(ds.take(i + 1 - first)[j] == ds.take(i - first)[j]);
                }
            }
        }
        value = value * 16 + d;
        if value > 255 {
            proof {
                if all_hex(ds) {
                    lemma_hex_value_prefix(ds, i + 1 - first);
                }
            }
            return None;
        }
        i = i + 1;
    }
    assert(ds.take(i - first) =~= ds);
    Some(value as u8)
}

/// The character code announced by a line `0xNN`, if the line is one.
pub open spec fn header_code(line: Seq<char>) -> Option<u8> {
    if line.len() >= 2 && line[0] == '0' && line[1] == 'x' {
        parse_hex_u8_spec(line.skip(2))
    } else {
        None
    }
}

/// Cell `(y, x)` of the glyph announced by line `i`: character `x` of the
/// `y`-th line after it, or `*` when that line or character is missing.
pub open spec fn glyph_cell(lines: Seq<Seq<char>>, i: int, y: int, x: int) -> char {
    let j = i + 1 + y;
    if j < lines.len() && x < lines[j].len() {
        lines[j][x]
    } else {
        '*'
    }
}

/// The last of the first `n` lines that announces code `k`.
pub open spec fn last_header(lines: Seq<Seq<char>>, n: int, k: int) -> Option<int>
    decreases n,
{
    if n <= 0 {
        None
    } else if header_code(lines[n - 1]) matches Some(c) && c == k {
        Some(n - 1)
    } else {
        last_header(lines, n - 1, k)
    }
}

/// Cell `(y, x)` of the glyph of code `k` after reading the first `n` lines:
/// from the last glyph announced for `k`, all `*` when there is none.
pub open spec fn font_cell_after(lines: Seq<Seq<char>>, n: int, k: int, y: int, x: int) -> char {
    match last_header(lines, n, k) {
        Some(i) => glyph_cell(lines, i, y, x),
        None => '*',
    }
}

/// Cell `(y, x)` of the glyph of code `k` in the font described by `src`.
pub open spec fn font_cell(src: Seq<char>, k: int, y: int, x: int) -> char {
    font_cell_after(split_lines(src), split_lines(src).len() as int, k, y, x)
}

/// Lines that announce no code do not change the last header found.
proof fn lemma_last_header_skip(lines: Seq<Seq<char>>, m: int, n: int, k: int)
    requires
        0 <= m <= n <= lines.len(),
        forall|j: int| m <= j < n ==> (#[trigger] header_code(lines[j])) is None,
    ensures
        last_header(lines, n, k) == last_header(lines, m, k),
    decreases n,
{
    if n > m {
        lemma_last_header_skip(lines, m, n - 1, k);
    }
}

/// A description made of the header line `0x` + the two hexadecimal digits
/// of `k`, followed by 16 rows of 8 cells (each `.` or `*`), describes
/// exactly that glyph for code `k`; every other code keeps a glyph made
/// only of `*`.
pub proof fn lemma_parse_single_glyph(k: u8, rows: Seq<Seq<char>>, y: int, x: int, other: int)
    requires
        rows.len() == 16,
        forall|j: int| 0 <= j < 16 ==> (#[trigger] rows[j]).len() == 8,
        forall|j: int, i: int| 0 <= j < 16 && 0 <= i < 8 ==> #[trigger] rows[j][i] == '.' || rows[j][i] == '*',
        0 <= y < 16,
        0 <= x < 8,
    ensures
        font_cell(text_of_lines(seq![seq!['0', 'x'] + hex_min(k as nat, 2)] + rows), k as int, y, x) == rows[y][x],
        other != k ==> font_cell(text_of_lines(seq![seq!['0', 'x'] + hex_min(k as nat, 2)] + rows), other, y, x)
            == '*',
{
    let header = seq!['0', 'x'] + hex_min(k as nat, 2);
    let ls = seq![header] + rows;
    let src = text_of_lines(ls);
    let hi = (k / 16) as int;
    let lo = (k % 16) as int;
    assert(hex_min((k / 16) as nat, 1) == seq![hex_char(hi)]);
    assert(header =~= seq!['0', 'x', hex_char(hi), hex_char(lo)]);
    assert forall|j: int, i: int| 0 <= j < ls.len() && 0 <= i < ls[j].len() implies #[trigger] ls[j][i] != '\n' by {
        if j > 0 {
            assert(ls[j] == rows[j - 1]);
            assert(rows[j - 1][i] == '.' || rows[j - 1][i] == '*');
        }
    }
    lemma_split_text_of_lines(ls);
    let lines = split_lines(src);
    assert(lines == ls.push(Seq::<char>::empty()));
    assert(lines.len() == 18);
    lemma_header_code_reads_hex(k);
    assert(lines[0] == header);
    assert forall|j: int| 1 <= j < 18 implies (#[trigger] header_code(lines[j])) is None by {
        if j < 17 {
            assert(lines[j] == rows[j - 1]);
            assert(rows[j - 1][0] == '.' || rows[j - 1][0] == '*');
        } else {
            assert(lines[j] == Seq::<char>::empty());
        }
    }
    lemma_last_header_skip(lines, 1, 18, k as int);
    lemma_last_header_skip(lines, 1, 18, other);
    assert(last_header(lines, 1, k as int) == Some(0int));
    assert(lines[1 + y] == rows[y]);
    if other != k {
        assert(last_header(lines, 0, other) is None);
        assert(last_header(lines, 1, other) is None);
    }
}

/// The start and end of each line of `src`.
fn line_bounds(src: &[char]) -> (r: Vec<(usize, usize)>)
    ensures
        r@.len() == split_lines(src@).len(),
        forall|j: int|
            0 <= j < r@.len() ==> {
                &&& (#[trigger] r@[j]).0 <= r@[j].1 <= src@.len()
                &&& src@.subrange(r@[j].0 as int, r@[j].1 as int) == split_lines(src@)[j]
            },
{
    let mut r: Vec<(usize, usize)> = Vec::new();
    let mut start: usize = 0;
    let mut i: usize = 0;
    while i < src.len()
        invariant
            i <= src@.len(),
            start <= i,
            r@.len() + 1 == split_lines(src@.take(i as int)).len(),
            src@.subrange(start as int, i as int) == split_lines(src@.take(i as int)).last(),
            forall|j: int|
                0 <= j < r@.len() ==> {
                    &&& (#[trigger] r@[j]).0 <= r@[j].1 <= i
                    &&& src@.subrange(r@[j].0 as int, r@[j].1 as int) == split_lines(src@.take(i as int))[j]
                },
        decreases src@.len() - i,
    {
        proof {
            assert(src@.take(i + 1).drop_last() =~= src@.take(i as int));
            assert(src@.take(i + 1).last() == src@[i as int]);
            lemma_split_lines_nonempty(src@.take(i as int));
        }
        if src[i] == '\n' {
            r.push((start, i));
            start = i + 1;
            proof {
                assert(src@.subrange(start as int, i + 1) =~= Seq::<char>::empty());
            }
        } else {
            proof {
                assert(src@.subrange(start as int, i + 1) =~= src@.subrange(start as int, i as int).push(src@[i as int]));
            }
        }
        i = i + 1;
    }
    r.push((start, i));
    proof {
        assert(src@.take(i as int) =~= src@);
    }
    r
}

/// The glyph announced by line `i`: its 16 rows are the first 8 characters
/// of the following lines, `*` filling what is missing.
fn read_glyph(src: &[char], lines: &Vec<(usize, usize)>, i: usize) -> (g: Glyph)
    requires
        i < lines@.len(),
        lines@.len() == split_lines(src@).len(),
        forall|j: int|
            0 <= j < lines@.len() ==> {
                &&& (#[trigger] lines@[j]).0 <= lines@[j].1 <= src@.len()
                &&& src@.subrange(lines@[j].0 as int, lines@[j].1 as int) == split_lines(src@)[j]
            },
    ensures
        forall|y: int, x: int|
            0 <= y < 16 && 0 <= x < 8 ==> #[trigger] g[y][x] == glyph_cell(split_lines(src@), i as int, y, x),
{
    let ghost ls = split_lines(src@);
    let mut glyph: Glyph = [['*'; 8]; 16];
    let n_lines = lines.len();
    let following = n_lines - i - 1;
    let mut y: usize = 0;
    while y < GLYPH_HEIGHT && y < following
        invariant
            y <= 16,
            following == lines@.len() - i - 1,
            n_lines == lines@.len(),
            i < lines@.len(),
            ls == split_lines(src@),
            lines@.len() == ls.len(),
            forall|j: int|
                0 <= j < lines@.len() ==> {
                    &&& (#[trigger] lines@[j]).0 <= lines@[j].1 <= src@.len()
                    &&& src@.subrange(lines@[j].0 as int, lines@[j].1 as int) == ls[j]
                },
            forall|yy: int, x: int|
                0 <= yy < y && 0 <= x < 8 ==> #[trigger] glyph[yy][x] == glyph_cell(ls, i as int, yy, x),
            forall|yy: int, x: int| y <= yy < 16 && 0 <= x < 8 ==> #[trigger] glyph[yy][x] == '*',
        decreases 16 - y,
    {
        let (s, e) = lines[i + 1 + y];
        assert(ls[i + 1 + y] == src@.subrange(s as int, e as int));
        let mut row = glyph[y];
        let mut x: usize = 0;
        while x < GLYPH_WIDTH && x < e - s
            invariant
                x <= 8,
                x <= e - s,
                i + 1 + y < ls.len(),
                s <= e <= src@.len(),
                src@.subrange(s as int, e as int) == ls[i + 1 + y],
                forall|xx: int| 0 <= xx < x ==> #[trigger] row[xx] == src@[s + xx],
                forall|xx: int| x <= xx < 8 ==> #[trigger] row[xx] == '*',
            decreases 8 - x,
        {
            row[x] = src[s + x];
            x = x + 1;
        }
        glyph[y] = row;
        proof {
            assert forall|xx: int| 0 <= xx < 8 implies #[trigger] glyph[y as int][xx] == glyph_cell(ls, i as int, y as int, xx) by {
                if xx < x {
                    assert(src@.subrange(s as int, e as int)[xx] == src@[s + xx]);
                }
            }
        }
        y = y + 1;
    }
    glyph
}

/// A font: one glyph for each of the 256 codes.
pub struct Font {
    glyphs: Vec<Glyph>,
}

impl Font {
    #[verifier::type_invariant]
    spec fn inv(self) -> bool {
        self.glyphs@.len() == FONT_CODES
    }

    /// Cell `(y, x)` of the glyph of code `k`.
    pub closed spec fn cell(&self, k: int, y: int, x: int) -> char {
        self.glyphs@[k][y][x]
    }
}

/// Parses a font description (see the module documentation). A code
/// announced more than once keeps its last glyph; codes never announced
/// have glyphs made only of `*`.
pub fn parse_font(source: &[char]) -> (r: Font)
    ensures
        forall|k: int, y: int, x: int|
            0 <= k < 256 && 0 <= y < 16 && 0 <= x < 8 ==> #[trigger] r.cell(k, y, x) == font_cell(source@, k, y, x),
{
    let ghost ls = split_lines(source@);
    let lines = line_bounds(source);
    let blank: Glyph = [['*'; 8]; 16];
    let mut glyphs: Vec<Glyph> = Vec::new();
    let mut n: usize = 0;
    while n < FONT_CODES
        invariant
            n <= 256,
            glyphs@.len() == n,
            forall|k: int| 0 <= k < n ==> #[trigger] glyphs@[k] == blank,
            forall|y: int, x: int| 0 <= y < 16 && 0 <= x < 8 ==> #[trigger] blank[y][x] == '*',
        decreases 256 - n,
    {
        glyphs.push(blank);
        n = n + 1;
    }
    let mut i: usize = 0;
    while i < lines.len()
        invariant
            i <= lines@.len(),
            ls == split_lines(source@),
            lines@.len() == ls.len(),
            forall|j: int|
                0 <= j < lines@.len() ==> {
                    &&& (#[trigger] lines@[j]).0 <= lines@[j].1 <= source@.len()
                    &&& source@.subrange(lines@[j].0 as int, lines@[j].1 as int) == ls[j]
                },
            glyphs@.len() == 256,
            forall|k: int, y: int, x: int|
                0 <= k < 256 && 0 <= y < 16 && 0 <= x < 8 ==> #[trigger] glyphs@[k][y][x] == font_cell_after(ls, i as int, k, y, x),
        decreases lines@.len() - i,
    {
        let (s, e) = lines[i];
        let ghost line = ls[i as int];
        assert(line =~= source@.subrange(s as int, e as int));
        if e - s >= 2 && source[s] == '0' && source[s + 1] == 'x' {
            assert(line.skip(2) =~= source@.subrange(s + 2, e as int));
            match parse_hex_u8(source, s + 2, e) {
                Some(idx) => {
                    let glyph = read_glyph(source, &lines, i);
                    glyphs.set(idx as usize, glyph);
                },
                None => {},
            }
        }
        i = i + 1;
    }
    assert(i == ls.len());
    Font { glyphs }
}

/// The glyph of character `c`, or `None` when its code is not below 256.
pub fn lookup_font(font: &Font, c: char) -> (r: Option<Glyph>)
    ensures
        r is Some <==> (c as u32) < 256,
        r matches Some(g) ==> forall|y: int, x: int|
            0 <= y < 16 && 0 <= x < 8 ==> #[trigger] g[y][x] == font.cell(c as int, y, x),
{
    proof {
        use_type_invariant(font);
    }
    let code = c as u32;
    if code < 256 {
        Some(font.glyphs[code as usize])
    } else {
        None
    }
}

} // verus!
