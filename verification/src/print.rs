//! Hex dumps: the text of a byte-by-byte dump, 16 bytes per line.
use vstd::prelude::*;

verus! {

/// The lowercase hexadecimal digit of `d` (`0 <= d < 16`).
pub open spec fn hex_char(d: int) -> char {
    if d < 10 {
        (48 + d) as char
    } else {
        (87 + d) as char
    }
}

/// `v` in lowercase hexadecimal with at least `w` digits, zero-padded, as
/// `format!("{:0w$x}", v)` writes it.
pub open spec fn hex_min(v: nat, w: nat) -> Seq<char>
    decreases v + w,
{
    if v < 16 && w <= 1 {
        seq![hex_char(v as int)]
    } else {
        let rest = if w == 0 { 0 } else { (w - 1) as nat };
        hex_min(v / 16, rest).push(hex_char((v % 16) as int))
    }
}

/// The lowercase hexadecimal digit of `d`.
fn hex_digit_char(d: u8) -> (r: char)
    requires
        d < 16,
    ensures
        r == hex_char(d as int),
{
    if d < 10 {
        (48u8 + d) as char
    } else {
        (87u8 + d) as char
    }
}

/// Appends `v` in hexadecimal with at least `w` digits.
pub fn push_hex(out: &mut Vec<char>, v: u64, w: usize)
    ensures
        final(out)@ == old(out)@ + hex_min(v as nat, w as nat),
    decreases v + w,
{
    if !(v < 16 && w <= 1) {
        let rest = if w == 0 { 0 } else { w - 1 };
        push_hex(out, v / 16, rest);
    }
    out.push(hex_digit_char((v % 16) as u8));
}

/// The decimal digit of `d` (`0 <= d < 10`).
pub open spec fn dec_char(d: int) -> char {
    (48 + d) as char
}

/// `v` in decimal, as `format!("{}", v)` writes it.
pub open spec fn dec_digits(v: nat) -> Seq<char>
    decreases v,
{
    if v < 10 {
        seq![dec_char(v as int)]
    } else {
        dec_digits(v / 10).push(dec_char((v % 10) as int))
    }
}

/// `s` right-aligned in a field of `w` characters, padded with spaces.
pub open spec fn pad_left(s: Seq<char>, w: nat) -> Seq<char> {
    if s.len() >= w {
        s
    } else {
        spaces((w - s.len()) as nat) + s
    }
}

/// Appends `v` in decimal.
pub fn push_dec(out: &mut Vec<char>, v: usize)
    ensures
        final(out)@ == old(out)@ + dec_digits(v as nat),
    decreases v,
{
    if v >= 10 {
        push_dec(out, v / 10);
    }
    out.push((48u8 + (v % 10) as u8) as char);
}

/// Appends `v` in decimal, right-aligned in a field of `w` characters.
pub fn push_dec_padded(out: &mut Vec<char>, v: usize, w: usize)
    ensures
        final(out)@ == old(out)@ + pad_left(dec_digits(v as nat), w as nat),
{
    let mut digits: Vec<char> = Vec::new();
    push_dec(&mut digits, v);
    let mut n = digits.len();
    let ghost start = out@;
    while n < w
        invariant
            digits@ == dec_digits(v as nat),
            digits@.len() <= n,
            n <= w || n == digits@.len(),
            out@ == start + spaces((n - digits@.len()) as nat),
        decreases w - n,
    {
        out.push(' ');
        proof {
            assert(spaces((n + 1 - digits@.len()) as nat) =~= spaces((n - digits@.len()) as nat).push(' '));
        }
        n = n + 1;
    }
    let mut j: usize = 0;
    let ghost padded = out@;
    while j < digits.len()
        invariant
            j <= digits@.len(),
            out@ == padded + digits@.take(j as int),
        decreases digits@.len() - j,
    {
        out.push(digits[j]);
        proof {
            assert(digits@.take(j + 1) =~= digits@.take(j as int).push(digits@[j as int]));
        }
        j = j + 1;
    }
    proof {
        assert(digits@.take(j as int) =~= digits@);
        if digits@.len() >= w {
            assert(spaces(0) =~= Seq::<char>::empty());
        }
        assert(out@ =~= start + pad_left(dec_digits(v as nat), w as nat));
    }
}

/// Appends the characters of `s`.
pub fn push_str(out: &mut Vec<char>, s: &str)
    ensures
        final(out)@ == old(out)@ + s@,
{
    let n = s.unicode_len();
    let ghost start = out@;
    let mut i: usize = 0;
    while i < n
        invariant
            n == s@.len(),
            i <= n,
            out@ == start + s@.take(i as int),
        decreases n - i,
    {
        out.push(s.get_char(i));
        proof {
            assert(s@.take(i + 1) =~= s@.take(i as int).push(s@[i as int]));
        }
        i = i + 1;
    }
    proof {
        assert(s@.take(i as int) =~= s@);
    }
}

/// How byte `b` shows in the text column: as itself when it is printable
/// ASCII (a space to `~`), else as `.`.
pub open spec fn shown(b: u8) -> char {
    if 0x20 <= b <= 0x7e {
        b as char
    } else {
        '.'
    }
}

/// The bytes in two-digit hexadecimal, without separators.
pub open spec fn hex_bytes(bs: Seq<u8>) -> Seq<char>
    decreases bs.len(),
{
    if bs.len() == 0 {
        Seq::empty()
    } else {
        hex_bytes(bs.drop_last()) + hex_min(bs.last() as nat, 2)
    }
}

/// The text column of a line.
pub open spec fn text_column(bs: Seq<u8>) -> Seq<char> {
    Seq::new(bs.len(), |i: int| shown(bs[i]))
}

/// `n` spaces.
pub open spec fn spaces(n: nat) -> Seq<char> {
    Seq::new(n, |i: int| ' ')
}

/// The start of a line: its offset in hexadecimal (at least 8 digits) and
/// `": "`.
pub open spec fn line_head(offset: nat) -> Seq<char> {
    hex_min(offset, 8) + seq![':', ' ']
}

/// The `k`-th full line: 16 bytes in hexadecimal, then between bars the
/// bytes shown as text (printable up to `~`).
pub open spec fn full_line(bytes: Seq<u8>, k: int) -> Seq<char> {
    let chunk = bytes.subrange(16 * k, 16 * k + 16);
    line_head((16 * k) as nat) + hex_bytes(chunk) + seq!['|'] + text_column(chunk) + seq!['|', '\n']
}

/// The first `k` full lines.
pub open spec fn full_lines(bytes: Seq<u8>, k: int) -> Seq<char>
    decreases k,
{
    if k <= 0 {
        Seq::empty()
    } else {
        full_lines(bytes, k - 1) + full_line(bytes, k - 1)
    }
}

/// The line of the bytes after the last full line, if any: padded with two
/// spaces per missing byte, and in the text column the bytes printable up
/// to `~` shown as themselves.
pub open spec fn last_line(bytes: Seq<u8>) -> Seq<char> {
    let offset = 16 * (bytes.len() / 16);
    let rest = bytes.subrange(offset as int, bytes.len() as int);
    if rest.len() == 0 {
        Seq::empty()
    } else {
        line_head(offset as nat) + hex_bytes(rest) + spaces((2 * (16 - rest.len())) as nat) + seq!['|']
            + text_column(rest) + seq!['|', '\n']
    }
}

/// The hex dump of `bytes`.
pub open spec fn hexdump_text(bytes: Seq<u8>) -> Seq<char> {
    full_lines(bytes, (bytes.len() / 16) as int) + last_line(bytes)
}

/// How byte `b` shows in the text column.
fn shown_char(b: u8) -> (r: char)
    ensures
        r == shown(b),
{
    if 0x20 <= b && b <= 0x7e {
        b as char
    } else {
        '.'
    }
}

/// The hex dump of `bytes`: lines of 16 bytes, each line the offset of its
/// first byte in hexadecimal, the bytes in hexadecimal, and the bytes shown
/// as text between bars (see `hexdump_text`).
pub fn hexdump_bytes(bytes: &[u8]) -> (r: Vec<char>)
    ensures
        r@ == hexdump_text(bytes@),
{
    let mut out: Vec<char> = Vec::new();
    let mut i: usize = 0;
    let mut ascii: [u8; 16] = [0u8; 16];
    let mut offset: usize = 0;
    let mut k: usize = 0;
    while k < bytes.len()
        invariant
            k <= bytes@.len(),
            k == offset + i,
            i < 16,
            offset % 16 == 0,
            out@ == full_lines(bytes@, (offset / 16) as int) + (if i == 0 {
                Seq::<char>::empty()
            } else {
                line_head(offset as nat) + hex_bytes(bytes@.subrange(offset as int, k as int))
            }),
            forall|j: int| 0 <= j < i ==> #[trigger] ascii[j] == bytes@[offset + j],
        decreases bytes@.len() - k,
    {
        let v = bytes[k];
        if i == 0 {
            push_hex(&mut out, offset as u64, 8);
            out.push(':');
            out.push(' ');
            assert(bytes@.subrange(offset as int, k as int) =~= Seq::<u8>::empty());
        }
        push_hex(&mut out, v as u64, 2);
        proof {
            let sub = bytes@.subrange(offset as int, k + 1);
            assert(sub.drop_last() =~= bytes@.subrange(offset as int, k as int));
            assert(sub.last() == v);
            assert(hex_bytes(sub) == hex_bytes(bytes@.subrange(offset as int, k as int)) + hex_min(v as nat, 2));
            assert(out@ =~= full_lines(bytes@, (offset / 16) as int) + line_head(offset as nat) + hex_bytes(sub));
        }
        ascii[i] = v;
        i = i + 1;
        if i == 16 {
            let ghost chunk = bytes@.subrange(offset as int, offset + 16);
            out.push('|');
            let mut j: usize = 0;
            while j < 16
                invariant
                    j <= 16,
                    chunk.len() == 16,
                    forall|jj: int| 0 <= jj < 16 ==> #[trigger] ascii[jj] == chunk[jj],
                    out@ == full_lines(bytes@, (offset / 16) as int) + line_head(offset as nat) + hex_bytes(chunk) + seq!['|']
                        + text_column(chunk).take(j as int),
                decreases 16 - j,
            {
                out.push(shown_char(ascii[j]));
                proof {
                    assert(text_column(chunk).take(j + 1) =~= text_column(chunk).take(j as int).push(shown(ascii[j as int])));
                }
                j = j + 1;
            }
            out.push('|');
            out.push('\n');
            proof {
                assert(text_column(chunk).take(16) =~= text_column(chunk));
                assert(offset / 16 + 1 == (offset + 16) / 16);
                assert(out@ =~= full_lines(bytes@, ((offset + 16) / 16) as int));
            }
            offset = offset + 16;
            i = 0;
        }
        k = k + 1;
    }
    assert(offset / 16 == bytes@.len() / 16);
    if i != 0 {
        let old_i = i;
        let ghost rest = bytes@.subrange(offset as int, bytes@.len() as int);
        while i < 16
            invariant
                old_i <= i <= 16,
                rest.len() == old_i,
                out@ == full_lines(bytes@, (offset / 16) as int) + line_head(offset as nat) + hex_bytes(rest) + spaces((2 * (i - old_i)) as nat),
            decreases 16 - i,
        {
            out.push(' ');
            out.push(' ');
            proof {
                assert(spaces((2 * (i + 1 - old_i)) as nat) =~= spaces((2 * (i - old_i)) as nat).push(' ').push(' '));
            }
            i = i + 1;
        }
        out.push('|');
        let mut j: usize = 0;
        while j < old_i
            invariant
                j <= old_i,
                old_i < 16,
                rest.len() == old_i,
                forall|jj: int| 0 <= jj < old_i ==> #[trigger] ascii[jj] == rest[jj],
                out@ == full_lines(bytes@, (offset / 16) as int) + line_head(offset as nat) + hex_bytes(rest) + spaces(
                    (2 * (16 - old_i)) as nat,
                ) + seq!['|'] + text_column(rest).take(j as int),
            decreases old_i - j,
        {
            let c = ascii[j];
            out.push(shown_char(c));
            proof {
                assert(text_column(rest).take(j + 1) =~= text_column(rest).take(j as int).push(shown(c)));
            }
            j = j + 1;
        }
        out.push('|');
        out.push('\n');
        proof {
            assert(text_column(rest).take(old_i as int) =~= text_column(rest));
            assert(out@ =~= hexdump_text(bytes@));
        }
    } else {
        proof {
            assert(bytes@.subrange(offset as int, bytes@.len() as int) =~= Seq::<u8>::empty());
            assert(out@ =~= hexdump_text(bytes@));
        }
    }
    out
}

/// Writing a number below `16^w` with at least `w` digits takes exactly `w`
/// digits.
pub proof fn lemma_hex_min_len(v: nat, w: nat)
    requires
        1 <= w,
        v < vstd::arithmetic::power::pow(16, w),
    ensures
        hex_min(v, w).len() == w,
    decreases w,
{
    reveal_with_fuel(vstd::arithmetic::power::pow, 2);
    if !(v < 16 && w <= 1) {
        let p = vstd::arithmetic::power::pow(16, (w - 1) as nat);
        assert(w >= 2);
        assert(v / 16 < p) by (nonlinear_arith)
            requires
                v < 16 * p;
        lemma_hex_min_len(v / 16, (w - 1) as nat);
    }
}

/// Each byte is written as two hexadecimal digits, high digit first.
proof fn lemma_hex_bytes(bs: Seq<u8>, j: int)
    requires
        0 <= j < bs.len(),
    ensures
        hex_bytes(bs).len() == 2 * bs.len(),
        hex_bytes(bs)[2 * j] == hex_char((bs[j] / 16) as int),
        hex_bytes(bs)[2 * j + 1] == hex_char((bs[j] % 16) as int),
    decreases bs.len(),
{
    let v = bs.last();
    assert(hex_min((v / 16) as nat, 1) == seq![hex_char((v / 16) as int)]);
    assert(hex_min(v as nat, 2) == seq![hex_char((v / 16) as int), hex_char((v % 16) as int)]);
    assert(hex_bytes(bs) == hex_bytes(bs.drop_last()) + hex_min(v as nat, 2));
    if bs.len() == 1 {
        assert(hex_bytes(bs.drop_last()) == Seq::<char>::empty());
    }
    if j < bs.len() - 1 {
        lemma_hex_bytes(bs.drop_last(), j);
        assert(bs.drop_last()[j] == bs[j]);
    } else if bs.len() > 1 {
        lemma_hex_bytes(bs.drop_last(), 0);
    }
}

/// Digit `j` of `v` written with `w` digits is the `(w - 1 - j)`-th
/// base-16 digit of `v`.
pub proof fn lemma_hex_min_digit(v: nat, w: nat, j: int)
    requires
        1 <= w,
        v < vstd::arithmetic::power::pow(16, w),
        0 <= j < w,
    ensures
        hex_min(v, w)[j] == hex_char((v as int / vstd::arithmetic::power::pow(16, (w - 1 - j) as nat)) % 16),
    decreases w,
{
    reveal_with_fuel(vstd::arithmetic::power::pow, 2);
    if v < 16 && w <= 1 {
        assert(v / 1 == v);
    } else {
        let p = vstd::arithmetic::power::pow(16, (w - 1) as nat);
        assert(v / 16 < p) by (nonlinear_arith)
            requires
                v < 16 * p;
        lemma_hex_min_len(v / 16, (w - 1) as nat);
        if j == w - 1 {
            assert(v / 1 == v);
        } else {
            lemma_hex_min_digit(v / 16, (w - 1) as nat, j);
            let k = (w - 2 - j) as nat;
            vstd::arithmetic::power::lemma_pow_positive(16, k);
            vstd::arithmetic::div_mod::lemma_div_denominator(v as int, 16, vstd::arithmetic::power::pow(16, k));
            assert(vstd::arithmetic::power::pow(16, (k + 1) as nat) == 16 * vstd::arithmetic::power::pow(16, k));
            assert((w - 1 - j) as nat == (k + 1) as nat);
        }
    }
}

/// The start of a line whose offset is below 2^32 takes 10 characters.
proof fn lemma_line_head_len(offset: nat)
    requires
        offset < 0x1_0000_0000,
    ensures
        line_head(offset).len() == 10,
{
    reveal_with_fuel(vstd::arithmetic::power::pow, 9);
    assert(vstd::arithmetic::power::pow(16, 8) == 0x1_0000_0000);
    lemma_hex_min_len(offset, 8);
}

/// The start of a line: the offset in 8 hexadecimal digits, then `": "`.
proof fn lemma_line_head_chars(offset: nat, j: int)
    requires
        offset < 0x1_0000_0000,
    ensures
        line_head(offset).len() == 10,
        0 <= j < 8 ==> line_head(offset)[j] == hex_char(
            (offset as int / vstd::arithmetic::power::pow(16, (7 - j) as nat)) % 16,
        ),
        line_head(offset)[8] == ':',
        line_head(offset)[9] == ' ',
{
    lemma_line_head_len(offset);
    if 0 <= j < 8 {
        reveal_with_fuel(vstd::arithmetic::power::pow, 9);
        assert(vstd::arithmetic::power::pow(16, 8) == 0x1_0000_0000);
        lemma_hex_min_digit(offset, 8, j);
    }
}

/// The `l`-th full line takes 61 characters: its byte `c` in hexadecimal
/// at 10 + 2c and 11 + 2c, and shown as text at 43 + c, between bars at 42
/// and 59, with the line end at 60.
proof fn lemma_full_line(bytes: Seq<u8>, l: int, c: int)
    requires
        0 <= l,
        16 * l + 16 <= bytes.len() <= 0x1_0000_0000,
        0 <= c < 16,
    ensures
        full_line(bytes, l).len() == 61,
        full_line(bytes, l)[10 + 2 * c] == hex_char((bytes[16 * l + c] / 16) as int),
        full_line(bytes, l)[11 + 2 * c] == hex_char((bytes[16 * l + c] % 16) as int),
        full_line(bytes, l)[43 + c] == shown(bytes[16 * l + c]),
        full_line(bytes, l)[42] == '|',
        full_line(bytes, l)[59] == '|',
        full_line(bytes, l)[60] == '\n',
{
    let chunk = bytes.subrange(16 * l, 16 * l + 16);
    lemma_line_head_len((16 * l) as nat);
    lemma_hex_bytes(chunk, c);
    assert(chunk[c] == bytes[16 * l + c]);
}

/// The first `k` full lines take 61 characters each, in order.
proof fn lemma_full_lines(bytes: Seq<u8>, k: int, l: int, j: int)
    requires
        0 <= k,
        16 * k <= bytes.len() <= 0x1_0000_0000,
        0 <= l < k,
        0 <= j < 61,
    ensures
        full_lines(bytes, k).len() == 61 * k,
        full_lines(bytes, k)[61 * l + j] == full_line(bytes, l)[j],
    decreases k,
{
    lemma_full_line(bytes, k - 1, 0);
    assert(full_lines(bytes, k) == full_lines(bytes, k - 1) + full_line(bytes, k - 1));
    if k == 1 {
        assert(full_lines(bytes, 0) == Seq::<char>::empty());
    }
    if k > 1 {
        if l < k - 1 {
            lemma_full_lines(bytes, k - 1, l, j);
        } else {
            lemma_full_lines(bytes, k - 1, 0, 0);
        }
    }
}

/// The first `k` full lines take 61 characters each.
proof fn lemma_full_lines_len(bytes: Seq<u8>, k: int)
    requires
        0 <= k,
        16 * k <= bytes.len() <= 0x1_0000_0000,
    ensures
        full_lines(bytes, k).len() == 61 * k,
{
    if k > 0 {
        lemma_full_lines(bytes, k, 0, 0);
    }
}

/// Where byte `i` appears in the hex dump: line `i / 16`, each full line
/// taking 61 characters and a last line of `r` bytes `45 + r` (for dumps of
/// at most 2^32 bytes); within its line the two
/// hexadecimal digits of the byte at 10 + 2c and 11 + 2c, and in the text
/// column at 43 + c, where c = i % 16 is its place in the line; the line
/// starts with the offset of its first byte in 8 hexadecimal digits
/// (digit `j` at `j`) and `": "`. In the
/// text column a byte from 0x20 to 0x7e shows as itself and any other byte
/// as `.`.
pub proof fn lemma_hexdump_layout(bytes: Seq<u8>, i: int, j: int)
    requires
        0 <= i < bytes.len() <= 0x1_0000_0000,
    ensures
        ({
            let t = hexdump_text(bytes);
            let base = 61 * (i / 16);
            let c = i % 16;
            &&& t.len() == 61 * (bytes.len() / 16) + (if bytes.len() % 16 == 0 {
                0
            } else {
                45 + bytes.len() % 16
            })
            &&& t[base + 10 + 2 * c] == hex_char((bytes[i] / 16) as int)
            &&& t[base + 11 + 2 * c] == hex_char((bytes[i] % 16) as int)
            &&& (0x20 <= bytes[i] <= 0x7e ==> t[base + 43 + c] == bytes[i] as char)
            &&& (!(0x20 <= bytes[i] <= 0x7e) ==> t[base + 43 + c] == '.')
            &&& (0 <= j < 8 ==> t[base + j] == hex_char(
                ((16 * (i / 16)) / vstd::arithmetic::power::pow(16, (7 - j) as nat)) % 16,
            ))
            &&& t[base + 8] == ':'
            &&& t[base + 9] == ' '
            &&& t[base + 42] == '|'
            &&& (i / 16 < bytes.len() / 16 ==> t[base + 59] == '|' && t[base + 60] == '\n')
        }),
{
    let n = (bytes.len() / 16) as int;
    let l = i / 16;
    let c = i % 16;
    lemma_full_lines_len(bytes, n);
    let offset = 16 * n;
    let rest = bytes.subrange(offset, bytes.len() as int);
    let t = hexdump_text(bytes);
    if rest.len() > 0 {
        lemma_line_head_len(offset as nat);
        lemma_hex_bytes(rest, 0);
        let ll = last_line(bytes);
        assert(ll.len() == 45 + rest.len());
        assert(rest.len() == bytes.len() % 16);
    } else {
        assert(t.len() == 61 * n);
    }
    lemma_line_head_chars((16 * l) as nat, j);
    if l < n {
        if 0 <= j < 8 {
            lemma_full_lines(bytes, n, l, j);
        }
        lemma_full_lines(bytes, n, l, 8);
        lemma_full_lines(bytes, n, l, 9);
        lemma_full_line(bytes, l, c);
        lemma_full_lines(bytes, n, l, 10 + 2 * c);
        lemma_full_lines(bytes, n, l, 11 + 2 * c);
        lemma_full_lines(bytes, n, l, 43 + c);
        lemma_full_lines(bytes, n, l, 42);
        lemma_full_lines(bytes, n, l, 59);
        lemma_full_lines(bytes, n, l, 60);
        assert(16 * l + c == i);
    } else {
        assert(l == n);
        assert(rest[c] == bytes[i]);
        lemma_hex_bytes(rest, c);
        let ll = last_line(bytes);
        assert(ll[10 + 2 * c] == hex_bytes(rest)[2 * c]);
        assert(ll[11 + 2 * c] == hex_bytes(rest)[2 * c + 1]);
        assert(ll[43 + c] == text_column(rest)[c]);
    }
}

} // verus!
