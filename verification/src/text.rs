//! Text as sequences of characters: comparing, cutting and writing it.

use vstd::prelude::*;
use vstd::string::StringSliceAdditionalSpecFns;
use vstd::utf8::{
    decode_utf8, decode_utf8_encode_utf8, encode_utf8, encode_utf8_decode_utf8,
    encode_utf8_valid_utf8, is_ascii_chars, is_char_boundary, valid_utf8, valid_utf8_split,
};

verus! {

/// `String::push`: appends the character to the end of the string.
pub assume_specification[ String::push ](s: &mut String, c: char)
    ensures
        final(s)@ == old(s)@.push(c),
;

/// Text is what its bytes are: no two texts have the same bytes.
pub proof fn lemma_bytes_are_text(a: Seq<char>, b: Seq<char>)
    requires
        encode_utf8(a) == encode_utf8(b),
    ensures
        a == b,
{
    encode_utf8_decode_utf8(a);
    encode_utf8_decode_utf8(b);
}

/// Whether two texts are the same.
pub fn same(a: &str, b: &str) -> (equal: bool)
    ensures
        equal == (a@ == b@),
{
    let x = a.as_bytes();
    let y = b.as_bytes();
    if x.len() != y.len() {
        return false;
    }
    let mut i: usize = 0;
    while i < x.len()
        invariant
            i <= x@.len(),
            x@.len() == y@.len(),
            x@ == encode_utf8(a@),
            y@ == encode_utf8(b@),
            forall|k: int| 0 <= k < i ==> x@[k] == y@[k],
        decreases x@.len() - i,
    {
        if x[i] != y[i] {
            return false;
        }
        i += 1;
    }
    proof {
        assert(x@ =~= y@);
        lemma_bytes_are_text(a@, b@);
    }
    true
}

/// The characters of a text.
pub fn chars_of(s: &str) -> (chars: Vec<char>)
    ensures
        chars@ == s@,
{
    let mut chars: Vec<char> = Vec::new();
    for c in it: s.chars()
        invariant
            it.seq() == s@,
            chars@ == s@.take(it.index() as int),
    {
        chars.push(c);
        assert(chars@ =~= s@.take(it.index() + 1));
    }
    assert(s@.take(s@.len() as int) =~= s@);
    chars
}

/// The text of the characters from `from` on, up to `to`.
pub fn from_chars(chars: &Vec<char>, from: usize, to: usize) -> (s: String)
    requires
        from <= to <= chars@.len(),
    ensures
        s@ == chars@.subrange(from as int, to as int),
{
    let mut s = String::new();
    let mut i: usize = from;
    while i < to
        invariant
            from <= i <= to <= chars@.len(),
            s@ == chars@.subrange(from as int, i as int),
        decreases to - i,
    {
        s.push(chars[i]);
        i += 1;
        assert(s@ =~= chars@.subrange(from as int, i as int));
    }
    s
}

/// Whether `start` and `end` cut whole characters out of a text of these bytes.
pub open spec fn cuts(code: Seq<char>, start: int, end: int) -> bool {
    &&& 0 <= start <= end <= encode_utf8(code).len()
    &&& is_char_boundary(encode_utf8(code), start)
    &&& is_char_boundary(encode_utf8(code), end)
}

/// The text between two byte offsets.
pub open spec fn text_at(code: Seq<char>, start: int, end: int) -> Seq<char> {
    decode_utf8(encode_utf8(code).subrange(start, end))
}

/// The text between two byte offsets.
pub fn slice<'a>(code: &'a str, start: usize, end: usize) -> (s: &'a str)
    requires
        cuts(code@, start as int, end as int),
    ensures
        s@ == text_at(code@, start as int, end as int),
{
    proof {
        encode_utf8_valid_utf8(code@);
        lemma_boundary_of_prefix(encode_utf8(code@), start as int, end as int);
    }
    let (head, _) = code.split_at(end);
    let (_, s) = head.split_at(start);
    proof {
        let bytes = encode_utf8(code@);
        assert(s.spec_bytes() =~= bytes.subrange(start as int, end as int));
        encode_utf8_decode_utf8(s@);
    }
    s
}

/// A boundary of a text is one of each longer prefix that ends on a boundary.
proof fn lemma_boundary_of_prefix(bytes: Seq<u8>, start: int, end: int)
    requires
        valid_utf8(bytes),
        0 <= start <= end <= bytes.len(),
        is_char_boundary(bytes, start),
        is_char_boundary(bytes, end),
    ensures
        is_char_boundary(bytes.subrange(0, end), start),
{
    broadcast use vstd::utf8::is_char_boundary_iff_not_is_continuation_byte;

    let head = bytes.subrange(0, end);
    valid_utf8_split(bytes, end);
    if start < end {
        assert(head[start] == bytes[start]);
        assert(is_char_boundary(bytes, start) <==> !vstd::utf8::is_continuation_byte(
            bytes[start],
        ));
        assert(is_char_boundary(head, start) <==> !vstd::utf8::is_continuation_byte(head[start]));
    } else {
        vstd::utf8::is_char_boundary_start_end_of_seq(head);
    }
}

/// Whether a character is white space, as Unicode has it.
pub open spec fn white_space(c: char) -> bool {
    ||| '\u{9}' <= c <= '\u{d}'
    ||| c == ' '
    ||| c == '\u{85}'
    ||| c == '\u{a0}'
    ||| c == '\u{1680}'
    ||| '\u{2000}' <= c <= '\u{200a}'
    ||| c == '\u{2028}'
    ||| c == '\u{2029}'
    ||| c == '\u{202f}'
    ||| c == '\u{205f}'
    ||| c == '\u{3000}'
}

/// Whether a character is white space, as Unicode has it.
pub fn is_white_space(c: char) -> (white: bool)
    ensures
        white == white_space(c),
        white <==> 9 <= c as u32 <= 13 || c as u32 == 32 || c as u32 == 133 || c as u32 == 160
            || c as u32 == 5760 || 8192 <= c as u32 <= 8202 || c as u32 == 8232 || c as u32 == 8233
            || c as u32 == 8239 || c as u32 == 8287 || c as u32 == 12288,
{
    ('\u{9}' <= c && c <= '\u{d}') || c == ' ' || c == '\u{85}' || c == '\u{a0}' || c == '\u{1680}'
        || ('\u{2000}' <= c && c <= '\u{200a}') || c == '\u{2028}' || c == '\u{2029}' || c
        == '\u{202f}' || c == '\u{205f}' || c == '\u{3000}'
}

/// A text without the white space in front.
pub open spec fn trimmed_start(s: Seq<char>) -> Seq<char>
    decreases s.len(),
{
    if s.len() > 0 && white_space(s[0]) {
        trimmed_start(s.drop_first())
    } else {
        s
    }
}

/// A text without the white space behind.
pub open spec fn trimmed_end(s: Seq<char>) -> Seq<char>
    decreases s.len(),
{
    if s.len() > 0 && white_space(s.last()) {
        trimmed_end(s.drop_last())
    } else {
        s
    }
}

/// A text without the white space around it.
pub open spec fn trimmed(s: Seq<char>) -> Seq<char> {
    trimmed_end(trimmed_start(s))
}

/// A text without the white space around it.
pub fn trim<'a>(s: &'a str) -> (inner: &'a str)
    ensures
        inner@ == trimmed(s@),
{
    let n: usize = s.unicode_len();
    let mut from: usize = 0;
    assert(s@.subrange(0, n as int) =~= s@);
    while from < n && is_white_space(s.get_char(from))
        invariant
            from <= n,
            n == s@.len(),
            trimmed_start(s@.subrange(from as int, n as int)) == trimmed_start(s@),
        decreases n - from,
    {
        let ghost rest = s@.subrange(from as int, n as int);
        assert(rest[0] == s@[from as int]);
        assert(rest.drop_first() =~= s@.subrange(from + 1, n as int));
        from += 1;
    }
    let ghost body = s@.subrange(from as int, n as int);
    assert(body.len() > 0 ==> body[0] == s@[from as int]);
    assert(trimmed_start(s@) == body);
    let mut to: usize = n;
    while from < to && is_white_space(s.get_char(to - 1))
        invariant
            from <= to <= n,
            n == s@.len(),
            trimmed_end(s@.subrange(from as int, to as int)) == trimmed_end(body),
        decreases to,
    {
        let ghost rest = s@.subrange(from as int, to as int);
        assert(rest.last() == s@[to - 1]);
        assert(rest.drop_last() =~= s@.subrange(from as int, to - 1));
        to -= 1;
    }
    let ghost kept = s@.subrange(from as int, to as int);
    assert(kept.len() > 0 ==> kept.last() == s@[to - 1]);
    s.substring_char(from, to)
}

/// A text on one line: every run of white space between two parts is one
/// space, and there is none around them.
pub open spec fn collapsed(s: Seq<char>) -> Seq<char>
    decreases s.len(),
{
    if s.len() == 0 {
        Seq::empty()
    } else {
        let before = collapsed(s.drop_last());
        if white_space(s.last()) {
            before
        } else if s.len() > 1 && white_space(s[s.len() - 2]) && before.len() > 0 {
            before.push(' ').push(s.last())
        } else {
            before.push(s.last())
        }
    }
}

/// A text on one line.
pub fn collapse(expr: &str) -> (out: String)
    ensures
        out@ == collapsed(expr@),
{
    let mut out = String::new();
    let mut kept = false;
    let mut space = false;
    assert(expr@.take(0) =~= Seq::empty());
    for c in it: expr.chars()
        invariant
            it.seq() == expr@,
            out@ == collapsed(expr@.take(it.index() as int)),
            kept == (out@.len() > 0),
            space == (it.index() > 0 && white_space(expr@[it.index() - 1]) && kept),
    {
        let ghost before = expr@.take(it.index() as int);
        let ghost next = expr@.take(it.index() + 1);
        assert(next.drop_last() =~= before);
        assert(next.last() == c);
        if is_white_space(c) {
            space = kept;
        } else {
            if space {
                out.push(' ');
            }
            space = false;
            out.push(c);
            kept = true;
        }
    }
    assert(expr@.take(expr@.len() as int) =~= expr@);
    out
}

/// Whether a text is white space alone, and some.
pub open spec fn all_white(s: Seq<char>) -> bool {
    s.len() > 0 && forall|i: int| 0 <= i < s.len() ==> white_space(#[trigger] s[i])
}

/// A text is no longer on one line, and ASCII stays ASCII.
pub proof fn lemma_collapsed_is_no_longer(s: Seq<char>)
    ensures
        collapsed(s).len() <= s.len(),
        s.len() > 0 && white_space(s.last()) ==> collapsed(s).len() < s.len(),
        is_ascii_chars(s) ==> is_ascii_chars(collapsed(s)),
    decreases s.len(),
{
    if s.len() > 0 {
        let fewer = s.drop_last();
        lemma_collapsed_is_no_longer(fewer);
        assert(s.len() > 1 ==> fewer.last() == s[s.len() - 2]);
        assert(forall|i: int| 0 <= i < fewer.len() ==> #[trigger] fewer[i] == s[i]);
    }
}

/// White space is collapsed whatever it is: a text is the same on one line with
/// any other white space in the place of some of it.
pub proof fn lemma_white_space_is_all_alike(
    head: Seq<char>,
    gap: Seq<char>,
    other: Seq<char>,
    rest: Seq<char>,
)
    requires
        all_white(gap),
        all_white(other),
    ensures
        collapsed(head + gap + rest) == collapsed(head + other + rest),
    decreases rest.len(),
{
    let a = head + gap + rest;
    let b = head + other + rest;
    if rest.len() == 0 {
        assert(a =~= head + gap && b =~= head + other);
        lemma_white_adds_nothing(head, gap);
        lemma_white_adds_nothing(head, other);
    } else {
        let fewer = rest.drop_last();
        lemma_white_space_is_all_alike(head, gap, other, fewer);
        assert(a.drop_last() =~= head + gap + fewer);
        assert(b.drop_last() =~= head + other + fewer);
        assert(a.last() == rest.last() && b.last() == rest.last());
        if fewer.len() == 0 {
            assert(a[a.len() - 2] == gap[gap.len() - 1]);
            assert(b[b.len() - 2] == other[other.len() - 1]);
        } else {
            assert(a[a.len() - 2] == rest[rest.len() - 2]);
            assert(b[b.len() - 2] == rest[rest.len() - 2]);
        }
    }
}

proof fn lemma_white_adds_nothing(head: Seq<char>, gap: Seq<char>)
    requires
        forall|i: int| 0 <= i < gap.len() ==> white_space(#[trigger] gap[i]),
    ensures
        collapsed(head + gap) == collapsed(head),
    decreases gap.len(),
{
    if gap.len() == 0 {
        assert(head + gap =~= head);
    } else {
        assert((head + gap).drop_last() =~= head + gap.drop_last());
        assert((head + gap).last() == gap[gap.len() - 1]);
        lemma_white_adds_nothing(head, gap.drop_last());
    }
}

/// The only white space on one line is the plain space.
pub proof fn lemma_plain_spaces(s: Seq<char>)
    ensures
        forall|i: int|
            0 <= i < collapsed(s).len() ==> !white_space(#[trigger] collapsed(s)[i]) || collapsed(
                s,
            )[i] == ' ',
    decreases s.len(),
{
    if s.len() > 0 {
        let before = collapsed(s.drop_last());
        let line = collapsed(s);
        lemma_plain_spaces(s.drop_last());
        assert forall|i: int| 0 <= i < line.len() implies !white_space(#[trigger] line[i])
            || line[i] == ' ' by {
            if i < before.len() {
                assert(line[i] == before[i]);
            }
        }
    }
}

/// The lower-case hex digit of a number below sixteen.
pub open spec fn hex_digit(n: u64) -> char {
    if n < 10 {
        (48 + n) as char
    } else {
        (87 + n) as char
    }
}

/// The four bits of `x` that digit `i` of sixteen shows, the highest first.
pub open spec fn nibble(x: u64, i: int) -> u64 {
    (x >> ((60 - 4 * i) as u64)) & 15
}

/// A number as sixteen lower-case hex digits.
pub open spec fn hex_text(x: u64) -> Seq<char> {
    Seq::new(16, |i: int| hex_digit(nibble(x, i)))
}

/// The lower-case hex digit of a number below sixteen.
fn hex_char(n: u64) -> (digit: char)
    requires
        n < 16,
    ensures
        digit == hex_digit(n),
{
    let byte: u8 = if n < 10 {
        48 + n as u8
    } else {
        87 + n as u8
    };
    byte as char
}

/// A number as sixteen lower-case hex digits.
pub fn hex16(x: u64) -> (hex: String)
    ensures
        hex@ == hex_text(x),
{
    let mut hex = String::new();
    let mut i: usize = 0;
    while i < 16
        invariant
            i <= 16,
            hex@ == hex_text(x).take(i as int),
        decreases 16 - i,
    {
        let shift: u64 = 60 - 4 * (i as u64);
        let digit: u64 = (x >> shift) & 15;
        assert((x >> shift) & 15 < 16) by (bit_vector);
        hex.push(hex_char(digit));
        i += 1;
        assert(hex@ =~= hex_text(x).take(i as int));
    }
    assert(hex_text(x).take(16) =~= hex_text(x));
    hex
}

/// Different numbers are written differently.
pub proof fn lemma_hex_text_is_injective(a: u64, b: u64)
    requires
        hex_text(a) == hex_text(b),
    ensures
        a == b,
{
    assert forall|i: int| 0 <= i < 16 implies #[trigger] nibble(a, i) == nibble(b, i) by {
        assert(hex_text(a)[i] == hex_digit(nibble(a, i)));
        assert(hex_text(b)[i] == hex_digit(nibble(b, i)));
        let shift = (60 - 4 * i) as u64;
        assert((a >> shift) & 15 < 16 && (b >> shift) & 15 < 16) by (bit_vector);
        lemma_hex_digits_differ(nibble(a, i), nibble(b, i));
    }
    assert(nibble(a, 0) == nibble(b, 0) && nibble(a, 1) == nibble(b, 1));
    assert(nibble(a, 2) == nibble(b, 2) && nibble(a, 3) == nibble(b, 3));
    assert(nibble(a, 4) == nibble(b, 4) && nibble(a, 5) == nibble(b, 5));
    assert(nibble(a, 6) == nibble(b, 6) && nibble(a, 7) == nibble(b, 7));
    assert(nibble(a, 8) == nibble(b, 8) && nibble(a, 9) == nibble(b, 9));
    assert(nibble(a, 10) == nibble(b, 10) && nibble(a, 11) == nibble(b, 11));
    assert(nibble(a, 12) == nibble(b, 12) && nibble(a, 13) == nibble(b, 13));
    assert(nibble(a, 14) == nibble(b, 14) && nibble(a, 15) == nibble(b, 15));
    assert(a == b) by (bit_vector)
        requires
            (a >> 60) & 15 == (b >> 60) & 15,
            (a >> 56) & 15 == (b >> 56) & 15,
            (a >> 52) & 15 == (b >> 52) & 15,
            (a >> 48) & 15 == (b >> 48) & 15,
            (a >> 44) & 15 == (b >> 44) & 15,
            (a >> 40) & 15 == (b >> 40) & 15,
            (a >> 36) & 15 == (b >> 36) & 15,
            (a >> 32) & 15 == (b >> 32) & 15,
            (a >> 28) & 15 == (b >> 28) & 15,
            (a >> 24) & 15 == (b >> 24) & 15,
            (a >> 20) & 15 == (b >> 20) & 15,
            (a >> 16) & 15 == (b >> 16) & 15,
            (a >> 12) & 15 == (b >> 12) & 15,
            (a >> 8) & 15 == (b >> 8) & 15,
            (a >> 4) & 15 == (b >> 4) & 15,
            (a >> 0) & 15 == (b >> 0) & 15,
    ;
}

proof fn lemma_hex_digits_differ(a: u64, b: u64)
    requires
        a < 16,
        b < 16,
        hex_digit(a) == hex_digit(b),
    ensures
        a == b,
{
}

/// A number in decimal digits, without a leading zero.
pub open spec fn decimal(n: nat) -> Seq<char>
    decreases n,
{
    if n < 10 {
        seq![(48 + n) as char]
    } else {
        decimal(n / 10).push((48 + n % 10) as char)
    }
}

/// A number in decimal digits.
pub fn decimal_text(n: usize) -> (digits: String)
    ensures
        digits@ == decimal(n as nat),
    decreases n,
{
    let byte: u8 = 48 + (n % 10) as u8;
    if n < 10 {
        let mut digits = String::new();
        digits.push(byte as char);
        assert(digits@ =~= decimal(n as nat));
        return digits;
    }
    let mut digits = decimal_text(n / 10);
    digits.push(byte as char);
    digits
}

/// A path below another: the two joined by one slash. Below an empty path
/// stands the path itself, and an absolute path stands for itself anywhere.
pub open spec fn joined_path(base: Seq<char>, below: Seq<char>) -> Seq<char> {
    if below.len() > 0 && below[0] == '/' {
        below
    } else if base.len() == 0 || base.last() == '/' {
        base + below
    } else {
        base.push('/') + below
    }
}

/// A path below another.
pub fn join_path(base: &str, below: &str) -> (path: String)
    ensures
        path@ == joined_path(base@, below@),
{
    if below.unicode_len() > 0 && below.get_char(0) == '/' {
        return below.to_owned();
    }
    let mut path = base.to_owned();
    let n: usize = base.unicode_len();
    if n > 0 && base.get_char(n - 1) != '/' {
        path.push('/');
    }
    path.append(below);
    path
}

/// Bytes as lower-case hex digits, two to a byte.
pub open spec fn hex_bytes(bytes: Seq<u8>) -> Seq<char>
    decreases bytes.len(),
{
    if bytes.len() == 0 {
        Seq::empty()
    } else {
        hex_bytes(bytes.drop_last()).push(hex_digit((bytes.last() / 16) as u64)).push(
            hex_digit((bytes.last() % 16) as u64),
        )
    }
}

/// Bytes as lower-case hex digits, two to a byte.
pub fn hex_of(bytes: &[u8]) -> (hex: String)
    ensures
        hex@ == hex_bytes(bytes@),
{
    let mut hex = String::new();
    let mut i: usize = 0;
    assert(bytes@.take(0) =~= Seq::empty());
    while i < bytes.len()
        invariant
            i <= bytes@.len(),
            hex@ == hex_bytes(bytes@.take(i as int)),
        decreases bytes@.len() - i,
    {
        let ghost next = bytes@.take(i + 1);
        assert(next.drop_last() =~= bytes@.take(i as int));
        assert(next.last() == bytes@[i as int]);
        let byte = bytes[i];
        hex.push(hex_char((byte / 16) as u64));
        hex.push(hex_char((byte % 16) as u64));
        i += 1;
    }
    assert(bytes@.take(i as int) =~= bytes@);
    hex
}

/// Two hex digits are written for each byte.
pub proof fn lemma_hex_bytes_len(bytes: Seq<u8>)
    ensures
        hex_bytes(bytes).len() == 2 * bytes.len(),
    decreases bytes.len(),
{
    if bytes.len() > 0 {
        lemma_hex_bytes_len(bytes.drop_last());
    }
}

/// White space is what Unicode counts as such: the controls from tab to carriage
/// return, the next line, and every space and separator of a line or a
/// paragraph.
pub proof fn these_are_white_space(c: char)
    ensures
        white_space(c) <==> 9 <= c as u32 <= 13 || c as u32 == 32 || c as u32 == 133 || c as u32
            == 160 || c as u32 == 5760 || 8192 <= c as u32 <= 8202 || c as u32 == 8232 || c as u32
            == 8233 || c as u32 == 8239 || c as u32 == 8287 || c as u32 == 12288,
{
}

/// What is left without the white space around it is cut out of the text:
/// everything before it and behind it is white space, and it starts and ends
/// with something else, if there is anything left.
pub proof fn trimming_cuts_white_space_off_both_ends(s: Seq<char>) -> (ends: (int, int))
    ensures
        0 <= ends.0 <= ends.1 <= s.len(),
        trimmed(s) == s.subrange(ends.0, ends.1),
        forall|i: int| 0 <= i < ends.0 || ends.1 <= i < s.len() ==> white_space(#[trigger] s[i]),
        ends.0 < ends.1 ==> !white_space(s[ends.0]) && !white_space(s[ends.1 - 1]),
{
    let from = lemma_trimmed_start(s);
    let rest = trimmed_start(s);
    let kept = lemma_trimmed_end(rest);
    let to = from + kept;
    assert(rest.take(kept) =~= s.subrange(from, to));
    assert forall|i: int| 0 <= i < from || to <= i < s.len() implies white_space(
        #[trigger] s[i],
    ) by {
        if i >= from {
            assert(rest[i - from] == s[i]);
        }
    }
    if from < to {
        assert(rest[0] == s[from]);
        assert(rest[kept - 1] == s[to - 1]);
    }
    (from, to)
}

proof fn lemma_trimmed_start(s: Seq<char>) -> (from: int)
    ensures
        0 <= from <= s.len(),
        trimmed_start(s) == s.skip(from),
        forall|i: int| 0 <= i < from ==> white_space(#[trigger] s[i]),
        from < s.len() ==> !white_space(s[from]),
    decreases s.len(),
{
    if s.len() > 0 && white_space(s[0]) {
        let rest = s.drop_first();
        let from = lemma_trimmed_start(rest);
        assert(rest.skip(from) =~= s.skip(from + 1));
        assert forall|i: int| 0 <= i < from + 1 implies white_space(#[trigger] s[i]) by {
            if i > 0 {
                assert(rest[i - 1] == s[i]);
            }
        }
        from + 1
    } else {
        assert(s.skip(0) =~= s);
        0
    }
}

proof fn lemma_trimmed_end(s: Seq<char>) -> (to: int)
    ensures
        0 <= to <= s.len(),
        trimmed_end(s) == s.take(to),
        forall|i: int| to <= i < s.len() ==> white_space(#[trigger] s[i]),
        to > 0 ==> !white_space(s[to - 1]),
    decreases s.len(),
{
    if s.len() > 0 && white_space(s.last()) {
        let fewer = s.drop_last();
        let to = lemma_trimmed_end(fewer);
        assert(fewer.take(to) =~= s.take(to));
        assert forall|i: int| to <= i < s.len() implies white_space(#[trigger] s[i]) by {
            if i < fewer.len() {
                assert(fewer[i] == s[i]);
            }
        }
        to
    } else {
        assert(s.take(s.len() as int) =~= s);
        s.len() as int
    }
}

/// A text without white space is on one line as it is.
pub proof fn a_word_stays_as_it_is(s: Seq<char>)
    requires
        forall|i: int| 0 <= i < s.len() ==> !white_space(#[trigger] s[i]),
    ensures
        collapsed(s) == s,
    decreases s.len(),
{
    if s.len() > 0 {
        a_word_stays_as_it_is(s.drop_last());
        assert(s.drop_last().push(s.last()) =~= s);
    }
}

/// White space between two parts becomes one space, and around them none: a text
/// on one line is each part on one line, with a single space between.
pub proof fn a_gap_becomes_one_space(head: Seq<char>, gap: Seq<char>, rest: Seq<char>)
    requires
        all_white(gap),
    ensures
        collapsed(gap + rest) == collapsed(rest),
        collapsed(head + gap) == collapsed(head),
        collapsed(head).len() > 0 && collapsed(rest).len() > 0 ==> collapsed(head + gap + rest)
            == collapsed(head) + seq![' '] + collapsed(rest),
        collapsed(head).len() == 0 ==> collapsed(head + gap + rest) == collapsed(rest),
        collapsed(rest).len() == 0 ==> collapsed(head + gap + rest) == collapsed(head),
{
    lemma_white_adds_nothing(head, gap);
    lemma_gap(head, gap, rest);
    lemma_gap(Seq::empty(), gap, rest);
    assert(Seq::empty() + gap + rest =~= gap + rest);
    assert(collapsed(Seq::<char>::empty()).len() == 0);
}

proof fn lemma_gap(head: Seq<char>, gap: Seq<char>, rest: Seq<char>)
    requires
        all_white(gap),
    ensures
        collapsed(head).len() > 0 && collapsed(rest).len() > 0 ==> collapsed(head + gap + rest)
            == collapsed(head) + seq![' '] + collapsed(rest),
        collapsed(head).len() == 0 ==> collapsed(head + gap + rest) == collapsed(rest),
        collapsed(rest).len() == 0 ==> collapsed(head + gap + rest) == collapsed(head),
    decreases rest.len(),
{
    let all = head + gap + rest;
    if rest.len() == 0 {
        assert(all =~= head + gap);
        lemma_white_adds_nothing(head, gap);
        if collapsed(head).len() == 0 {
            assert(collapsed(head) =~= collapsed(rest));
        }
    } else {
        let fewer = rest.drop_last();
        lemma_gap(head, gap, fewer);
        assert(all.drop_last() =~= head + gap + fewer);
        assert(all.last() == rest.last());
        if fewer.len() == 0 {
            assert(all[all.len() - 2] == gap[gap.len() - 1]);
        } else {
            assert(all[all.len() - 2] == rest[rest.len() - 2]);
        }
        if white_space(rest.last()) {
        } else {
            lemma_something_stays(fewer);
            if collapsed(head).len() > 0 {
                assert(collapsed(all) =~= collapsed(head) + seq![' '] + collapsed(rest));
            } else {
                assert(collapsed(all) =~= collapsed(rest));
            }
        }
    }
}

/// Nothing is left on one line exactly of a text that is white space.
pub proof fn only_white_space_leaves_nothing(s: Seq<char>)
    ensures
        collapsed(s).len() == 0 <==> (forall|i: int|
            0 <= i < s.len() ==> white_space(#[trigger] s[i])),
{
    lemma_something_stays(s);
}

proof fn lemma_something_stays(s: Seq<char>)
    ensures
        collapsed(s).len() == 0 ==> (forall|i: int|
            0 <= i < s.len() ==> white_space(#[trigger] s[i])),
        (forall|i: int| 0 <= i < s.len() ==> white_space(#[trigger] s[i])) ==> collapsed(s).len()
            == 0,
    decreases s.len(),
{
    if s.len() > 0 {
        let fewer = s.drop_last();
        lemma_something_stays(fewer);
        if collapsed(s).len() == 0 {
            assert forall|i: int| 0 <= i < s.len() implies white_space(#[trigger] s[i]) by {
                if i < fewer.len() {
                    assert(fewer[i] == s[i]);
                }
            }
        }
        if forall|i: int| 0 <= i < s.len() ==> white_space(#[trigger] s[i]) {
            assert forall|i: int| 0 <= i < fewer.len() implies white_space(#[trigger] fewer[i]) by {
                assert(fewer[i] == s[i]);
            }
            assert(white_space(s[s.len() - 1]));
        }
    }
}

/// A number is written in hex, four bits to a digit, the highest first.
pub proof fn hex_shows_four_bits_to_a_digit(x: u64, i: int)
    requires
        0 <= i < 16,
    ensures
        hex_text(x).len() == 16,
        (x >> ((60 - 4 * i) as u64)) & 15 < 16,
        hex_text(x)[i] == "0123456789abcdef"@[((x >> ((60 - 4 * i) as u64)) & 15) as int],
{
    reveal_strlit("0123456789abcdef");
    let shift = (60 - 4 * i) as u64;
    assert((x >> shift) & 15 < 16) by (bit_vector);
}

/// Bytes are written in hex in their order, each with its high digit first.
pub proof fn hex_shows_the_high_digit_first(bytes: Seq<u8>, i: int)
    requires
        0 <= i < bytes.len(),
    ensures
        hex_bytes(bytes).len() == 2 * bytes.len(),
        hex_bytes(bytes)[2 * i] == "0123456789abcdef"@[(bytes[i] / 16) as int],
        hex_bytes(bytes)[2 * i + 1] == "0123456789abcdef"@[(bytes[i] % 16) as int],
    decreases bytes.len(),
{
    reveal_strlit("0123456789abcdef");
    lemma_hex_bytes_len(bytes);
    lemma_hex_bytes_len(bytes.drop_last());
    if i < bytes.len() - 1 {
        hex_shows_the_high_digit_first(bytes.drop_last(), i);
    }
}

/// A number is written in decimal, the last digit last and no zero in front.
pub proof fn a_number_is_written_in_digits(front: nat, digit: nat)
    requires
        digit < 10,
    ensures
        decimal(digit) == seq!["0123456789"@[digit as int]],
        front > 0 ==> decimal((10 * front + digit) as nat) == decimal(front).push(
            "0123456789"@[digit as int],
        ),
{
    reveal_strlit("0123456789");
    if front > 0 {
        let n = (10 * front + digit) as nat;
        assert(n / 10 == front && n % 10 == digit);
    }
}

/// Paths are joined by one slash: one is put between where the first ends
/// without, none where it ends with one, and none below an empty path. An
/// absolute path stands for itself.
pub proof fn paths_are_joined_by_one_slash(base: Seq<char>, below: Seq<char>)
    requires
        base.len() > 0,
        base.last() != '/',
        below.len() > 0 ==> below[0] != '/',
    ensures
        joined_path(base, below) == base + seq!['/'] + below,
        joined_path(base + seq!['/'], below) == base + seq!['/'] + below,
        joined_path(Seq::empty(), below) == below,
        joined_path(base, seq!['/'] + below) == seq!['/'] + below,
{
    assert(base.push('/') =~= base + seq!['/']);
    assert((base + seq!['/']).last() == '/');
    assert(Seq::<char>::empty() + below =~= below);
    assert((seq!['/'] + below)[0] == '/');
}

/// What is cut out of a text has exactly the bytes between the two offsets.
pub proof fn a_cut_has_the_bytes_between(code: Seq<char>, start: int, end: int)
    requires
        cuts(code, start, end),
    ensures
        encode_utf8(text_at(code, start, end)) == encode_utf8(code).subrange(start, end),
{
    let bytes = encode_utf8(code);
    encode_utf8_valid_utf8(code);
    lemma_boundary_of_prefix(bytes, start, end);
    valid_utf8_split(bytes, end);
    let head = bytes.subrange(0, end);
    valid_utf8_split(head, start);
    assert(head.subrange(start, head.len() as int) =~= bytes.subrange(start, end));
    decode_utf8_encode_utf8(bytes.subrange(start, end));
}

} // verus!
