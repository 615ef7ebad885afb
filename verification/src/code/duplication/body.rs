//! A symbol's body text and its cache key.
//!
//! Nothing in the index holds a body, which stores a signature and a range, so
//! duplication re-derives it from the file plus the range, and re-derives its
//! syntax tree from the parser.

use vstd::prelude::*;
use vstd::utf8::encode_utf8;

use crate::code::parsing::caching_parser::{fnv1a, fnv1a_hash};
use crate::text::{hex16, hex_text};
pub use super::bits::hamming;
pub use super::simhash::structural_simhash;

verus! {

/// Bits that may differ before two bodies count as structurally unrelated.
///
/// 6 of 64. A simhash over shingles moves a handful of bits per edited
/// statement, so this tolerates a body that grew a line or two while rejecting
/// the pair that merely shares a language's boilerplate.
pub const SIMHASH_HAMMING_THRESHOLD: u32 = 6;

/// Where the line with text at `at` ends: at its line feed, or at the end of
/// the text.
pub open spec fn line_end(s: Seq<char>, at: int) -> int
    decreases s.len() - at,
{
    if at < 0 || at >= s.len() || s[at] == '\n' {
        at
    } else {
        line_end(s, at + 1)
    }
}

/// Where row `row` starts, counted in rows from the row at `at`. A row holds at
/// least one character, so there is none behind a last line feed.
pub open spec fn row_start(s: Seq<char>, row: int, at: int) -> Option<int>
    decreases s.len() + 1 - at,
{
    if at < 0 || at >= s.len() {
        None
    } else if row <= 0 {
        Some(at)
    } else {
        proof {
            lemma_line_end(s, at);
        }
        row_start(s, row - 1, line_end(s, at) + 1)
    }
}

/// Where a line from `start` to `end` ends without the carriage returns behind.
pub open spec fn without_returns(s: Seq<char>, start: int, end: int) -> int
    decreases end - start,
{
    if start < end && s[end - 1] == '\r' {
        without_returns(s, start, end - 1)
    } else {
        end
    }
}

/// A line's end lies behind its start and inside the text.
pub proof fn lemma_line_end(s: Seq<char>, at: int)
    requires
        0 <= at <= s.len(),
    ensures
        at <= line_end(s, at) <= s.len(),
    decreases s.len() - at,
{
    if at < s.len() && s[at] != '\n' {
        lemma_line_end(s, at + 1);
    }
}

/// The text of the rows from `first` to `last`, without the line terminator
/// behind the last one. None where a row is missing, or the range is inverted.
pub open spec fn rows(s: Seq<char>, first: int, last: int) -> Option<Seq<char>> {
    match (row_start(s, first, 0), row_start(s, last, 0)) {
        (Some(start), Some(tail)) if first <= last => Some(
            s.subrange(start, without_returns(s, tail, line_end(s, tail))),
        ),
        _ => None,
    }
}

/// A body as text.
pub open spec fn body_view(body: Option<&str>) -> Option<Seq<char>> {
    match body {
        Some(text) => Some(text@),
        None => None,
    }
}

proof fn lemma_row_start(s: Seq<char>, row: int, at: int)
    requires
        0 <= at,
        0 <= row,
    ensures
        row_start(s, row, at) matches Some(start) ==> at <= start < s.len(),
    decreases s.len() + 1 - at,
{
    if at < s.len() && row > 0 {
        lemma_line_end(s, at);
        lemma_row_start(s, row - 1, line_end(s, at) + 1);
    }
}

/// A later row starts later.
proof fn lemma_rows_ascend(s: Seq<char>, first: int, last: int, at: int)
    requires
        0 <= at,
        0 <= first <= last,
    ensures
        (row_start(s, first, at), row_start(s, last, at)) matches (Some(a), Some(b)) ==> a <= b,
    decreases s.len() + 1 - at,
{
    if at < s.len() {
        lemma_row_start(s, last, at);
        if first > 0 {
            lemma_line_end(s, at);
            lemma_rows_ascend(s, first - 1, last - 1, line_end(s, at) + 1);
        }
    }
}

proof fn lemma_without_returns(s: Seq<char>, start: int, end: int)
    requires
        start <= end,
    ensures
        start <= without_returns(s, start, end) <= end,
    decreases end - start,
{
    if start < end && s[end - 1] == '\r' {
        lemma_without_returns(s, start, end - 1);
    }
}

/// The characters of a source, and where its rows start and end.
fn find_row(chars: &Vec<char>, row: u32) -> (start: Option<usize>)
    ensures
        (match start {
            Some(at) => Some(at as int),
            None => None,
        }) == row_start(chars@, row as int, 0),
        start matches Some(at) ==> at < chars@.len(),
{
    let mut at: usize = 0;
    let mut left: u32 = row;
    while left > 0
        invariant
            at <= chars@.len(),
            row_start(chars@, left as int, at as int) == row_start(chars@, row as int, 0),
        decreases left,
    {
        if at >= chars.len() {
            return None;
        }
        let end = find_line_end(chars, at);
        if end >= chars.len() {
            assert(row_start(chars@, left - 1, end + 1) is None);
            return None;
        }
        at = end + 1;
        left -= 1;
    }
    if at < chars.len() {
        Some(at)
    } else {
        None
    }
}

fn find_line_end(chars: &Vec<char>, from: usize) -> (end: usize)
    requires
        from <= chars@.len(),
    ensures
        end == line_end(chars@, from as int),
        from <= end <= chars@.len(),
{
    let mut at: usize = from;
    while at < chars.len() && chars[at] != '\n'
        invariant
            from <= at <= chars@.len(),
            line_end(chars@, at as int) == line_end(chars@, from as int),
        decreases chars@.len() - at,
    {
        at += 1;
    }
    at
}

/// The source text of the lines a symbol spans.
///
/// `start_line` and `end_line` are **0-based inclusive** rows. Slicing on a
/// 1-based assumption shifts every body by one line, which is silent: the text
/// still parses, it just describes the neighbouring symbol.
///
/// The trailing line terminator is dropped, and a range reaching past the end
/// of the file yields `None` rather than a truncated body: that means the index
/// is stale against an edited file, and half a function scored against whole
/// ones is worse than one skipped.
pub fn body_text<'a>(source: &'a str, start_line: u32, end_line: u32) -> (body: Option<&'a str>)
    ensures
        body_view(body) == rows(source@, start_line as int, end_line as int),
{
    if end_line < start_line {
        return None;
    }
    let chars = crate::text::chars_of(source);
    let start = match find_row(&chars, start_line) {
        Some(start) => start,
        None => {
            return None;
        },
    };
    let tail = match find_row(&chars, end_line) {
        Some(tail) => tail,
        None => {
            return None;
        },
    };
    proof {
        lemma_rows_ascend(source@, start_line as int, end_line as int, 0);
    }
    let end = find_line_end(&chars, tail);
    let mut last: usize = end;
    while tail < last && chars[last - 1] == '\r'
        invariant
            tail <= last <= end <= chars@.len(),
            without_returns(chars@, tail as int, last as int) == without_returns(
                chars@,
                tail as int,
                end as int,
            ),
        decreases last,
    {
        last -= 1;
    }
    Some(source.substring_char(start, last))
}

/// The cache key of a text: the hash of its bytes, as hex.
pub open spec fn key_of(body: Seq<char>) -> Seq<char> {
    hex_text(fnv1a(encode_utf8(body)))
}

/// A body's cache key: the hash of its text, as hex.
///
/// The same FNV-1a the tree cache keys a file on. One hash function in the
/// crate, so a body's identity cannot come out two different ways depending on
/// which layer asked.
pub fn body_hash(body: &str) -> (key: String)
    ensures
        key@ == key_of(body@),
{
    hex16(fnv1a_hash(body.as_bytes()))
}

/// Cache keys are sixteen hex digits, and two bodies share a key exactly when
/// they share a hash.
pub proof fn keys_are_hashes(a: Seq<char>, b: Seq<char>)
    ensures
        key_of(a).len() == 16,
        key_of(a) == key_of(b) <==> fnv1a(encode_utf8(a)) == fnv1a(encode_utf8(b)),
{
    if key_of(a) == key_of(b) {
        crate::text::lemma_hex_text_is_injective(fnv1a(encode_utf8(a)), fnv1a(encode_utf8(b)));
    }
}

/// A cache key shows the hash of the body's bytes in hex, four bits to a digit,
/// the highest first.
pub proof fn a_key_shows_the_hash(body: Seq<char>, i: int)
    requires
        0 <= i < 16,
    ensures
        key_of(body)[i] == "0123456789abcdef"@[((fnv1a(encode_utf8(body)) >> ((60 - 4
            * i) as u64)) & 15) as int],
{
    crate::text::hex_shows_four_bits_to_a_digit(fnv1a(encode_utf8(body)), i);
}

/// A body carries no line terminator behind it: where its last row holds any
/// text, the body ends with that text.
pub proof fn a_body_ends_before_its_terminator(s: Seq<char>, first: int, last: int)
    requires
        0 <= first <= last,
        rows(s, first, last) is Some,
    ensures
        ({
            let tail = row_start(s, last, 0)->0;
            let body = rows(s, first, last)->0;
            without_returns(s, tail, line_end(s, tail)) > tail ==> body.len() > 0 && body.last()
                != '\n' && body.last() != '\r'
        }),
{
    let start = row_start(s, first, 0)->0;
    let tail = row_start(s, last, 0)->0;
    lemma_row_start(s, first, 0);
    lemma_row_start(s, last, 0);
    lemma_rows_ascend(s, first, last, 0);
    lemma_line_end(s, tail);
    lemma_without_returns(s, tail, line_end(s, tail));
    lemma_no_feed_inside(s, tail);
    lemma_returns_are_gone(s, tail, line_end(s, tail));
    let end = without_returns(s, tail, line_end(s, tail));
    if end > tail {
        assert(s.subrange(start, end).last() == s[end - 1]);
    }
}

proof fn lemma_no_feed_inside(s: Seq<char>, at: int)
    requires
        0 <= at <= s.len(),
    ensures
        forall|k: int| at <= k < line_end(s, at) ==> #[trigger] s[k] != '\n',
    decreases s.len() - at,
{
    if at < s.len() && s[at] != '\n' {
        lemma_no_feed_inside(s, at + 1);
    }
}

proof fn lemma_returns_are_gone(s: Seq<char>, start: int, end: int)
    requires
        start <= end,
    ensures
        ({
            let kept = without_returns(s, start, end);
            kept > start ==> s[kept - 1] != '\r'
        }),
    decreases end - start,
{
    if start < end && s[end - 1] == '\r' {
        lemma_returns_are_gone(s, start, end - 1);
    }
}

/// Rows are what line feeds part, empty ones among them: row `row` starts
/// behind the `row`-th line feed, row zero at the start. There is no such row
/// exactly where the text holds fewer line feeds, or nothing stands behind the
/// `row`-th.
pub proof fn rows_are_counted_by_line_feeds(s: Seq<char>, row: int)
    requires
        0 <= row,
    ensures
        row_start(s, row, 0) matches Some(at) ==> {
            &&& 0 <= at < s.len()
            &&& s.take(at).filter(|c: char| c == '\n').len() == row
            &&& row == 0 ==> at == 0
            &&& row > 0 ==> at > 0 && s[at - 1] == '\n'
        },
        row_start(s, row, 0) is None <==> s.filter(|c: char| c == '\n').len() < row || (s.filter(|c: char| c == '\n').len() == row
            && (s.len() == 0 || s.last() == '\n')),
{
    assert(s.take(0) =~= Seq::empty());
    assert(s.take(s.len() as int) =~= s);
    lemma_rows_by_feeds(s, row, 0);
    s.take(0).lemma_filter_len(|c: char| c == '\n');
    match row_start(s, row, 0) {
        Some(at) => {
            lemma_feeds_grow(s, at, s.len() as int);
            if s.last() == '\n' {
                lemma_feeds_grow(s, at, s.len() - 1);
                lemma_one_more(s, s.len() as int);
            }
        },
        None => {},
    }
}

/// A body is the rows from the first to the last, whole: it starts where the
/// first one does, it ends in the last one, and behind it the last row holds
/// carriage returns alone, none of which the body ends with. It is there exactly
/// where the range is not inverted and the last row is there.
pub proof fn a_body_is_its_rows(s: Seq<char>, first: int, last: int) -> (bounds: (int, int, int))
    requires
        0 <= first,
        0 <= last,
    ensures
        rows(s, first, last) is None <==> last < first || s.filter(|c: char| c == '\n').len() < last || (s.filter(|c: char| c == '\n').len() == last
            && (s.len() == 0 || s.last() == '\n')),
        rows(s, first, last) matches Some(body) ==> {
            let (start, end, stop) = bounds;
            &&& 0 <= start <= end <= stop <= s.len()
            &&& body == s.subrange(start, end)
            &&& s.take(start).filter(|c: char| c == '\n').len() == first
            &&& start == 0 || s[start - 1] == '\n'
            &&& s.take(end).filter(|c: char| c == '\n').len() == last
            &&& end == 0 || s[end - 1] != '\r'
            &&& forall|k: int| end <= k < stop ==> #[trigger] s[k] == '\r'
            &&& stop == s.len() || s[stop] == '\n'
        },
{
    rows_are_counted_by_line_feeds(s, first);
    rows_are_counted_by_line_feeds(s, last);
    if rows(s, first, last) is Some {
        let start = row_start(s, first, 0)->0;
        let tail = row_start(s, last, 0)->0;
        let stop = line_end(s, tail);
        let end = without_returns(s, tail, stop);
        lemma_rows_ascend(s, first, last, 0);
        lemma_line_end(s, tail);
        lemma_line_ends_at_feed(s, tail);
        lemma_without_returns(s, tail, stop);
        lemma_no_feed_inside(s, tail);
        lemma_returns_are_gone(s, tail, stop);
        lemma_only_returns_go(s, tail, stop);
        lemma_no_feeds(s, tail, end);
        (start, end, stop)
    } else {
        if first <= last && row_start(s, first, 0) is None {
            lemma_no_row_no_later(s, first, last, 0);
        }
        (0, 0, 0)
    }
}

proof fn lemma_no_row_no_later(s: Seq<char>, first: int, last: int, at: int)
    requires
        0 <= at,
        0 <= first <= last,
        row_start(s, first, at) is None,
    ensures
        row_start(s, last, at) is None,
    decreases s.len() + 1 - at,
{
    if at < s.len() {
        lemma_line_end(s, at);
        lemma_no_row_no_later(s, first - 1, last - 1, line_end(s, at) + 1);
    }
}

proof fn lemma_one_more(s: Seq<char>, n: int)
    requires
        0 < n <= s.len(),
    ensures
        s.take(n).filter(|c: char| c == '\n').len() == s.take(n - 1).filter(|c: char| c == '\n').len() + if s[n - 1] == '\n' {
            1nat
        } else {
            0nat
        },
{
    assert(s.take(n) =~= s.take(n - 1).push(s[n - 1]));
    s.take(n - 1).lemma_filter_push(s[n - 1], |c: char| c == '\n');
}

proof fn lemma_feeds_grow(s: Seq<char>, a: int, b: int)
    requires
        0 <= a <= b <= s.len(),
    ensures
        s.take(a).filter(|c: char| c == '\n').len() <= s.take(b).filter(|c: char| c == '\n').len(),
    decreases b - a,
{
    if a < b {
        lemma_feeds_grow(s, a, b - 1);
        lemma_one_more(s, b);
    }
}

proof fn lemma_no_feeds(s: Seq<char>, a: int, b: int)
    requires
        0 <= a <= b <= s.len(),
        forall|k: int| a <= k < b ==> #[trigger] s[k] != '\n',
    ensures
        s.take(a).filter(|c: char| c == '\n').len() == s.take(b).filter(|c: char| c == '\n').len(),
    decreases b - a,
{
    if a < b {
        lemma_no_feeds(s, a, b - 1);
        lemma_one_more(s, b);
    }
}

proof fn lemma_line_ends_at_feed(s: Seq<char>, at: int)
    requires
        0 <= at <= s.len(),
    ensures
        line_end(s, at) == s.len() || s[line_end(s, at)] == '\n',
    decreases s.len() - at,
{
    if at < s.len() && s[at] != '\n' {
        lemma_line_ends_at_feed(s, at + 1);
    }
}

proof fn lemma_only_returns_go(s: Seq<char>, start: int, end: int)
    requires
        start <= end,
    ensures
        forall|k: int| without_returns(s, start, end) <= k < end ==> #[trigger] s[k] == '\r',
    decreases end - start,
{
    if start < end && s[end - 1] == '\r' {
        lemma_only_returns_go(s, start, end - 1);
    }
}

proof fn lemma_rows_by_feeds(s: Seq<char>, row: int, at: int)
    requires
        0 <= at <= s.len(),
        0 <= row,
        at == 0 || s[at - 1] == '\n',
    ensures
        row_start(s, row, at) matches Some(p) ==> {
            &&& 0 <= p < s.len()
            &&& s.take(p).filter(|c: char| c == '\n').len() == s.take(at).filter(|c: char| c == '\n').len() + row
            &&& row == 0 ==> p == at
            &&& row > 0 ==> p > 0 && s[p - 1] == '\n'
        },
        row_start(s, row, at) is None ==> s.take(s.len() as int).filter(|c: char| c == '\n').len() < s.take(at).filter(|c: char| c == '\n').len() + row || (
        s.take(s.len() as int).filter(|c: char| c == '\n').len() == s.take(at).filter(|c: char| c == '\n').len() + row && (s.len() == 0 || s.last()
            == '\n')),
    decreases s.len() + 1 - at,
{
    if at < s.len() && row > 0 {
        let end = line_end(s, at);
        lemma_line_end(s, at);
        lemma_line_ends_at_feed(s, at);
        lemma_no_feed_inside(s, at);
        lemma_no_feeds(s, at, end);
        if end < s.len() {
            lemma_one_more(s, end + 1);
            lemma_rows_by_feeds(s, row - 1, end + 1);
        }
    }
}

} // verus!
