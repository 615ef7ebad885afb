//! The receiver a call was made on, as the index stores it.

use vstd::prelude::*;
use vstd::utf8::{encode_scalar, encode_utf8};

use crate::text::{
    all_white, chars_of, collapse, collapsed, from_chars, lemma_plain_spaces,
    lemma_white_space_is_all_alike, only_white_space_leaves_nothing, white_space,
};

verus! {

/// The longest receiver expression kept, in bytes.
///
/// A receiver is normally a name or two. A multi-line builder chain is the
/// exception and can run to a paragraph, which does not belong in a column
/// read once per edge, and a minified source has no line breaks to bound it at
/// all.
pub const MAX_RECEIVER_BYTES: usize = 200;

/// The longest tail of whole characters within the cap.
pub open spec fn capped(s: Seq<char>) -> Seq<char>
    decreases s.len(),
{
    if s.len() == 0 || encode_utf8(s).len() <= MAX_RECEIVER_BYTES {
        s
    } else {
        capped(s.drop_first())
    }
}

/// What is stored of a receiver expression: nothing of white space alone.
pub open spec fn stored(expr: Seq<char>) -> Option<Seq<char>> {
    if collapsed(expr).len() == 0 {
        None
    } else {
        Some(capped(collapsed(expr)))
    }
}

/// How many bytes a character takes.
fn width(c: char) -> (bytes: usize)
    ensures
        bytes == encode_scalar(c as u32).len(),
{
    let n: u32 = c as u32;
    if n <= 0x7f {
        1
    } else if n <= 0x7ff {
        2
    } else if n <= 0xffff {
        3
    } else {
        4
    }
}

/// The longest tail of whole characters within the cap.
fn cap(text: String) -> (tail: String)
    ensures
        tail@ == capped(text@),
{
    let mut bytes: usize = text.as_str().as_bytes().len();
    if bytes <= MAX_RECEIVER_BYTES {
        return text;
    }
    let chars = chars_of(text.as_str());
    let mut from: usize = 0;
    assert(chars@.skip(0) =~= chars@);
    while bytes > MAX_RECEIVER_BYTES
        invariant
            from <= chars@.len(),
            bytes == encode_utf8(chars@.skip(from as int)).len(),
            capped(chars@.skip(from as int)) == capped(chars@),
        decreases chars@.len() - from,
    {
        let ghost rest = chars@.skip(from as int);
        assert(rest.len() > 0);
        assert(rest[0] == chars@[from as int]);
        assert(rest.drop_first() =~= chars@.skip(from + 1));
        assert(chars@.len() == chars.len());
        bytes -= width(chars[from]);
        from += 1;
    }
    let end: usize = chars.len();
    assert(chars@.subrange(from as int, end as int) =~= chars@.skip(from as int));
    from_chars(&chars, from, end)
}

/// The receiver expression as a single line, short enough to store.
///
/// Whitespace is collapsed because a chain written over four lines is one
/// expression. `None` for an expression that is nothing but whitespace, which
/// no call site writes but a grammar can hand over.
///
/// Over the cap it is the **tail** that is kept, not the head: the type of a
/// chain is the return type of its last call, so the end of the expression is
/// the part that still carries information once the rest is gone.
pub fn normalize(expr: &str) -> (line: Option<String>)
    ensures
        (match line {
            Some(line) => Some(line@),
            None => None,
        }) == stored(expr@),
{
    let out = collapse(expr);
    if out.as_str().is_empty() {
        return None;
    }
    Some(cap(out))
}

/// White space is collapsed whatever it is: an expression is stored the same
/// with any other white space in the place of some of it.
pub proof fn white_space_is_all_alike(
    head: Seq<char>,
    gap: Seq<char>,
    other: Seq<char>,
    rest: Seq<char>,
)
    requires
        all_white(gap),
        all_white(other),
    ensures
        stored(head + gap + rest) == stored(head + other + rest),
{
    lemma_white_space_is_all_alike(head, gap, other, rest);
}

/// What is stored is one line within the cap, and the tail of the collapsed
/// expression: no white space in it but plain spaces.
pub proof fn what_is_stored_is_short(expr: Seq<char>)
    requires
        stored(expr) is Some,
    ensures
        ({
            let line = stored(expr)->0;
            &&& encode_utf8(line).len() <= MAX_RECEIVER_BYTES
            &&& line.len() <= collapsed(expr).len()
            &&& line == collapsed(expr).skip(collapsed(expr).len() - line.len())
            &&& forall|i: int|
                0 <= i < line.len() ==> !white_space(#[trigger] line[i]) || line[i] == ' '
        }),
{
    lemma_capped(collapsed(expr));
    lemma_plain_spaces(expr);
}

proof fn lemma_capped(s: Seq<char>)
    ensures
        encode_utf8(capped(s)).len() <= MAX_RECEIVER_BYTES,
        capped(s).len() <= s.len(),
        capped(s) == s.skip(s.len() - capped(s).len()),
    decreases s.len(),
{
    if s.len() == 0 || encode_utf8(s).len() <= MAX_RECEIVER_BYTES {
        assert(s.skip(0) =~= s);
    } else {
        let fewer = s.drop_first();
        lemma_capped(fewer);
        let n = capped(fewer).len();
        assert(fewer.skip(fewer.len() - n) =~= s.skip(s.len() - n));
    }
}

/// What survives the cap is as long as it can be: one more character would
/// break it.
pub proof fn the_cap_keeps_all_it_can(s: Seq<char>)
    requires
        capped(s).len() < s.len(),
    ensures
        encode_utf8(s.skip(s.len() - capped(s).len() - 1)).len() > MAX_RECEIVER_BYTES,
    decreases s.len(),
{
    let fewer = s.drop_first();
    lemma_capped(fewer);
    let n = capped(s).len();
    if n < fewer.len() {
        the_cap_keeps_all_it_can(fewer);
        assert(fewer.skip(fewer.len() - n - 1) =~= s.skip(s.len() - n - 1));
    } else {
        assert(s.skip(0) =~= s);
    }
}

/// An expression is stored unless it is white space alone, and whole where it is
/// no more than two hundred bytes on one line.
pub proof fn a_short_expression_is_stored_whole(expr: Seq<char>)
    ensures
        stored(expr) is None <==> (forall|i: int|
            0 <= i < expr.len() ==> white_space(#[trigger] expr[i])),
        stored(expr) is Some && encode_utf8(collapsed(expr)).len() <= 200 ==> stored(expr) == Some(
            collapsed(expr),
        ),
{
    only_white_space_leaves_nothing(expr);
}

/// Of a longer expression the tail is stored, the longest one of whole characters
/// within two hundred bytes: one character more would be too many.
pub proof fn of_a_long_expression_the_tail_is_stored(expr: Seq<char>)
    requires
        stored(expr) is Some,
        encode_utf8(collapsed(expr)).len() > 200,
    ensures
        ({
            let line = collapsed(expr);
            let kept = stored(expr)->0;
            &&& kept.len() < line.len()
            &&& kept == line.skip(line.len() - kept.len())
            &&& encode_utf8(kept).len() <= 200
            &&& encode_utf8(line.skip(line.len() - kept.len() - 1)).len() > 200
        }),
{
    let line = collapsed(expr);
    lemma_capped(line);
    if capped(line).len() == line.len() {
        assert(line.skip(0) =~= line);
    }
    the_cap_keeps_all_it_can(line);
}

} // verus!
