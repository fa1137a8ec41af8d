//! Fixed-width text fields: lossy UTF-8 decoding followed by trimming.
use vstd::prelude::*;
use vstd::utf8::{decode_utf8, valid_utf8};

verus! {

/// The characters that `String::from_utf8_lossy` yields for `bytes`: valid
/// UTF-8 decoded as such, each invalid sequence replaced by U+FFFD.
pub uninterp spec fn utf8_lossy(bytes: Seq<u8>) -> Seq<char>;

/// The Unicode `White_Space` property.
pub open spec fn is_white_space(c: char) -> bool {
    let v = c as int;
    ||| 0x9 <= v <= 0xd
    ||| v == 0x20
    ||| v == 0x85
    ||| v == 0xa0
    ||| v == 0x1680
    ||| 0x2000 <= v <= 0x200a
    ||| v == 0x2028
    ||| v == 0x2029
    ||| v == 0x202f
    ||| v == 0x205f
    ||| v == 0x3000
}

/// `s` without its trailing NUL characters.
pub open spec fn strip_trailing_nul(s: Seq<char>) -> Seq<char>
    decreases s.len(),
{
    if s.len() > 0 && s.last() == '\0' {
        strip_trailing_nul(s.drop_last())
    } else {
        s
    }
}

/// `s` without its trailing white space.
pub open spec fn trim_end_ws(s: Seq<char>) -> Seq<char>
    decreases s.len(),
{
    if s.len() > 0 && is_white_space(s.last()) {
        trim_end_ws(s.drop_last())
    } else {
        s
    }
}

/// `s` without its leading white space.
pub open spec fn trim_start_ws(s: Seq<char>) -> Seq<char>
    decreases s.len(),
{
    if s.len() > 0 && is_white_space(s[0]) {
        trim_start_ws(s.drop_first())
    } else {
        s
    }
}

/// The text of a fixed-width field: trailing NULs removed, then white space
/// removed at both ends.
pub open spec fn field_text(chars: Seq<char>) -> Seq<char> {
    trim_start_ws(trim_end_ws(strip_trailing_nul(chars)))
}

/// Calls `char::is_whitespace`, which is true exactly of the characters with
/// the Unicode `White_Space` property.
#[verifier::external_body]
fn char_is_whitespace(c: char) -> (r: bool)
    ensures
        r == is_white_space(c),
{
    c.is_whitespace()
}

/// Calls `String::from_utf8_lossy` and collects the characters of the result.
/// Its result is named `utf8_lossy`; on valid UTF-8 it is the decoding of the
/// bytes, as std documents.
#[verifier::external_body]
fn decode_lossy(bytes: &[u8]) -> (chars: Vec<char>)
    ensures
        chars@ == utf8_lossy(bytes@),
        valid_utf8(bytes@) ==> chars@ == decode_utf8(bytes@),
{
    String::from_utf8_lossy(bytes).chars().collect()
}

/// Collects characters into a `String` (`FromIterator<&char> for String`),
/// whose characters are exactly those given, in order.
#[verifier::external_body]
fn string_from_chars(chars: &[char]) -> (s: String)
    ensures
        s@ == chars@,
{
    chars.iter().collect()
}

/// Strips trailing NUL characters, then leading and trailing white space,
/// from `chars`.
pub fn trim_field(chars: &[char]) -> (r: Vec<char>)
    ensures
        r@ == field_text(chars@),
{
    let s = Ghost(chars@);
    let mut end: usize = chars.len();
    assert(s@.subrange(0, end as int) =~= s@);
    while end > 0 && chars[end - 1] == '\0'
        invariant
            end <= s@.len(),
            s@ == chars@,
            strip_trailing_nul(s@) == strip_trailing_nul(s@.subrange(0, end as int)),
        decreases end,
    {
        assert(s@.subrange(0, end as int).drop_last() =~= s@.subrange(0, end - 1));
        end = end - 1;
    }
    let ghost stripped = s@.subrange(0, end as int);
    assert(strip_trailing_nul(s@) == stripped);
    let mut stop: usize = end;
    while stop > 0 && char_is_whitespace(chars[stop - 1])
        invariant
            stop <= end <= s@.len(),
            s@ == chars@,
            stripped == s@.subrange(0, end as int),
            trim_end_ws(stripped) == trim_end_ws(s@.subrange(0, stop as int)),
        decreases stop,
    {
        assert(s@.subrange(0, stop as int).drop_last() =~= s@.subrange(0, stop - 1));
        stop = stop - 1;
    }
    let ghost ended = s@.subrange(0, stop as int);
    assert(trim_end_ws(stripped) == ended);
    let mut start: usize = 0;
    while start < stop && char_is_whitespace(chars[start])
        invariant
            start <= stop <= s@.len(),
            s@ == chars@,
            ended == s@.subrange(0, stop as int),
            trim_start_ws(ended) == trim_start_ws(s@.subrange(start as int, stop as int)),
        decreases stop - start,
    {
        assert(s@.subrange(start as int, stop as int).drop_first() =~= s@.subrange(
            start + 1,
            stop as int,
        ));
        start = start + 1;
    }
    let mut out: Vec<char> = Vec::new();
    let mut i: usize = start;
    while i < stop
        invariant
            start <= i <= stop <= s@.len(),
            s@ == chars@,
            out@ =~= s@.subrange(start as int, i as int),
        decreases stop - i,
    {
        out.push(chars[i]);
        i = i + 1;
    }
    assert(trim_start_ws(s@.subrange(start as int, stop as int)) == s@.subrange(
        start as int,
        stop as int,
    ));
    out
}

/// Reads a fixed-width text field: the bytes decoded as UTF-8 (invalid
/// sequences replaced), trailing NULs removed, then surrounding white space.
pub fn read_string(bytes: &[u8]) -> (r: String)
    ensures
        r@ == field_text(utf8_lossy(bytes@)),
        valid_utf8(bytes@) ==> r@ == field_text(decode_utf8(bytes@)),
{
    let chars = decode_lossy(bytes);
    let trimmed = trim_field(chars.as_slice());
    string_from_chars(trimmed.as_slice())
}

proof fn lemma_trim_end_ws_last(s: Seq<char>)
    ensures
        trim_end_ws(s).len() <= s.len(),
        trim_end_ws(s) == s.subrange(0, trim_end_ws(s).len() as int),
        trim_end_ws(s).len() > 0 ==> !is_white_space(trim_end_ws(s).last()),
    decreases s.len(),
{
    if s.len() > 0 && is_white_space(s.last()) {
        lemma_trim_end_ws_last(s.drop_last());
    } else {
        assert(s.subrange(0, s.len() as int) =~= s);
    }
}

proof fn lemma_trim_start_ws_suffix(s: Seq<char>)
    ensures
        trim_start_ws(s).len() <= s.len(),
        trim_start_ws(s) == s.subrange(s.len() - trim_start_ws(s).len(), s.len() as int),
        trim_start_ws(s).len() > 0 ==> !is_white_space(trim_start_ws(s)[0]),
    decreases s.len(),
{
    if s.len() > 0 && is_white_space(s[0]) {
        lemma_trim_start_ws_suffix(s.drop_first());
        assert(s.drop_first().subrange(
            s.drop_first().len() - trim_start_ws(s.drop_first()).len(),
            s.drop_first().len() as int,
        ) =~= s.subrange(s.len() - trim_start_ws(s).len(), s.len() as int));
    } else {
        assert(s.subrange(0, s.len() as int) =~= s);
    }
}

/// The text of a field neither begins nor ends with white space, and is a
/// contiguous part of the decoded characters.
pub proof fn lemma_field_text_trimmed(chars: Seq<char>)
    ensures
        field_text(chars).len() > 0 ==> !is_white_space(field_text(chars)[0]),
        field_text(chars).len() > 0 ==> !is_white_space(field_text(chars).last()),
        exists|i: int|
            0 <= i && i + field_text(chars).len() <= chars.len() && #[trigger] chars.subrange(
                i,
                i + field_text(chars).len(),
            ) == field_text(chars),
{
    let a = strip_trailing_nul(chars);
    lemma_strip_trailing_nul_prefix(chars);
    let b = trim_end_ws(a);
    lemma_trim_end_ws_last(a);
    let c = trim_start_ws(b);
    lemma_trim_start_ws_suffix(b);
    if c.len() > 0 {
        assert(c.last() == b.last());
    }
    let i = b.len() - c.len();
    assert(chars.subrange(i, i + c.len()) =~= c);
}

proof fn lemma_strip_trailing_nul_prefix(s: Seq<char>)
    ensures
        strip_trailing_nul(s).len() <= s.len(),
        strip_trailing_nul(s) == s.subrange(0, strip_trailing_nul(s).len() as int),
    decreases s.len(),
{
    if s.len() > 0 && s.last() == '\0' {
        lemma_strip_trailing_nul_prefix(s.drop_last());
    } else {
        assert(s.subrange(0, s.len() as int) =~= s);
    }
}

proof fn lemma_strip_nul_suffix(x: Seq<char>, post: Seq<char>)
    requires
        forall|k: int| 0 <= k < post.len() ==> #[trigger] post[k] == '\0',
    ensures
        strip_trailing_nul(x + post) == strip_trailing_nul(x),
    decreases post.len(),
{
    if post.len() > 0 {
        assert((x + post).drop_last() =~= x + post.drop_last());
        assert((x + post).last() == post[post.len() - 1]);
        lemma_strip_nul_suffix(x, post.drop_last());
    } else {
        assert(x + post =~= x);
    }
}

proof fn lemma_trim_ws_prefix(pre: Seq<char>, c: Seq<char>)
    requires
        forall|k: int| 0 <= k < pre.len() ==> is_white_space(#[trigger] pre[k]),
        c.len() > 0,
        !is_white_space(c[0]),
    ensures
        trim_start_ws(pre + c) == c,
    decreases pre.len(),
{
    if pre.len() > 0 {
        assert((pre + c)[0] == pre[0]);
        assert((pre + c).drop_first() =~= pre.drop_first() + c);
        lemma_trim_ws_prefix(pre.drop_first(), c);
    } else {
        assert(pre + c =~= c);
    }
}

/// A text that neither begins nor ends with white space and does not end
/// with NUL, padded with white space before it and NULs after it, reads back
/// as itself, whatever its length.
pub proof fn lemma_field_text_keeps_text(pre: Seq<char>, c: Seq<char>, post: Seq<char>)
    requires
        forall|k: int| 0 <= k < pre.len() ==> is_white_space(#[trigger] pre[k]),
        forall|k: int| 0 <= k < post.len() ==> #[trigger] post[k] == '\0',
        c.len() > 0,
        !is_white_space(c[0]),
        !is_white_space(c.last()),
        c.last() != '\0',
    ensures
        field_text(pre + c + post) == c,
        field_text(c) == c,
{
    let x = pre + c;
    lemma_strip_nul_suffix(x, post);
    assert(x.last() == c.last());
    assert(strip_trailing_nul(x) == x);
    assert(trim_end_ws(x) == x);
    lemma_trim_ws_prefix(pre, c);
    let e: Seq<char> = seq![];
    lemma_strip_nul_suffix(c, e);
    lemma_trim_ws_prefix(e, c);
    assert(e + c =~= c);
}

} // verus!
