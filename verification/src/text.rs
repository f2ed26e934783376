//! Character classes and the scans over a block of text that heading parsing is
//! stated with.

use vstd::prelude::*;
use vstd::std_specs::iter::IteratorSpec;
use vstd::string::StringSliceAdditionalSpecFns;
use vstd::utf8::{
    decode_utf8, decode_utf8_split, encode_scalar, encode_utf8, encode_utf8_decode_utf8,
    encode_utf8_valid_utf8, is_ascii_chars_encode_utf8, is_char_boundary,
    is_char_boundary_iff_not_is_continuation_byte, is_char_boundary_start_end_of_seq, valid_utf8,
    valid_utf8_split,
};

verus! {

/// The character whose run at the start of a line gives a heading its depth.
pub const MARKER: char = '*';

/// The character that ends a heading line.
pub const NEWLINE: char = '\n';

/// Length of the longest prefix of `s` made of `c` only.
pub open spec fn run_of(s: Seq<char>, c: char) -> nat
    decreases s.len(),
{
    if s.len() > 0 && s[0] == c {
        1 + run_of(s.drop_first(), c)
    } else {
        0
    }
}

/// Index of the first `c` in `s`, or `s.len()` where `s` holds none.
pub open spec fn index_of(s: Seq<char>, c: char) -> nat
    decreases s.len(),
{
    if s.len() > 0 && s[0] != c {
        1 + index_of(s.drop_first(), c)
    } else {
        0
    }
}

/// `run_of(s, c)` is the one `k` within `s` below which every character is `c`
/// and at which `s` ends or holds another character.
pub proof fn lemma_run_of(s: Seq<char>, c: char, k: int)
    requires
        0 <= k <= s.len(),
        forall|j: int| 0 <= j < k ==> s[j] == c,
        k == s.len() || s[k] != c,
    ensures
        run_of(s, c) == k,
    decreases s.len(),
{
    if k > 0 {
        lemma_run_of(s.drop_first(), c, k - 1);
    }
}

/// `index_of(s, c)` is the one `k` within `s` below which no character is `c`
/// and at which `s` ends or holds `c`.
pub proof fn lemma_index_of(s: Seq<char>, c: char, k: int)
    requires
        0 <= k <= s.len(),
        forall|j: int| 0 <= j < k ==> s[j] != c,
        k == s.len() || s[k] == c,
    ensures
        index_of(s, c) == k,
    decreases s.len(),
{
    if k > 0 {
        lemma_index_of(s.drop_first(), c, k - 1);
    }
}

/// Below `run_of(s, c)` every character of `s` is `c`, and the character
/// there, if any, is another.
pub proof fn lemma_run_of_holds(s: Seq<char>, c: char)
    ensures
        run_of(s, c) <= s.len(),
        forall|j: int| 0 <= j < run_of(s, c) ==> s[j] == c,
        run_of(s, c) < s.len() ==> s[run_of(s, c) as int] != c,
    decreases s.len(),
{
    if s.len() > 0 && s[0] == c {
        let rest = s.drop_first();
        lemma_run_of_holds(rest, c);
        assert forall|j: int| 0 <= j < run_of(s, c) implies s[j] == c by {
            if j > 0 {
                assert(s[j] == rest[j - 1]);
            }
        }
    }
}

/// Below `index_of(s, c)` no character of `s` is `c`, and the character
/// there, if any, is `c`.
pub proof fn lemma_index_of_holds(s: Seq<char>, c: char)
    ensures
        index_of(s, c) <= s.len(),
        forall|j: int| 0 <= j < index_of(s, c) ==> s[j] != c,
        index_of(s, c) < s.len() ==> s[index_of(s, c) as int] == c,
    decreases s.len(),
{
    if s.len() > 0 && s[0] != c {
        let rest = s.drop_first();
        lemma_index_of_holds(rest, c);
        assert forall|j: int| 0 <= j < index_of(s, c) implies s[j] != c by {
            if j > 0 {
                assert(s[j] == rest[j - 1]);
            }
        }
    }
}

/// A text has no more characters than its UTF-8 encoding has bytes.
pub proof fn lemma_encoded_len(chars: Seq<char>)
    ensures
        chars.len() <= encode_utf8(chars).len(),
    decreases chars.len(),
{
    if chars.len() > 0 {
        lemma_encoded_len(chars.drop_first());
        assert(encode_scalar(chars[0] as u32).len() >= 1);
    }
}

/// Number of leading `c` in `s`, by one pass over its characters.
pub fn count_run(s: &str, c: char) -> (n: usize)
    ensures
        n == run_of(s@, c),
{
    let limit: usize = s.as_bytes().len();
    proof {
        lemma_encoded_len(s@);
    }
    let mut it = s.chars();
    let mut n: usize = 0;
    loop
        invariant_except_break
            it.remaining() == s@.subrange(n as int, s@.len() as int),
        invariant
            s@.len() <= limit,
            n <= s@.len(),
            forall|j: int| 0 <= j < n ==> s@[j] == c,
        ensures
            n <= s@.len(),
            forall|j: int| 0 <= j < n ==> s@[j] == c,
            n == s@.len() || s@[n as int] != c,
        decreases s@.len() - n,
    {
        match it.next() {
            Some(x) => {
                if x != c {
                    break;
                }
                n = n + 1;
            },
            None => {
                break;
            },
        }
    }
    proof {
        lemma_run_of(s@, c, n as int);
    }
    n
}

/// Index of the first `c` in `s`, or the number of characters of `s` where it
/// holds none, by one pass over its characters.
pub fn find_first(s: &str, c: char) -> (n: usize)
    ensures
        n == index_of(s@, c),
        n <= s@.len(),
{
    let limit: usize = s.as_bytes().len();
    proof {
        lemma_encoded_len(s@);
    }
    let mut it = s.chars();
    let mut n: usize = 0;
    loop
        invariant_except_break
            it.remaining() == s@.subrange(n as int, s@.len() as int),
        invariant
            s@.len() <= limit,
            n <= s@.len(),
            forall|j: int| 0 <= j < n ==> s@[j] != c,
        ensures
            n <= s@.len(),
            forall|j: int| 0 <= j < n ==> s@[j] != c,
            n == s@.len() || s@[n as int] == c,
        decreases s@.len() - n,
    {
        match it.next() {
            Some(x) => {
                if x == c {
                    break;
                }
                n = n + 1;
            },
            None => {
                break;
            },
        }
    }
    proof {
        lemma_index_of(s@, c, n as int);
    }
    n
}

/// The character of `s` at `index`, if `s` is that long.
pub fn char_at(s: &str, index: usize) -> (found: Option<char>)
    ensures
        found == if index < s@.len() {
            Some(s@[index as int])
        } else {
            None
        },
{
    let mut it = s.chars();
    let mut n: usize = 0;
    loop
        invariant
            n <= index,
            n <= s@.len(),
            it.remaining() == s@.subrange(n as int, s@.len() as int),
        decreases s@.len() - n,
    {
        match it.next() {
            Some(x) => {
                if n == index {
                    return Some(x);
                }
                n = n + 1;
            },
            None => {
                return None;
            },
        }
    }
}

/// The characters that count as whitespace: those with the Unicode property
/// `White_Space`.
pub open spec fn whitespace(c: char) -> bool {
    let u = c as u32;
    ||| 0x09 <= u <= 0x0D
    ||| u == 0x20
    ||| u == 0x85
    ||| u == 0xA0
    ||| u == 0x1680
    ||| 0x2000 <= u <= 0x200A
    ||| u == 0x2028
    ||| u == 0x2029
    ||| u == 0x202F
    ||| u == 0x205F
    ||| u == 0x3000
}

/// Whether `c` is whitespace.
pub fn is_whitespace(c: char) -> (yes: bool)
    ensures
        yes == whitespace(c),
{
    let u: u32 = c as u32;
    (0x09 <= u && u <= 0x0D) || u == 0x20 || u == 0x85 || u == 0xA0 || u == 0x1680 || (0x2000 <= u
        && u <= 0x200A) || u == 0x2028 || u == 0x2029 || u == 0x202F || u == 0x205F || u == 0x3000
}

/// Whether `start..end` is a range of bytes of the UTF-8 encoding of `text`
/// that begins and ends between characters.
pub open spec fn on_chars(text: Seq<char>, start: int, end: int) -> bool {
    &&& 0 <= start <= end <= encode_utf8(text).len()
    &&& is_char_boundary(encode_utf8(text), start)
    &&& is_char_boundary(encode_utf8(text), end)
}

/// The characters that the bytes `start..end` of the UTF-8 encoding of `text`
/// encode.
pub open spec fn between(text: Seq<char>, start: int, end: int) -> Seq<char> {
    decode_utf8(encode_utf8(text).subrange(start, end))
}

/// A place between characters stays one in a prefix that ends between
/// characters.
proof fn lemma_boundary_in_prefix(text: Seq<char>, start: int, end: int)
    requires
        on_chars(text, start, end),
    ensures
        is_char_boundary(encode_utf8(text).subrange(0, end), start),
{
    let bytes = encode_utf8(text);
    let head = bytes.subrange(0, end);
    encode_utf8_valid_utf8(text);
    valid_utf8_split(bytes, end);
    if start == end {
        is_char_boundary_start_end_of_seq(head);
    } else {
        is_char_boundary_iff_not_is_continuation_byte(bytes, start);
        is_char_boundary_iff_not_is_continuation_byte(head, start);
        assert(head[start] == bytes[start]);
    }
}

/// The bytes of a range of whole characters are UTF-8 themselves.
pub proof fn lemma_between_valid(text: Seq<char>, start: int, end: int)
    requires
        on_chars(text, start, end),
    ensures
        valid_utf8(encode_utf8(text).subrange(start, end)),
{
    let bytes = encode_utf8(text);
    let head = bytes.subrange(0, end);
    encode_utf8_valid_utf8(text);
    valid_utf8_split(bytes, end);
    lemma_boundary_in_prefix(text, start, end);
    valid_utf8_split(head, start);
    assert(head.subrange(start, head.len() as int) =~= bytes.subrange(start, end));
}

/// Two ranges of whole characters that meet hold, one after the other, what
/// the range over both holds.
pub proof fn lemma_between_split(text: Seq<char>, start: int, mid: int, end: int)
    requires
        on_chars(text, start, mid),
        on_chars(text, mid, end),
    ensures
        between(text, start, end) == between(text, start, mid) + between(text, mid, end),
{
    let bytes = encode_utf8(text);
    let part = bytes.subrange(start, end);
    encode_utf8_valid_utf8(text);
    lemma_between_valid(text, start, end);
    if mid == end {
        is_char_boundary_start_end_of_seq(part);
    } else {
        is_char_boundary_iff_not_is_continuation_byte(bytes, mid);
        is_char_boundary_iff_not_is_continuation_byte(part, mid - start);
        assert(part[mid - start] == bytes[mid]);
    }
    decode_utf8_split(part, mid - start);
    assert(part.subrange(0, mid - start) =~= bytes.subrange(start, mid));
    assert(part.subrange(mid - start, part.len() as int) =~= bytes.subrange(mid, end));
}

/// The place behind a newline byte lies between characters, and so does the
/// place before it.
pub proof fn lemma_newline_byte_bounds(text: Seq<char>, at: int)
    requires
        0 < at <= encode_utf8(text).len(),
        encode_utf8(text)[at - 1] == 0x0A,
    ensures
        is_char_boundary(encode_utf8(text), at - 1),
        is_char_boundary(encode_utf8(text), at),
{
    let bytes = encode_utf8(text);
    encode_utf8_valid_utf8(text);
    is_char_boundary_iff_not_is_continuation_byte(bytes, at - 1);
    if at == bytes.len() {
        is_char_boundary_start_end_of_seq(bytes);
    } else {
        let tail = bytes.subrange(at - 1, bytes.len() as int);
        valid_utf8_split(bytes, at - 1);
        assert(tail[0] == 0x0A);
        assert(is_char_boundary(tail, 1)) by {
            reveal_with_fuel(is_char_boundary, 2);
        }
        is_char_boundary_iff_not_is_continuation_byte(tail, 1);
        is_char_boundary_iff_not_is_continuation_byte(bytes, at);
        assert(tail[1] == bytes[at]);
    }
}

/// A range of whole characters whose last byte is a newline byte ends with a
/// newline.
pub proof fn lemma_between_ends_with_newline(text: Seq<char>, start: int, end: int)
    requires
        on_chars(text, start, end),
        start < end,
        encode_utf8(text)[end - 1] == 0x0A,
    ensures
        between(text, start, end).len() > 0,
        between(text, start, end).last() == NEWLINE,
{
    let bytes = encode_utf8(text);
    lemma_newline_byte_bounds(text, end);
    lemma_between_split(text, start, end - 1, end);
    let one = seq![NEWLINE];
    is_ascii_chars_encode_utf8(one);
    encode_utf8_decode_utf8(one);
    assert(bytes.subrange(end - 1, end) =~= encode_utf8(one));
    assert(between(text, end - 1, end) == one);
}

/// The part of `text` between the byte offsets `start` and `end`, where both
/// lie between characters and in this order.
pub fn cut<'a>(text: &'a str, start: usize, end: usize) -> (part: Option<&'a str>)
    ensures
        part is Some <==> on_chars(text@, start as int, end as int),
        part matches Some(p) ==> p@ == between(text@, start as int, end as int),
{
    proof {
        encode_utf8_valid_utf8(text@);
    }
    if start > end || !text.is_char_boundary(start) || !text.is_char_boundary(end) {
        return None;
    }
    let (head, _) = text.split_at(end);
    proof {
        lemma_boundary_in_prefix(text@, start as int, end as int);
    }
    let (_, part) = head.split_at(start);
    proof {
        assert(part.spec_bytes() =~= text.spec_bytes().subrange(start as int, end as int));
        encode_utf8_decode_utf8(part@);
    }
    Some(part)
}

} // verus!
