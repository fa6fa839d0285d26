//! Text as a sequence of characters: conversion between strings and character
//! vectors, trimming, and the normal forms of line breaks.
use std::borrow::Cow;
use std::ops::Range;
use vstd::prelude::*;
use vstd::utf8::encode_utf8;

verus! {

/// `String::push` appends the one character to the end of the string.
pub assume_specification[ std::string::String::push ](s: &mut std::string::String, c: char)
    ensures
        final(s)@ == old(s)@.push(c),
;

/// Whether `c` belongs to Unicode's `White_Space` class.
pub open spec fn is_whitespace(c: char) -> bool {
    let n = c as u32;
    ||| 0x09 <= n <= 0x0d
    ||| n == 0x20
    ||| n == 0x85
    ||| n == 0xa0
    ||| n == 0x1680
    ||| 0x2000 <= n <= 0x200a
    ||| n == 0x2028
    ||| n == 0x2029
    ||| n == 0x202f
    ||| n == 0x205f
    ||| n == 0x3000
}

/// `s` without the white space at its end.
pub open spec fn trimmed_end(s: Seq<char>) -> Seq<char>
    decreases s.len(),
{
    if s.len() > 0 && is_whitespace(s.last()) {
        trimmed_end(s.drop_last())
    } else {
        s
    }
}

/// `s` with every carriage return that a line feed follows taken out, so that
/// each `"\r\n"` has become `"\n"`.
pub open spec fn canonical_breaks(s: Seq<char>) -> Seq<char>
    decreases s.len(),
{
    if s.len() == 0 {
        s
    } else if s.len() >= 2 && s[s.len() - 2] == '\r' && s.last() == '\n' {
        canonical_breaks(s.take(s.len() - 2)).push('\n')
    } else {
        canonical_breaks(s.drop_last()).push(s.last())
    }
}

/// What is put into a document for the text `s` that a command printed: for
/// an inline place the text without the white space at its end, for a line of
/// its own the text as it is.
pub open spec fn formatted(s: Seq<char>, inline: bool) -> Seq<char> {
    if inline {
        trimmed_end(s)
    } else {
        s
    }
}

/// Trimming takes white space from the end and nothing else: what is left is
/// the start of the text, does not end in white space, and all that was
/// taken is white space.
pub proof fn lemma_trimmed_end(s: Seq<char>)
    ensures
        trimmed_end(s).len() <= s.len(),
        trimmed_end(s) == s.take(trimmed_end(s).len() as int),
        trimmed_end(s).len() > 0 ==> !is_whitespace(trimmed_end(s).last()),
        forall|j: int| trimmed_end(s).len() <= j < s.len() ==> is_whitespace(s[j]),
    decreases s.len(),
{
    if s.len() > 0 && is_whitespace(s.last()) {
        let rest = s.drop_last();
        lemma_trimmed_end(rest);
        assert(rest.take(trimmed_end(rest).len() as int) == s.take(trimmed_end(s).len() as int));
        assert forall|j: int| trimmed_end(s).len() <= j < s.len() implies is_whitespace(s[j]) by {
            if j < rest.len() {
                assert(s[j] == rest[j]);
            }
        }
    } else {
        assert(s.take(s.len() as int) == s);
    }
}

/// Making the line breaks canonical keeps the last character of a text, and
/// an empty text empty.
pub proof fn lemma_canonical_last(s: Seq<char>)
    ensures
        canonical_breaks(s).len() <= s.len(),
        s.len() > 0 ==> canonical_breaks(s).len() > 0 && canonical_breaks(s).last() == s.last(),
    decreases s.len(),
{
    if s.len() == 0 {
    } else if s.len() >= 2 && s[s.len() - 2] == '\r' && s.last() == '\n' {
        lemma_canonical_last(s.take(s.len() - 2));
    } else {
        lemma_canonical_last(s.drop_last());
    }
}

/// The text ends with one line break, `"\n"` or `"\r\n"`, before which no
/// line feed stands.
pub open spec fn ends_with_one_break(s: Seq<char>) -> bool {
    let body = if s.len() >= 2 && s[s.len() - 2] == '\r' {
        s.take(s.len() - 2)
    } else {
        s.drop_last()
    };
    &&& s.len() > 0
    &&& s.last() == '\n'
    &&& body.len() > 0 ==> body.last() != '\n'
}

/// Whether `c` is white space.
pub fn char_is_whitespace(c: char) -> (r: bool)
    ensures
        r == is_whitespace(c),
{
    let n: u32 = c as u32;
    (0x09 <= n && n <= 0x0d) || n == 0x20 || n == 0x85 || n == 0xa0 || n == 0x1680 || (0x2000 <= n
        && n <= 0x200a) || n == 0x2028 || n == 0x2029 || n == 0x202f || n == 0x205f || n == 0x3000
}

/// The characters of `s`, in order.
pub fn chars_of(s: &str) -> (r: Vec<char>)
    ensures
        r@ == s@,
{
    let mut r: Vec<char> = Vec::new();
    for c in it: s.chars()
        invariant
            r@ == it.seq().take(it.index() as int),
            it.seq() == s@,
    {
        r.push(c);
    }
    r
}

/// The string made of the characters `v[from..to]`.
pub fn string_of(v: &Vec<char>, from: usize, to: usize) -> (r: String)
    requires
        from <= to <= v.len(),
    ensures
        r@ == v@.subrange(from as int, to as int),
{
    let mut r = String::new();
    let mut i: usize = from;
    while i < to
        invariant
            from <= i <= to <= v.len(),
            r@ == v@.subrange(from as int, i as int),
        decreases to - i,
    {
        r.push(v[i]);
        i += 1;
    }
    r
}

/// The number of bytes that the first `position` characters of `text` take
/// up in UTF-8.
pub open spec fn byte_offset(text: Seq<char>, position: int) -> int {
    encode_utf8(text.take(position)).len() as int
}

/// The bytes that the characters `range` of `text` take up in UTF-8: the
/// range that cuts the same part out of the string.
pub fn byte_range(text: &str, range: &Range<usize>) -> (r: Range<usize>)
    requires
        range.start <= range.end <= text@.len(),
    ensures
        r.start == byte_offset(text@, range.start as int) as usize,
        r.end == byte_offset(text@, range.end as int) as usize,
{
    let before = text.substring_char(0, range.start);
    let through = text.substring_char(0, range.end);
    assert(text@.subrange(0, range.start as int) == text@.take(range.start as int));
    assert(text@.subrange(0, range.end as int) == text@.take(range.end as int));
    before.len()..through.len()
}

/// Appends the characters `v[from..to]` to `out`.
pub fn push_range(out: &mut Vec<char>, v: &Vec<char>, from: usize, to: usize)
    requires
        from <= to <= v.len(),
    ensures
        final(out)@ == old(out)@ + v@.subrange(from as int, to as int),
{
    let mut i: usize = from;
    while i < to
        invariant
            from <= i <= to <= v.len(),
            out@ == old(out)@ + v@.subrange(from as int, i as int),
        decreases to - i,
    {
        out.push(v[i]);
        i += 1;
    }
}

/// The length of `v` without the white space at its end.
pub fn trimmed_len(v: &Vec<char>) -> (n: usize)
    ensures
        n <= v.len(),
        v@.take(n as int) == trimmed_end(v@),
{
    let mut n: usize = v.len();
    assert(v@.take(n as int) == v@);
    while n > 0 && char_is_whitespace(v[n - 1])
        invariant
            n <= v.len(),
            trimmed_end(v@) == trimmed_end(v@.take(n as int)),
        decreases n,
    {
        assert(v@.take(n as int).drop_last() == v@.take(n - 1));
        n -= 1;
    }
    n
}

/// The characters `v[..len]` with each `"\r\n"` turned into `"\n"`.
pub fn canonical_chars(v: &Vec<char>, len: usize) -> (r: Vec<char>)
    requires
        len <= v.len(),
    ensures
        r@ == canonical_breaks(v@.take(len as int)),
{
    let mut r: Vec<char> = Vec::new();
    let mut i: usize = 0;
    while i < len
        invariant
            i <= len <= v.len(),
            r@ == canonical_breaks(v@.take(i as int)),
        decreases len - i,
    {
        let c = v[i];
        proof {
            let next = v@.take(i + 1);
            assert(next.drop_last() == v@.take(i as int));
            if i >= 1 {
                assert(next.take(next.len() - 2) == v@.take(i - 1));
                assert(v@.take(i as int).drop_last() == v@.take(i - 1));
            }
        }
        if c == '\n' && i > 0 && v[i - 1] == '\r' {
            r.pop();
        }
        r.push(c);
        i += 1;
    }
    r
}

/// Prepares the text that a command printed for its place in a document: for
/// an inline place the white space at its end is dropped, for a line of its
/// own the text is kept as it is.
pub fn format_whitespace(str: Cow<'_, str>, inline: bool) -> (r: String)
    ensures
        r@ == formatted(str@, inline),
{
    let v = match &str {
        Cow::Borrowed(s) => chars_of(s),
        Cow::Owned(s) => chars_of(s.as_str()),
    };
    let n = if inline {
        trimmed_len(&v)
    } else {
        v.len()
    };
    assert(v@.take(v.len() as int) == v@);
    string_of(&v, 0, n)
}

/// The parts of `s` between the separators: the empty text has one empty
/// part, a separator starts a new part, and any other character goes to the
/// last part.
pub open spec fn split(s: Seq<char>, separator: char) -> Seq<Seq<char>>
    decreases s.len(),
{
    if s.len() == 0 {
        seq![Seq::empty()]
    } else {
        let parts = split(s.drop_last(), separator);
        if s.last() == separator {
            parts.push(Seq::empty())
        } else {
            parts.drop_last().push(parts.last().push(s.last()))
        }
    }
}

/// A text has at least one part.
pub proof fn lemma_split_len(s: Seq<char>, separator: char)
    ensures
        split(s, separator).len() >= 1,
    decreases s.len(),
{
    if s.len() > 0 {
        lemma_split_len(s.drop_last(), separator);
    }
}

/// The parts of `text[from..to]` between the separators.
pub fn split_range(text: &Vec<char>, from: usize, to: usize, separator: char) -> (r: Vec<String>)
    requires
        from <= to <= text.len(),
    ensures
        r.deep_view() == split(text@.subrange(from as int, to as int), separator),
{
    let mut parts: Vec<String> = Vec::new();
    let mut part = String::new();
    let mut i: usize = from;
    assert(text@.subrange(from as int, from as int) =~= Seq::<char>::empty());
    while i < to
        invariant
            from <= i <= to <= text.len(),
            parts.deep_view().push(part@) == split(
                text@.subrange(from as int, i as int),
                separator,
            ),
        decreases to - i,
    {
        let ghost seen = text@.subrange(from as int, i as int);
        let ghost next = text@.subrange(from as int, i + 1);
        let ghost before = parts.deep_view();
        proof {
            assert(next.drop_last() == seen);
            assert(before.push(part@).drop_last() == before);
        }
        let c = text[i];
        if c == separator {
            parts.push(part);
            part = String::new();
            assert(parts.deep_view() == before.push(split(seen, separator).last()));
        } else {
            part.push(c);
        }
        i += 1;
    }
    let ghost before = parts.deep_view();
    parts.push(part);
    assert(parts.deep_view() == before.push(part@));
    parts
}

/// The words with the separator between each two of them.
pub open spec fn joined(words: Seq<Seq<char>>, separator: Seq<char>) -> Seq<char>
    decreases words.len(),
{
    if words.len() == 0 {
        Seq::empty()
    } else if words.len() == 1 {
        words[0]
    } else {
        joined(words.drop_last(), separator) + separator + words.last()
    }
}

/// Writes the words with the separator between each two of them.
pub fn join(words: &Vec<String>, separator: &str) -> (r: String)
    ensures
        r@ == joined(words.deep_view(), separator@),
{
    let mut r = String::new();
    let mut i: usize = 0;
    assert(words.deep_view().take(0) =~= Seq::<Seq<char>>::empty());
    while i < words.len()
        invariant
            i <= words.len(),
            r@ == joined(words.deep_view().take(i as int), separator@),
        decreases words.len() - i,
    {
        let ghost seen = words.deep_view().take(i as int);
        let ghost next = words.deep_view().take(i + 1);
        proof {
            assert(next.drop_last() == seen);
            assert(next.last() == words[i as int]@);
        }
        if i > 0 {
            r.append(separator);
        }
        r.append(words[i].as_str());
        proof {
            if i == 0 {
                assert(Seq::<char>::empty() + words[i as int]@ == words[i as int]@);
            }
        }
        i += 1;
    }
    assert(words.deep_view().take(words.len() as int) == words.deep_view());
    r
}

/// The parts of a text, put together again with the separator between
/// them, are the text, and no part holds the separator.
pub proof fn lemma_split_joined(s: Seq<char>, separator: char)
    ensures
        joined(split(s, separator), seq![separator]) == s,
        forall|i: int, j: int|
            0 <= i < split(s, separator).len() && 0 <= j < split(s, separator)[i].len() ==> split(
                s,
                separator,
            )[i][j] != separator,
    decreases s.len(),
{
    if s.len() > 0 {
        let start = s.drop_last();
        let parts = split(start, separator);
        lemma_split_joined(start, separator);
        lemma_split_len(start, separator);
        if s.last() == separator {
            let all = parts.push(Seq::empty());
            assert(all.drop_last() == parts);
            assert(joined(all, seq![separator]) == start + seq![separator] + Seq::<char>::empty());
            assert(start + seq![separator] + Seq::<char>::empty() == s);
        } else {
            let last = parts.last().push(s.last());
            let all = parts.drop_last().push(last);
            if parts.len() == 1 {
                assert(parts.last() == start);
                assert(last == s);
            } else {
                assert(all.drop_last() == parts.drop_last());
                let head = joined(parts.drop_last(), seq![separator]);
                assert(start == head + seq![separator] + parts.last());
                assert(s == start.push(s.last()));
                assert(head + seq![separator] + last =~= (head + seq![separator]
                    + parts.last()).push(s.last()));
            }
        }
    }
}

} // verus!
